use vstd::prelude::*;
use vstd::string::StringExecFns;

verus! {

/// The std error that `str::from_utf8` reports for bytes that are not UTF-8.
#[verifier::external_type_specification]
#[verifier::external_body]
pub struct ExUtf8Error(core::str::Utf8Error);

/// Why an encoded string could not be decoded.
#[derive(Debug)]
pub enum DecodeError {
    /// The sentinel byte was missing at a record boundary.
    SentinelNotFound(),
    /// The length marker ended with the input, or its value overflowed.
    LengthMarkerCorrupt(),
    /// More content bytes arrived than the length marker declared. `decode`
    /// closes each record on the byte that completes it, so it never reports
    /// this error; it stays so that callers can match on it.
    LengthOverflow(),
    /// A byte inside the length marker was not an ASCII digit.
    NonDigitInLengthMarker(),
    /// The input ended before a record's declared content was complete.
    Truncated(),
    /// A record's content bytes were not valid UTF-8.
    Utf8(core::str::Utf8Error),
}

/// The variant of a [`DecodeError`], without the data it carries.
#[derive(Debug, Clone, Copy, PartialEq, Eq, Structural)]
pub enum DecodeErrorKind {
    SentinelNotFound,
    LengthMarkerCorrupt,
    LengthOverflow,
    NonDigitInLengthMarker,
    Truncated,
    Utf8,
}

impl DecodeError {
    /// The variant of this error.
    pub open spec fn spec_kind(&self) -> DecodeErrorKind {
        match self {
            DecodeError::SentinelNotFound() => DecodeErrorKind::SentinelNotFound,
            DecodeError::LengthMarkerCorrupt() => DecodeErrorKind::LengthMarkerCorrupt,
            DecodeError::LengthOverflow() => DecodeErrorKind::LengthOverflow,
            DecodeError::NonDigitInLengthMarker() => DecodeErrorKind::NonDigitInLengthMarker,
            DecodeError::Truncated() => DecodeErrorKind::Truncated,
            DecodeError::Utf8(_) => DecodeErrorKind::Utf8,
        }
    }

    /// The variant of this error.
    pub fn kind(&self) -> (r: DecodeErrorKind)
        ensures
            r == self.spec_kind(),
    {
        match self {
            DecodeError::SentinelNotFound() => DecodeErrorKind::SentinelNotFound,
            DecodeError::LengthMarkerCorrupt() => DecodeErrorKind::LengthMarkerCorrupt,
            DecodeError::LengthOverflow() => DecodeErrorKind::LengthOverflow,
            DecodeError::NonDigitInLengthMarker() => DecodeErrorKind::NonDigitInLengthMarker,
            DecodeError::Truncated() => DecodeErrorKind::Truncated,
            DecodeError::Utf8(_) => DecodeErrorKind::Utf8,
        }
    }

    /// A sentence that describes this error; for `Utf8`, followed by the
    /// underlying text-decoding error.
    pub fn message(&self) -> (r: String)
        ensures
            self.spec_kind() != DecodeErrorKind::Utf8 ==> r@ == match self.spec_kind() {
                DecodeErrorKind::SentinelNotFound => "Sentinel character not found when expected"@,
                DecodeErrorKind::LengthMarkerCorrupt => "Length marker was corrupt, parsing error"@,
                DecodeErrorKind::LengthOverflow => "Actual UTF-8 string overflowed expected length"@,
                DecodeErrorKind::NonDigitInLengthMarker => "Encountered a non-ASCII digit in length marker"@,
                _ => "String payload cut off before expected length"@,
            },
            self.spec_kind() == DecodeErrorKind::Utf8 ==> "UTF-8 Parsing error: "@.is_prefix_of(r@),
    {
        match self {
            DecodeError::SentinelNotFound() => "Sentinel character not found when expected".to_owned(),
            DecodeError::LengthMarkerCorrupt() => "Length marker was corrupt, parsing error".to_owned(),
            DecodeError::LengthOverflow() => "Actual UTF-8 string overflowed expected length".to_owned(),
            DecodeError::NonDigitInLengthMarker() => "Encountered a non-ASCII digit in length marker".to_owned(),
            DecodeError::Truncated() => "String payload cut off before expected length".to_owned(),
            DecodeError::Utf8(e) => {
                let detail = utf8_error_text(e);
                let r = "UTF-8 Parsing error: ".to_owned().concat(detail.as_str());
                proof {
                    assert("UTF-8 Parsing error: "@ =~= r@.subrange(0, "UTF-8 Parsing error: "@.len() as int));
                }
                r
            },
        }
    }
}

impl From<core::str::Utf8Error> for DecodeError {
    fn from(e: core::str::Utf8Error) -> (r: DecodeError) {
        DecodeError::Utf8(e)
    }
}

impl vstd::std_specs::convert::FromSpecImpl<core::str::Utf8Error> for DecodeError {
    open spec fn obeys_from_spec() -> bool {
        true
    }

    open spec fn from_spec(e: core::str::Utf8Error) -> DecodeError {
        DecodeError::Utf8(e)
    }
}

/// Relies on `Utf8Error`'s `Display`: the text std gives for this error.
#[verifier::external_body]
fn utf8_error_text(e: &core::str::Utf8Error) -> String {
    e.to_string()
}

} // verus!
