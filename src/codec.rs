//! Encoding a sequence of texts into one stream, and decoding it back.
use crate::errors::{DecodeError, DecodeErrorKind};
use crate::wire::{
    decimal, decoded, digit_byte, encoding, is_digit, lemma_run_error_persists, record, run,
    DecoderState, Machine, SENTINEL,
};
use vstd::prelude::*;
use vstd::string::StringSliceAdditionalSpecFns;
use vstd::utf8::*;

verus! {

broadcast use group_utf8_lib;

/// Relies on `core::str::from_utf8`: it accepts exactly the byte slices that
/// are valid UTF-8, and the text it returns is made of those bytes.
#[verifier::external_body]
fn text_from_bytes(v: &[u8]) -> (r: Result<&str, core::str::Utf8Error>)
    ensures
        match r {
            Ok(s) => valid_utf8(v@) && s.spec_bytes() == v@,
            Err(_) => !valid_utf8(v@),
        },
{
    core::str::from_utf8(v)
}

/// Bytes below 128 always form valid UTF-8.
proof fn lemma_ascii_valid(b: Seq<u8>)
    requires
        forall|i: int| 0 <= i < b.len() ==> b[i] < 128,
    ensures
        valid_utf8(b),
{
    let chars = Seq::new(b.len(), |i: int| b[i] as char);
    assert(is_ascii_chars(chars));
    is_ascii_chars_encode_utf8(chars);
    assert(encode_utf8(chars) =~= b);
}

/// Decimal digits are ASCII.
proof fn lemma_decimal_ascii(n: nat)
    ensures
        forall|i: int| 0 <= i < decimal(n).len() ==> is_digit(#[trigger] decimal(n)[i]),
    decreases n,
{
    if n >= 10 {
        lemma_decimal_ascii(n / 10);
        assert(is_digit(digit_byte(n % 10)));
        assert forall|i: int| 0 <= i < decimal(n).len() implies is_digit(#[trigger] decimal(n)[i]) by {
            if i < decimal(n).len() - 1 {
                assert(decimal(n)[i] == decimal(n / 10)[i]);
            }
        }
    } else {
        assert(is_digit(digit_byte(n)));
    }
}

/// Every record of UTF-8 content is valid UTF-8.
proof fn lemma_record_valid(content: Seq<u8>)
    requires
        valid_utf8(content),
    ensures
        valid_utf8(record(content)),
{
    let d = decimal(content.len());
    lemma_decimal_ascii(content.len());
    lemma_ascii_valid(seq![SENTINEL]);
    lemma_ascii_valid(d);
    valid_utf8_concat(seq![SENTINEL], d);
    valid_utf8_concat(seq![SENTINEL] + d, seq![SENTINEL]);
    valid_utf8_concat(seq![SENTINEL] + d + seq![SENTINEL], content);
}

/// Every encoded stream is valid UTF-8.
proof fn lemma_encoding_valid(items: Seq<Seq<char>>)
    ensures
        valid_utf8(encoding(items)),
    decreases items.len(),
{
    if items.len() == 0 {
        lemma_ascii_valid(encoding(items));
    } else {
        lemma_encoding_valid(items.drop_last());
        lemma_record_valid(encode_utf8(items.last()));
        valid_utf8_concat(encoding(items.drop_last()), record(encode_utf8(items.last())));
    }
}

/// Appends the decimal digits of `n` to `out`.
fn push_decimal(out: &mut Vec<u8>, n: usize)
    ensures
        final(out)@ == old(out)@ + decimal(n as nat),
    decreases n,
{
    if n >= 10 {
        push_decimal(out, n / 10);
    }
    let ghost before = out@;
    out.push(48u8 + (n % 10) as u8);
    proof {
        if n >= 10 {
            assert(before.push(digit_byte((n % 10) as nat)) =~= old(out)@ + decimal(n as nat));
        } else {
            assert(old(out)@.push(digit_byte(n as nat)) =~= old(out)@ + decimal(n as nat));
        }
    }
}

/// Packs `strs` into one string: for each item in order, a sentinel byte, the
/// item's length in bytes as decimal digits, a sentinel byte, and the item.
pub fn encode(strs: Vec<&str>) -> (r: String)
    ensures
        encode_utf8(r@) == encoding(strs@.map_values(|s: &str| s@)),
{
    let ghost texts = strs@.map_values(|s: &str| s@);
    let mut capacity: usize = 0;
    let mut k: usize = 0;
    while k < strs.len()
        invariant
            k <= strs@.len(),
        decreases strs@.len() - k,
    {
        // two sentinels and at most twenty digits around each item
        capacity = capacity.saturating_add(strs[k].len()).saturating_add(22);
        k += 1;
    }
    let mut bytes: Vec<u8> = Vec::with_capacity(capacity);
    let mut i: usize = 0;
    while i < strs.len()
        invariant
            i <= strs.len(),
            texts == strs@.map_values(|s: &str| s@),
            bytes@ == encoding(texts.take(i as int)),
        decreases strs.len() - i,
    {
        let s: &str = strs[i];
        let content = s.as_bytes();
        let ghost start = bytes@;
        bytes.push(SENTINEL);
        push_decimal(&mut bytes, content.len());
        bytes.push(SENTINEL);
        let ghost head = bytes@;
        let mut j: usize = 0;
        while j < content.len()
            invariant
                j <= content@.len(),
                bytes@ == head + content@.take(j as int),
            decreases content@.len() - j,
        {
            bytes.push(content[j]);
            proof {
                assert(head + content@.take(j + 1) =~= (head + content@.take(j as int)).push(content@[j as int]));
            }
            j += 1;
        }
        proof {
            assert(content@.take(j as int) =~= content@);
            assert(texts.take(i + 1).drop_last() =~= texts.take(i as int));
            assert(head =~= start + seq![SENTINEL] + decimal(content@.len()) + seq![SENTINEL]);
            assert(bytes@ =~= start + record(content@));
        }
        i += 1;
    }
    proof {
        assert(texts.take(i as int) =~= texts);
        lemma_encoding_valid(texts);
    }
    match text_from_bytes(bytes.as_slice()) {
        Ok(s) => s.to_owned(),
        Err(_) => {
            proof {
                assert(false);
            }
            String::new()
        },
    }
}

/// What the executing decoder holds, read as the automaton's state.
spec fn machine_of(state: DecoderState, len: usize, buf: Seq<u8>, out: Seq<String>) -> Machine {
    Machine { state, len: len as nat, buf, out: out.map_values(|t: String| t@) }
}

/// Unpacks a string made by [`encode`] into its items, or reports the first
/// place where `in_str` breaks the format. Nothing is returned but the error
/// when decoding fails.
pub fn decode(in_str: &str) -> (r: Result<Vec<String>, DecodeError>)
    ensures
        match r {
            Ok(v) => decoded(in_str.spec_bytes()) == Ok::<Seq<Seq<char>>, DecodeErrorKind>(
                v@.map_values(|t: String| t@),
            ),
            Err(e) => decoded(in_str.spec_bytes()) == Err::<Seq<Seq<char>>, DecodeErrorKind>(
                e.spec_kind(),
            ),
        },
{
    let bytes = in_str.as_bytes();
    let mut out: Vec<String> = Vec::new();
    let mut current: Vec<u8> = Vec::new();
    let mut expected_len: usize = 0;
    let mut state = DecoderState::SeekingSentinel;
    let n = bytes.len();
    let mut i: usize = 0;
    proof {
        assert(out@.map_values(|t: String| t@) =~= Seq::<Seq<char>>::empty());
        assert(bytes@.take(0) =~= Seq::<u8>::empty());
    }
    while i < n
        invariant
            i <= n,
            n == bytes@.len(),
            bytes@ == in_str.spec_bytes(),
            run(bytes@.take(i as int)) == Ok::<Machine, DecodeErrorKind>(
                machine_of(state, expected_len, current@, out@),
            ),
        decreases n - i,
    {
        let b = bytes[i];
        let ghost m = machine_of(state, expected_len, current@, out@);
        proof {
            assert(bytes@.take(i + 1).drop_last() =~= bytes@.take(i as int));
            assert(bytes@.take(i + 1).last() == b);
        }
        match state {
            DecoderState::SeekingSentinel => {
                if b != SENTINEL {
                    proof {
                        lemma_run_error_persists(bytes@, i + 1);
                        assert(bytes@.take(n as int) =~= bytes@);
                    }
                    return Err(DecodeError::SentinelNotFound());
                }
                state = DecoderState::ReadingLength;
            },
            DecoderState::ReadingLength => {
                if b == SENTINEL {
                    if expected_len == 0 {
                        out.push(String::new());
                        proof {
                            assert(out@.map_values(|t: String| t@) =~= m.out.push(seq![]));
                        }
                        state = DecoderState::SeekingSentinel;
                    } else {
                        current.reserve(expected_len);
                        state = DecoderState::ReadingString;
                    }
                } else if b < 48 || b > 57 {
                    proof {
                        lemma_run_error_persists(bytes@, i + 1);
                    }
                    return Err(DecodeError::NonDigitInLengthMarker());
                } else {
                    let d = (b - 48) as usize;
                    match expected_len.checked_mul(10) {
                        None => {
                            proof {
                                lemma_run_error_persists(bytes@, i + 1);
                            }
                            return Err(DecodeError::LengthMarkerCorrupt());
                        },
                        Some(v) => match v.checked_add(d) {
                            None => {
                                proof {
                                    lemma_run_error_persists(bytes@, i + 1);
                                }
                                return Err(DecodeError::LengthMarkerCorrupt());
                            },
                            Some(w) => {
                                expected_len = w;
                            },
                        },
                    }
                }
            },
            DecoderState::ReadingString => {
                current.push(b);
                if current.len() > expected_len {
                    proof {
                        lemma_run_error_persists(bytes@, i + 1);
                    }
                    return Err(DecodeError::LengthOverflow());
                }
                if current.len() == expected_len {
                    match text_from_bytes(current.as_slice()) {
                        Err(e) => {
                            proof {
                                lemma_run_error_persists(bytes@, i + 1);
                            }
                            return Err(DecodeError::Utf8(e));
                        },
                        Ok(s) => {
                            proof {
                                encode_utf8_decode_utf8(s@);
                            }
                            out.push(s.to_owned());
                            proof {
                                assert(out@.map_values(|t: String| t@) =~= m.out.push(
                                    decode_utf8(current@),
                                ));
                            }
                            current.clear();
                            expected_len = 0;
                            state = DecoderState::SeekingSentinel;
                        },
                    }
                }
            },
        }
        i += 1;
    }
    proof {
        assert(bytes@.take(n as int) =~= bytes@);
    }
    match state {
        DecoderState::SeekingSentinel => Ok(out),
        DecoderState::ReadingLength => Err(DecodeError::LengthMarkerCorrupt()),
        DecoderState::ReadingString => Err(DecodeError::Truncated()),
    }
}

} // verus!
