//! The wire format: what an encoded stream is, and how the decoding
//! automaton reads one, stated over bytes.
use crate::errors::DecodeErrorKind;
use vstd::prelude::*;
use vstd::utf8::*;

verus! {

/// The control byte that opens a length marker and closes it.
pub const SENTINEL: u8 = 0;

/// The ASCII code of the decimal digit `d`.
pub open spec fn digit_byte(d: nat) -> u8 {
    (48 + d) as u8
}

/// Whether `b` is an ASCII digit.
pub open spec fn is_digit(b: u8) -> bool {
    48 <= b <= 57
}

/// The decimal digits of `n` in ASCII, without leading zeros (`0` is one digit).
pub open spec fn decimal(n: nat) -> Seq<u8>
    decreases n,
{
    if n < 10 {
        seq![digit_byte(n)]
    } else {
        decimal(n / 10).push(digit_byte(n % 10))
    }
}

/// One record: sentinel, the content's length in decimal, sentinel, the content.
pub open spec fn record(content: Seq<u8>) -> Seq<u8> {
    seq![SENTINEL] + decimal(content.len()) + seq![SENTINEL] + content
}

/// The encoded stream of a sequence of texts: their records in order, each
/// text written as its UTF-8 bytes.
pub open spec fn encoding(items: Seq<Seq<char>>) -> Seq<u8>
    decreases items.len(),
{
    if items.len() == 0 {
        seq![]
    } else {
        encoding(items.drop_last()) + record(encode_utf8(items.last()))
    }
}

/// The phase of the decoding automaton.
#[derive(Clone, Copy, PartialEq, Eq, Structural)]
pub enum DecoderState {
    SeekingSentinel,
    ReadingLength,
    ReadingString,
}

/// Everything the decoding automaton holds between two bytes.
pub struct Machine {
    pub state: DecoderState,
    /// The length accumulated from the current marker.
    pub len: nat,
    /// The content bytes read so far for the current record.
    pub buf: Seq<u8>,
    /// The texts decoded so far.
    pub out: Seq<Seq<char>>,
}

/// The automaton before it has read any byte.
pub open spec fn initial() -> Machine {
    Machine { state: DecoderState::SeekingSentinel, len: 0, buf: seq![], out: seq![] }
}

/// One transition of the automaton on byte `b`, or the error it stops with.
pub open spec fn step(m: Machine, b: u8) -> Result<Machine, DecodeErrorKind> {
    match m.state {
        DecoderState::SeekingSentinel => {
            if b == SENTINEL {
                Ok(Machine { state: DecoderState::ReadingLength, ..m })
            } else {
                Err(DecodeErrorKind::SentinelNotFound)
            }
        },
        DecoderState::ReadingLength => {
            if b == SENTINEL {
                if m.len == 0 {
                    Ok(Machine { state: DecoderState::SeekingSentinel, out: m.out.push(seq![]), ..m })
                } else {
                    Ok(Machine { state: DecoderState::ReadingString, ..m })
                }
            } else if is_digit(b) {
                let len = m.len * 10 + (b - 48);
                if len > usize::MAX {
                    Err(DecodeErrorKind::LengthMarkerCorrupt)
                } else {
                    Ok(Machine { len: len as nat, ..m })
                }
            } else {
                Err(DecodeErrorKind::NonDigitInLengthMarker)
            }
        },
        DecoderState::ReadingString => {
            let buf = m.buf.push(b);
            if buf.len() > m.len {
                Err(DecodeErrorKind::LengthOverflow)
            } else if buf.len() < m.len {
                Ok(Machine { buf, ..m })
            } else if valid_utf8(buf) {
                Ok(
                    Machine {
                        state: DecoderState::SeekingSentinel,
                        len: 0,
                        buf: seq![],
                        out: m.out.push(decode_utf8(buf)),
                    },
                )
            } else {
                Err(DecodeErrorKind::Utf8)
            }
        },
    }
}

/// The automaton after reading `bytes` from the start, or the first error.
pub open spec fn run(bytes: Seq<u8>) -> Result<Machine, DecodeErrorKind>
    decreases bytes.len(),
{
    if bytes.len() == 0 {
        Ok(initial())
    } else {
        match run(bytes.drop_last()) {
            Ok(m) => step(m, bytes.last()),
            Err(e) => Err(e),
        }
    }
}

/// What decoding `bytes` yields: the texts, when the input ends at a record
/// boundary, or the error.
pub open spec fn decoded(bytes: Seq<u8>) -> Result<Seq<Seq<char>>, DecodeErrorKind> {
    match run(bytes) {
        Err(e) => Err(e),
        Ok(m) => match m.state {
            DecoderState::SeekingSentinel => Ok(m.out),
            DecoderState::ReadingLength => Err(DecodeErrorKind::LengthMarkerCorrupt),
            DecoderState::ReadingString => Err(DecodeErrorKind::Truncated),
        },
    }
}

/// Once the automaton has stopped with an error, later bytes do not change it.
pub proof fn lemma_run_error_persists(bytes: Seq<u8>, i: int)
    requires
        0 <= i <= bytes.len(),
        run(bytes.take(i)) is Err,
    ensures
        run(bytes) == run(bytes.take(i)),
    decreases bytes.len() - i,
{
    if i == bytes.len() {
        assert(bytes.take(i) =~= bytes);
    } else {
        assert(bytes.take(i + 1).drop_last() =~= bytes.take(i));
        lemma_run_error_persists(bytes, i + 1);
    }
}

} // verus!
