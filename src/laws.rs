//! Facts about the wire format that hold for every input.
use crate::errors::DecodeErrorKind;
use crate::wire::{
    decimal, decoded, digit_byte, encoding, is_digit, lemma_run_error_persists, record, run, step,
    DecoderState, Machine, SENTINEL,
};
use vstd::prelude::*;
use vstd::utf8::*;

verus! {

broadcast use group_utf8_lib;

/// Reading one more byte is one more step of the automaton.
proof fn lemma_run_push(a: Seq<u8>, x: u8)
    ensures
        run(a.push(x)) == match run(a) {
            Ok(m) => step(m, x),
            Err(e) => Err(e),
        },
{
    assert(a.push(x).drop_last() =~= a);
}

/// A machine at rest between records, with `out` decoded so far.
pub open spec fn at_boundary(out: Seq<Seq<char>>) -> Machine {
    Machine { state: DecoderState::SeekingSentinel, len: 0, buf: seq![], out }
}

/// Reading the decimal digits of `n` accumulates `n` in the length.
proof fn lemma_run_decimal(a: Seq<u8>, out: Seq<Seq<char>>, n: nat)
    requires
        n <= usize::MAX,
        run(a) == Ok::<Machine, DecodeErrorKind>(
            Machine { state: DecoderState::ReadingLength, len: 0, buf: seq![], out },
        ),
    ensures
        run(a + decimal(n)) == Ok::<Machine, DecodeErrorKind>(
            Machine { state: DecoderState::ReadingLength, len: n, buf: seq![], out },
        ),
    decreases n,
{
    if n < 10 {
        assert(a + decimal(n) =~= a.push(digit_byte(n)));
        lemma_run_push(a, digit_byte(n));
    } else {
        lemma_run_decimal(a, out, n / 10);
        assert(a + decimal(n) =~= (a + decimal(n / 10)).push(digit_byte(n % 10)));
        lemma_run_push(a + decimal(n / 10), digit_byte(n % 10));
        assert((n / 10) * 10 + n % 10 == n) by (nonlinear_arith);
    }
}

/// Reading the first `k` content bytes of a record fills the buffer with them.
proof fn lemma_run_content(a: Seq<u8>, out: Seq<Seq<char>>, c: Seq<u8>, k: nat)
    requires
        0 < k < c.len() <= usize::MAX,
        run(a) == Ok::<Machine, DecodeErrorKind>(
            Machine { state: DecoderState::ReadingString, len: c.len(), buf: seq![], out },
        ),
    ensures
        run(a + c.take(k as int)) == Ok::<Machine, DecodeErrorKind>(
            Machine { state: DecoderState::ReadingString, len: c.len(), buf: c.take(k as int), out },
        ),
    decreases k,
{
    if k == 1 {
        assert(a + c.take(1) =~= a.push(c[0]));
        lemma_run_push(a, c[0]);
        assert(seq![].push(c[0]) =~= c.take(1));
    } else {
        lemma_run_content(a, out, c, (k - 1) as nat);
        assert(a + c.take(k as int) =~= (a + c.take(k - 1)).push(c[k - 1]));
        lemma_run_push(a + c.take(k - 1), c[k - 1]);
        assert(c.take(k - 1).push(c[k - 1]) =~= c.take(k as int));
    }
}

/// From a record boundary, one record of UTF-8 content is read as one more text.
proof fn lemma_run_record(a: Seq<u8>, out: Seq<Seq<char>>, c: Seq<u8>)
    requires
        c.len() <= usize::MAX,
        valid_utf8(c),
        run(a) == Ok::<Machine, DecodeErrorKind>(at_boundary(out)),
    ensures
        run(a + record(c)) == Ok::<Machine, DecodeErrorKind>(
            at_boundary(out.push(decode_utf8(c))),
        ),
{
    let a1 = a.push(SENTINEL);
    lemma_run_push(a, SENTINEL);
    lemma_run_decimal(a1, out, c.len());
    let a2 = a1 + decimal(c.len());
    let a3 = a2.push(SENTINEL);
    lemma_run_push(a2, SENTINEL);
    if c.len() == 0 {
        assert(c =~= Seq::<u8>::empty());
        assert(a + record(c) =~= a3);
        assert(decode_utf8(c) =~= Seq::<char>::empty());
    } else {
        let l = c.len() as int;
        if l > 1 {
            lemma_run_content(a3, out, c, (l - 1) as nat);
        } else {
            assert(a3 + c.take(0) =~= a3);
            assert(c.take(0) =~= Seq::<u8>::empty());
        }
        assert(a + record(c) =~= (a3 + c.take(l - 1)).push(c[l - 1]));
        lemma_run_push(a3 + c.take(l - 1), c[l - 1]);
        assert(c.take(l - 1).push(c[l - 1]) =~= c);
    }
}

/// Decoding an encoded stream gives back exactly the texts that were encoded,
/// for every sequence of texts whose UTF-8 lengths fit in `usize`.
pub proof fn lemma_round_trip(items: Seq<Seq<char>>)
    requires
        forall|i: int| 0 <= i < items.len() ==> encode_utf8(#[trigger] items[i]).len() <= usize::MAX,
    ensures
        decoded(encoding(items)) == Ok::<Seq<Seq<char>>, DecodeErrorKind>(items),
{
    lemma_run_encoding(items);
}

/// The automaton ends every encoded stream at rest, holding the encoded texts.
proof fn lemma_run_encoding(items: Seq<Seq<char>>)
    requires
        forall|i: int| 0 <= i < items.len() ==> encode_utf8(#[trigger] items[i]).len() <= usize::MAX,
    ensures
        run(encoding(items)) == Ok::<Machine, DecodeErrorKind>(at_boundary(items)),
    decreases items.len(),
{
    if items.len() == 0 {
        assert(encoding(items) =~= Seq::<u8>::empty());
        assert(items =~= Seq::<Seq<char>>::empty());
    } else {
        let init = items.drop_last();
        assert forall|i: int| 0 <= i < init.len() implies encode_utf8(#[trigger] init[i]).len()
            <= usize::MAX by {
            assert(init[i] == items[i]);
        }
        lemma_run_encoding(init);
        let last = items.last();
        assert(encode_utf8(items[items.len() - 1]).len() <= usize::MAX);
        lemma_run_record(encoding(init), init, encode_utf8(last));
        assert(init.push(last) =~= items);
    }
}

/// Any non-empty input whose first byte is not the sentinel is rejected with
/// `SentinelNotFound`.
pub proof fn lemma_sentinel_first(bytes: Seq<u8>)
    requires
        bytes.len() > 0,
        bytes[0] != SENTINEL,
    ensures
        decoded(bytes) == Err::<Seq<Seq<char>>, DecodeErrorKind>(DecodeErrorKind::SentinelNotFound),
{
    assert(bytes.take(1) =~= seq![].push(bytes[0]));
    lemma_run_push(seq![], bytes[0]);
    lemma_run_error_persists(bytes, 1);
}

/// An input that opens a length marker right after a valid stream and ends
/// inside it, with only digits after the sentinel, is rejected with
/// `LengthMarkerCorrupt`.
pub proof fn lemma_truncated_marker(items: Seq<Seq<char>>, digits: Seq<u8>)
    requires
        forall|i: int| 0 <= i < items.len() ==> encode_utf8(#[trigger] items[i]).len() <= usize::MAX,
        forall|i: int| 0 <= i < digits.len() ==> is_digit(#[trigger] digits[i]),
    ensures
        decoded(encoding(items) + seq![SENTINEL] + digits) == Err::<Seq<Seq<char>>, DecodeErrorKind>(
            DecodeErrorKind::LengthMarkerCorrupt,
        ),
{
    lemma_run_encoding(items);
    let a = encoding(items).push(SENTINEL);
    lemma_run_push(encoding(items), SENTINEL);
    assert(encoding(items) + seq![SENTINEL] =~= a);
    lemma_run_digits(a, items, digits);
}

/// Reading digits inside a length marker either stays in the marker or stops
/// with `LengthMarkerCorrupt`.
proof fn lemma_run_digits(a: Seq<u8>, out: Seq<Seq<char>>, digits: Seq<u8>)
    requires
        run(a) matches Ok(m) && m.state == DecoderState::ReadingLength,
        forall|i: int| 0 <= i < digits.len() ==> is_digit(#[trigger] digits[i]),
    ensures
        match run(a + digits) {
            Ok(m) => m.state == DecoderState::ReadingLength,
            Err(e) => e == DecodeErrorKind::LengthMarkerCorrupt,
        },
    decreases digits.len(),
{
    if digits.len() == 0 {
        assert(a + digits =~= a);
    } else {
        let init = digits.drop_last();
        assert forall|i: int| 0 <= i < init.len() implies is_digit(#[trigger] init[i]) by {
            assert(init[i] == digits[i]);
        }
        lemma_run_digits(a, out, init);
        assert(a + digits =~= (a + init).push(digits.last()));
        lemma_run_push(a + init, digits.last());
        assert(is_digit(digits[digits.len() - 1]));
    }
}

/// A length marker whose first byte is neither a digit nor the sentinel is
/// rejected with `NonDigitInLengthMarker`, whatever follows it.
pub proof fn lemma_non_digit_marker(b: u8, rest: Seq<u8>)
    requires
        b != SENTINEL,
        !is_digit(b),
    ensures
        decoded(seq![SENTINEL, b] + rest) == Err::<Seq<Seq<char>>, DecodeErrorKind>(
            DecodeErrorKind::NonDigitInLengthMarker,
        ),
{
    let bytes = seq![SENTINEL, b] + rest;
    assert(bytes.take(1) =~= seq![].push(SENTINEL));
    assert(bytes.take(2) =~= bytes.take(1).push(b));
    lemma_run_push(seq![], SENTINEL);
    lemma_run_push(bytes.take(1), b);
    lemma_run_error_persists(bytes, 2);
}

/// The content buffer never grows past the declared length: a record is
/// closed on the byte that completes it, so no input is rejected with
/// `LengthOverflow`, and bytes past a record's content are read as the next
/// record boundary.
pub proof fn lemma_no_length_overflow(bytes: Seq<u8>)
    ensures
        run(bytes) != Err::<Machine, DecodeErrorKind>(DecodeErrorKind::LengthOverflow),
        run(bytes) matches Ok(m) ==> (m.state == DecoderState::ReadingString ==> m.buf.len()
            < m.len) && (m.state != DecoderState::ReadingString ==> m.buf.len() == 0),
    decreases bytes.len(),
{
    if bytes.len() > 0 {
        lemma_no_length_overflow(bytes.drop_last());
    }
}

} // verus!
