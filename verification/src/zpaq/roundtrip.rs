//! What the encoder writes, the decoder reads back.

use vstd::prelude::*;
use crate::zpaq::coder::{
    be_bytes, lemma_be_bytes, lemma_refilled, lemma_split_point, normalized, window,
};
use crate::zpaq::component_state::bit_of;
use crate::zpaq::decoder::DecoderState;
use crate::zpaq::encoder::{lemma_bit_of, EncoderState};
use crate::zpaq::predictor::PredictorState;

verus! {

/// The bytes that an encoder wrote between two of its states.
pub open spec fn written(before: EncoderState, after: EncoderState) -> Seq<u8> {
    after.out.skip(before.out.len() as int)
}

/// The code lies in the interval of the encoder.
pub open spec fn in_interval(e: EncoderState, code: Seq<u8>) -> bool {
    code.len() >= 4 && e.low <= window(code) <= e.high
}

/// The decoder that has read the beginning of `code`, all that the encoder has still to write.
pub open spec fn follower(e: EncoderState, code: Seq<u8>) -> DecoderState {
    DecoderState {
        input: code.skip(4),
        low: e.low,
        high: e.high,
        curr: window(code) as u32,
        predictor: e.predictor,
    }
}

/// A decoder reads back a bit.
pub proof fn law_bit_roundtrip(e: EncoderState, y: u8, code: Seq<u8>)
    requires
        e.has_room(),
        y <= 1,
        in_interval(e.encoded_bit(y), code),
    ensures
        e.encoded_bit(y).out == e.out + written(e, e.encoded_bit(y)),
        in_interval(e, written(e, e.encoded_bit(y)) + code),
        follower(e, written(e, e.encoded_bit(y)) + code).decoded_bit() == (
            follower(e.encoded_bit(y), code),
            Some(y),
        ),
{
    let after = e.encoded_bit(y);
    let (low, high) = e.chosen(y);
    e.lemma_chosen(y);
    e.predictor.predicted().lemma_probability_range();
    lemma_split_point(e.low, e.high, e.predictor.predicted().probability());
    lemma_refilled(low, high, code);
    let bytes = normalized(low, high).0;
    assert(written(e, after) =~= bytes);
    assert(after.out =~= e.out + bytes);
    let whole = bytes + code;
    let d = follower(e, whole);
    assert(d.next_bit() == y);
    assert(d.decoded_bit().0 =~= follower(after, code));
}

/// The first `n` bits of a byte.
spec fn top_bits(byte: u8, n: int) -> u8 {
    if n <= 0 {
        0
    } else {
        byte >> ((8 - n) as u8)
    }
}

proof fn lemma_top_bits(byte: u8, n: int)
    requires
        1 <= n <= 8,
    ensures
        top_bits(byte, n) == (top_bits(byte, n - 1) << 1) | bit_of(byte, n - 1),
        top_bits(byte, 8) == byte,
{
    let k = (8 - n) as u8;
    let k1 = (9 - n) as u8;
    assert(byte >> 0 == byte) by (bit_vector);
    assert((0u8 << 1) | ((byte >> 7) & 1) == byte >> 7) by (bit_vector);
    assert(k < 7 && k1 == k + 1 ==> ((byte >> k1) << 1) | ((byte >> k) & 1) == byte >> k)
        by (bit_vector);
}

/// A decoder reads back the first bits of a byte.
proof fn lemma_bits_roundtrip(e: EncoderState, byte: u8, n: int, code: Seq<u8>)
    requires
        e.has_room(),
        0 <= n <= 8,
        in_interval(e.encoded_bits(byte, n), code),
    ensures
        e.encoded_bits(byte, n).out == e.out + written(e, e.encoded_bits(byte, n)),
        in_interval(e, written(e, e.encoded_bits(byte, n)) + code),
        follower(e, written(e, e.encoded_bits(byte, n)) + code).decoded_bits(n) == (
            follower(e.encoded_bits(byte, n), code),
            Some(top_bits(byte, n)),
        ),
    decreases n,
{
    let after = e.encoded_bits(byte, n);
    if n == 0 {
        assert(written(e, e) =~= Seq::empty());
        assert(Seq::<u8>::empty() + code =~= code);
        assert(e.out =~= e.out + Seq::empty());
    } else {
        let mid = e.encoded_bits(byte, n - 1);
        let y = bit_of(byte, n - 1);
        lemma_bit_of(byte, n - 1);
        e.lemma_encoded_bits_room(byte, n - 1);
        law_bit_roundtrip(mid, y, code);
        let code1 = written(mid, after) + code;
        lemma_bits_roundtrip(e, byte, n - 1, code1);
        lemma_top_bits(byte, n);
        lemma_written_chain(e, mid, after);
        assert(written(e, mid) + code1 =~= written(e, after) + code);
    }
}

/// What was written in two steps is what each of them wrote.
pub proof fn lemma_written_chain(e: EncoderState, mid: EncoderState, after: EncoderState)
    requires
        mid.out == e.out + written(e, mid),
        after.out == mid.out + written(mid, after),
    ensures
        written(e, after) == written(e, mid) + written(mid, after),
        after.out == e.out + written(e, after),
{
    assert(written(e, after) =~= written(e, mid) + written(mid, after));
    assert(after.out =~= e.out + written(e, after));
}

/// A decoder reads back a byte.
pub proof fn law_byte_roundtrip(e: EncoderState, byte: u8, code: Seq<u8>)
    requires
        e.has_room(),
        in_interval(e.encoded_byte(byte), code),
    ensures
        e.encoded_byte(byte).has_room(),
        e.encoded_byte(byte).out == e.out + written(e, e.encoded_byte(byte)),
        in_interval(e, written(e, e.encoded_byte(byte)) + code),
        follower(e, written(e, e.encoded_byte(byte)) + code).decoded_byte() == (
            follower(e.encoded_byte(byte), code),
            Some(byte),
        ),
{
    let start = e.at_new_byte();
    start.lemma_encoded_bits_room(byte, 8);
    lemma_bits_roundtrip(start, byte, 8, code);
    lemma_top_bits(byte, 8);
    let whole = written(e, e.encoded_byte(byte)) + code;
    assert(written(start, e.encoded_byte(byte)) =~= written(e, e.encoded_byte(byte)));
    assert(follower(e, whole).at_new_byte() =~= follower(start, whole));
}

/// The upper bound of the interval is a code that lies in it, whatever follows.
pub proof fn lemma_flushed(e: EncoderState, tail: Seq<u8>)
    requires
        e.has_room(),
    ensures
        in_interval(e, be_bytes(e.high) + tail),
{
    let code = be_bytes(e.high) + tail;
    lemma_be_bytes(e.high);
    assert(window(code) == window(be_bytes(e.high)));
}

/// A decoder that reads four bytes has the number that they stand for.
pub proof fn lemma_filled(d: DecoderState)
    requires
        d.input.len() >= 4,
        d.curr == 0,
    ensures
        d.filled(4) == (
            DecoderState { input: d.input.skip(4), curr: window(d.input) as u32, ..d },
            true,
        ),
{
    reveal_with_fuel(DecoderState::filled, 5);
    let i = d.input;
    assert(i.skip(1)[0] == i[1]);
    assert(i.skip(1).skip(1) =~= i.skip(2));
    assert(i.skip(2)[0] == i[2]);
    assert(i.skip(2).skip(1) =~= i.skip(3));
    assert(i.skip(3)[0] == i[3]);
    assert(i.skip(3).skip(1) =~= i.skip(4));
    let d1 = d.filled(1).0;
    assert(d1.curr == i[0]);
    let d2 = d.filled(2).0;
    assert(d2.curr == i[0] * 0x100 + i[1]);
    let d3 = d.filled(3).0;
    assert(d3.curr == i[0] * 0x1_0000 + i[1] * 0x100 + i[2]);
    let d4 = d.filled(4).0;
    assert(d4.curr == window(i));
}

/// The encoder after the first `n` of some bytes.
pub open spec fn encoded_bytes(e: EncoderState, bytes: Seq<u8>, n: int) -> EncoderState
    decreases n,
{
    if n <= 0 {
        e
    } else {
        encoded_bytes(e, bytes, n - 1).encoded_byte(bytes[n - 1])
    }
}

/// The decoder after up to `n` bytes, and the bytes unless the input ended.
pub open spec fn decoded_bytes(d: DecoderState, n: int) -> (DecoderState, Option<Seq<u8>>)
    decreases n,
{
    if n <= 0 {
        (d, Some(Seq::empty()))
    } else {
        match decoded_bytes(d, n - 1) {
            (before, Some(bytes)) => match before.decoded_byte() {
                (after, Some(byte)) => (after, Some(bytes.push(byte))),
                (after, None) => (after, None),
            },
            (before, None) => (before, None),
        }
    }
}

/// The interval keeps room for the next bit.
proof fn lemma_encoded_bytes_room(e: EncoderState, bytes: Seq<u8>, n: int)
    requires
        e.has_room(),
    ensures
        encoded_bytes(e, bytes, n).has_room(),
    decreases n,
{
    if n > 0 {
        lemma_encoded_bytes_room(e, bytes, n - 1);
        encoded_bytes(e, bytes, n - 1).at_new_byte().lemma_encoded_bits_room(bytes[n - 1], 8);
    }
}

/// A decoder that follows the encoder reads back the first bytes.
proof fn lemma_bytes_roundtrip(e: EncoderState, bytes: Seq<u8>, n: int, code: Seq<u8>)
    requires
        e.has_room(),
        0 <= n <= bytes.len(),
        in_interval(encoded_bytes(e, bytes, n), code),
    ensures
        encoded_bytes(e, bytes, n).out == e.out + written(e, encoded_bytes(e, bytes, n)),
        in_interval(e, written(e, encoded_bytes(e, bytes, n)) + code),
        decoded_bytes(follower(e, written(e, encoded_bytes(e, bytes, n)) + code), n) == (
            follower(encoded_bytes(e, bytes, n), code),
            Some(bytes.take(n)),
        ),
    decreases n,
{
    let after = encoded_bytes(e, bytes, n);
    if n == 0 {
        assert(written(e, e) =~= Seq::empty());
        assert(Seq::<u8>::empty() + code =~= code);
        assert(e.out =~= e.out + Seq::empty());
        assert(bytes.take(0) =~= Seq::empty());
    } else {
        let mid = encoded_bytes(e, bytes, n - 1);
        lemma_encoded_bytes_room(e, bytes, n - 1);
        law_byte_roundtrip(mid, bytes[n - 1], code);
        let code1 = written(mid, after) + code;
        lemma_bytes_roundtrip(e, bytes, n - 1, code1);
        lemma_written_chain(e, mid, after);
        assert(written(e, mid) + code1 =~= written(e, after) + code);
        assert(bytes.take(n - 1).push(bytes[n - 1]) =~= bytes.take(n));
    }
}

/// It makes no difference whether a decoder reads the beginning of its code before the first byte
/// or with it.
proof fn lemma_filling_first(d: DecoderState, n: int)
    requires
        d.curr == 0,
        d.filled(4).1,
        d.filled(4).0.curr != 0,
        1 <= n,
    ensures
        decoded_bytes(d.filled(4).0, n) == decoded_bytes(d, n),
    decreases n,
{
    if n > 1 {
        lemma_filling_first(d, n - 1);
    } else {
        let ready = d.filled(4).0;
        assert(decoded_bytes(d, 0) == (d, Some(Seq::<u8>::empty())));
        assert(decoded_bytes(ready, 0) == (ready, Some(Seq::<u8>::empty())));
        assert(ready.decoded_byte() == d.decoded_byte());
    }
}

/// What an encoder writes for some bytes and the rest that it writes at the end, a new decoder with
/// the same predictor reads back, whatever follows. It makes no difference whether the decoder
/// reads the beginning of its code first.
pub proof fn law_bytes_roundtrip(
    out: Seq<u8>,
    predictor: PredictorState,
    bytes: Seq<u8>,
    tail: Seq<u8>,
)
    ensures
        ({
            let n = bytes.len() as int;
            let whole = encoded_bytes(EncoderState::start(out, predictor), bytes, n).flushed();
            let code = whole.skip(out.len() as int);
            let d = DecoderState::start(code + tail, predictor);
            &&& whole == out + code
            &&& d.filled(4).1
            &&& decoded_bytes(d, n).1 == Some(bytes)
            &&& decoded_bytes(d.filled(4).0, n).1 == Some(bytes)
            &&& n > 0 ==> decoded_bytes(d.filled(4).0, n) == decoded_bytes(d, n)
        }),
{
    let n = bytes.len() as int;
    let start = EncoderState::start(out, predictor);
    let last = encoded_bytes(start, bytes, n);
    let rest = be_bytes(last.high) + tail;
    lemma_encoded_bytes_room(start, bytes, n);
    lemma_flushed(last, tail);
    lemma_bytes_roundtrip(start, bytes, n, rest);
    let whole = last.flushed();
    let code = whole.skip(out.len() as int);
    assert(code =~= written(start, last) + be_bytes(last.high));
    assert(whole =~= out + code);
    assert(code + tail =~= written(start, last) + rest);
    let d = DecoderState::start(code + tail, predictor);
    lemma_filled(d);
    assert(d.filled(4).0 =~= follower(start, code + tail));
    assert(bytes.take(n) =~= bytes);
    if n > 0 {
        lemma_filling_first(d, n);
    }
}

/// The code ends with the upper bound of the interval, in four bytes, top byte first. What was
/// written before it stays.
pub proof fn law_flushed(e: EncoderState)
    ensures
        ({
            let code = e.flushed();
            let n = e.out.len() as int;
            &&& code.len() == n + 4
            &&& code.take(n) == e.out
            &&& code[n] * 0x100_0000 + code[n + 1] * 0x1_0000 + code[n + 2] * 0x100 + code[n + 3]
                == e.high
        }),
{
    lemma_be_bytes(e.high);
    assert(e.flushed().take(e.out.len() as int) =~= e.out);
}

} // verus!
