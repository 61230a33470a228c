//! Compression and decompression with the context mixing model.

use vstd::prelude::*;
use crate::binary::{law_le_bytes, le_bytes, le_number, number_of, push_le};
use crate::reader::UnexpectedEof;
use crate::zpaq::coder::{
    be_bytes, narrowed, refilled, shift_high, shift_low, top_known,
};
use crate::zpaq::decoder::{Decoder, DecoderState};
use crate::zpaq::encoder::{Encoder, EncoderState};
use crate::zpaq::m5::{configure_m5, hcomp_of, m5_components};
use crate::zpaq::predictor::{Predictor, PredictorState};
use crate::zpaq::roundtrip::{
    follower, in_interval, law_byte_roundtrip, lemma_filled, lemma_flushed, lemma_written_chain,
    written,
};

verus! {

/// The predictor that compression and decompression begin with.
pub open spec fn initial_predictor() -> PredictorState {
    PredictorState {
        m: Seq::new(65536, |i: int| 0u8),
        h: Seq::new(512, |i: int| 0u32),
        components: m5_components(0),
        c8: 1,
        hmap4: 1,
        predictions: Seq::new(23, |i: int| 0i32),
    }
}

/// The encoder after the first `n` bytes of `data`, with the context hashes of each of them.
#[verifier::opaque]
pub open spec fn coded(e: EncoderState, data: Seq<u8>, n: int) -> EncoderState
    decreases n,
{
    if n <= 0 {
        e
    } else {
        let after = coded(e, data, n - 1).encoded_byte(data[n - 1]);
        EncoderState {
            predictor: hcomp_of(after.predictor, data[n - 1], ((n - 1) % 65536) as usize),
            ..after
        }
    }
}

/// The compressed form of `data`, with a predictor: the low 32 bits of its length, and its code.
pub open spec fn compressed_with(predictor: PredictorState, data: Seq<u8>) -> Seq<u8> {
    let size = (data.len() % 0x1_0000_0000) as u32;
    let start = EncoderState::start(le_bytes(size), predictor);
    coded(start, data, data.len() as int).flushed()
}

/// The compressed form of `data`.
pub open spec fn compressed(data: Seq<u8>) -> Seq<u8> {
    compressed_with(initial_predictor(), data)
}

/// The decoder after up to `n` bytes, the bytes, and whether there were so many.
#[verifier::opaque]
pub open spec fn uncoded(d: DecoderState, n: int) -> (DecoderState, Seq<u8>, bool)
    decreases n,
{
    if n <= 0 {
        (d, Seq::empty(), true)
    } else {
        let (before, text, ok) = uncoded(d, n - 1);
        if !ok {
            (before, text, false)
        } else {
            match before.decoded_byte() {
                (after, Some(byte)) => (
                    DecoderState {
                        predictor: hcomp_of(after.predictor, byte, ((n - 1) % 65536) as usize),
                        ..after
                    },
                    text.push(byte),
                    true,
                ),
                (after, None) => (after, text, false),
            }
        }
    }
}

/// What `data` is the compressed form of, with a predictor, or `None` where it ends too early.
/// Where it ends within the code, what came before counts, unless that is nothing.
pub open spec fn decompressed_with(predictor: PredictorState, data: Seq<u8>) -> Option<Seq<u8>> {
    if data.len() < 4 {
        None
    } else {
        let size = le_number(data[0], data[1], data[2], data[3]);
        let (start, filled) = DecoderState::start(data.skip(4), predictor).filled(4);
        let (_, text, complete) = uncoded(start, size);
        if filled && (complete || text.len() > 0) {
            Some(text)
        } else {
            None
        }
    }
}

/// What `data` is the compressed form of, or `None` where it ends too early.
pub open spec fn decompressed(data: Seq<u8>) -> Option<Seq<u8>> {
    decompressed_with(initial_predictor(), data)
}

fn m5_predictor(size: usize) -> (r: Predictor)
    ensures
        r@ == initial_predictor(),
        r@.wf(),
{
    let mut predictor: Predictor = Predictor::new(23, 512, 65536);
    configure_m5(&mut predictor, size);
    proof {
        assert(Seq::<crate::zpaq::component_state::ComponentState>::empty() + m5_components(0)
            =~= m5_components(0));
    }
    predictor
}

/// Compresses data.
pub fn compress_m5(data: &[u8]) -> (r: Vec<u8>)
    ensures
        r@ == compressed(data@),
{
    let predictor: Predictor = m5_predictor(data.len());
    let mut output: Vec<u8> = Vec::new();
    let size: u32 = (data.len() as u64 % 0x1_0000_0000) as u32;
    push_le(&mut output, size);
    assert(output@ =~= le_bytes(size));
    let mut encoder: Encoder = Encoder::new(output, predictor);
    let ghost start = encoder@;
    assert(start == coded(start, data@, 0)) by {
        reveal(coded);
    }

    // The context hashes of a byte are computed once it is encoded.
    let mut i: usize = 0;
    while i < data.len()
        invariant
            i <= data.len(),
            encoder@ == coded(start, data@, i as int),
            encoder@.wf(),
            encoder@.predictor.m.len() == 65536,
            encoder@.predictor.h.len() == 512,
        decreases data.len() - i,
    {
        let byte: u8 = data[i];
        encoder.encode_byte(byte);
        encoder.hcomp(byte, i % 65536);
        i = i + 1;
        assert(encoder@ == coded(start, data@, i as int)) by {
            reveal(coded);
        }
    }
    encoder.flush()
}

/// Decompresses data.
pub fn decompress_m5(data: &[u8]) -> (r: Result<Vec<u8>, UnexpectedEof>)
    ensures
        match r {
            Ok(text) => decompressed(data@) == Some(text@),
            Err(_) => decompressed(data@) is None,
        },
{
    if data.len() < 4 {
        return Err(UnexpectedEof);
    }
    let expected_size: u32 = number_of(data[0], data[1], data[2], data[3]);
    let predictor: Predictor = m5_predictor(expected_size as usize);
    let compressed_data: &[u8] = vstd::slice::slice_subrange(data, 4, data.len());
    assert(compressed_data@ =~= data@.skip(4));
    let mut decoder: Decoder = Decoder::new(compressed_data, predictor);
    decoder.fill_curr()?;
    let ghost start = decoder@;
    let mut output: Vec<u8> = Vec::new();
    let mut i: u32 = 0;
    assert((start, output@, true) == uncoded(start, 0)) by {
        reveal(uncoded);
    }
    while i < expected_size
        invariant
            i <= expected_size,
            output@.len() == i,
            (decoder@, output@, true) == uncoded(start, i as int),
            decoder@.wf(),
            decoder@.predictor.m.len() == 65536,
            decoder@.predictor.h.len() == 512,
            data@.len() >= 4,
            expected_size == le_number(data@[0], data@[1], data@[2], data@[3]),
            (start, true) == DecoderState::start(data@.skip(4), initial_predictor()).filled(4),
        decreases expected_size - i,
    {
        match decoder.decode_byte() {
            Ok(byte) => {
                output.push(byte);
                decoder.hcomp(byte, i as usize % 65536);
            },
            Err(e) => {
                proof {
                    assert(uncoded(start, i + 1) == (decoder@, output@, false)) by {
                        reveal(uncoded);
                    }
                    lemma_uncoded_short(start, i + 1, expected_size as int);
                }
                if output.len() > 0 {
                    // The input ended: this is what there is.
                    return Ok(output);
                }
                return Err(e);
            },
        }
        i = i + 1;
        assert((decoder@, output@, true) == uncoded(start, i as int)) by {
            reveal(uncoded);
        }
    }
    Ok(output)
}

/// Where the input ends within a text, nothing more is decoded.
proof fn lemma_uncoded_short(d: DecoderState, n: int, m: int)
    requires
        0 <= n <= m,
        !uncoded(d, n).2,
    ensures
        uncoded(d, m).1 == uncoded(d, n).1,
        !uncoded(d, m).2,
    decreases m - n,
{
    if n < m {
        lemma_uncoded_short(d, n, m - 1);
        reveal(uncoded);
    }
}

/// Where the code of a text lies in the interval at its end, a decoder that follows the encoder
/// reads the text.
proof fn lemma_text_roundtrip(e: EncoderState, data: Seq<u8>, n: int, code: Seq<u8>)
    requires
        e.has_room(),
        0 <= n <= data.len(),
        in_interval(coded(e, data, n), code),
    ensures
        coded(e, data, n).out == e.out + written(e, coded(e, data, n)),
        in_interval(e, written(e, coded(e, data, n)) + code),
        uncoded(follower(e, written(e, coded(e, data, n)) + code), n) == (
            follower(coded(e, data, n), code),
            data.take(n),
            true,
        ),
    decreases n,
{
    reveal(coded);
    reveal(uncoded);
    let last = coded(e, data, n);
    if n == 0 {
        assert(written(e, e) =~= Seq::empty());
        assert(Seq::<u8>::empty() + code =~= code);
        assert(e.out =~= e.out + Seq::empty());
        assert(data.take(0) =~= Seq::empty());
    } else {
        let mid = coded(e, data, n - 1);
        let byte = data[n - 1];
        let after = mid.encoded_byte(byte);
        lemma_coded_room(e, data, n - 1);
        law_byte_roundtrip(mid, byte, code);
        let code1 = written(mid, after) + code;
        lemma_text_roundtrip(e, data, n - 1, code1);
        lemma_written_chain(e, mid, after);
        assert(written(e, last) =~= written(e, after));
        assert(written(e, mid) + code1 =~= written(e, last) + code);
        assert(data.take(n - 1).push(byte) =~= data.take(n));
    }
}

/// The interval keeps room for the next bit.
proof fn lemma_coded_room(e: EncoderState, data: Seq<u8>, n: int)
    requires
        e.has_room(),
    ensures
        coded(e, data, n).has_room(),
    decreases n,
{
    reveal(coded);
    if n > 0 {
        lemma_coded_room(e, data, n - 1);
        coded(e, data, n - 1).at_new_byte().lemma_encoded_bits_room(data[n - 1], 8);
    }
}

/// What an encoder writes for a text, a new decoder with the same predictor reads, whatever
/// follows.
proof fn lemma_code_roundtrip(
    out: Seq<u8>,
    predictor: PredictorState,
    data: Seq<u8>,
    tail: Seq<u8>,
) -> (code: Seq<u8>)
    ensures
        coded(EncoderState::start(out, predictor), data, data.len() as int).flushed() == out + code,
        ({
            let (start, filled) = DecoderState::start(code + tail, predictor).filled(4);
            filled && uncoded(start, data.len() as int).1 == data && uncoded(
                start,
                data.len() as int,
            ).2
        }),
{
    let start = EncoderState::start(out, predictor);
    let n = data.len() as int;
    let last = coded(start, data, n);
    lemma_coded_room(start, data, n);
    lemma_flushed(last, tail);
    let rest = be_bytes(last.high) + tail;
    lemma_text_roundtrip(start, data, n, rest);
    let code = written(start, last) + be_bytes(last.high);
    assert(last.flushed() =~= out + code);
    assert(code + tail =~= written(start, last) + rest);
    let d = DecoderState::start(code + tail, predictor);
    lemma_filled(d);
    assert(d.filled(4).0 =~= follower(start, code + tail));
    assert(data.take(n) =~= data);
    code
}

/// Decompression with the same predictor gives back what was compressed, and ignores what follows.
pub proof fn law_coding_roundtrip(predictor: PredictorState, data: Seq<u8>, tail: Seq<u8>)
    requires
        data.len() <= u32::MAX,
    ensures
        decompressed_with(predictor, compressed_with(predictor, data) + tail) == Some(data),
{
    let size = (data.len() % 0x1_0000_0000) as u32;
    let header = le_bytes(size);
    let code = lemma_code_roundtrip(header, predictor, data, tail);
    let whole = compressed_with(predictor, data) + tail;
    assert(compressed_with(predictor, data) == header + code);
    assert(whole.skip(4) =~= code + tail);
    assert(whole[0] == header[0] && whole[1] == header[1] && whole[2] == header[2] && whole[3]
        == header[3]);
    law_le_bytes(size);
}

/// The decoder with more input behind that which it has.
spec fn with_more(d: DecoderState, more: Seq<u8>) -> DecoderState {
    DecoderState { input: d.input + more, ..d }
}

proof fn lemma_more_skip(input: Seq<u8>, more: Seq<u8>)
    requires
        input.len() > 0,
    ensures
        (input + more).skip(1) == input.skip(1) + more,
        (input + more)[0] == input[0],
{
    assert((input + more).skip(1) =~= input.skip(1) + more);
}

proof fn lemma_more_refilled(low: u32, high: u32, curr: u32, input: Seq<u8>, more: Seq<u8>)
    ensures
        ({
            let (l, h, c, rest, ok) = refilled(low, high, curr, input);
            ok ==> refilled(low, high, curr, input + more) == (l, h, c, rest + more, true)
        }),
    decreases input.len(),
{
    if top_known(low, high) && input.len() > 0 {
        lemma_more_skip(input, more);
        lemma_more_refilled(
            shift_low(low),
            shift_high(high),
            ((curr as int * 256) % 0x1_0000_0000 + input[0]) as u32,
            input.skip(1),
            more,
        );
    }
}

proof fn lemma_more_bit(d: DecoderState, more: Seq<u8>)
    ensures
        d.decoded_bit().1 is Some ==> with_more(d, more).decoded_bit() == (
            with_more(d.decoded_bit().0, more),
            d.decoded_bit().1,
        ),
{
    let (l, h) = narrowed(
        d.low,
        d.high,
        d.predictor.predicted().probability(),
        d.next_bit(),
    );
    lemma_more_refilled(l, h, d.curr, d.input, more);
}

proof fn lemma_more_bits(d: DecoderState, more: Seq<u8>, n: int)
    ensures
        d.decoded_bits(n).1 is Some ==> with_more(d, more).decoded_bits(n) == (
            with_more(d.decoded_bits(n).0, more),
            d.decoded_bits(n).1,
        ),
    decreases n,
{
    if n > 0 {
        lemma_more_bits(d, more, n - 1);
        lemma_more_bit(d.decoded_bits(n - 1).0, more);
    }
}

proof fn lemma_more_filled(d: DecoderState, more: Seq<u8>, n: int)
    ensures
        d.filled(n).1 ==> with_more(d, more).filled(n) == (with_more(d.filled(n).0, more), true),
    decreases n,
{
    if n > 0 {
        lemma_more_filled(d, more, n - 1);
        if d.filled(n).1 {
            lemma_more_skip(d.filled(n - 1).0.input, more);
        }
    }
}

proof fn lemma_more_byte(d: DecoderState, more: Seq<u8>)
    ensures
        d.decoded_byte().1 is Some ==> with_more(d, more).decoded_byte() == (
            with_more(d.decoded_byte().0, more),
            d.decoded_byte().1,
        ),
{
    lemma_more_filled(d, more, 4);
    let ready = d.filled(4).0.at_new_byte();
    lemma_more_bits(ready, more, 8);
    lemma_more_bits(d.at_new_byte(), more, 8);
    assert(with_more(d, more).at_new_byte() =~= with_more(d.at_new_byte(), more));
    assert(with_more(d.filled(4).0, more).at_new_byte() =~= with_more(ready, more));
}

/// More input behind what suffices changes nothing.
proof fn lemma_more_text(d: DecoderState, more: Seq<u8>, n: int)
    ensures
        uncoded(d, n).2 ==> uncoded(with_more(d, more), n) == (
            with_more(uncoded(d, n).0, more),
            uncoded(d, n).1,
            true,
        ),
    decreases n,
{
    reveal(uncoded);
    if n > 0 {
        lemma_more_text(d, more, n - 1);
        lemma_more_byte(uncoded(d, n - 1).0, more);
    }
}

/// What is decoded of a text is decoded byte by byte.
proof fn lemma_uncoded_prefix(d: DecoderState, n: int)
    requires
        0 <= n,
    ensures
        ({
            let k = uncoded(d, n).1.len() as int;
            &&& k <= n
            &&& uncoded(d, n).2 ==> k == n
            &&& uncoded(d, k).1 == uncoded(d, n).1
            &&& uncoded(d, k).2
        }),
    decreases n,
{
    reveal(uncoded);
    if n > 0 {
        lemma_uncoded_prefix(d, n - 1);
        let k = uncoded(d, n - 1).1.len() as int;
        if uncoded(d, n - 1).2 {
            assert(k == n - 1);
        }
    }
}

proof fn lemma_uncoded_grows(d: DecoderState, k: int, n: int)
    requires
        0 <= k <= n,
    ensures
        uncoded(d, k).1.is_prefix_of(uncoded(d, n).1),
    decreases n - k,
{
    reveal(uncoded);
    let part = uncoded(d, k).1;
    if k == n {
        assert(part =~= part.subrange(0, part.len() as int));
    } else {
        lemma_uncoded_grows(d, k, n - 1);
        let before = uncoded(d, n - 1).1;
        let after = uncoded(d, n).1;
        assert(part =~= before.subrange(0, part.len() as int));
        assert forall|i: int| 0 <= i < part.len() implies part[i] == after[i] by {
            assert(before.subrange(0, part.len() as int)[i] == before[i]);
        }
        assert(part =~= after.subrange(0, part.len() as int));
    }
}

/// How many bytes some data say that they are the compressed form of.
pub open spec fn stated_size(data: Seq<u8>) -> int {
    le_number(data[0], data[1], data[2], data[3])
}

/// Data of less than eight bytes cannot be decompressed. What is decompressed has at most as many
/// bytes as the data say, and at least one where they say so. Where data can be decompressed after
/// they were cut short, so they can be before, and the result begins with that of the cut.
pub proof fn law_cut(predictor: PredictorState, data: Seq<u8>, len: int)
    requires
        0 <= len <= data.len(),
    ensures
        len < 8 ==> decompressed_with(predictor, data.take(len)) is None,
        match decompressed_with(predictor, data.take(len)) {
            Some(text) => {
                &&& text.len() <= stated_size(data)
                &&& stated_size(data) > 0 ==> text.len() >= 1
                &&& decompressed_with(predictor, data) matches Some(whole)
                &&& text.is_prefix_of(whole)
            },
            None => true,
        },
{
    let cut = data.take(len);
    if len >= 4 {
        let size = stated_size(data);
        let more = data.skip(len);
        let d = DecoderState::start(cut.skip(4), predictor);
        assert(cut.skip(4) + more =~= data.skip(4));
        assert(with_more(d, more) =~= DecoderState::start(data.skip(4), predictor));
        lemma_fills(d, 4);
        lemma_more_filled(d, more, 4);
        if d.filled(4).1 {
            let start = d.filled(4).0;
            lemma_uncoded_prefix(start, size);
            let k = uncoded(start, size).1.len() as int;
            lemma_more_text(start, more, k);
            lemma_uncoded_prefix(with_more(start, more), size);
            lemma_uncoded_grows(with_more(start, more), k, size);
        }
    }
}

/// Where the compressed form of a text is cut short, what is decompressed is the beginning of the
/// text.
pub proof fn law_cut_short(predictor: PredictorState, data: Seq<u8>, len: int)
    requires
        data.len() <= u32::MAX,
        0 <= len <= compressed_with(predictor, data).len(),
    ensures
        match decompressed_with(predictor, compressed_with(predictor, data).take(len)) {
            Some(text) => text.is_prefix_of(data),
            None => true,
        },
{
    let whole = compressed_with(predictor, data);
    law_coding_roundtrip(predictor, data, Seq::empty());
    assert(whole + Seq::<u8>::empty() =~= whole);
    law_cut(predictor, whole, len);
}

/// Decompression gives back what was compressed.
pub proof fn law_compress_roundtrip(data: Seq<u8>)
    requires
        data.len() <= u32::MAX,
    ensures
        decompressed(compressed(data)) == Some(data),
{
    law_trailing_bytes(data, Seq::empty());
    assert(compressed(data) + Seq::<u8>::empty() =~= compressed(data));
}

/// Bytes behind the compressed form of a text are ignored.
pub proof fn law_trailing_bytes(data: Seq<u8>, tail: Seq<u8>)
    requires
        data.len() <= u32::MAX,
    ensures
        decompressed(compressed(data) + tail) == Some(data),
{
    law_coding_roundtrip(initial_predictor(), data, tail);
}

/// Different texts have different compressed forms, and none of them begins another.
pub proof fn law_compress_injective(a: Seq<u8>, b: Seq<u8>)
    requires
        a.len() <= u32::MAX,
        b.len() <= u32::MAX,
        compressed(a).is_prefix_of(compressed(b)),
    ensures
        a == b,
{
    let (x, y) = (compressed(a), compressed(b));
    let rest = y.skip(x.len() as int);
    assert(y =~= x + rest);
    law_trailing_bytes(a, rest);
    law_compress_roundtrip(b);
}

/// The code is read just where there are enough bytes.
proof fn lemma_fills(d: DecoderState, n: int)
    requires
        0 <= n,
    ensures
        d.filled(n).1 <==> d.input.len() >= n,
        d.filled(n).1 ==> d.filled(n).0.input.len() == d.input.len() - n,
    decreases n,
{
    if n > 0 {
        lemma_fills(d, n - 1);
    }
}

/// The compressed form of a text begins with its length, low byte first, and has four bytes or more
/// behind it.
pub proof fn law_compressed_size(data: Seq<u8>)
    requires
        data.len() <= u32::MAX,
    ensures
        ({
            let c = compressed(data);
            &&& c.len() >= 8
            &&& c[0] + c[1] * 0x100 + c[2] * 0x1_0000 + c[3] * 0x100_0000 == data.len()
        }),
{
    let size = data.len() as u32;
    let header = le_bytes(size);
    law_le_bytes(size);
    let code = lemma_code_roundtrip(header, initial_predictor(), data, Seq::empty());
    assert(compressed(data) == header + code);
    lemma_fills(DecoderState::start(code + Seq::<u8>::empty(), initial_predictor()), 4);
    assert(code + Seq::<u8>::empty() =~= code);
}

/// Compression begins with the network of the model, no text, no contexts and no bit known, and
/// with all 32-bit numbers but zero.
pub proof fn law_compression_start(out: Seq<u8>)
    ensures
        ({
            let p = initial_predictor();
            let e = EncoderState::start(out, p);
            let d = DecoderState::start(out, p);
            &&& p.components == m5_components(0)
            &&& p.predictions.len() == 23
            &&& p.m.len() == 65536
            &&& p.h.len() == 512
            &&& forall|k: int| 0 <= k < 65536 ==> #[trigger] p.m[k] == 0
            &&& forall|k: int| 0 <= k < 512 ==> #[trigger] p.h[k] == 0
            &&& forall|k: int| 0 <= k < 23 ==> #[trigger] p.predictions[k] == 0
            &&& p.c8 == 1
            &&& p.hmap4 == 1
            &&& e.out == out
            &&& e.low == 1
            &&& e.high == 0xffff_ffff
            &&& e.predictor == p
            &&& d.input == out
            &&& d.low == 1
            &&& d.high == 0xffff_ffff
            &&& d.curr == 0
            &&& d.predictor == p
        }),
{
}

} // verus!
