//! The arithmetic decoder.

use vstd::prelude::*;
use crate::reader::{ByteReader, UnexpectedEof};
use crate::zpaq::coder::{lemma_shift, lemma_split_point, narrowed, refilled, split_point};
use crate::zpaq::encoder::{lemma_shifts_up, lemma_top_known};
use crate::zpaq::m5::{hcomp_m5, hcomp_of};
use crate::zpaq::predictor::{Predictor, PredictorState};

verus! {

/// Decodes the bits that an encoder wrote, with the same predictor.
pub struct Decoder<'a> {
    reader: ByteReader<'a>,
    low: u32,
    high: u32,
    curr: u32,
    predictor: Predictor,
}

/// The mathematical model of a `Decoder`.
#[verifier::ext_equal]
pub ghost struct DecoderState {
    /// The bytes that have not been read.
    pub input: Seq<u8>,
    /// The lower bound of the interval.
    pub low: u32,
    /// The upper bound of the interval.
    pub high: u32,
    /// The code: the number in the interval that the bytes of the input lead to.
    pub curr: u32,
    /// The predictor of the next bit.
    pub predictor: PredictorState,
}

impl DecoderState {
    /// The predictor is well formed, and the interval has room for two bits.
    pub open spec fn wf(self) -> bool {
        &&& self.predictor.wf()
        &&& 1 <= self.low < self.high
    }

    /// The predictor has the text and the context hashes of `other`.
    pub open spec fn same_contexts(self, other: DecoderState) -> bool {
        self.predictor.m == other.predictor.m && self.predictor.h == other.predictor.h
    }

    /// A new decoder, which has not read its code.
    pub open spec fn start(input: Seq<u8>, predictor: PredictorState) -> DecoderState {
        DecoderState { input, low: 1, high: 0xffff_ffff, curr: 0, predictor }
    }

    /// The decoder after `n` bytes were read into the code, and whether there were so many.
    pub open spec fn filled(self, n: int) -> (DecoderState, bool)
        decreases n,
    {
        if n <= 0 {
            (self, true)
        } else {
            let (before, ok) = self.filled(n - 1);
            if !ok || before.input.len() == 0 {
                (before, false)
            } else {
                (
                    DecoderState {
                        input: before.input.skip(1),
                        curr: ((before.curr as int * 256) % 0x1_0000_0000 + before.input[0]) as u32,
                        ..before
                    },
                    true,
                )
            }
        }
    }

    /// The bit that the code stands for: a one where it is not above the split point.
    pub open spec fn next_bit(self) -> u8 {
        if self.curr <= split_point(
            self.low,
            self.high,
            self.predictor.predicted().probability(),
        ) {
            1
        } else {
            0
        }
    }

    /// The decoder after one bit, and the bit unless the input ended.
    pub open spec fn decoded_bit(self) -> (DecoderState, Option<u8>) {
        let y = self.next_bit();
        let predictor = self.predictor.predicted();
        let (l, h) = narrowed(self.low, self.high, predictor.probability(), y);
        let (low, high, curr, input, ok) = refilled(l, h, self.curr, self.input);
        if ok {
            (DecoderState { input, low, high, curr, predictor: predictor.updated(y) }, Some(y))
        } else {
            (DecoderState { input, low, high, curr, predictor }, None)
        }
    }

    /// The decoder after `n` bits, and the number that they are, top bit first, unless the input
    /// ended.
    pub open spec fn decoded_bits(self, n: int) -> (DecoderState, Option<u8>)
        decreases n,
    {
        if n <= 0 {
            (self, Some(0))
        } else {
            match self.decoded_bits(n - 1) {
                (before, Some(bits)) => match before.decoded_bit() {
                    (after, Some(y)) => (after, Some((bits << 1) | y)),
                    (after, None) => (after, None),
                },
                (before, None) => (before, None),
            }
        }
    }

    /// The decoder at the first bit of a byte.
    pub open spec fn at_new_byte(self) -> DecoderState {
        DecoderState { predictor: self.predictor.at_new_byte(), ..self }
    }

    /// The decoder after one byte, and the byte unless the input ended. A code of zero is taken
    /// for one that has not been read.
    pub open spec fn decoded_byte(self) -> (DecoderState, Option<u8>) {
        if self.curr == 0 {
            let (ready, ok) = self.filled(4);
            if ok {
                ready.at_new_byte().decoded_bits(8)
            } else {
                (ready, None)
            }
        } else {
            self.at_new_byte().decoded_bits(8)
        }
    }
}

impl<'a> View for Decoder<'a> {
    type V = DecoderState;

    closed spec fn view(&self) -> DecoderState {
        DecoderState {
            input: self.reader@,
            low: self.low,
            high: self.high,
            curr: self.curr,
            predictor: self.predictor@,
        }
    }
}

/// The outcome `r` of a reading method is `expected`: the state after it, and its value.
pub open spec fn outcome<T>(
    state: DecoderState,
    r: Result<T, UnexpectedEof>,
    expected: (DecoderState, Option<T>),
) -> bool {
    &&& state == expected.0
    &&& match r {
        Ok(value) => expected.1 == Some(value),
        Err(_) => expected.1 is None,
    }
}

impl<'a> Decoder<'a> {
    /// Creates a decoder that reads from `reader`.
    pub fn new(reader: &'a [u8], predictor: Predictor) -> (r: Self)
        ensures
            r@ == DecoderState::start(reader@, predictor@),
            predictor@.wf() ==> r@.wf(),
    {
        Decoder {
            reader: ByteReader::new(reader),
            low: 1,
            high: 0xffff_ffff,
            curr: 0,
            predictor,
        }
    }

    /// Reads the next four bytes into the code.
    pub fn fill_curr(&mut self) -> (r: Result<(), UnexpectedEof>)
        ensures
            final(self)@ == old(self)@.filled(4).0,
            r is Ok <==> old(self)@.filled(4).1,
            old(self)@.wf() ==> final(self)@.wf(),
            final(self)@.same_contexts(old(self)@),
    {
        let ghost before = self@;
        let mut i: u8 = 0;
        while i < 4
            invariant
                i <= 4,
                before == old(self)@,
                (self@, true) == before.filled(i as int),
                before.wf() ==> self@.wf(),
                self@.same_contexts(before),
            decreases 4 - i,
        {
            match self.read_byte() {
                Ok(byte) => {
                    proof {
                        lemma_append_byte(self.curr, byte);
                    }
                    self.curr = (self.curr << 8) | byte as u32;
                },
                Err(e) => {
                    proof {
                        before.lemma_filled_short(i + 1, 4);
                    }
                    return Err(e);
                },
            }
            i = i + 1;
            assert(self@ =~= before.filled(i as int).0);
        }
        Ok(())
    }

    /// Reads a single byte from the input.
    pub fn read_byte(&mut self) -> (r: Result<u8, UnexpectedEof>)
        ensures
            match r {
                Ok(byte) => {
                    &&& old(self)@.input.len() > 0
                    &&& byte == old(self)@.input[0]
                    &&& final(self)@ == (DecoderState {
                        input: old(self)@.input.skip(1),
                        ..old(self)@
                    })
                },
                Err(_) => old(self)@.input.len() == 0 && final(self)@ == old(self)@,
            },
    {
        self.reader.read_byte()
    }

    /// Decodes a single bit.
    pub fn decode_bit(&mut self) -> (r: Result<u8, UnexpectedEof>)
        requires
            old(self)@.wf(),
        ensures
            outcome(final(self)@, r, old(self)@.decoded_bit()),
            final(self)@.wf(),
            final(self)@.same_contexts(old(self)@),
    {
        let ghost before = self@;
        let ghost probability = before.predictor.predicted().probability();
        let ghost bit = before.next_bit();
        proof {
            before.predictor.lemma_ready();
        }
        let p: u32 = (self.predictor.predict() * 2 + 1) as u32;
        proof {
            lemma_split_point(self.low, self.high, probability);
            assert((self.high - self.low) * p == (self.high - self.low) as u64 * p as u64);
        }
        let range: u64 = (self.high - self.low) as u64 * p as u64;
        assert(range >> 16 == range / 65536) by (bit_vector);
        let mid: u32 = self.low + (range >> 16) as u32;
        let y: u8 = if self.curr <= mid {
            self.high = mid;
            1
        } else {
            self.low = mid + 1;
            0
        };
        assert(y == bit);

        // Replace the top bytes that are known.
        while (self.low ^ self.high) >> 24 == 0
            invariant
                before == old(self)@,
                before.wf(),
                y <= 1,
                y == before.next_bit(),
                1 <= self.low <= self.high,
                self.predictor@ == before.predictor.predicted(),
                self.predictor@.wf(),
                ({
                    let (l, h) = narrowed(
                        before.low,
                        before.high,
                        before.predictor.predicted().probability(),
                        y,
                    );
                    refilled(self.low, self.high, self.curr, self.reader@) == refilled(
                        l,
                        h,
                        before.curr,
                        before.input,
                    )
                }),
            decreases 0x1_0000_0000 - (self.high - self.low),
        {
            proof {
                lemma_top_known(self.low, self.high);
                lemma_shift(self.low, self.high);
                lemma_shifts_up(self.low);
                lemma_shifts_up(self.high);
            }
            self.low = self.low << 8;
            if self.low == 0 {
                self.low = 1;
            }
            self.high = (self.high << 8) | 0xff;
            let byte: u8 = match self.read_byte() {
                Ok(byte) => byte,
                Err(e) => {
                    assert(self@ =~= before.decoded_bit().0);
                    proof {
                        before.predictor.lemma_predicted_upto_wf(
                            before.predictor.components.len() as int,
                        );
                    }
                    return Err(e);
                },
            };
            proof {
                lemma_append_byte(self.curr, byte);
            }
            self.curr = (self.curr << 8) | byte as u32;
        }
        proof {
            lemma_top_known(self.low, self.high);
        }
        self.predictor.update(y);
        proof {
            before.predictor.lemma_step_contexts(y);
        }
        assert(self@ =~= before.decoded_bit().0);
        Ok(y)
    }

    /// Computes the context hashes after `byte`, the byte number `ptr` of the text.
    pub(crate) fn hcomp(&mut self, byte: u8, ptr: usize)
        requires
            old(self)@.predictor.m.len() > 0,
            old(self)@.predictor.h.len() >= 22,
        ensures
            final(self)@ == (DecoderState {
                predictor: hcomp_of(old(self)@.predictor, byte, ptr),
                ..old(self)@
            }),
            old(self)@.wf() ==> final(self)@.wf(),
            final(self)@.predictor.m.len() == old(self)@.predictor.m.len(),
            final(self)@.predictor.h.len() == old(self)@.predictor.h.len(),
    {
        hcomp_m5(&mut self.predictor, byte, ptr);
    }

    /// Decodes a single byte, top bit first.
    pub fn decode_byte(&mut self) -> (r: Result<u8, UnexpectedEof>)
        requires
            old(self)@.wf(),
        ensures
            outcome(final(self)@, r, old(self)@.decoded_byte()),
            final(self)@.wf(),
            final(self)@.same_contexts(old(self)@),
    {
        if self.curr == 0 {
            match self.fill_curr() {
                Ok(()) => {},
                Err(e) => {
                    return Err(e);
                },
            }
        }
        let ghost ready = self@;
        self.predictor.new_byte();
        let ghost start = self@;
        assert(start =~= ready.at_new_byte());
        let mut byte: u8 = 0;
        let mut i: u8 = 0;
        while i < 8
            invariant
                i <= 8,
                (self@, Some(byte)) == start.decoded_bits(i as int),
                self@.wf(),
                self@.same_contexts(old(self)@),
                old(self)@.decoded_byte() == start.decoded_bits(8),
            decreases 8 - i,
        {
            match self.decode_bit() {
                Ok(y) => {
                    byte = (byte << 1) | y;
                },
                Err(e) => {
                    proof {
                        start.lemma_decoded_bits_short(i + 1, 8);
                    }
                    return Err(e);
                },
            }
            i = i + 1;
        }
        Ok(byte)
    }
}

impl DecoderState {
    /// Where the input ends while the code is read, nothing more is read.
    proof fn lemma_filled_short(self, n: int, m: int)
        requires
            0 <= n <= m,
            !self.filled(n).1,
        ensures
            self.filled(m) == self.filled(n),
        decreases m - n,
    {
        if n < m {
            self.lemma_filled_short(n, m - 1);
        }
    }

    /// Where the input ends within a number, nothing more is decoded.
    proof fn lemma_decoded_bits_short(self, n: int, m: int)
        requires
            0 <= n <= m,
            self.decoded_bits(n).1 is None,
        ensures
            self.decoded_bits(m) == self.decoded_bits(n),
        decreases m - n,
    {
        if n < m {
            self.lemma_decoded_bits_short(n, m - 1);
        }
    }
}

/// A byte below a number that was shifted up.
proof fn lemma_append_byte(x: u32, byte: u8)
    ensures
        (x << 8) | byte as u32 == (x * 256) % 0x1_0000_0000 + byte,
{
    assert((x << 8) | byte as u32 == (x * 256) % 0x1_0000_0000 + byte) by (bit_vector);
}

} // verus!
