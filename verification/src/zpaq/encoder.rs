//! The arithmetic encoder.

use vstd::prelude::*;
use crate::zpaq::coder::{
    be_bytes, law_normalized, lemma_normalized, lemma_shift, lemma_split_point, narrowed,
    normalized, shift_high, shift_low, split_point, top_known,
};
use crate::zpaq::component_state::bit_of;
use crate::zpaq::m5::{hcomp_m5, hcomp_of};
use crate::zpaq::predictor::{Predictor, PredictorState};

verus! {

/// Encodes bits to an interval of 32-bit numbers, and writes the top bytes as they become known.
pub struct Encoder {
    writer: Vec<u8>,
    low: u32,
    high: u32,
    predictor: Predictor,
}

/// The mathematical model of an `Encoder`.
#[verifier::ext_equal]
pub ghost struct EncoderState {
    /// The bytes that have been written.
    pub out: Seq<u8>,
    /// The lower bound of the interval.
    pub low: u32,
    /// The upper bound of the interval.
    pub high: u32,
    /// The predictor of the next bit.
    pub predictor: PredictorState,
}

impl EncoderState {
    /// The predictor is well formed, and the interval has room for two bits.
    pub open spec fn wf(self) -> bool {
        &&& self.predictor.wf()
        &&& self.has_room()
    }

    /// The interval has more than one number, and does not contain zero.
    pub open spec fn has_room(self) -> bool {
        1 <= self.low < self.high
    }

    /// The predictor has the text and the context hashes of `other`.
    pub open spec fn same_contexts(self, other: EncoderState) -> bool {
        self.predictor.m == other.predictor.m && self.predictor.h == other.predictor.h
    }

    /// A new encoder that appends to `out`.
    pub open spec fn start(out: Seq<u8>, predictor: PredictorState) -> EncoderState {
        EncoderState { out, low: 1, high: 0xffff_ffff, predictor }
    }

    /// The interval that stands for the bit `y`, before the known top bytes are written.
    pub open spec fn chosen(self, y: u8) -> (u32, u32) {
        narrowed(self.low, self.high, self.predictor.predicted().probability(), y)
    }

    /// The encoder after the bit `y`.
    pub open spec fn encoded_bit(self, y: u8) -> EncoderState {
        let (bytes, low, high) = normalized(self.chosen(y).0, self.chosen(y).1);
        EncoderState {
            out: self.out + bytes,
            low,
            high,
            predictor: self.predictor.predicted().updated(y),
        }
    }

    /// The encoder after the first `n` bits of `byte`, top bit first.
    pub open spec fn encoded_bits(self, byte: u8, n: int) -> EncoderState
        decreases n,
    {
        if n <= 0 {
            self
        } else {
            self.encoded_bits(byte, n - 1).encoded_bit(bit_of(byte, n - 1))
        }
    }

    /// The encoder at the first bit of a byte.
    pub open spec fn at_new_byte(self) -> EncoderState {
        EncoderState { predictor: self.predictor.at_new_byte(), ..self }
    }

    /// The encoder after the bits of `byte`.
    pub open spec fn encoded_byte(self, byte: u8) -> EncoderState {
        self.at_new_byte().encoded_bits(byte, 8)
    }

    /// All bytes of the code: those that have been written, and the upper bound of the interval.
    pub open spec fn flushed(self) -> Seq<u8> {
        self.out + be_bytes(self.high)
    }

    /// The part of the interval that stands for a bit is not empty.
    pub proof fn lemma_chosen(self, y: u8)
        requires
            self.has_room(),
        ensures
            self.low <= self.chosen(y).0 <= self.chosen(y).1 <= self.high,
            self.encoded_bit(y).has_room(),
    {
        let p = self.predictor.predicted().probability();
        self.predictor.predicted().lemma_probability_range();
        lemma_split_point(self.low, self.high, p);
        lemma_normalized(self.chosen(y).0, self.chosen(y).1);
    }

    /// A bit narrows the interval to one of two parts, neither of which is empty. What was written
    /// stays, and at most four bytes are added. The top bytes of the new bounds differ, and the
    /// lower one is not zero.
    pub proof fn law_encoded_bit(self, y: u8)
        requires
            self.has_room(),
            y <= 1,
        ensures
            ({
                let mid = split_point(
                    self.low,
                    self.high,
                    self.predictor.predicted().probability(),
                );
                let after = self.encoded_bit(y);
                &&& self.low <= mid < self.high
                &&& y == 1 ==> self.chosen(y) == (self.low, mid)
                &&& y == 0 ==> self.chosen(y) == ((mid + 1) as u32, self.high)
                &&& 1 <= after.low < after.high
                &&& after.low / 0x100_0000 != after.high / 0x100_0000
                &&& self.out.is_prefix_of(after.out)
                &&& after.out.len() <= self.out.len() + 4
            }),
    {
        self.predictor.predicted().lemma_probability_range();
        lemma_split_point(self.low, self.high, self.predictor.predicted().probability());
        self.lemma_chosen(y);
        law_normalized(self.chosen(y).0, self.chosen(y).1);
        let after = self.encoded_bit(y);
        assert(self.out =~= after.out.subrange(0, self.out.len() as int));
    }

    /// To encode a byte is to begin a new byte and to encode its bits, top bit first.
    pub proof fn law_byte_is_bits(self, byte: u8)
        ensures
            self.encoded_byte(byte) == self.at_new_byte().encoded_bit(bit_of(byte, 0)).encoded_bit(
                bit_of(byte, 1),
            ).encoded_bit(bit_of(byte, 2)).encoded_bit(bit_of(byte, 3)).encoded_bit(
                bit_of(byte, 4),
            ).encoded_bit(bit_of(byte, 5)).encoded_bit(bit_of(byte, 6)).encoded_bit(
                bit_of(byte, 7),
            ),
    {
        reveal_with_fuel(EncoderState::encoded_bits, 9);
    }

    /// The interval keeps room for the next bit.
    pub proof fn lemma_encoded_bits_room(self, byte: u8, n: int)
        requires
            self.has_room(),
        ensures
            self.encoded_bits(byte, n).has_room(),
        decreases n,
    {
        if n > 0 {
            self.lemma_encoded_bits_room(byte, n - 1);
            self.encoded_bits(byte, n - 1).lemma_chosen(bit_of(byte, n - 1));
        }
    }
}

/// Bits are zero or one.
pub proof fn lemma_bit_of(byte: u8, k: int)
    ensures
        bit_of(byte, k) <= 1,
{
    let x = byte >> ((7 - k) as u8);
    assert(x & 1 <= 1) by (bit_vector);
}

impl View for Encoder {
    type V = EncoderState;

    closed spec fn view(&self) -> EncoderState {
        EncoderState {
            out: self.writer@,
            low: self.low,
            high: self.high,
            predictor: self.predictor@,
        }
    }
}

impl Encoder {
    /// Creates an encoder that appends to `writer`.
    pub fn new(writer: Vec<u8>, predictor: Predictor) -> (r: Self)
        ensures
            r@ == EncoderState::start(writer@, predictor@),
            predictor@.wf() ==> r@.wf(),
    {
        Encoder { writer, low: 1, high: 0xffff_ffff, predictor }
    }

    /// Encodes a single bit.
    pub fn encode_bit(&mut self, y: u8)
        requires
            old(self)@.wf(),
            y <= 1,
        ensures
            final(self)@ == old(self)@.encoded_bit(y),
            final(self)@.wf(),
            final(self)@.same_contexts(old(self)@),
    {
        let ghost before = self@;
        proof {
            before.lemma_chosen(y);
            before.predictor.lemma_ready();
        }
        let p: u32 = (self.predictor.predict() * 2 + 1) as u32;
        proof {
            lemma_split_point(self.low, self.high, before.predictor.predicted().probability());
            assert((self.high - self.low) * p == (self.high - self.low) as u64 * p as u64);
        }
        let range: u64 = (self.high - self.low) as u64 * p as u64;
        assert(range >> 16 == range / 65536) by (bit_vector);
        let mid: u32 = self.low + (range >> 16) as u32;
        if y != 0 {
            self.high = mid;
        } else {
            self.low = mid + 1;
        }
        let ghost chosen = before.chosen(y);
        assert(self.low == chosen.0 && self.high == chosen.1);

        // Write the top bytes that are known.
        while (self.low ^ self.high) >> 24 == 0
            invariant
                before.wf(),
                1 <= self.low <= self.high,
                self.predictor@ == before.predictor.predicted(),
                self.predictor@.wf(),
                ({
                    let (bytes, low, high) = normalized(self.low, self.high);
                    before.out + normalized(chosen.0, chosen.1).0 == self.writer@ + bytes && low
                        == normalized(chosen.0, chosen.1).1 && high == normalized(
                        chosen.0,
                        chosen.1,
                    ).2
                }),
            decreases 0x1_0000_0000 - (self.high - self.low),
        {
            proof {
                lemma_top_known(self.low, self.high);
                lemma_shift(self.low, self.high);
                lemma_shifts_up(self.low);
                lemma_shifts_up(self.high);
            }
            let ghost written = self.writer@;
            let byte: u8 = (self.high >> 24) as u8;
            self.writer.push(byte);
            proof {
                let rest = normalized(shift_low(self.low), shift_high(self.high)).0;
                assert(written + (seq![byte] + rest) =~= self.writer@ + rest);
            }
            self.low = self.low << 8;
            if self.low == 0 {
                self.low = 1;
            }
            self.high = (self.high << 8) | 0xff;
        }
        proof {
            lemma_top_known(self.low, self.high);
            assert(self.writer@ + Seq::<u8>::empty() =~= self.writer@);
        }
        self.predictor.update(y);
        proof {
            before.predictor.lemma_step_contexts(y);
        }
        assert(self@ =~= before.encoded_bit(y));
    }

    /// Encodes a single byte, top bit first.
    pub fn encode_byte(&mut self, byte: u8)
        requires
            old(self)@.wf(),
        ensures
            final(self)@ == old(self)@.encoded_byte(byte),
            final(self)@.wf(),
            final(self)@.same_contexts(old(self)@),
    {
        self.predictor.new_byte();
        let ghost start = self@;
        assert(start =~= old(self)@.at_new_byte());
        let mut i: u8 = 0;
        while i < 8
            invariant
                i <= 8,
                self@ == start.encoded_bits(byte, i as int),
                self@.wf(),
                self@.same_contexts(start),
            decreases 8 - i,
        {
            proof {
                lemma_bit_of(byte, i as int);
            }
            let bit: u8 = (byte >> (7 - i)) & 1;
            self.encode_bit(bit);
            i = i + 1;
        }
    }

    /// Computes the context hashes after `byte`, the byte number `ptr` of the text.
    pub(crate) fn hcomp(&mut self, byte: u8, ptr: usize)
        requires
            old(self)@.predictor.m.len() > 0,
            old(self)@.predictor.h.len() >= 22,
        ensures
            final(self)@ == (EncoderState {
                predictor: hcomp_of(old(self)@.predictor, byte, ptr),
                ..old(self)@
            }),
            old(self)@.wf() ==> final(self)@.wf(),
            final(self)@.predictor.m.len() == old(self)@.predictor.m.len(),
            final(self)@.predictor.h.len() == old(self)@.predictor.h.len(),
    {
        hcomp_m5(&mut self.predictor, byte, ptr);
    }

    /// Writes the rest of the code and returns all of it.
    pub fn flush(self) -> (r: Vec<u8>)
        ensures
            r@ == self@.flushed(),
    {
        let mut writer: Vec<u8> = self.writer;
        let high: u32 = self.high;
        proof {
            lemma_high_bytes(high);
        }
        writer.push((high >> 24) as u8);
        writer.push((high >> 16) as u8);
        writer.push((high >> 8) as u8);
        writer.push(high as u8);
        assert(writer@ =~= self@.flushed());
        writer
    }
}

/// The top bytes of two numbers are equal where no bit of them differs.
pub proof fn lemma_top_known(low: u32, high: u32)
    ensures
        (low ^ high) >> 24 == 0 <==> top_known(low, high),
{
    assert((low ^ high) >> 24 == 0 <==> low / 0x100_0000 == high / 0x100_0000) by (bit_vector);
}

/// Shifts of a byte multiply.
pub proof fn lemma_shifts_up(x: u32)
    ensures
        x << 8 == (x * 256) % 0x1_0000_0000,
        (x << 8) | 0xff == (x * 256) % 0x1_0000_0000 + 255,
        x >> 24 == x / 0x100_0000,
        x >> 24 <= 255,
{
    assert(x << 8 == (x * 256) % 0x1_0000_0000 && (x << 8) | 0xff == (x * 256) % 0x1_0000_0000
        + 255 && x >> 24 == x / 0x100_0000 && x >> 24 <= 255) by (bit_vector);
}

proof fn lemma_high_bytes(x: u32)
    ensures
        seq![(x >> 24) as u8, (x >> 16) as u8, (x >> 8) as u8, x as u8] == be_bytes(x),
{
    assert((x >> 24) as u8 == (x / 0x100_0000) as u8 && (x >> 16) as u8 == (x / 0x1_0000
        % 256) as u8 && (x >> 8) as u8 == (x / 0x100 % 256) as u8 && x as u8 == (x % 256) as u8)
        by (bit_vector);
}

} // verus!
