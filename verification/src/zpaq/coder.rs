//! The interval arithmetic that the encoder and the decoder share.

use vstd::prelude::*;

verus! {

/// The last number of the part of the interval that stands for a one, where the probability of a
/// one is `p` of 32768.
pub open spec fn split_point(low: u32, high: u32, p: int) -> u32 {
    (low + (high - low) * (2 * p + 1) / 65536) as u32
}

/// The part of the interval from `low` to `high` that stands for the bit `y`.
pub open spec fn narrowed(low: u32, high: u32, p: int, y: u8) -> (u32, u32) {
    let mid = split_point(low, high, p);
    if y != 0 {
        (low, mid)
    } else {
        ((mid + 1) as u32, high)
    }
}

/// All numbers of the interval have the same top byte.
pub open spec fn top_known(low: u32, high: u32) -> bool {
    low / 0x100_0000 == high / 0x100_0000
}

/// The lower bound after its top byte was shifted out. A decoder takes zero for a missing code,
/// so zero is left out.
pub open spec fn shift_low(low: u32) -> u32 {
    let shifted = (low as int * 256) % 0x1_0000_0000;
    if shifted == 0 {
        1
    } else {
        shifted as u32
    }
}

/// The upper bound after its top byte was shifted out.
pub open spec fn shift_high(high: u32) -> u32 {
    ((high as int * 256) % 0x1_0000_0000 + 255) as u32
}

/// The top bytes that are known, and the interval after they were shifted out.
pub open spec fn normalized(low: u32, high: u32) -> (Seq<u8>, u32, u32)
    decreases 0x1_0000_0000 - (high - low),
    when low <= high
{
    if !top_known(low, high) {
        (Seq::empty(), low, high)
    } else {
        proof {
            lemma_shift(low, high);
        }
        let (bytes, l, h) = normalized(shift_low(low), shift_high(high));
        (seq![(high / 0x100_0000) as u8] + bytes, l, h)
    }
}

/// The number that four bytes stand for, top byte first.
pub open spec fn window(bytes: Seq<u8>) -> int {
    bytes[0] * 0x100_0000 + bytes[1] * 0x1_0000 + bytes[2] * 0x100 + bytes[3]
}

/// The four bytes of a number, top byte first.
pub open spec fn be_bytes(x: u32) -> Seq<u8> {
    seq![
        (x / 0x100_0000) as u8,
        (x / 0x1_0000 % 256) as u8,
        (x / 0x100 % 256) as u8,
        (x % 256) as u8,
    ]
}

/// The interval and the code after the known top bytes were replaced by bytes of the input, what
/// is left of the input, and whether the input sufficed.
pub open spec fn refilled(low: u32, high: u32, curr: u32, input: Seq<u8>) -> (
    u32,
    u32,
    u32,
    Seq<u8>,
    bool,
)
    decreases input.len(),
{
    if !top_known(low, high) {
        (low, high, curr, input, true)
    } else if input.len() == 0 {
        (shift_low(low), shift_high(high), curr, input, false)
    } else {
        refilled(
            shift_low(low),
            shift_high(high),
            ((curr as int * 256) % 0x1_0000_0000 + input[0]) as u32,
            input.skip(1),
        )
    }
}

/// Shifting out a known top byte widens the interval.
pub proof fn lemma_shift(low: u32, high: u32)
    requires
        low <= high,
        top_known(low, high),
    ensures
        1 <= shift_low(low) <= shift_high(high),
        shift_high(high) - shift_low(low) > high - low,
{
}

/// The split point lies in the interval, and not at its end.
pub proof fn lemma_split_point(low: u32, high: u32, p: int)
    requires
        low < high,
        0 <= p <= 32767,
    ensures
        0 <= (high - low) * (2 * p + 1) <= 0xffff_ffff * 65535,
        low <= low + (high - low) * (2 * p + 1) / 65536 < high,
        low <= split_point(low, high, p) < high,
{
    let d = high - low;
    let q = 2 * p + 1;
    assert(0 <= d * q <= d * 65535) by (nonlinear_arith)
        requires
            0 < d,
            0 < q <= 65535,
    ;
}

/// A normalized interval has more than one number, and does not contain zero.
pub proof fn lemma_normalized(low: u32, high: u32)
    requires
        1 <= low <= high,
    ensures
        1 <= normalized(low, high).1 < normalized(low, high).2,
    decreases 0x1_0000_0000 - (high - low),
{
    if top_known(low, high) {
        lemma_shift(low, high);
        lemma_normalized(shift_low(low), shift_high(high));
    }
}

/// Once the known top bytes are shifted out, the top byte is not known. There were at most four of
/// them, and fewer the wider the interval was.
pub proof fn law_normalized(low: u32, high: u32)
    requires
        low <= high,
    ensures
        !top_known(normalized(low, high).1, normalized(low, high).2),
        normalized(low, high).0.len() <= 4,
        high - low >= 254 ==> normalized(low, high).0.len() <= 3,
        high - low >= 65278 ==> normalized(low, high).0.len() <= 2,
        high - low >= 16711422 ==> normalized(low, high).0.len() <= 1,
    decreases 0x1_0000_0000 - (high - low),
{
    if top_known(low, high) {
        let t = high as int / 0x100_0000;
        assert(high == t * 0x100_0000 + high as int % 0x100_0000);
        assert(low == t * 0x100_0000 + low as int % 0x100_0000);
        assert(shift_high(high) == high as int % 0x100_0000 * 256 + 255);
        assert(shift_low(low) <= low as int % 0x100_0000 * 256 + 1);
        assert(shift_high(high) - shift_low(low) >= 256 * (high - low) + 254);
        lemma_shift(low, high);
        law_normalized(shift_low(low), shift_high(high));
    }
}

/// Four bytes and the number that they stand for determine each other.
pub proof fn lemma_be_bytes(x: u32)
    ensures
        be_bytes(x).len() == 4,
        window(be_bytes(x)) == x,
{
}

/// A code in front of which the known top byte is put lies in the interval before.
proof fn lemma_unshift(low: u32, high: u32, w: int)
    requires
        low <= high,
        top_known(low, high),
        shift_low(low) <= w <= shift_high(high),
    ensures
        low <= high / 0x100_0000 * 0x100_0000 + w / 256 <= high,
        ((high / 0x100_0000 * 0x100_0000 + w / 256) * 256) % 0x1_0000_0000 == w / 256 * 256,
{
    let t = high as int / 0x100_0000;
    let hl = high as int % 0x100_0000;
    let ll = low as int % 0x100_0000;
    assert(high == t * 0x100_0000 + hl);
    assert(low == t * 0x100_0000 + ll);
    assert(shift_high(high) == hl * 256 + 255);
    assert(shift_low(low) == ll * 256 || (ll == 0 && shift_low(low) == 1));
    assert(ll <= w / 256 <= hl);
}

/// The number that the first four bytes of a code stand for, with one byte in front of it.
proof fn lemma_window_prepend(top: u8, code: Seq<u8>)
    requires
        code.len() >= 4,
    ensures
        window(seq![top] + code) == top * 0x100_0000 + window(code) / 256,
        window(code) % 256 == code[3],
        0 <= window(code) <= 0xffff_ffff,
        (seq![top] + code).skip(4).len() > 0,
        (seq![top] + code).skip(4)[0] == code[3],
        (seq![top] + code).skip(4).skip(1) == code.skip(4),
{
    let whole = seq![top] + code;
    assert(whole[0] == top && whole[1] == code[0] && whole[2] == code[1] && whole[3] == code[2]);
    assert(whole.skip(4).skip(1) =~= code.skip(4));
}

/// Where a code lies in a normalized interval, the code with the known top bytes in front of it
/// lies in the interval before, and a decoder that has it gets from one to the other.
pub proof fn lemma_refilled(low: u32, high: u32, code: Seq<u8>)
    requires
        1 <= low <= high,
        code.len() >= 4,
        normalized(low, high).1 <= window(code) <= normalized(low, high).2,
    ensures
        ({
            let (bytes, l, h) = normalized(low, high);
            let whole = bytes + code;
            &&& low <= window(whole) <= high
            &&& refilled(low, high, window(whole) as u32, whole.skip(4)) == (
                l,
                h,
                window(code) as u32,
                code.skip(4),
                true,
            )
        }),
    decreases 0x1_0000_0000 - (high - low),
{
    if top_known(low, high) {
        lemma_shift(low, high);
        let low1 = shift_low(low);
        let high1 = shift_high(high);
        lemma_refilled(low1, high1, code);
        let (bytes1, l, h) = normalized(low1, high1);
        let whole1 = bytes1 + code;
        let top = (high / 0x100_0000) as u8;
        let (bytes, _, _) = normalized(low, high);
        let whole = bytes + code;
        assert(whole =~= seq![top] + whole1);
        lemma_window_prepend(top, whole1);
        lemma_unshift(low, high, window(whole1));
        let curr = window(whole) as u32;
        assert((curr as int * 256) % 0x1_0000_0000 + whole.skip(4)[0] == window(whole1));
    } else {
        assert(Seq::<u8>::empty() + code =~= code);
    }
}

/// The part of the interval that stands for a one is to the whole as the probability of a one, in
/// units of 1/65536, to all. The more a one is expected, the larger the part is.
pub proof fn law_split_share(low: u32, high: u32, p: int, q: int)
    requires
        low < high,
        0 <= p <= q <= 32767,
    ensures
        ({
            let mid = split_point(low, high, p);
            &&& low <= mid < high
            &&& 65536 * (mid - low) <= (high - low) * (2 * p + 1) < 65536 * (mid - low + 1)
            &&& mid <= split_point(low, high, q)
        }),
{
    lemma_split_point(low, high, p);
    lemma_split_point(low, high, q);
    let d = high - low;
    assert(d * (2 * p + 1) <= d * (2 * q + 1)) by (nonlinear_arith)
        requires
            d > 0,
            p <= q,
    ;
}

/// What is written of an interval: its top byte, while it is known. The bounds then move up by one
/// byte, the lower one with zeros behind it and the upper one with ones. A lower bound of zero
/// becomes one.
pub proof fn law_written_bytes(low: u32, high: u32)
    requires
        low <= high,
    ensures
        ({
            let (bytes, l, h) = normalized(low, high);
            let (ll, hl) = (low as int % 0x100_0000, high as int % 0x100_0000);
            if low as int / 0x100_0000 == high as int / 0x100_0000 {
                let low1: int = if ll == 0 {
                    1
                } else {
                    256 * ll
                };
                let high1 = 256 * hl + 255;
                &&& low1 <= high1
                &&& bytes.len() > 0
                &&& bytes[0] == high as int / 0x100_0000
                &&& normalized(low1 as u32, high1 as u32) == (bytes.skip(1), l, h)
            } else {
                bytes.len() == 0 && l == low && h == high
            }
        }),
{
    if top_known(low, high) {
        lemma_shift(low, high);
        law_shifted_bounds(low, high);
        let rest = normalized(shift_low(low), shift_high(high)).0;
        assert((seq![(high / 0x100_0000) as u8] + rest).skip(1) =~= rest);
    }
}

/// The bounds move up by one byte, the lower one with zeros behind it and the upper one with ones.
/// A lower bound of zero becomes one.
pub proof fn law_shifted_bounds(low: u32, high: u32)
    ensures
        low as int % 0x100_0000 == 0 ==> shift_low(low) == 1,
        low as int % 0x100_0000 != 0 ==> shift_low(low) == 256 * (low as int % 0x100_0000),
        shift_high(high) == 256 * (high as int % 0x100_0000) + 255,
{
    lemma_shifted(low as int);
    lemma_shifted(high as int);
}

proof fn lemma_shifted(x: int)
    ensures
        (x * 256) % 0x1_0000_0000 == 256 * (x % 0x100_0000),
{
}

} // verus!
