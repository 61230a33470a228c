//! The mathematical model of the components: what each of them predicts, and how it learns.

use vstd::prelude::*;
use vstd::arithmetic::power2::pow2;
use crate::zpaq::history::{
    cminit_of, find_of, lemma_find_fits, next_of, trained, valid_table_size,
};
use crate::zpaq::logistic::{clamp_to, lemma_stretch_range, squash_of, stretch_of};

verus! {

/// The mathematical model of a `Component`.
#[verifier::ext_equal]
pub ghost enum ComponentState {
    Cm { limit: usize, cm: Seq<u32> },
    Icm { sizebits: u32, c: usize, cxt: usize, ht: Seq<u8>, cm: Seq<u32> },
    Match { cxt: usize, buf: Seq<u8>, index: Seq<u32>, a: usize, b: usize, ptr: usize },
    Mix { sizebits: u32, start_idx: usize, m: usize, rate: i32, weights: Seq<i32> },
    Mix2 { sizebits: u32, p1_idx: usize, p2_idx: usize, rate: i32, weights: Seq<i32> },
    Isse { prev_component: usize, sizebits: u32, c: usize, cxt: usize, ht: Seq<u8>, wt: Seq<i32> },
    Sse { prev_component: usize, limit: usize, cxt: usize, cm: Seq<u32> },
}

/// A table of 2^`sizebits` entries, of `bytes` bytes each, can be allocated.
pub open spec fn table_fits(sizebits: u32, bytes: nat) -> bool {
    sizebits < usize::BITS && pow2(sizebits as nat) * bytes <= isize::MAX
}

/// The initial probabilities of an indirect context model, one for each bit history.
pub open spec fn icm_table() -> Seq<u32> {
    Seq::new(256, |j: int| cminit_of(j as u8) as u32)
}

/// The initial weights of an indirect secondary symbol estimation: for each bit history, the
/// weight one and the logit of the history's initial probability.
pub open spec fn isse_table() -> Seq<i32> {
    Seq::new(
        512,
        |k: int|
            if k % 2 == 0 {
                32768i32
            } else {
                clamp_to(
                    stretch_of(cminit_of((k / 2) as u8) / 256 % 32768) * 1024,
                    -524288,
                    524287,
                ) as i32
            },
    )
}

/// The initial probabilities of a secondary symbol estimation: in each context, the probabilities
/// of 32 logits in equal distances.
pub open spec fn sse_table(size: nat, start: u32) -> Seq<u32> {
    Seq::new(32 * size, |j: int| ((squash_of(j % 32 * 64 - 992) as u32) << 17) | start)
}

/// Every prediction is a 12-bit signed number.
pub open spec fn valid_predictions(predictions: Seq<i32>) -> bool {
    forall|i: int| 0 <= i < predictions.len() ==> -2048 <= #[trigger] predictions[i] <= 2047
}

/// Every weight is a 20-bit signed number.
pub open spec fn valid_weights(weights: Seq<i32>) -> bool {
    forall|i: int| 0 <= i < weights.len() ==> -524288 <= #[trigger] weights[i] <= 524287
}

/// Every weight is a 16-bit fraction.
pub open spec fn valid_fractions(weights: Seq<i32>) -> bool {
    forall|i: int| 0 <= i < weights.len() ==> 0 <= #[trigger] weights[i] <= 65535
}

/// The slot of a table of `len` entries that the low bits of `x` select.
pub open spec fn slot_of(x: u32, len: nat) -> int {
    (x & ((len - 1) as usize) as u32) as int
}

/// The slot of a table of `len` entries that the low bits of `x` select.
pub open spec fn wide_slot_of(x: usize, len: nat) -> int {
    (x & (len - 1) as usize) as int
}

/// The place in a ring buffer of `len` bytes that lies `k` before `ptr`.
pub open spec fn back(ptr: usize, k: usize, len: nat) -> int {
    wide_slot_of(ptr.wrapping_sub(k), len)
}

/// At the first bit of a byte and at its fifth, a context starts a new row of bit histories.
pub open spec fn at_nibble(c8: u32) -> bool {
    c8 == 1 || c8 & 0xf0 == 16
}

/// The row of bit histories in use, and the hash table after it was looked up.
pub open spec fn current_row(
    sizebits: u32,
    c: usize,
    ht: Seq<u8>,
    h: u32,
    c8: u32,
) -> (Seq<u8>, usize) {
    if at_nibble(c8) {
        let found = find_of(ht, (sizebits + 2) as u32, h.wrapping_add((c8 * 16) as u32));
        (found.0, found.1 as usize)
    } else {
        (ht, c)
    }
}

/// The place of the bit history in use.
pub open spec fn history_slot(c: usize, hmap4: u32) -> int {
    c + (hmap4 & 15)
}

/// The place of the first of `m` weights that a context selects.
pub open spec fn weight_row(h: u32, c8: u32, sizebits: u32, m: int) -> int {
    (h.wrapping_add(c8) as int % pow2(sizebits as nat) as int) * m
}

/// The sum of the first `n` predictions from `start` on, each times the weight in its place.
pub open spec fn dot_product(
    weights: Seq<i32>,
    row: int,
    predictions: Seq<i32>,
    start: int,
    n: int,
) -> int
    decreases n,
{
    if n <= 0 {
        0
    } else {
        dot_product(weights, row, predictions, start, n - 1) + (weights[row + n - 1] as int / 256)
            * predictions[start + n - 1]
    }
}

/// The mean of two predictions, the first one weighted with `w` of 65536 parts.
pub open spec fn weighted_mean(w: int, p1: int, p2: int) -> int {
    (w * p1 + (65536 - w) * p2) / 65536
}

/// A prediction as a fixed-point number of 64ths above the lowest interpolation point.
pub open spec fn sse_position(p: int) -> int {
    clamp_to(p + 992, 0, 1983)
}

/// The interpolation point below a prediction.
pub open spec fn sse_slot(h: u32, c8: u32, p: int) -> usize {
    ((h.wrapping_add(c8) as usize).wrapping_mul(32) + sse_position(p) / 64) as usize
}

/// The mean of two adaptive probabilities, the second one weighted with `wt` of 64 parts.
pub open spec fn interpolate(e0: u32, e1: u32, wt: int) -> int {
    ((e0 as int / 1024) * (64 - wt) + (e1 as int / 1024) * wt) / 8192
}

/// The bit of `byte` that is the `k`-th from the top.
pub open spec fn bit_of(byte: u8, k: int) -> u8 {
    (byte >> ((7 - k) as u8)) & 1
}

/// The number of bytes, from `a` on and up to 255, in which the text before `ptr` agrees with the
/// text `b` bytes before it.
pub open spec fn match_length(buf: Seq<u8>, ptr: usize, b: usize, a: int) -> int
    decreases 255 - a,
{
    if a >= 255 || buf[back(ptr, (a + 1) as usize, buf.len())] != buf[back(
        ptr.wrapping_sub((a + 1) as usize),
        b,
        buf.len(),
    )] {
        a
    } else {
        match_length(buf, ptr, b, a + 1)
    }
}

/// The difference between the bit `y` and the probability of a one that a logit stands for.
pub open spec fn error_of(y: u8, prediction: i32) -> int {
    y * 32767 - squash_of(prediction as int)
}

/// A weight after a correction in proportion to `err` and the prediction `p`.
pub open spec fn corrected(w: i32, err: int, p: int) -> i32 {
    clamp_to(w + (err * p + 4096) / 8192, -524288, 524287) as i32
}

/// The probability of an indirect context model after the bit `y`.
pub open spec fn nudged(entry: u32, y: u8) -> u32 {
    ((entry + (y * 32767 - entry as int / 256) / 4) % 0x1_0000_0000) as u32
}

/// The state of a match model after the bit `y`.
pub open spec fn match_updated(
    cxt: usize,
    buf: Seq<u8>,
    index: Seq<u32>,
    a: usize,
    b: usize,
    ptr: usize,
    h: u32,
    y: u8,
) -> ComponentState {
    let missed = a > 0 && bit_of(buf[back(ptr, b, buf.len())], cxt as int) != y;
    let a: usize = if missed {
        0
    } else {
        a
    };
    let buf = buf.update(ptr as int, ((buf[ptr as int] * 2 + y) % 256) as u8);
    if cxt < 7 {
        ComponentState::Match { cxt: (cxt + 1) as usize, buf, index, a, b, ptr }
    } else {
        let ptr = wide_slot_of((ptr + 1) as usize, buf.len()) as usize;
        let slot = wide_slot_of(h as usize, index.len());
        let offset = back(ptr, index[slot] as usize, buf.len()) as usize;
        ComponentState::Match {
            cxt: 0,
            buf,
            index: index.update(slot, ptr as u32),
            a: if a > 0 {
                if a < 255 {
                    (a + 1) as usize
                } else {
                    a
                }
            } else if offset != 0 {
                match_length(buf, ptr, offset, 0) as usize
            } else {
                0
            },
            b: if a > 0 {
                b
            } else {
                offset
            },
            ptr,
        }
    }
}

impl ComponentState {
    /// The component is well formed in a model of `n` predictions: its tables have the sizes that
    /// its contexts need, its inputs exist, and its numbers are small enough that no sum or
    /// product of a prediction or an update leaves 32 bits.
    pub open spec fn wf(self, n: nat) -> bool {
        match self {
            ComponentState::Cm { limit, cm } => 0 < cm.len() <= usize::MAX,
            ComponentState::Icm { sizebits, c, cxt, ht, cm } => {
                &&& sizebits <= 29
                &&& valid_table_size(ht.len())
                &&& c + 16 <= ht.len() <= usize::MAX
                &&& cm.len() >= 256
                &&& cxt < cm.len()
            },
            ComponentState::Match { cxt, buf, index, a, b, ptr } => {
                &&& cxt < 8
                &&& ptr < buf.len() <= usize::MAX
                &&& 0 < index.len() <= usize::MAX
                &&& a <= 255
            },
            ComponentState::Mix { sizebits, start_idx, m, rate, weights } => {
                &&& sizebits <= 30
                &&& m <= 511
                &&& -512 <= rate <= 512
                &&& pow2(sizebits as nat) * m <= weights.len() <= usize::MAX
                &&& valid_weights(weights)
                &&& start_idx + m <= n
            },
            ComponentState::Mix2 { sizebits, p1_idx, p2_idx, rate, weights } => {
                &&& sizebits <= 30
                &&& -512 <= rate <= 512
                &&& pow2(sizebits as nat) <= weights.len() <= usize::MAX
                &&& valid_fractions(weights)
                &&& p1_idx < n
                &&& p2_idx < n
            },
            ComponentState::Isse { prev_component, sizebits, c, cxt, ht, wt } => {
                &&& prev_component < n
                &&& sizebits <= 29
                &&& valid_table_size(ht.len())
                &&& c + 16 <= ht.len() <= usize::MAX
                &&& wt.len() >= 512
                &&& 2 * cxt + 1 < wt.len() <= usize::MAX
                &&& valid_weights(wt)
            },
            ComponentState::Sse { prev_component, limit, cxt, cm } => {
                &&& prev_component < n
                &&& 0 < cm.len() <= usize::MAX
            },
        }
    }

    /// The component can predict in a model of `n` predictions: the tables that it looks up have
    /// the sizes that its contexts need, its inputs exist, and no sum or product of a prediction
    /// leaves 32 bits. What only learning needs is left out.
    pub open spec fn ready(self, n: nat) -> bool {
        match self {
            ComponentState::Cm { limit, cm } => 0 < cm.len() <= usize::MAX,
            ComponentState::Icm { sizebits, c, cxt, ht, cm } => {
                &&& sizebits <= 29
                &&& valid_table_size(ht.len())
                &&& c + 16 <= ht.len() <= usize::MAX
                &&& cm.len() >= 256
            },
            ComponentState::Match { cxt, buf, index, a, b, ptr } => {
                &&& cxt < 8
                &&& 0 < buf.len() <= usize::MAX
                &&& a <= u32::MAX
            },
            ComponentState::Mix { sizebits, start_idx, m, rate, weights } => {
                &&& sizebits <= 30
                &&& m <= 511
                &&& pow2(sizebits as nat) * m <= weights.len() <= usize::MAX
                &&& valid_weights(weights)
                &&& start_idx + m <= n
            },
            ComponentState::Mix2 { sizebits, p1_idx, p2_idx, rate, weights } => {
                &&& sizebits <= 30
                &&& pow2(sizebits as nat) <= weights.len() <= usize::MAX
                &&& valid_fractions(weights)
                &&& p1_idx < n
                &&& p2_idx < n
            },
            ComponentState::Isse { prev_component, sizebits, c, cxt, ht, wt } => {
                &&& prev_component < n
                &&& sizebits <= 29
                &&& valid_table_size(ht.len())
                &&& c + 16 <= ht.len() <= usize::MAX
                &&& 512 <= wt.len() <= usize::MAX
                &&& valid_weights(wt)
            },
            ComponentState::Sse { prev_component, limit, cxt, cm } => {
                &&& prev_component < n
                &&& 0 < cm.len() <= usize::MAX
            },
        }
    }

    /// The logit that the component predicts for the next bit, and the component after it looked
    /// up its context.
    ///
    /// `h` is the context hash of the component, `c8` holds the bits of the current byte after a
    /// leading one, and `hmap4` holds the same bits split into nibbles.
    pub open spec fn predicted(
        self,
        h: u32,
        c8: u32,
        hmap4: u32,
        predictions: Seq<i32>,
    ) -> (ComponentState, int) {
        match self {
            ComponentState::Cm { limit, cm } => (
                self,
                stretch_of(cm[slot_of(h ^ hmap4, cm.len())] as int / 131072),
            ),
            ComponentState::Icm { sizebits, c, cxt, ht, cm } => {
                let (ht, c) = current_row(sizebits, c, ht, h, c8);
                let bh = ht[history_slot(c, hmap4)];
                (
                    ComponentState::Icm { sizebits, c, cxt: bh as usize, ht, cm },
                    stretch_of(cm[bh as int] as int / 256 % 32768),
                )
            },
            ComponentState::Match { cxt, buf, index, a, b, ptr } => (
                self,
                if a == 0 {
                    0
                } else if bit_of(buf[back(ptr, b, buf.len())], cxt as int) != 0 {
                    stretch_of((-(2048int / a as int)) % 32768)
                } else {
                    stretch_of(2048int / a as int)
                },
            ),
            ComponentState::Mix { sizebits, start_idx, m, rate, weights } => {
                let row = weight_row(h, c8, sizebits, m as int);
                let sum = dot_product(weights, row, predictions, start_idx as int, m as int);
                (self, clamp_to(sum / 256, -2048, 2047))
            },
            ComponentState::Mix2 { sizebits, p1_idx, p2_idx, rate, weights } => {
                let w = weights[weight_row(h, c8, sizebits, 1)] as int;
                (
                    self,
                    weighted_mean(
                        w,
                        predictions[p1_idx as int] as int,
                        predictions[p2_idx as int] as int,
                    ),
                )
            },
            ComponentState::Isse { prev_component, sizebits, c, cxt, ht, wt } => {
                let (ht, c) = current_row(sizebits, c, ht, h, c8);
                let bh = ht[history_slot(c, hmap4)];
                let p = predictions[prev_component as int];
                (
                    ComponentState::Isse { prev_component, sizebits, c, cxt: bh as usize, ht, wt },
                    clamp_to((wt[2 * bh] * p + wt[2 * bh + 1] * 64) / 65536, -2048, 2047),
                )
            },
            ComponentState::Sse { prev_component, limit, cxt, cm } => {
                let p = predictions[prev_component as int] as int;
                let slot = sse_slot(h, c8, p);
                let wt = sse_position(p) % 64;
                (
                    ComponentState::Sse {
                        prev_component,
                        limit,
                        cxt: (slot + wt / 32) as usize,
                        cm,
                    },
                    stretch_of(
                        interpolate(
                            cm[wide_slot_of(slot, cm.len())],
                            cm[wide_slot_of((slot + 1) as usize, cm.len())],
                            wt,
                        ),
                    ),
                )
            },
        }
    }

    /// The component after it learned that the next bit was `y`, where its own prediction was
    /// `predictions[i]`.
    pub open spec fn updated(
        self,
        i: int,
        h: u32,
        c8: u32,
        hmap4: u32,
        predictions: Seq<i32>,
        y: u8,
    ) -> ComponentState {
        match self {
            ComponentState::Cm { limit, cm } => {
                let slot = slot_of(h ^ hmap4, cm.len());
                ComponentState::Cm {
                    limit,
                    cm: cm.update(slot, trained(cm[slot], limit as u32, y)),
                }
            },
            ComponentState::Icm { sizebits, c, cxt, ht, cm } => {
                let slot = history_slot(c, hmap4);
                ComponentState::Icm {
                    sizebits,
                    c,
                    cxt,
                    ht: ht.update(slot, next_of(ht[slot], y)),
                    cm: cm.update(cxt as int, nudged(cm[cxt as int], y)),
                }
            },
            ComponentState::Match { cxt, buf, index, a, b, ptr } => match_updated(
                cxt,
                buf,
                index,
                a,
                b,
                ptr,
                h,
                y,
            ),
            ComponentState::Mix { sizebits, start_idx, m, rate, weights } => {
                let row = weight_row(h, c8, sizebits, m as int);
                let err = error_of(y, predictions[i]) * rate / 16;
                ComponentState::Mix {
                    sizebits,
                    start_idx,
                    m,
                    rate,
                    weights: Seq::new(
                        weights.len(),
                        |k: int|
                            if row <= k < row + m {
                                corrected(
                                    weights[k],
                                    err,
                                    predictions[start_idx + (k - row)] as int,
                                )
                            } else {
                                weights[k]
                            },
                    ),
                }
            },
            ComponentState::Mix2 { sizebits, p1_idx, p2_idx, rate, weights } => {
                let row = weight_row(h, c8, sizebits, 1);
                let err = error_of(y, predictions[i]) * rate / 32;
                let gap = predictions[p1_idx as int] - predictions[p2_idx as int];
                let w = clamp_to(weights[row] + (err * gap + 4096) / 8192, 0, 65535) as i32;
                ComponentState::Mix2 {
                    sizebits,
                    p1_idx,
                    p2_idx,
                    rate,
                    weights: weights.update(row, w),
                }
            },
            ComponentState::Isse { prev_component, sizebits, c, cxt, ht, wt } => {
                let slot = history_slot(c, hmap4);
                let err = error_of(y, predictions[i]);
                let p = predictions[prev_component as int] as int;
                let w0 = corrected(wt[2 * cxt], err, p);
                let w1 = clamp_to(wt[2 * cxt + 1] + (err + 16) / 32, -524288, 524287) as i32;
                ComponentState::Isse {
                    prev_component,
                    sizebits,
                    c,
                    cxt,
                    ht: ht.update(slot, next_of(ht[slot], y)),
                    wt: wt.update(2 * cxt, w0).update(2 * cxt + 1, w1),
                }
            },
            ComponentState::Sse { prev_component, limit, cxt, cm } => {
                let slot = wide_slot_of(cxt, cm.len());
                ComponentState::Sse {
                    prev_component,
                    limit,
                    cxt,
                    cm: cm.update(slot, trained(cm[slot], limit as u32, y)),
                }
            },
        }
    }
}

impl ComponentState {
    /// A new context model.
    pub open spec fn new_cm(sizebits: u32, limit: u32) -> ComponentState {
        ComponentState::Cm {
            limit: (limit * 4) as usize,
            cm: Seq::new(pow2(sizebits as nat), |i: int| 0x8000_0000u32),
        }
    }

    /// A new indirect context model.
    pub open spec fn new_icm(sizebits: u32) -> ComponentState {
        ComponentState::Icm {
            sizebits,
            c: 0,
            cxt: 0,
            ht: Seq::new(64 * pow2(sizebits as nat), |i: int| 0u8),
            cm: icm_table(),
        }
    }

    /// A new match model.
    pub open spec fn new_match(sizebits1: u32, sizebits2: u32) -> ComponentState {
        ComponentState::Match {
            cxt: 0,
            buf: Seq::new(pow2(sizebits2 as nat), |i: int| 0u8).update(0, 1),
            index: Seq::new(pow2(sizebits1 as nat), |i: int| 0u32),
            a: 0,
            b: 0,
            ptr: 0,
        }
    }

    /// A new mixer of the predictions from `first` to `last`, all with the same weight.
    pub open spec fn new_mix(
        sizebits: u32,
        first: usize,
        last: usize,
        rate: u32,
    ) -> ComponentState {
        let m = (last - first + 1) as usize;
        ComponentState::Mix {
            sizebits,
            start_idx: first,
            m,
            rate: rate as i32,
            weights: Seq::new(
                pow2(sizebits as nat) * m as nat,
                |i: int| (65536int / m as int) as i32,
            ),
        }
    }

    /// A new mixer of two predictions, both with the same weight.
    pub open spec fn new_mix2(
        sizebits: u32,
        p1_idx: usize,
        p2_idx: usize,
        rate: u32,
    ) -> ComponentState {
        ComponentState::Mix2 {
            sizebits,
            p1_idx,
            p2_idx,
            rate: rate as i32,
            weights: Seq::new(pow2(sizebits as nat), |i: int| 32768i32),
        }
    }

    /// A new indirect secondary symbol estimation.
    pub open spec fn new_isse(sizebits: u32, prev_component: usize) -> ComponentState {
        ComponentState::Isse {
            prev_component,
            sizebits,
            c: 0,
            cxt: 0,
            ht: Seq::new(64 * pow2(sizebits as nat), |i: int| 0u8),
            wt: isse_table(),
        }
    }

    /// A new secondary symbol estimation.
    pub open spec fn new_sse(
        sizebits: u32,
        prev_component: usize,
        start: u32,
        limit: u32,
    ) -> ComponentState {
        ComponentState::Sse {
            prev_component,
            limit: (limit * 4) as usize,
            cxt: 0,
            cm: sse_table(pow2(sizebits as nat), start),
        }
    }
}

/// A slot lies within its table.
pub proof fn lemma_slot_fits(x: u32, len: nat)
    requires
        0 < len <= usize::MAX,
    ensures
        0 <= slot_of(x, len) < len,
{
    let mask = (len - 1) as usize;
    let low = mask as u32;
    assert(low <= mask && (x & low) <= low) by (bit_vector)
        requires
            low == mask as u32,
    ;
}

/// A slot lies within its table.
pub proof fn lemma_wide_slot_fits(x: usize, len: nat)
    requires
        0 < len <= usize::MAX,
    ensures
        0 <= wide_slot_of(x, len) < len,
{
    let mask = (len - 1) as usize;
    assert((x & mask) <= mask) by (bit_vector);
}

/// The bit history in use lies within its table.
pub proof fn lemma_row_fits(sizebits: u32, c: usize, ht: Seq<u8>, h: u32, c8: u32, hmap4: u32)
    requires
        valid_table_size(ht.len()),
        c + 16 <= ht.len() <= usize::MAX,
    ensures
        current_row(sizebits, c, ht, h, c8).0.len() == ht.len(),
        current_row(sizebits, c, ht, h, c8).1 + 16 <= ht.len(),
        hmap4 & 15 <= 15,
{
    assert(hmap4 & 15 <= 15) by (bit_vector);
    lemma_find_fits(ht, (sizebits + 2) as u32, h.wrapping_add((c8 * 16) as u32));
}

/// The weights in use lie within their table.
pub proof fn lemma_weight_row_fits(h: u32, c8: u32, sizebits: u32, m: int, len: nat)
    requires
        0 <= m,
        pow2(sizebits as nat) * m <= len,
    ensures
        0 <= weight_row(h, c8, sizebits, m),
        weight_row(h, c8, sizebits, m) + m <= len,
{
    let x = h.wrapping_add(c8) as int;
    let size = pow2(sizebits as nat) as int;
    vstd::arithmetic::power2::lemma_pow2_pos(sizebits as nat);
    let r = x % size;
    assert(0 <= r < size) by (nonlinear_arith)
        requires
            size > 0,
            r == x % size,
    ;
    assert(0 <= r * m && r * m + m <= size * m) by (nonlinear_arith)
        requires
            0 <= r < size,
            0 <= m,
    ;
}

/// A sum of weighted predictions is bounded by the number of its terms.
pub proof fn lemma_dot_product_range(
    weights: Seq<i32>,
    row: int,
    predictions: Seq<i32>,
    start: int,
    n: int,
)
    requires
        valid_weights(weights),
        valid_predictions(predictions),
        0 <= n,
        0 <= row,
        row + n <= weights.len(),
        0 <= start,
        start + n <= predictions.len(),
    ensures
        -4194304 * n <= dot_product(weights, row, predictions, start, n) <= 4194304 * n,
    decreases n,
{
    if n > 0 {
        lemma_dot_product_range(weights, row, predictions, start, n - 1);
        let w = weights[row + n - 1] as int / 256;
        let p = predictions[start + n - 1] as int;
        lemma_product_range(w, p, 2048, 2048);
    }
}

/// The product of two bounded numbers is bounded by the product of the bounds.
pub proof fn lemma_product_range(x: int, y: int, bx: int, by: int)
    by (nonlinear_arith)
    requires
        -bx <= x <= bx,
        -by <= y <= by,
    ensures
        -(bx * by) <= x * y <= bx * by,
{
}

/// A weighted mean lies between the predictions, and its sums fit 32 bits.
pub proof fn lemma_weighted_mean_range(w: int, p1: int, p2: int)
    requires
        0 <= w <= 65535,
        -2048 <= p1 <= 2047,
        -2048 <= p2 <= 2047,
    ensures
        -134217728 <= w * p1 <= 134152192,
        -134217728 <= (65536 - w) * p2 <= 134152192,
        -2048 <= weighted_mean(w, p1, p2) <= 2047,
{
    assert(-2048 * w <= w * p1 <= 2047 * w) by (nonlinear_arith)
        requires
            0 <= w,
            -2048 <= p1 <= 2047,
    ;
    assert(-2048 * (65536 - w) <= (65536 - w) * p2 <= 2047 * (65536 - w)) by (nonlinear_arith)
        requires
            0 <= 65536 - w,
            -2048 <= p2 <= 2047,
    ;
}

/// An interpolated probability is a 15-bit number.
pub proof fn lemma_interpolate_range(e0: u32, e1: u32, wt: int)
    requires
        0 <= wt <= 63,
    ensures
        0 <= (e0 as int / 1024) * (64 - wt) <= 268435456,
        0 <= (e1 as int / 1024) * wt <= 268435456,
        0 <= interpolate(e0, e1, wt) < 32768,
{
    let a = e0 as int / 1024;
    let b = e1 as int / 1024;
    assert(0 <= a * (64 - wt) <= 4194303 * (64 - wt)) by (nonlinear_arith)
        requires
            0 <= a <= 4194303,
            0 <= 64 - wt,
    ;
    assert(0 <= b * wt <= 4194303 * wt) by (nonlinear_arith)
        requires
            0 <= b <= 4194303,
            0 <= wt,
    ;
}

/// A match is at most 255 bytes long.
pub proof fn lemma_match_length_range(buf: Seq<u8>, ptr: usize, b: usize, a: int)
    requires
        0 <= a <= 255,
    ensures
        a <= match_length(buf, ptr, b, a) <= 255,
    decreases 255 - a,
{
    if a < 255 {
        lemma_match_length_range(buf, ptr, b, a + 1);
    }
}

impl ComponentState {
    /// Predicting keeps a component well formed, and predicts a 12-bit signed number.
    pub proof fn lemma_predicted_wf(self, h: u32, c8: u32, hmap4: u32, predictions: Seq<i32>)
        requires
            self.wf(predictions.len()),
            valid_predictions(predictions),
        ensures
            self.predicted(h, c8, hmap4, predictions).0.wf(predictions.len()),
            -2048 <= self.predicted(h, c8, hmap4, predictions).1 <= 2047,
    {
        self.lemma_predicted_ready(h, c8, hmap4, predictions);
        match self {
            ComponentState::Icm { sizebits, c, cxt, ht, cm } => {
                lemma_row_fits(sizebits, c, ht, h, c8, hmap4);
            },
            ComponentState::Isse { prev_component, sizebits, c, cxt, ht, wt } => {
                lemma_row_fits(sizebits, c, ht, h, c8, hmap4);
            },
            _ => {},
        }
    }

    /// Predicting leaves a component ready to predict, and predicts a 12-bit signed number.
    pub proof fn lemma_predicted_ready(self, h: u32, c8: u32, hmap4: u32, predictions: Seq<i32>)
        requires
            self.ready(predictions.len()),
            valid_predictions(predictions),
        ensures
            self.predicted(h, c8, hmap4, predictions).0.ready(predictions.len()),
            -2048 <= self.predicted(h, c8, hmap4, predictions).1 <= 2047,
    {
        match self {
            ComponentState::Cm { limit, cm } => {
                lemma_stretch_range(cm[slot_of(h ^ hmap4, cm.len())] as int / 131072);
            },
            ComponentState::Icm { sizebits, c, cxt, ht, cm } => {
                lemma_row_fits(sizebits, c, ht, h, c8, hmap4);
                let (ht, c) = current_row(sizebits, c, ht, h, c8);
                let bh = ht[history_slot(c, hmap4)];
                lemma_stretch_range(cm[bh as int] as int / 256 % 32768);
            },
            ComponentState::Match { cxt, buf, index, a, b, ptr } => {
                if a > 0 {
                    let q = 2048int / a as int;
                    assert(0 <= q <= 2048) by (nonlinear_arith)
                        requires
                            q == 2048int / a as int,
                            a > 0,
                    ;
                    lemma_stretch_range((-q) % 32768);
                    lemma_stretch_range(q);
                }
            },
            ComponentState::Mix { sizebits, start_idx, m, rate, weights } => {},
            ComponentState::Mix2 { sizebits, p1_idx, p2_idx, rate, weights } => {
                lemma_weight_row_fits(h, c8, sizebits, 1, weights.len());
                lemma_weighted_mean_range(
                    weights[weight_row(h, c8, sizebits, 1)] as int,
                    predictions[p1_idx as int] as int,
                    predictions[p2_idx as int] as int,
                );
            },
            ComponentState::Isse { prev_component, sizebits, c, cxt, ht, wt } => {
                lemma_row_fits(sizebits, c, ht, h, c8, hmap4);
            },
            ComponentState::Sse { prev_component, limit, cxt, cm } => {
                let p = predictions[prev_component as int] as int;
                let slot = sse_slot(h, c8, p);
                let wt = sse_position(p) % 64;
                let e0 = cm[wide_slot_of(slot, cm.len())];
                let e1 = cm[wide_slot_of((slot + 1) as usize, cm.len())];
                lemma_interpolate_range(e0, e1, wt);
                lemma_stretch_range(interpolate(e0, e1, wt));
            },
        }
    }

    /// Learning keeps a component well formed.
    pub proof fn lemma_updated_wf(
        self,
        i: int,
        h: u32,
        c8: u32,
        hmap4: u32,
        predictions: Seq<i32>,
        y: u8,
    )
        requires
            self.wf(predictions.len()),
        ensures
            self.updated(i, h, c8, hmap4, predictions, y).wf(predictions.len()),
    {
        match self {
            ComponentState::Match { cxt, buf, index, a, b, ptr } => {
                let buf = buf.update(ptr as int, ((buf[ptr as int] * 2 + y) % 256) as u8);
                lemma_wide_slot_fits((ptr + 1) as usize, buf.len());
                let ptr = wide_slot_of((ptr + 1) as usize, buf.len()) as usize;
                lemma_wide_slot_fits(h as usize, index.len());
                let slot = wide_slot_of(h as usize, index.len());
                let offset = back(ptr, index[slot] as usize, buf.len()) as usize;
                lemma_match_length_range(buf, ptr, offset, 0);
            },
            ComponentState::Cm { limit, cm } => {
                lemma_slot_fits(h ^ hmap4, cm.len());
            },
            ComponentState::Icm { sizebits, c, cxt, ht, cm } => {
                lemma_row_fits(sizebits, c, ht, h, c8, hmap4);
            },
            ComponentState::Mix { sizebits, start_idx, m, rate, weights } => {},
            ComponentState::Mix2 { sizebits, p1_idx, p2_idx, rate, weights } => {
                lemma_weight_row_fits(h, c8, sizebits, 1, weights.len());
            },
            ComponentState::Isse { prev_component, sizebits, c, cxt, ht, wt } => {
                lemma_row_fits(sizebits, c, ht, h, c8, hmap4);
            },
            ComponentState::Sse { prev_component, limit, cxt, cm } => {
                lemma_wide_slot_fits(cxt, cm.len());
            },
        }
    }
}

} // verus!
