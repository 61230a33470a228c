//! The components of the context mixing model.

use vstd::prelude::*;
use vstd::arithmetic::power2::pow2;
use crate::zpaq::component_state::{
    corrected, dot_product, icm_table, isse_table, lemma_dot_product_range,
    lemma_interpolate_range, lemma_product_range, lemma_row_fits, lemma_slot_fits,
    lemma_weight_row_fits, lemma_weighted_mean_range, lemma_wide_slot_fits, match_length,
    match_updated, sse_table, table_fits, valid_predictions, valid_weights, weight_row,
    ComponentState,
};
use crate::zpaq::history::{cminit, cminit_of, find, next, train};
use crate::zpaq::logistic::{clamp, clamp2k, clamp512k, squash, Stretch};

verus! {

/// A component in the context mixing model.
#[derive(Clone)]
pub enum Component {
    /// Context model: a context selects an adaptive probability.
    Cm { limit: usize, cm: Vec<u32> },
    /// Indirect context model: a context selects a bit history, which selects a probability.
    Icm { sizebits: u32, c: usize, cxt: usize, ht: Vec<u8>, cm: Vec<u32> },
    /// Match model: predicts the bit that followed the longest match of the context.
    Match { cxt: usize, buf: Vec<u8>, index: Vec<u32>, a: usize, b: usize, ptr: usize },
    /// Mixer: a weighted sum of `m` predictions, with weights selected by a context.
    Mix { sizebits: u32, start_idx: usize, m: usize, rate: i32, weights: Vec<i32> },
    /// Mixer of two predictions with weights that add up to one.
    Mix2 { sizebits: u32, p1_idx: usize, p2_idx: usize, rate: i32, weights: Vec<i32> },
    /// Indirect secondary symbol estimation: a bit history selects the weights of a prediction.
    Isse { prev_component: usize, sizebits: u32, c: usize, cxt: usize, ht: Vec<u8>, wt: Vec<i32> },
    /// Secondary symbol estimation: refines a prediction by interpolation between adaptive
    /// probabilities.
    Sse { prev_component: usize, limit: usize, cxt: usize, cm: Vec<u32> },
}

impl View for Component {
    type V = ComponentState;

    open spec fn view(&self) -> ComponentState {
        match *self {
            Component::Cm { limit, cm } => ComponentState::Cm { limit, cm: cm@ },
            Component::Icm { sizebits, c, cxt, ht, cm } => ComponentState::Icm {
                sizebits,
                c,
                cxt,
                ht: ht@,
                cm: cm@,
            },
            Component::Match { cxt, buf, index, a, b, ptr } => ComponentState::Match {
                cxt,
                buf: buf@,
                index: index@,
                a,
                b,
                ptr,
            },
            Component::Mix { sizebits, start_idx, m, rate, weights } => ComponentState::Mix {
                sizebits,
                start_idx,
                m,
                rate,
                weights: weights@,
            },
            Component::Mix2 { sizebits, p1_idx, p2_idx, rate, weights } => ComponentState::Mix2 {
                sizebits,
                p1_idx,
                p2_idx,
                rate,
                weights: weights@,
            },
            Component::Isse { prev_component, sizebits, c, cxt, ht, wt } => ComponentState::Isse {
                prev_component,
                sizebits,
                c,
                cxt,
                ht: ht@,
                wt: wt@,
            },
            Component::Sse { prev_component, limit, cxt, cm } => ComponentState::Sse {
                prev_component,
                limit,
                cxt,
                cm: cm@,
            },
        }
    }
}

fn table_size(sizebits: u32) -> (size: usize)
    requires
        sizebits < usize::BITS,
        pow2(sizebits as nat) <= usize::MAX,
    ensures
        size == pow2(sizebits as nat),
        size > 0,
{
    proof {
        vstd::bits::lemma_usize_shl_is_mul(1, sizebits as usize);
        vstd::arithmetic::power2::lemma_pow2_pos(sizebits as nat);
    }
    1usize << sizebits as usize
}

impl Component {
    /// Creates a context model with 2^`sizebits` probabilities.
    pub fn cm(sizebits: u32, limit: u32) -> (r: Self)
        requires
            table_fits(sizebits, 4),
            limit * 4 <= u32::MAX,
        ensures
            r@ == ComponentState::new_cm(sizebits, limit),
    {
        let size: usize = table_size(sizebits);
        let cm: Vec<u32> = vec![0x8000_0000u32; size];
        assert(cm@ =~= Seq::new(pow2(sizebits as nat), |i: int| 0x8000_0000u32));
        Component::Cm { limit: (limit * 4) as usize, cm }
    }

    /// Creates an indirect context model with 2^`sizebits` groups of bit history rows.
    pub fn icm(sizebits: u32) -> (r: Self)
        requires
            table_fits(sizebits, 64),
        ensures
            r@ == ComponentState::new_icm(sizebits),
    {
        let size: usize = table_size(sizebits);
        let ht: Vec<u8> = vec![0u8; size * 64];
        assert(ht@ =~= Seq::new(64 * pow2(sizebits as nat), |i: int| 0u8));
        let mut cm: Vec<u32> = Vec::with_capacity(256);
        let mut j: usize = 0;
        while j < 256
            invariant
                j <= 256,
                cm@.len() == j,
                forall|i: int| 0 <= i < j ==> #[trigger] cm@[i] == cminit_of(i as u8),
            decreases 256 - j,
        {
            cm.push(cminit(j as u8));
            j = j + 1;
        }
        assert(cm@ =~= icm_table());
        Component::Icm { sizebits, c: 0, cxt: 0, ht, cm }
    }

    /// Creates a match model with 2^`sizebits1` contexts and a buffer of 2^`sizebits2` bytes.
    pub fn match_(sizebits1: u32, sizebits2: u32) -> (r: Self)
        requires
            table_fits(sizebits1, 4),
            table_fits(sizebits2, 1),
        ensures
            r@ == ComponentState::new_match(sizebits1, sizebits2),
    {
        let index_size: usize = table_size(sizebits1);
        let buf_size: usize = table_size(sizebits2);
        let mut buf: Vec<u8> = vec![0u8; buf_size];
        assert(buf@ =~= Seq::new(pow2(sizebits2 as nat), |i: int| 0u8));
        buf.set(0, 1);
        let index: Vec<u32> = vec![0u32; index_size];
        assert(index@ =~= Seq::new(pow2(sizebits1 as nat), |i: int| 0u32));
        Component::Match { cxt: 0, buf, index, a: 0, b: 0, ptr: 0 }
    }

    /// Creates a mixer of the predictions in the range `idx`, with 2^`sizebits` sets of weights.
    pub fn mix(sizebits: u32, idx: std::ops::RangeInclusive<usize>, rate: u32) -> (r: Self)
        requires
            !idx@.exhausted,
            idx@.start <= idx@.end,
            table_fits(sizebits, 4 * (idx@.end - idx@.start + 1) as nat),
        ensures
            r@ == ComponentState::new_mix(sizebits, idx@.start, idx@.end, rate),
    {
        proof {
            vstd::arithmetic::power2::lemma_pow2_pos(sizebits as nat);
            let inputs = (idx@.end - idx@.start + 1) as nat;
            assert(4 * inputs <= pow2(sizebits as nat) * (4 * inputs)) by (nonlinear_arith)
                requires
                    pow2(sizebits as nat) >= 1,
            ;
        }
        let start_idx: usize = *idx.start();
        let m: usize = *idx.end() - start_idx + 1;
        proof {
            let size = pow2(sizebits as nat);
            assert(size * (4 * m as nat) == 4 * (size * m) && size <= size * m) by (nonlinear_arith)
                requires
                    m >= 1,
            ;
            assert(0 <= 65536int / m as int <= 65536) by (nonlinear_arith)
                requires
                    m >= 1,
            ;
        }
        let size: usize = table_size(sizebits);
        let init_val: i32 = (65536 / m) as i32;
        let weights: Vec<i32> = vec![init_val; size * m];
        assert(weights@ =~= Seq::new(
            pow2(sizebits as nat) * m as nat,
            |i: int| (65536int / m as int) as i32,
        ));
        Component::Mix { sizebits, start_idx, m, rate: rate as i32, weights }
    }

    /// Creates a mixer of two predictions, with 2^`sizebits` weights.
    pub fn mix2(sizebits: u32, p1_idx: usize, p2_idx: usize, rate: u32) -> (r: Self)
        requires
            table_fits(sizebits, 4),
        ensures
            r@ == ComponentState::new_mix2(sizebits, p1_idx, p2_idx, rate),
    {
        let size: usize = table_size(sizebits);
        let weights: Vec<i32> = vec![32768i32; size];
        assert(weights@ =~= Seq::new(pow2(sizebits as nat), |i: int| 32768i32));
        Component::Mix2 { sizebits, p1_idx, p2_idx, rate: rate as i32, weights }
    }

    /// Creates an indirect secondary symbol estimation of the prediction `prev_component`, with
    /// 2^`sizebits` groups of bit history rows.
    pub fn isse(sizebits: u32, prev_component: usize) -> (r: Self)
        requires
            table_fits(sizebits, 64),
        ensures
            r@ == ComponentState::new_isse(sizebits, prev_component),
    {
        let size: usize = table_size(sizebits);
        let ht: Vec<u8> = vec![0u8; size * 64];
        assert(ht@ =~= Seq::new(64 * pow2(sizebits as nat), |i: int| 0u8));
        let stretch: Stretch = Stretch::get();
        let mut wt: Vec<i32> = Vec::with_capacity(512);
        let mut j: usize = 0;
        while j < 256
            invariant
                j <= 256,
                wt@.len() == 2 * j,
                forall|k: int| 0 <= k < 2 * j ==> #[trigger] wt@[k] == isse_table()[k],
            decreases 256 - j,
        {
            let p: u32 = cminit(j as u8);
            assert(p >> 8 == p / 256 && p >> 8 <= 0xff_ffff) by (bit_vector);
            let stretched: i32 = stretch.call((p >> 8) as i32);
            wt.push(32768);
            wt.push(clamp512k(stretched * 1024));
            assert(isse_table()[2 * j as int] == 32768);
            assert((2 * j as int + 1) / 2 == j);
            j = j + 1;
        }
        assert(wt@ =~= isse_table());
        Component::Isse { prev_component, sizebits, c: 0, cxt: 0, ht, wt }
    }

    /// Creates a secondary symbol estimation of the prediction `prev_component`, with
    /// 2^`sizebits` contexts whose counts begin at `start`.
    pub fn sse(sizebits: u32, prev_component: usize, start: u32, limit: u32) -> (r: Self)
        requires
            table_fits(sizebits, 128),
            limit * 4 <= u32::MAX,
        ensures
            r@ == ComponentState::new_sse(sizebits, prev_component, start, limit),
    {
        let cm_size: usize = table_size(sizebits) * 32;
        let mut cm: Vec<u32> = Vec::with_capacity(cm_size);
        let mut j: usize = 0;
        while j < cm_size
            invariant
                j <= cm_size,
                cm_size == 32 * pow2(sizebits as nat),
                cm@.len() == j,
                forall|k: int|
                    0 <= k < j ==> #[trigger] cm@[k] == sse_table(pow2(sizebits as nat), start)[k],
            decreases cm_size - j,
        {
            let squash_val: i32 = squash((j % 32) as i32 * 64 - 992);
            cm.push(((squash_val as u32) << 17) | start);
            j = j + 1;
        }
        assert(cm@ =~= sse_table(pow2(sizebits as nat), start));
        Component::Sse { prev_component, limit: (limit * 4) as usize, cxt: 0, cm }
    }
}

impl Component {
    /// Looks up the context of the component and predicts the next bit.
    pub(crate) fn predict(
        &mut self,
        h: u32,
        c8: u32,
        hmap4: u32,
        predictions: &Vec<i32>,
        stretch: &Stretch,
    ) -> (p: i32)
        requires
            old(self)@.ready(predictions@.len()),
            valid_predictions(predictions@),
            c8 <= 255,
        ensures
            final(self)@ == old(self)@.predicted(h, c8, hmap4, predictions@).0,
            p == old(self)@.predicted(h, c8, hmap4, predictions@).1,
            final(self)@.ready(predictions@.len()),
            -2048 <= p <= 2047,
    {
        proof {
            self@.lemma_predicted_ready(h, c8, hmap4, predictions@);
        }
        match self {
            Component::Cm { limit, cm } => {
                proof {
                    lemma_slot_fits(h ^ hmap4, cm@.len());
                }
                let cxt: usize = ((h ^ hmap4) & (cm.len() - 1) as u32) as usize;
                let e: u32 = cm[cxt];
                proof {
                    lemma_shifts(e);
                }
                stretch.call((e >> 17) as i32)
            },
            Component::Icm { sizebits, c, cxt, ht, cm } => {
                proof {
                    lemma_row_fits(*sizebits, *c, ht@, h, c8, hmap4);
                }
                if c8 == 1 || (c8 & 0xf0) == 16 {
                    *c = find(ht, *sizebits + 2, h.wrapping_add(c8 * 16));
                }
                let bh: usize = ht[*c + (hmap4 & 15) as usize] as usize;
                *cxt = bh;
                let e: u32 = cm[bh];
                proof {
                    lemma_shifts(e);
                }
                stretch.call((e >> 8) as i32)
            },
            Component::Match { cxt, buf, index, a, b, ptr } => {
                if *a == 0 {
                    0
                } else {
                    proof {
                        lemma_wide_slot_fits(ptr.wrapping_sub(*b), buf@.len());
                        let q = 2048int / *a as int;
                        assert(0 <= q <= 2048) by (nonlinear_arith)
                            requires
                                q == 2048int / *a as int,
                                *a > 0,
                        ;
                    }
                    let match_pos: usize = ptr.wrapping_sub(*b) & (buf.len() - 1);
                    let bit: u8 = (buf[match_pos] >> (7 - *cxt as u8)) & 1;
                    let dt2k: i32 = (2048 / (*a as u32)) as i32;
                    if bit != 0 {
                        stretch.call(-dt2k)
                    } else {
                        stretch.call(dt2k)
                    }
                }
            },
            Component::Mix { sizebits, start_idx, m, rate, weights } => {
                let row: usize = select_row(h, c8, *sizebits, *m, weights.len());
                let mut p: i32 = 0;
                let mut j: usize = 0;
                while j < *m
                    invariant
                        j <= *m <= 511,
                        row + *m <= weights.len(),
                        *start_idx + *m <= predictions.len(),
                        valid_weights(weights@),
                        valid_predictions(predictions@),
                        p == dot_product(
                            weights@,
                            row as int,
                            predictions@,
                            *start_idx as int,
                            j as int,
                        ),
                    decreases *m - j,
                {
                    let w: i32 = weights[row + j];
                    let q: i32 = predictions[*start_idx + j];
                    proof {
                        lemma_signed_shifts(w);
                        lemma_product_range(w as int / 256, q as int, 2048, 2048);
                        lemma_dot_product_range(
                            weights@,
                            row as int,
                            predictions@,
                            *start_idx as int,
                            j + 1,
                        );
                    }
                    let term: i32 = (w >> 8) * q;
                    assert(p + term == dot_product(
                        weights@,
                        row as int,
                        predictions@,
                        *start_idx as int,
                        j + 1,
                    ));
                    assert(-4194304 * 511 <= p + term <= 4194304 * 511);
                    p = p + term;
                    j = j + 1;
                }
                proof {
                    lemma_signed_shifts(p);
                }
                clamp2k(p >> 8)
            },
            Component::Mix2 { sizebits, p1_idx, p2_idx, rate, weights } => {
                let row: usize = select_row(h, c8, *sizebits, 1, weights.len());
                let w: i32 = weights[row];
                let p1: i32 = predictions[*p1_idx];
                let p2: i32 = predictions[*p2_idx];
                proof {
                    lemma_weighted_mean_range(w as int, p1 as int, p2 as int);
                    lemma_signed_shifts((w * p1 + (65536 - w) * p2) as i32);
                }
                (w * p1 + (65536 - w) * p2) >> 16
            },
            Component::Isse { prev_component, sizebits, c, cxt, ht, wt } => {
                proof {
                    lemma_row_fits(*sizebits, *c, ht@, h, c8, hmap4);
                }
                if c8 == 1 || (c8 & 0xf0) == 16 {
                    *c = find(ht, *sizebits + 2, h.wrapping_add(c8 * 16));
                }
                let bh: usize = ht[*c + (hmap4 & 15) as usize] as usize;
                *cxt = bh;
                let w0: i32 = wt[bh * 2];
                let w1: i32 = wt[bh * 2 + 1];
                let p0: i32 = predictions[*prev_component];
                proof {
                    lemma_product_range(w0 as int, p0 as int, 524288, 2048);
                    lemma_signed_shifts((w0 * p0 + w1 * 64) as i32);
                }
                clamp2k((w0 * p0 + w1 * 64) >> 16)
            },
            Component::Sse { prev_component, limit, cxt, cm } => {
                let row: usize = (h.wrapping_add(c8) as usize).wrapping_mul(32);
                let pq: i32 = clamp(predictions[*prev_component] + 992, 0, 1983);
                let wt: i32 = pq % 64;
                proof {
                    lemma_row_of_32(h.wrapping_add(c8) as usize);
                }
                let slot: usize = row + (pq / 64) as usize;
                *cxt = slot + (wt / 32) as usize;
                proof {
                    lemma_wide_slot_fits(slot, cm@.len());
                    lemma_wide_slot_fits((slot + 1) as usize, cm@.len());
                }
                let e0: u32 = cm[slot & (cm.len() - 1)];
                let e1: u32 = cm[(slot + 1) & (cm.len() - 1)];
                proof {
                    lemma_shifts(e0);
                    lemma_shifts(e1);
                    lemma_interpolate_range(e0, e1, wt as int);
                }
                let sum: i32 = (e0 >> 10) as i32 * (64 - wt) + (e1 >> 10) as i32 * wt;
                stretch.call(sum / 8192)
            },
        }
    }
}

impl Component {
    /// Learns that the next bit was `y`, where the component itself predicted `predictions[i]`.
    pub(crate) fn update(
        &mut self,
        i: usize,
        h: u32,
        c8: u32,
        hmap4: u32,
        predictions: &Vec<i32>,
        y: u8,
    )
        requires
            old(self)@.wf(predictions@.len()),
            valid_predictions(predictions@),
            i < predictions@.len(),
            y <= 1,
        ensures
            final(self)@ == old(self)@.updated(i as int, h, c8, hmap4, predictions@, y),
            final(self)@.wf(predictions@.len()),
    {
        proof {
            self@.lemma_updated_wf(i as int, h, c8, hmap4, predictions@, y);
        }
        match self {
            Component::Cm { limit, cm } => {
                proof {
                    lemma_slot_fits(h ^ hmap4, cm@.len());
                }
                let cxt: usize = ((h ^ hmap4) & (cm.len() - 1) as u32) as usize;
                train(&mut cm[cxt], *limit as u32, y);
            },
            Component::Icm { sizebits, c, cxt, ht, cm } => {
                proof {
                    lemma_row_fits(*sizebits, *c, ht@, h, c8, hmap4);
                }
                let idx: usize = *c + (hmap4 & 15) as usize;
                let bh: u8 = ht[idx];
                ht.set(idx, next(bh, y));
                let e: u32 = cm[*cxt];
                proof {
                    lemma_shifts(e);
                    lemma_signed_shifts((y * 32767 - e as int / 256) as i32);
                }
                let delta: i32 = (y as i32 * 32767 - (e >> 8) as i32) >> 2;
                proof {
                    lemma_wrapping_nudge(e, delta);
                }
                cm.set(*cxt, e.wrapping_add(delta as u32));
            },
            Component::Match { cxt, buf, index, a, b, ptr } => {
                update_match(cxt, buf, index, a, b, ptr, h, y);
            },
            Component::Mix { sizebits, start_idx, m, rate, weights } => {
                let row: usize = select_row(h, c8, *sizebits, *m, weights.len());
                let e: i32 = y as i32 * 32767 - squash(predictions[i]);
                proof {
                    lemma_product_range(e as int, *rate as int, 32767, 512);
                    lemma_signed_shifts((e * *rate) as i32);
                }
                let err: i32 = (e * *rate) >> 4;
                let ghost before = weights@;
                let mut j: usize = 0;
                while j < *m
                    invariant
                        j <= *m <= 511,
                        row + *m <= weights.len(),
                        *start_idx + *m <= predictions.len(),
                        weights@.len() == before.len(),
                        valid_weights(before),
                        valid_predictions(predictions@),
                        -1048544 <= err <= 1048544,
                        forall|k: int|
                            0 <= k < before.len() ==> #[trigger] weights@[k] == if row <= k < row
                                + j {
                                corrected(
                                    before[k],
                                    err as int,
                                    predictions@[*start_idx + (k - row)] as int,
                                )
                            } else {
                                before[k]
                            },
                    decreases *m - j,
                {
                    let w: i32 = weights[row + j];
                    let q: i32 = predictions[*start_idx + j];
                    assert(w == before[row + j]);
                    weights.set(row + j, correct(w, err, q));
                    j = j + 1;
                }
            },
            Component::Mix2 { sizebits, p1_idx, p2_idx, rate, weights } => {
                let row: usize = select_row(h, c8, *sizebits, 1, weights.len());
                let e: i32 = y as i32 * 32767 - squash(predictions[i]);
                proof {
                    lemma_product_range(e as int, *rate as int, 32767, 512);
                    lemma_signed_shifts((e * *rate) as i32);
                }
                let err: i32 = (e * *rate) >> 5;
                let gap: i32 = predictions[*p1_idx] - predictions[*p2_idx];
                proof {
                    lemma_product_range(err as int, gap as int, 524272, 4095);
                    lemma_signed_shifts((err * gap + 4096) as i32);
                }
                let w: i32 = weights[row];
                weights.set(row, clamp(w + ((err * gap + 4096) >> 13), 0, 65535));
            },
            Component::Isse { prev_component, sizebits, c, cxt, ht, wt } => {
                proof {
                    lemma_row_fits(*sizebits, *c, ht@, h, c8, hmap4);
                }
                let idx: usize = *c + (hmap4 & 15) as usize;
                let bh: u8 = ht[idx];
                let err: i32 = y as i32 * 32767 - squash(predictions[i]);
                let wt_idx: usize = *cxt * 2;
                let p: i32 = predictions[*prev_component];
                let w0: i32 = wt[wt_idx];
                wt.set(wt_idx, correct(w0, err, p));
                proof {
                    lemma_signed_shifts((err + 16) as i32);
                }
                let w1: i32 = wt[wt_idx + 1];
                wt.set(wt_idx + 1, clamp512k(w1 + ((err + 16) >> 5)));
                ht.set(idx, next(bh, y));
            },
            Component::Sse { prev_component, limit, cxt, cm } => {
                proof {
                    lemma_wide_slot_fits(*cxt, cm@.len());
                }
                let slot: usize = *cxt & (cm.len() - 1);
                train(&mut cm[slot], *limit as u32, y);
            },
        }
    }
}

/// Corrects a weight in proportion to the error and to the prediction that it was applied to.
fn correct(w: i32, err: i32, p: i32) -> (r: i32)
    requires
        -524288 <= w <= 524287,
        -1048544 <= err <= 1048544,
        -2048 <= p <= 2047,
    ensures
        r == corrected(w, err as int, p as int),
{
    proof {
        lemma_product_range(err as int, p as int, 1048544, 2048);
        lemma_signed_shifts((err * p + 4096) as i32);
    }
    clamp512k(w + ((err * p + 4096) >> 13))
}

/// Lets a match model learn the bit `y`.
fn update_match(
    cxt: &mut usize,
    buf: &mut Vec<u8>,
    index: &mut Vec<u32>,
    a: &mut usize,
    b: &mut usize,
    ptr: &mut usize,
    h: u32,
    y: u8,
)
    requires
        *old(cxt) < 8,
        *old(ptr) < old(buf).len(),
        0 < old(index).len(),
        y <= 1,
    ensures
        (ComponentState::Match {
            cxt: *final(cxt),
            buf: final(buf)@,
            index: final(index)@,
            a: *final(a),
            b: *final(b),
            ptr: *final(ptr),
        }) == match_updated(
            *old(cxt),
            old(buf)@,
            old(index)@,
            *old(a),
            *old(b),
            *old(ptr),
            h,
            y,
        ),
{
    let buf_mask: usize = buf.len() - 1;
    // Check for a mismatch against the predicted bit.
    if *a > 0 {
        proof {
            lemma_wide_slot_fits(ptr.wrapping_sub(*b), buf@.len());
        }
        let match_pos: usize = ptr.wrapping_sub(*b) & buf_mask;
        let predicted: u8 = (buf[match_pos] >> (7 - *cxt as u8)) & 1;
        if predicted != y {
            *a = 0;
        }
    }
    // Accumulate the bit into the current byte.
    let byte: u8 = buf[*ptr];
    buf.set(*ptr, byte.wrapping_mul(2).wrapping_add(y));
    *cxt = *cxt + 1;
    if *cxt == 8 {
        *cxt = 0;
        proof {
            lemma_wide_slot_fits((*ptr + 1) as usize, buf@.len());
            lemma_wide_slot_fits(h as usize, index@.len());
        }
        *ptr = (*ptr + 1) & buf_mask;
        let hash_idx: usize = (h as usize) & (index.len() - 1);
        if *a == 0 {
            *b = ptr.wrapping_sub(index[hash_idx] as usize) & buf_mask;
            if *b != 0 {
                *a = measure_match(buf, *ptr, *b);
            }
        } else if *a < 255 {
            *a = *a + 1;
        }
        index.set(hash_idx, *ptr as u32);
    }
}

/// The number of bytes, up to 255, in which the text before `ptr` agrees with the text `b` bytes
/// before it.
fn measure_match(buf: &Vec<u8>, ptr: usize, b: usize) -> (a: usize)
    requires
        buf.len() > 0,
    ensures
        a == match_length(buf@, ptr, b, 0),
{
    let buf_mask: usize = buf.len() - 1;
    let mut a: usize = 0;
    while a < 255
        invariant_except_break
            a <= 255,
            buf.len() > 0,
            buf_mask == buf.len() - 1,
            match_length(buf@, ptr, b, a as int) == match_length(buf@, ptr, b, 0),
        ensures
            a == match_length(buf@, ptr, b, 0),
        decreases 255 - a,
    {
        proof {
            lemma_wide_slot_fits(ptr.wrapping_sub((a + 1) as usize), buf@.len());
            lemma_wide_slot_fits(ptr.wrapping_sub((a + 1) as usize).wrapping_sub(b), buf@.len());
        }
        let p1: usize = ptr.wrapping_sub(a + 1) & buf_mask;
        let p2: usize = ptr.wrapping_sub(a + 1).wrapping_sub(b) & buf_mask;
        if buf[p1] != buf[p2] {
            break;
        }
        a = a + 1;
    }
    a
}

/// Adding a signed number in two's complement adds it modulo 2^32.
proof fn lemma_wrapping_nudge(e: u32, d: i32)
    ensures
        e.wrapping_add(d as u32) == (e + d) % 0x1_0000_0000,
{
    let low = d as u32;
    assert(low == d as i64 % 0x1_0000_0000i64) by (bit_vector)
        requires
            low == d as u32,
    ;
}

/// Right shifts divide.
proof fn lemma_shifts(e: u32)
    by (bit_vector)
    ensures
        e >> 17 == e / 131072,
        e >> 10 == e / 1024,
        e >> 8 == e / 256,
        e >> 17 <= 32767,
        e >> 10 <= 4194303,
        e >> 8 <= 16777215,
{
}

/// Right shifts of signed numbers divide and round down.
proof fn lemma_signed_shifts(x: i32)
    ensures
        x >> 16 == x / 65536,
        x >> 13 == x / 8192,
        x >> 8 == x / 256,
        x >> 5 == x / 32,
        x >> 4 == x / 16,
        x >> 2 == x / 4,
{
    assert(x >> 16 == x / 65536) by (bit_vector);
    assert(x >> 13 == x / 8192) by (bit_vector);
    assert(x >> 8 == x / 256) by (bit_vector);
    assert(x >> 5 == x / 32) by (bit_vector);
    assert(x >> 4 == x / 16) by (bit_vector);
    assert(x >> 2 == x / 4) by (bit_vector);
}

/// A row of 32 entries does not wrap around, whatever the row.
pub proof fn lemma_row_of_32(x: usize)
    ensures
        x.wrapping_mul(32) + 31 <= usize::MAX,
{
    assert((x.wrapping_mul(32) as int) % 32 == 0) by {
        let range = usize::MAX + 1;
        let t = x * 32;
        assert(range % 32 == 0);
        assert(t % range == t - range * (t / range)) by {
            vstd::arithmetic::div_mod::lemma_fundamental_div_mod(t, range);
        }
        let r = range / 32;
        assert(range == 32 * r);
        assert(range * (t / range) == 32 * (r * (t / range))) by (nonlinear_arith)
            requires
                range == 32 * r,
        ;
    }
    assert((usize::MAX + 1) % 32 == 0);
}

/// The first of the `m` weights that a context selects.
fn select_row(h: u32, c8: u32, sizebits: u32, m: usize, len: usize) -> (row: usize)
    requires
        sizebits <= 30,
        pow2(sizebits as nat) * m <= len,
    ensures
        row == weight_row(h, c8, sizebits, m as int),
        row + m <= len,
{
    proof {
        vstd::bits::lemma_u32_pow2_no_overflow(sizebits as nat);
        vstd::bits::lemma_u32_shl_is_mul(1, sizebits);
        vstd::arithmetic::power2::lemma_pow2_pos(sizebits as nat);
        lemma_weight_row_fits(h, c8, sizebits, m as int, len as nat);
    }
    let size: u32 = 1u32 << sizebits;
    (h.wrapping_add(c8) % size) as usize * m
}

/// `RangeInclusive::start` gives the lower bound of a range that has not been iterated to its end.
/// Of one that has been, the standard library does not say what it gives.
pub assume_specification<Idx>[ std::ops::RangeInclusive::<Idx>::start ](
    range: &std::ops::RangeInclusive<Idx>,
) -> (r: &Idx)
    ensures
        !range@.exhausted ==> *r == range@.start,
;

/// `RangeInclusive::end` gives the upper bound of a range that has not been iterated to its end.
/// Of one that has been, the standard library does not say what it gives.
pub assume_specification<Idx>[ std::ops::RangeInclusive::<Idx>::end ](
    range: &std::ops::RangeInclusive<Idx>,
) -> (r: &Idx)
    ensures
        !range@.exhausted ==> *r == range@.end,
;

} // verus!
