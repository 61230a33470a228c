//! What the components that keep probabilities are for: a context selects a probability or a bit
//! history, and every bit moves what was selected towards it.

use vstd::prelude::*;
use vstd::arithmetic::power2::{lemma2_to64, lemma_pow2_pos};
use crate::zpaq::component::lemma_row_of_32;
use crate::zpaq::component_state::{
    current_row, history_slot, icm_table, interpolate, lemma_interpolate_range, lemma_slot_fits,
    lemma_wide_slot_fits, nudged, slot_of, sse_position, sse_slot, valid_predictions,
    wide_slot_of, ComponentState,
};
use crate::zpaq::history::{find_of, next_of};
use crate::zpaq::history_law::{has_learned, law_initial_probability, law_trained_amount};
use crate::zpaq::learning_law::{is_moved, law_surprise, surprise};
use crate::zpaq::logistic::{clamp_to, law_stretch_monotone, stretch_of};
use crate::zpaq::match_law::{has_size, lemma_slot_is_remainder, lemma_words};

verus! {

/// The place of the bit history in use: behind the row's check byte, by the known bits of the
/// nibble after a leading one.
proof fn lemma_history_slot(c: usize, hmap4: u32)
    ensures
        history_slot(c, hmap4) == c + hmap4 % 16,
{
    lemma2_to64();
    vstd::bits::lemma_low_bits_mask_values();
    vstd::bits::lemma_u32_low_bits_mask_is_mod(hmap4, 4);
}

/// At the first bit of a byte and of its second nibble, the row of a context is looked up by its
/// hash and the known bits. In between it stays.
pub proof fn law_current_row(sizebits: u32, c: usize, ht: Seq<u8>, h: u32, c8: u32)
    requires
        1 <= c8 <= 255,
    ensures
        ({
            let (table, row) = current_row(sizebits, c, ht, h, c8);
            if c8 == 1 || 16 <= c8 <= 31 {
                let hash = ((h + 16 * c8) % 0x1_0000_0000) as u32;
                let found = find_of(ht, (sizebits + 2) as u32, hash);
                table == found.0 && row == found.1
            } else {
                table == ht && row == c
            }
        }),
{
    assert(c8 <= 255 ==> (c8 & 0xf0 == 16 <==> 16 <= c8 <= 31)) by (bit_vector);
    assert(h.wrapping_add((c8 * 16) as u32) == (h + 16 * c8) % 0x1_0000_0000);
}

/// An indirect secondary estimation predicts by two weights that the bit history of its context
/// selects: its input by the first, of 65536 parts, and a 1024th of the second.
pub proof fn law_isse_predicts(
    before: ComponentState,
    h: u32,
    c8: u32,
    hmap4: u32,
    predictions: Seq<i32>,
)
    requires
        before is Isse,
        before.wf(predictions.len()),
        valid_predictions(predictions),
    ensures
        ({
            let (after, p) = before.predicted(h, c8, hmap4, predictions);
            let (ht, c) = current_row(
                before->Isse_sizebits,
                before->Isse_c,
                before->Isse_ht,
                h,
                c8,
            );
            let bh = ht[c + hmap4 % 16];
            let wt = before->wt;
            let sum = wt[2 * bh] * predictions[before->Isse_prev_component as int] + wt[2 * bh + 1]
                * 64;
            &&& after == (ComponentState::Isse {
                prev_component: before->Isse_prev_component,
                sizebits: before->Isse_sizebits,
                c,
                cxt: bh as usize,
                ht,
                wt,
            })
            &&& -2048 <= p <= 2047
            &&& p > -2048 ==> 65536 * p <= sum
            &&& p < 2047 ==> sum < 65536 * (p + 1)
        }),
{
    let (ht, c) = current_row(before->Isse_sizebits, before->Isse_c, before->Isse_ht, h, c8);
    lemma_history_slot(c, hmap4);
}

/// The weights of an indirect secondary estimation after the bit `y`: the two in use move with the
/// surprise, the first also with the input. All others stay. The bit history in use takes up `y`.
pub proof fn law_isse_weights(
    before: ComponentState,
    i: int,
    h: u32,
    c8: u32,
    hmap4: u32,
    predictions: Seq<i32>,
    y: u8,
)
    requires
        before is Isse,
        before.wf(predictions.len()),
        valid_predictions(predictions),
        y <= 1,
    ensures
        ({
            let after = before.updated(i, h, c8, hmap4, predictions, y);
            let wt = before->wt;
            let new = after->wt;
            let k = 2 * before->Isse_cxt;
            let gap = surprise(y, predictions[i]);
            let p = predictions[before->Isse_prev_component as int];
            let slot = before->Isse_c + hmap4 % 16;
            &&& after is Isse
            &&& new.len() == wt.len()
            &&& forall|j: int|
                0 <= j < wt.len() && j != k && j != k + 1 ==> #[trigger] new[j] == wt[j]
            &&& is_moved(wt[k] as int, new[k] as int, gap * p, 8192, 4096, -524288, 524287)
            &&& is_moved(wt[k + 1] as int, new[k + 1] as int, gap, 32, 16, -524288, 524287)
            &&& after->Isse_ht == before->Isse_ht.update(slot, next_of(before->Isse_ht[slot], y))
            &&& after->Isse_c == before->Isse_c
            &&& after->Isse_cxt == before->Isse_cxt
        }),
{
    let after = before.updated(i, h, c8, hmap4, predictions, y);
    let wt = before->wt;
    let new = after->wt;
    let k = 2 * before->Isse_cxt;
    let gap = surprise(y, predictions[i]);
    let p = predictions[before->Isse_prev_component as int] as int;
    lemma_history_slot(before->Isse_c, hmap4);
    assert(valid_weight_at(wt, k) && valid_weight_at(wt, k + 1));
    let d0 = (gap * p + 4096) / 8192;
    let d1 = (gap + 16) / 32;
    assert(new[k] == clamp_to(wt[k] + d0, -524288, 524287));
    assert(new[k + 1] == clamp_to(wt[k + 1] + d1, -524288, 524287));
}

/// The weight at a place is a 20-bit signed number.
spec fn valid_weight_at(wt: Seq<i32>, k: int) -> bool {
    -524288 <= wt[k] <= 524287
}

/// Once it learned the bit `y`, an indirect secondary estimation with the same bit history and the
/// same input predicts nothing that has moved away from `y`, in the context that it was in.
pub proof fn law_isse_learns(
    before: ComponentState,
    i: int,
    h: u32,
    c8: u32,
    hmap4: u32,
    predictions: Seq<i32>,
    y: u8,
)
    requires
        before is Isse,
        before.wf(predictions.len()),
        valid_predictions(predictions),
        before.predicted(h, c8, hmap4, predictions).0 == before,
        y <= 1,
    ensures
        ({
            let after = before.updated(i, h, c8, hmap4, predictions, y);
            let learned = (ComponentState::Isse {
                prev_component: before->Isse_prev_component,
                sizebits: before->Isse_sizebits,
                c: before->Isse_c,
                cxt: before->Isse_cxt,
                ht: before->Isse_ht,
                wt: after->wt,
            });
            let p0 = before.predicted(h, c8, hmap4, predictions).1;
            let p1 = learned.predicted(h, c8, hmap4, predictions).1;
            let k = 2 * before->Isse_cxt;
            &&& y == 1 ==> p1 >= p0 && after->wt[k + 1] >= before->wt[k + 1]
            &&& y == 0 ==> p1 <= p0 && after->wt[k + 1] <= before->wt[k + 1]
        }),
{
    let after = before.updated(i, h, c8, hmap4, predictions, y);
    let k = 2 * before->Isse_cxt;
    let p = predictions[before->Isse_prev_component as int] as int;
    let gap = surprise(y, predictions[i]);
    law_isse_weights(before, i, h, c8, hmap4, predictions, y);
    law_surprise(y, predictions[i]);
    let (w0, w1) = (before->wt[k] as int, before->wt[k + 1] as int);
    let (v0, v1) = (after->wt[k] as int, after->wt[k + 1] as int);
    assert(v0 * p - w0 * p == (v0 - w0) * p) by (nonlinear_arith);
    assert((gap >= 0 && p >= 0 ==> gap * p >= 0) && (gap >= 0 && p <= 0 ==> gap * p <= 0) && (gap
        <= 0 && p >= 0 ==> gap * p <= 0) && (gap <= 0 && p <= 0 ==> gap * p >= 0))
        by (nonlinear_arith);
    assert((v0 >= w0 && p >= 0 ==> (v0 - w0) * p >= 0) && (v0 >= w0 && p <= 0 ==> (v0 - w0) * p
        <= 0) && (v0 <= w0 && p >= 0 ==> (v0 - w0) * p <= 0) && (v0 <= w0 && p <= 0 ==> (v0 - w0)
        * p >= 0)) by (nonlinear_arith);
}

/// Every probability of an indirect context model is one of 2^23 parts.
pub open spec fn valid_histories(cm: Seq<u32>) -> bool {
    forall|j: int| 0 <= j < cm.len() ==> #[trigger] cm[j] < 8388608
}

/// The initial probabilities of an indirect context model are of 2^23 parts.
pub proof fn law_icm_start(sizebits: u32)
    ensures
        valid_histories(ComponentState::new_icm(sizebits)->Icm_cm),
{
    let cm = icm_table();
    assert forall|j: int| 0 <= j < cm.len() implies #[trigger] cm[j] < 8388608 by {
        law_initial_probability(j as u8);
    }
}

/// An indirect context model predicts the logit of the probability that the bit history of its
/// context selects.
pub proof fn law_icm_predicts(
    before: ComponentState,
    h: u32,
    c8: u32,
    hmap4: u32,
    predictions: Seq<i32>,
)
    requires
        before is Icm,
        before.wf(predictions.len()),
        valid_histories(before->Icm_cm),
    ensures
        ({
            let (after, p) = before.predicted(h, c8, hmap4, predictions);
            let (ht, c) = current_row(before->Icm_sizebits, before->Icm_c, before->Icm_ht, h, c8);
            let bh = ht[c + hmap4 % 16];
            &&& after == (ComponentState::Icm {
                sizebits: before->Icm_sizebits,
                c,
                cxt: bh as usize,
                ht,
                cm: before->Icm_cm,
            })
            &&& p == stretch_of(before->Icm_cm[bh as int] as int / 256)
        }),
{
    let (ht, c) = current_row(before->Icm_sizebits, before->Icm_c, before->Icm_ht, h, c8);
    lemma_history_slot(c, hmap4);
    let bh = ht[c + hmap4 % 16];
    assert(before->Icm_cm[bh as int] < 8388608);
}

/// Once it learned the bit `y`, an indirect context model has moved the probability of the bit
/// history in use by a fourth of what it lacks, and no other. With the same history it then
/// predicts nothing that has moved away from `y`. The history takes up `y`.
pub proof fn law_icm_learns(
    before: ComponentState,
    i: int,
    h: u32,
    c8: u32,
    hmap4: u32,
    predictions: Seq<i32>,
    y: u8,
)
    requires
        before is Icm,
        before.wf(predictions.len()),
        valid_histories(before->Icm_cm),
        before.predicted(h, c8, hmap4, predictions).0 == before,
        y <= 1,
    ensures
        ({
            let after = before.updated(i, h, c8, hmap4, predictions, y);
            let learned = (ComponentState::Icm {
                sizebits: before->Icm_sizebits,
                c: before->Icm_c,
                cxt: before->Icm_cxt,
                ht: before->Icm_ht,
                cm: after->Icm_cm,
            });
            let p0 = before.predicted(h, c8, hmap4, predictions).1;
            let p1 = learned.predicted(h, c8, hmap4, predictions).1;
            let k = before->Icm_cxt as int;
            let old = before->Icm_cm[k] as int;
            let new = after->Icm_cm[k] as int;
            let lack = (if y == 1 {
                32767int
            } else {
                0
            }) - old / 256;
            let slot = before->Icm_c + hmap4 % 16;
            &&& after is Icm
            &&& valid_histories(after->Icm_cm)
            &&& after->Icm_cm.len() == before->Icm_cm.len()
            &&& forall|j: int|
                0 <= j < before->Icm_cm.len() && j != k ==> #[trigger] after->Icm_cm[j]
                    == before->Icm_cm[j]
            &&& 4 * (new - old) <= lack < 4 * (new - old) + 4
            &&& y == 1 ==> new >= old && p1 >= p0
            &&& y == 0 ==> new <= old && p1 <= p0
            &&& after->Icm_ht == before->Icm_ht.update(slot, next_of(before->Icm_ht[slot], y))
            &&& after->Icm_c == before->Icm_c
            &&& after->Icm_cxt == before->Icm_cxt
        }),
{
    let after = before.updated(i, h, c8, hmap4, predictions, y);
    let learned = (ComponentState::Icm {
        sizebits: before->Icm_sizebits,
        c: before->Icm_c,
        cxt: before->Icm_cxt,
        ht: before->Icm_ht,
        cm: after->Icm_cm,
    });
    let k = before->Icm_cxt as int;
    lemma_history_slot(before->Icm_c, hmap4);
    let old = before->Icm_cm[k] as int;
    assert(before->Icm_cm[k] < 8388608);
    let new = nudged(before->Icm_cm[k], y) as int;
    let lack = y * 32767 - old / 256;
    assert(0 <= old + lack / 4 < 8388608);
    assert(new == old + lack / 4);
    assert forall|j: int| 0 <= j < after->Icm_cm.len() implies #[trigger] after->Icm_cm[j]
        < 8388608 by {
        if j != k {
            assert(after->Icm_cm[j] == before->Icm_cm[j]);
        }
    }
    law_icm_predicts(before, h, c8, hmap4, predictions);
    law_icm_predicts(learned, h, c8, hmap4, predictions);
    if y == 1 {
        law_stretch_monotone(old / 256, new / 256);
    } else {
        law_stretch_monotone(new / 256, old / 256);
    }
}

/// In a context model with 2^`sizebits` probabilities, the low bits of the context select one, and
/// its logit is predicted.
pub proof fn law_cm_predicts(
    limit: usize,
    cm: Seq<u32>,
    sizebits: u32,
    h: u32,
    c8: u32,
    hmap4: u32,
    predictions: Seq<i32>,
)
    requires
        has_size(cm.len(), sizebits),
        sizebits < 32,
    ensures
        ({
            let model = (ComponentState::Cm { limit, cm });
            let slot = (h ^ hmap4) as int % cm.len() as int;
            &&& model.predicted(h, c8, hmap4, predictions) == (
                model,
                stretch_of(cm[slot] as int / 131072),
            )
            &&& slot_of(h ^ hmap4, cm.len()) == slot
        }),
{
    lemma_cm_slot(h ^ hmap4, cm.len(), sizebits);
}

proof fn lemma_cm_slot(x: u32, len: nat, sizebits: u32)
    requires
        has_size(len, sizebits),
        sizebits < 32,
    ensures
        slot_of(x, len) == x as int % len as int,
{
    lemma2_to64();
    lemma_pow2_pos(sizebits as nat);
    vstd::arithmetic::power2::lemma_pow2_strictly_increases(sizebits as nat, 32);
    vstd::bits::lemma_u32_low_bits_mask_is_mod(x, sizebits as nat);
}

/// Once it learned the bit `y`, a context model has trained the probability of its context, and no
/// other.
pub proof fn law_cm_trains(
    limit: usize,
    cm: Seq<u32>,
    i: int,
    h: u32,
    c8: u32,
    hmap4: u32,
    predictions: Seq<i32>,
    y: u8,
)
    requires
        0 < cm.len() <= usize::MAX,
        limit <= 1023,
        y <= 1,
    ensures
        ({
            let before = (ComponentState::Cm { limit, cm });
            let after = before.updated(i, h, c8, hmap4, predictions, y);
            let k = slot_of(h ^ hmap4, cm.len());
            &&& 0 <= k < cm.len()
            &&& after == (ComponentState::Cm { limit, cm: cm.update(k, after->Cm_cm[k]) })
            &&& has_learned(cm[k], after->Cm_cm[k], limit as int, y)
        }),
{
    let k = slot_of(h ^ hmap4, cm.len());
    lemma_slot_fits(h ^ hmap4, cm.len());
    law_trained_amount(cm[k], limit as u32, y);
}

/// What a context model learned in one context leaves what it predicts in another as it was.
pub proof fn law_cm_contexts(
    limit: usize,
    cm: Seq<u32>,
    sizebits: u32,
    i: int,
    h: u32,
    hmap4: u32,
    h2: u32,
    hmap42: u32,
    c8: u32,
    predictions: Seq<i32>,
    y: u8,
)
    requires
        has_size(cm.len(), sizebits),
        sizebits < 32,
        (h ^ hmap4) as int % cm.len() as int != (h2 ^ hmap42) as int % cm.len() as int,
    ensures
        ({
            let before = (ComponentState::Cm { limit, cm });
            let after = before.updated(i, h, c8, hmap4, predictions, y);
            after.predicted(h2, c8, hmap42, predictions).1 == before.predicted(
                h2,
                c8,
                hmap42,
                predictions,
            ).1
        }),
{
    lemma_pow2_pos(sizebits as nat);
    lemma_cm_slot(h ^ hmap4, cm.len(), sizebits);
    lemma_cm_slot(h2 ^ hmap42, cm.len(), sizebits);
    lemma_slot_fits(h ^ hmap4, cm.len());
    lemma_slot_fits(h2 ^ hmap42, cm.len());
}

/// A prediction as a number of 64ths above the lowest of 32 points, from -992 to 992.
pub open spec fn points_above(p: int) -> int {
    if p < -992 {
        0
    } else if p > 991 {
        1983
    } else {
        p + 992
    }
}

/// The number of the context that an estimation is in.
pub open spec fn estimation_context(h: u32, c8: u32) -> int {
    (h + c8) % 0x1_0000_0000
}

/// The place of a point of a context in a table of `len` probabilities.
pub open spec fn point_place(h: u32, c8: u32, point: int, len: nat) -> int {
    (32 * estimation_context(h, c8) + point) % len as int
}

proof fn lemma_point_place(h: u32, c8: u32, point: int, len: nat, sizebits: u32)
    requires
        has_size(len, sizebits),
        0 <= point <= 31,
    ensures
        ({
            let row = (h.wrapping_add(c8) as usize).wrapping_mul(32);
            &&& row + 31 <= usize::MAX
            &&& wide_slot_of((row + point) as usize, len) == point_place(h, c8, point, len)
            &&& (row + point) % len as int == point_place(h, c8, point, len)
            &&& 0 <= point_place(h, c8, point, len) < len
        }),
{
    let x = h.wrapping_add(c8) as usize;
    let row = x.wrapping_mul(32);
    lemma_row_of_32(x);
    lemma_pow2_pos(sizebits as nat);
    let q = lemma_words(len, sizebits);
    let l = len as int;
    lemma_slot_is_remainder((row + point) as usize, len, sizebits);
    let w = usize::MAX + 1;
    let t = (x * 32) / w;
    vstd::arithmetic::div_mod::lemma_fundamental_div_mod(x * 32, w);
    assert(row == (x * 32) % w);
    assert(x * 32 + point == (row + point) + l * (t * q)) by (nonlinear_arith)
        requires
            x * 32 == w * t + (x * 32) % w,
            row == (x * 32) % w,
            w == q * l,
    ;
    vstd::arithmetic::div_mod::lemma_mod_multiples_vanish(t * q, row + point, l);
}

/// A secondary estimation predicts the logit of a probability between those of the two points next
/// to its input, the nearer one counting more. It remembers the nearer one.
pub proof fn law_sse_predicts(
    prev_component: usize,
    limit: usize,
    cxt: usize,
    cm: Seq<u32>,
    sizebits: u32,
    h: u32,
    c8: u32,
    hmap4: u32,
    predictions: Seq<i32>,
)
    requires
        has_size(cm.len(), sizebits),
    ensures
        ({
            let before = (ComponentState::Sse { prev_component, limit, cxt, cm });
            let (after, p) = before.predicted(h, c8, hmap4, predictions);
            let pos = points_above(predictions[prev_component as int] as int);
            let point = pos / 64;
            let part = pos % 64;
            let a = cm[point_place(h, c8, point, cm.len())] as int / 1024;
            let b = cm[point_place(h, c8, point + 1, cm.len())] as int / 1024;
            &&& p == stretch_of((a * (64 - part) + b * part) / 8192)
            &&& a <= b ==> a / 128 <= (a * (64 - part) + b * part) / 8192 <= b / 128
            &&& b <= a ==> b / 128 <= (a * (64 - part) + b * part) / 8192 <= a / 128
            &&& after == (ComponentState::Sse {
                prev_component,
                limit,
                cxt: after->Sse_cxt,
                cm,
            })
            &&& wide_slot_of(after->Sse_cxt, cm.len()) == point_place(
                h,
                c8,
                (pos + 32) / 64,
                cm.len(),
            )
        }),
{
    let pos = points_above(predictions[prev_component as int] as int);
    let point = pos / 64;
    let part = pos % 64;
    let len = cm.len();
    lemma_point_place(h, c8, point, len, sizebits);
    lemma_point_place(h, c8, point + 1, len, sizebits);
    let a = cm[point_place(h, c8, point, len)] as int / 1024;
    let b = cm[point_place(h, c8, point + 1, len)] as int / 1024;
    assert(a <= b ==> 64 * a <= a * (64 - part) + b * part <= 64 * b) by (nonlinear_arith)
        requires
            0 <= part < 64,
    ;
    assert(b <= a ==> 64 * b <= a * (64 - part) + b * part <= 64 * a) by (nonlinear_arith)
        requires
            0 <= part < 64,
    ;
    assert((pos + 32) / 64 == point + part / 32);
}

/// Once it learned the bit `y`, a secondary estimation has trained the point that it remembered and
/// no other. From the same input in the same context it then predicts nothing that has moved away
/// from `y`.
pub proof fn law_sse_learns(
    prev_component: usize,
    limit: usize,
    cxt: usize,
    cm: Seq<u32>,
    i: int,
    h: u32,
    c8: u32,
    hmap4: u32,
    predictions: Seq<i32>,
    y: u8,
)
    requires
        0 < cm.len() <= usize::MAX,
        limit <= 1023,
        y <= 1,
    ensures
        ({
            let before = (ComponentState::Sse { prev_component, limit, cxt, cm });
            let after = before.updated(i, h, c8, hmap4, predictions, y);
            let k = wide_slot_of(cxt, cm.len());
            let p0 = before.predicted(h, c8, hmap4, predictions).1;
            let p1 = after.predicted(h, c8, hmap4, predictions).1;
            &&& after is Sse
            &&& after->Sse_cm.len() == cm.len()
            &&& 0 <= k < cm.len()
            &&& forall|j: int|
                0 <= j < cm.len() && j != k ==> #[trigger] after->Sse_cm[j] == cm[j]
            &&& has_learned(cm[k], after->Sse_cm[k], limit as int, y)
            &&& y == 1 ==> p1 >= p0
            &&& y == 0 ==> p1 <= p0
        }),
{
    let before = (ComponentState::Sse { prev_component, limit, cxt, cm });
    let after = before.updated(i, h, c8, hmap4, predictions, y);
    let k = wide_slot_of(cxt, cm.len());
    lemma_wide_slot_fits(cxt, cm.len());
    law_trained_amount(cm[k], limit as u32, y);
    let new = after->Sse_cm;
    let p = predictions[prev_component as int] as int;
    let slot = sse_slot(h, c8, p);
    let wt = sse_position(p) % 64;
    let k0 = wide_slot_of(slot, cm.len());
    let k1 = wide_slot_of((slot + 1) as usize, cm.len());
    lemma_wide_slot_fits(slot, cm.len());
    lemma_wide_slot_fits((slot + 1) as usize, cm.len());
    let (a0, b0) = (cm[k0] as int / 1024, cm[k1] as int / 1024);
    let (a1, b1) = (new[k0] as int / 1024, new[k1] as int / 1024);
    assert(y == 1 ==> a1 >= a0 && b1 >= b0);
    assert(y == 0 ==> a1 <= a0 && b1 <= b0);
    assert(a1 >= a0 && b1 >= b0 ==> a1 * (64 - wt) + b1 * wt >= a0 * (64 - wt) + b0 * wt)
        by (nonlinear_arith)
        requires
            0 <= wt < 64,
    ;
    assert(a1 <= a0 && b1 <= b0 ==> a1 * (64 - wt) + b1 * wt <= a0 * (64 - wt) + b0 * wt)
        by (nonlinear_arith)
        requires
            0 <= wt < 64,
    ;
    let q0 = interpolate(cm[k0], cm[k1], wt);
    let q1 = interpolate(new[k0], new[k1], wt);
    lemma_interpolate_range(cm[k0], cm[k1], wt);
    lemma_interpolate_range(new[k0], new[k1], wt);
    if y == 1 {
        law_stretch_monotone(q0, q1);
    } else {
        law_stretch_monotone(q1, q0);
    }
}

} // verus!
