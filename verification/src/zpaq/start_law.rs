//! What new components expect, and how those of the model are put together.

use vstd::prelude::*;
use vstd::arithmetic::power2::{lemma2_to64, lemma_pow2_adds, lemma_pow2_pos, pow2};
use crate::zpaq::component_state::{
    current_row, history_slot, icm_table, isse_table, lemma_slot_fits, lemma_weight_row_fits,
    valid_predictions, ComponentState,
};
use crate::zpaq::history::{cminit_of, lemma_find_fits};
use crate::zpaq::history_law::law_initial_probability;
use crate::zpaq::learning_law::{context_number, law_mix2_predicts};
use crate::zpaq::logistic::{law_stretch_ends, lemma_squash_range, squash_of, stretch_of};
use crate::zpaq::m5::m5_components;
use crate::zpaq::state_law::law_first_history;

verus! {

/// A new context model expects neither bit, in any context. Its counts are at zero and go up to
/// four times the limit.
pub proof fn law_new_cm(
    sizebits: u32,
    limit: u32,
    h: u32,
    c8: u32,
    hmap4: u32,
    predictions: Seq<i32>,
)
    requires
        pow2(sizebits as nat) <= usize::MAX,
        4 * limit <= u32::MAX,
    ensures
        ({
            let new = ComponentState::new_cm(sizebits, limit);
            &&& new.predicted(h, c8, hmap4, predictions) == (new, 0int)
            &&& new->Cm_limit == 4 * limit
            &&& new->Cm_cm.len() == pow2(sizebits as nat)
            &&& forall|k: int|
                0 <= k < new->Cm_cm.len() ==> #[trigger] new->Cm_cm[k] == 0x8000_0000
        }),
{
    let new = ComponentState::new_cm(sizebits, limit);
    lemma_pow2_pos(sizebits as nat);
    lemma_slot_fits(h ^ hmap4, new->Cm_cm.len());
    law_stretch_ends();
}

/// A new match model follows no match, and holds no text but the one that stands for its beginning.
pub proof fn law_new_match(
    sizebits1: u32,
    sizebits2: u32,
    h: u32,
    c8: u32,
    hmap4: u32,
    predictions: Seq<i32>,
)
    ensures
        ({
            let new = ComponentState::new_match(sizebits1, sizebits2);
            &&& new.predicted(h, c8, hmap4, predictions) == (new, 0int)
            &&& new->index.len() == pow2(sizebits1 as nat)
            &&& new->buf.len() == pow2(sizebits2 as nat)
            &&& new->ptr == 0
            &&& new->buf[0] == 1
            &&& forall|k: int| 0 <= k < new->index.len() ==> #[trigger] new->index[k] == 0
            &&& forall|k: int| 0 < k < new->buf.len() ==> #[trigger] new->buf[k] == 0
        }),
{
    lemma_pow2_pos(sizebits2 as nat);
}

/// The weights of a new mixer are the same for all inputs, and together one.
pub proof fn law_new_mix(sizebits: u32, first: usize, last: usize, rate: u32)
    requires
        first <= last < usize::MAX,
        last - first < 65536,
    ensures
        ({
            let new = ComponentState::new_mix(sizebits, first, last, rate);
            let m = last - first + 1;
            &&& new->m == m
            &&& new->start_idx == first
            &&& new->Mix_sizebits == sizebits
            &&& rate <= i32::MAX ==> new->Mix_rate == rate
            &&& new->Mix_weights.len() == pow2(sizebits as nat) * m
            &&& forall|k: int|
                0 <= k < new->Mix_weights.len() ==> m * #[trigger] new->Mix_weights[k] <= 65536 < m
                    * (new->Mix_weights[k] + 1)
        }),
{
    let new = ComponentState::new_mix(sizebits, first, last, rate);
    let m = last - first + 1;
    let w = 65536int / m;
    vstd::arithmetic::div_mod::lemma_fundamental_div_mod(65536, m);
    assert(m * w <= 65536 < m * (w + 1) && 0 <= w <= 65536) by (nonlinear_arith)
        requires
            1 <= m,
            65536 == m * w + 65536int % m,
            0 <= 65536int % m < m,
    ;
}

/// A new two-way mixer predicts the mean of its inputs, in any context.
pub proof fn law_new_mix2(
    sizebits: u32,
    p1_idx: usize,
    p2_idx: usize,
    rate: u32,
    h: u32,
    c8: u32,
    hmap4: u32,
    predictions: Seq<i32>,
)
    requires
        sizebits <= 30,
        rate <= 512,
        pow2(sizebits as nat) <= usize::MAX,
        p1_idx < predictions.len(),
        p2_idx < predictions.len(),
        valid_predictions(predictions),
    ensures
        ({
            let new = ComponentState::new_mix2(sizebits, p1_idx, p2_idx, rate);
            let p = new.predicted(h, c8, hmap4, predictions).1;
            &&& 2 * p <= predictions[p1_idx as int] + predictions[p2_idx as int] < 2 * p + 2
            &&& new->Mix2_weights.len() == pow2(sizebits as nat)
            &&& new->Mix2_sizebits == sizebits
            &&& new->Mix2_rate == rate
            &&& new->p1_idx == p1_idx
            &&& new->p2_idx == p2_idx
        }),
{
    let new = ComponentState::new_mix2(sizebits, p1_idx, p2_idx, rate);
    match new {
        ComponentState::Mix2 { sizebits, p1_idx, p2_idx, rate, weights } => {
            law_mix2_predicts(sizebits, p1_idx, p2_idx, rate, weights, h, c8, hmap4, predictions);
            lemma_weight_row_fits(h, c8, sizebits, 1, weights.len());
            lemma_pow2_pos(sizebits as nat);
            let k = context_number(h, c8, sizebits);
            assert(0 <= k < weights.len());
            assert(weights[k] == 32768);
            let p1 = predictions[p1_idx as int] as int;
            let p2 = predictions[p2_idx as int] as int;
            let p = new.predicted(h, c8, hmap4, predictions).1;
            assert(65536 * p <= 32768 * p1 + (65536 - 32768) * p2 < 65536 * (p + 1));
        },
        _ => {},
    }
}

/// No history of a new table says anything, wherever a context is found in it.
proof fn lemma_new_row(sizebits: u32, h: u32, c8: u32, hmap4: u32)
    requires
        sizebits <= 25,
        hmap4 % 16 != 0,
    ensures
        ({
            let ht = Seq::new(64 * pow2(sizebits as nat), |i: int| 0u8);
            let (found, row) = current_row(sizebits, 0, ht, h, c8);
            &&& row + 16 <= found.len()
            &&& found[history_slot(row, hmap4)] == 0
        }),
{
    let ht = Seq::new(64 * pow2(sizebits as nat), |i: int| 0u8);
    lemma2_to64();
    lemma_pow2_pos(sizebits as nat);
    lemma_pow2_adds(6, sizebits as nat);
    vstd::arithmetic::power2::lemma_pow2_strictly_increases((sizebits + 6) as nat, 32);
    vstd::bits::lemma_low_bits_mask_values();
    vstd::bits::lemma_u32_low_bits_mask_is_mod(hmap4, 4);
    lemma_find_fits(ht, (sizebits + 2) as u32, h.wrapping_add((c8 * 16) as u32));
}

/// A new indirect context model expects neither bit, in any context.
pub proof fn law_new_icm(
    sizebits: u32,
    h: u32,
    c8: u32,
    hmap4: u32,
    predictions: Seq<i32>,
)
    requires
        sizebits <= 25,
        hmap4 % 16 != 0,
    ensures
        ComponentState::new_icm(sizebits).predicted(h, c8, hmap4, predictions).1 == 0,
        ComponentState::new_icm(sizebits)->Icm_ht.len() == 64 * pow2(sizebits as nat),
        forall|j: int|
            0 <= j < 256 ==> #[trigger] ComponentState::new_icm(sizebits)->Icm_cm[j] == cminit_of(
                j as u8,
            ),
{
    lemma_new_row(sizebits, h, c8, hmap4);
    law_first_history();
    law_initial_probability(0);
    law_stretch_ends();
    let cm = icm_table();
    assert forall|j: int| 0 <= j < 256 implies #[trigger] cm[j] == cminit_of(j as u8) by {
        law_initial_probability(j as u8);
    }
    assert(cm[0] == 4194304);
}

/// The weights of a new indirect secondary estimation: one half, and the logit of the history's
/// initial probability.
pub proof fn law_isse_start(j: int)
    requires
        0 <= j < 256,
    ensures
        isse_table().len() == 512,
        isse_table()[2 * j] == 32768,
        ({
            let logit = stretch_of(cminit_of(j as u8) / 256);
            -512 <= logit <= 511 ==> isse_table()[2 * j + 1] == logit * 1024
        }),
{
    law_initial_probability(j as u8);
}

/// A new indirect secondary estimation predicts half its input, in any context.
pub proof fn law_new_isse(
    sizebits: u32,
    prev_component: usize,
    h: u32,
    c8: u32,
    hmap4: u32,
    predictions: Seq<i32>,
)
    requires
        sizebits <= 25,
        hmap4 % 16 != 0,
        prev_component < predictions.len(),
        valid_predictions(predictions),
    ensures
        ({
            let new = ComponentState::new_isse(sizebits, prev_component);
            let p = new.predicted(h, c8, hmap4, predictions).1;
            2 * p <= predictions[prev_component as int] < 2 * p + 2
        }),
        ComponentState::new_isse(sizebits, prev_component)->Isse_ht.len() == 64 * pow2(
            sizebits as nat,
        ),
        ComponentState::new_isse(sizebits, prev_component)->wt == isse_table(),
{
    lemma_new_row(sizebits, h, c8, hmap4);
    law_first_history();
    law_initial_probability(0);
    law_stretch_ends();
    law_isse_start(0);
    assert(cminit_of(0int as u8) == 4194304);
    let wt = isse_table();
    assert(wt[0] == 32768 && wt[1] == 0);
    let x = predictions[prev_component as int] as int;
    assert(-2048 <= x <= 2047);
    let new = ComponentState::new_isse(sizebits, prev_component);
    let ht = Seq::new(64 * pow2(sizebits as nat), |i: int| 0u8);
    let (found, row) = current_row(sizebits, 0, ht, h, c8);
    assert(found[history_slot(row, hmap4)] == 0);
    let p = new.predicted(h, c8, hmap4, predictions).1;
    assert(wt[0] * x == 32768 * x);
    assert(p == (32768 * x) / 65536);
}

/// The points of a new secondary estimation have the probabilities of their logits, from -992 to
/// 992, in every context.
pub proof fn law_new_sse(sizebits: u32, prev_component: usize, start: u32, limit: u32, j: int)
    requires
        start < 131072,
        4 * limit <= u32::MAX,
        0 <= j < 32 * pow2(sizebits as nat),
    ensures
        ({
            let new = ComponentState::new_sse(sizebits, prev_component, start, limit);
            &&& new->Sse_cm.len() == 32 * pow2(sizebits as nat)
            &&& new->Sse_limit == 4 * limit
            &&& new->Sse_prev_component == prev_component
            &&& new->Sse_cm[j] as int / 131072 == squash_of(j % 32 * 64 - 992)
            &&& new->Sse_cm[j] as int % 131072 == start
        }),
{
    let p = squash_of(j % 32 * 64 - 992) as u32;
    lemma_squash_range(j % 32 * 64 - 992);
    let e = (p << 17) | start;
    assert(e / 131072 == p && e % 131072 == start) by (bit_vector)
        requires
            p <= 32767,
            start < 131072,
            e == (p << 17) | start,
    ;
}

/// The network of the model: a chain of estimations for words and one for the last bytes, one model
/// of matches, three pairs for columns, two mixers of all of them, and a last estimation between
/// their means. All mixers learn at the same rate.
pub proof fn law_m5_network(base: int)
    requires
        0 <= base,
        base + 23 <= usize::MAX,
    ensures
        m5_components(base).len() == 23,
        forall|i: int|
            0 <= i < 23 ==> {
                let c = #[trigger] m5_components(base)[i];
                &&& c is Icm <==> i == 0 || i == 3 || i == 12 || i == 14 || i == 16
                &&& c is Isse <==> i == 1 || 4 <= i <= 10 || i == 13 || i == 15 || i == 17
                &&& c is Cm <==> i == 2
                &&& c is Match <==> i == 11
                &&& c is Mix <==> i == 18 || i == 19
                &&& c is Mix2 <==> i == 20 || i == 22
                &&& c is Sse <==> i == 21
                &&& c is Isse ==> c->Isse_prev_component == base + i - 1
                &&& c is Mix ==> c->start_idx == base && c->m == i && c->Mix_rate == 24
                &&& c is Mix2 ==> c->p1_idx == base + i - 1 && c->p2_idx == base + i - 2
                    && c->Mix2_rate == 24
                &&& c is Sse ==> c->Sse_prev_component == base + i - 1 && c->Sse_limit == 256
                &&& c is Cm ==> c->Cm_limit == 128
            },
        ({
            let c = m5_components(base);
            &&& c[0]->Icm_ht.len() == 0x100_0000
            &&& c[1]->Isse_ht.len() == 0x100_0000
            &&& c[2]->Cm_cm.len() == 512
            &&& c[3]->Icm_ht.len() == 0x800
            &&& c[4]->Isse_ht.len() == 0x2_0000
            &&& c[5]->Isse_ht.len() == 0x80_0000
            &&& forall|i: int|
                6 <= i <= 10 || i == 13 || i == 15 || i == 17
                    ==> (#[trigger] c[i])->Isse_ht.len() == 0x100_0000
            &&& c[11]->index.len() == 0x40_0000
            &&& c[11]->buf.len() == 0x100_0000
            &&& c[12]->Icm_ht.len() == 0x8_0000
            &&& c[14]->Icm_ht.len() == 0x8_0000
            &&& c[16]->Icm_ht.len() == 0x10_0000
            &&& c[18]->Mix_sizebits == 8 && c[18]->Mix_weights.len() == 256 * 18
            &&& c[19]->Mix_sizebits == 16 && c[19]->Mix_weights.len() == 65536 * 19
            &&& c[20]->Mix2_sizebits == 8 && c[20]->Mix2_weights.len() == 256
            &&& c[21]->Sse_cm.len() == 0x100_0000
            &&& c[22]->Mix2_sizebits == 0 && c[22]->Mix2_weights.len() == 1
        }),
        forall|i: int|
            0 <= i < 23 ==> {
                let c = #[trigger] m5_components(base)[i];
                &&& c is Icm ==> c->Icm_ht.len() == 64 * pow2(c->Icm_sizebits as nat)
                &&& c is Isse ==> c->Isse_ht.len() == 64 * pow2(c->Isse_sizebits as nat)
            },
{
    lemma2_to64();
}

} // verus!
