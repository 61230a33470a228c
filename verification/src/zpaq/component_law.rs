//! What holds of every component: what learning keeps, what a repeated prediction gives, and where
//! a context model's prediction moves.

use vstd::prelude::*;
use crate::zpaq::component_state::{
    current_row, dot_product, lemma_row_fits, lemma_slot_fits, lemma_weight_row_fits,
    lemma_wide_slot_fits, slot_of, weight_row, ComponentState,
};
use crate::zpaq::history::{law_find_again, law_trained_towards, trained, valid_table_size};
use crate::zpaq::logistic::law_stretch_monotone;

verus! {

/// Two lists of predictions agree in their first `k` entries.
pub open spec fn same_before(p: Seq<i32>, q: Seq<i32>, k: int) -> bool {
    &&& p.len() == q.len()
    &&& forall|j: int| 0 <= j < k ==> #[trigger] p[j] == q[j]
}

impl ComponentState {
    /// The other component is of the same kind, and has the same parameters, inputs and table
    /// sizes.
    pub open spec fn same_shape(self, other: ComponentState) -> bool {
        match self {
            ComponentState::Cm { limit, cm } => {
                &&& other is Cm
                &&& other->Cm_limit == limit
                &&& other->Cm_cm.len() == cm.len()
            },
            ComponentState::Icm { sizebits, c, cxt, ht, cm } => {
                &&& other is Icm
                &&& other->Icm_sizebits == sizebits
                &&& other->Icm_ht.len() == ht.len()
                &&& other->Icm_cm.len() == cm.len()
            },
            ComponentState::Match { cxt, buf, index, a, b, ptr } => {
                &&& other is Match
                &&& other->buf.len() == buf.len()
                &&& other->index.len() == index.len()
            },
            ComponentState::Mix { sizebits, start_idx, m, rate, weights } => {
                &&& other is Mix
                &&& other->Mix_sizebits == sizebits
                &&& other->start_idx == start_idx
                &&& other->m == m
                &&& other->Mix_rate == rate
                &&& other->Mix_weights.len() == weights.len()
            },
            ComponentState::Mix2 { sizebits, p1_idx, p2_idx, rate, weights } => {
                &&& other is Mix2
                &&& other->Mix2_sizebits == sizebits
                &&& other->p1_idx == p1_idx
                &&& other->p2_idx == p2_idx
                &&& other->Mix2_rate == rate
                &&& other->Mix2_weights.len() == weights.len()
            },
            ComponentState::Isse { prev_component, sizebits, c, cxt, ht, wt } => {
                &&& other is Isse
                &&& other->Isse_prev_component == prev_component
                &&& other->Isse_sizebits == sizebits
                &&& other->Isse_ht.len() == ht.len()
                &&& other->wt.len() == wt.len()
            },
            ComponentState::Sse { prev_component, limit, cxt, cm } => {
                &&& other is Sse
                &&& other->Sse_prev_component == prev_component
                &&& other->Sse_limit == limit
                &&& other->Sse_cm.len() == cm.len()
            },
        }
    }

    /// The component takes its inputs from the predictions before the `k`-th.
    pub open spec fn refers_below(self, k: int) -> bool {
        match self {
            ComponentState::Mix { start_idx, m, .. } => start_idx + m <= k,
            ComponentState::Mix2 { p1_idx, p2_idx, .. } => p1_idx < k && p2_idx < k,
            ComponentState::Isse { prev_component, .. } => prev_component < k,
            ComponentState::Sse { prev_component, .. } => prev_component < k,
            _ => true,
        }
    }

    /// Predicting and learning keep a component's kind, its parameters, its inputs and the sizes
    /// of its tables.
    pub proof fn law_shape_kept(
        self,
        i: int,
        h: u32,
        c8: u32,
        hmap4: u32,
        predictions: Seq<i32>,
        y: u8,
    )
        requires
            self.wf(predictions.len()),
        ensures
            self.same_shape(self.predicted(h, c8, hmap4, predictions).0),
            self.same_shape(self.updated(i, h, c8, hmap4, predictions, y)),
    {
        match self {
            ComponentState::Icm { sizebits, c, cxt, ht, cm } => {
                lemma_row_fits(sizebits, c, ht, h, c8, hmap4);
            },
            ComponentState::Isse { prev_component, sizebits, c, cxt, ht, wt } => {
                lemma_row_fits(sizebits, c, ht, h, c8, hmap4);
            },
            ComponentState::Cm { limit, cm } => {
                lemma_slot_fits(h ^ hmap4, cm.len());
            },
            ComponentState::Match { cxt, buf, index, a, b, ptr } => {
                lemma_wide_slot_fits(h as usize, index.len());
            },
            ComponentState::Mix { .. } => {},
            ComponentState::Mix2 { sizebits, p1_idx, p2_idx, rate, weights } => {
                lemma_weight_row_fits(h, c8, sizebits, 1, weights.len());
            },
            ComponentState::Sse { prev_component, limit, cxt, cm } => {
                lemma_wide_slot_fits(cxt, cm.len());
            },
        }
    }

    /// A component that predicts a second time in the same context, from inputs that did not
    /// change, predicts the same and stays as it is.
    pub proof fn law_predicted_again(
        self,
        k: int,
        h: u32,
        c8: u32,
        hmap4: u32,
        p: Seq<i32>,
        q: Seq<i32>,
    )
        requires
            self.wf(p.len()),
            self.refers_below(k),
            same_before(p, q, k),
        ensures
            self.predicted(h, c8, hmap4, p).0.predicted(h, c8, hmap4, q) == self.predicted(
                h,
                c8,
                hmap4,
                p,
            ),
    {
        match self {
            ComponentState::Icm { sizebits, c, cxt, ht, cm } => {
                lemma_row_again(sizebits, c, ht, h, c8);
            },
            ComponentState::Mix { sizebits, start_idx, m, rate, weights } => {
                let row = weight_row(h, c8, sizebits, m as int);
                lemma_same_product(weights, row, p, q, start_idx as int, m as int, k);
            },
            ComponentState::Isse { prev_component, sizebits, c, cxt, ht, wt } => {
                lemma_row_again(sizebits, c, ht, h, c8);
            },
            _ => {},
        }
    }
}

proof fn lemma_row_again(sizebits: u32, c: usize, ht: Seq<u8>, h: u32, c8: u32)
    requires
        valid_table_size(ht.len()),
    ensures
        ({
            let (found, row) = current_row(sizebits, c, ht, h, c8);
            current_row(sizebits, row, found, h, c8) == (found, row)
        }),
{
    law_find_again(ht, (sizebits + 2) as u32, h.wrapping_add((c8 * 16) as u32));
}

proof fn lemma_same_product(
    weights: Seq<i32>,
    row: int,
    p: Seq<i32>,
    q: Seq<i32>,
    start: int,
    n: int,
    k: int,
)
    requires
        same_before(p, q, k),
        0 <= start,
        start + n <= k,
    ensures
        dot_product(weights, row, p, start, n) == dot_product(weights, row, q, start, n),
    decreases n,
{
    if n > 0 {
        lemma_same_product(weights, row, p, q, start, n - 1, k);
        assert(p[start + n - 1] == q[start + n - 1]);
    }
}

/// A context model that learned the bit `y` keeps all its entries but that of the context, and
/// what it then predicts in that context has not moved away from `y`.
pub proof fn law_cm_learns(
    limit: usize,
    cm: Seq<u32>,
    i: int,
    h: u32,
    c8: u32,
    hmap4: u32,
    predictions: Seq<i32>,
    y: u8,
)
    requires
        limit <= 1023,
        0 < cm.len() <= usize::MAX,
        y <= 1,
    ensures
        ({
            let before = (ComponentState::Cm { limit, cm });
            let after = before.updated(i, h, c8, hmap4, predictions, y);
            let p0 = before.predicted(h, c8, hmap4, predictions).1;
            let p1 = after.predicted(h, c8, hmap4, predictions).1;
            let slot = slot_of(h ^ hmap4, cm.len());
            &&& after is Cm
            &&& after->Cm_limit == limit
            &&& after->Cm_cm.len() == cm.len()
            &&& 0 <= slot < cm.len()
            &&& forall|k: int|
                0 <= k < cm.len() && k != slot ==> #[trigger] after->Cm_cm[k] == cm[k]
            &&& y == 1 ==> p1 >= p0
            &&& y == 0 ==> p1 <= p0
        }),
{
    let slot = slot_of(h ^ hmap4, cm.len());
    lemma_slot_fits(h ^ hmap4, cm.len());
    let e0 = cm[slot];
    let e1 = trained(e0, limit as u32, y);
    law_trained_towards(e0, limit as u32, y);
    if y == 1 {
        law_stretch_monotone(e0 as int / 131072, e1 as int / 131072);
    } else {
        law_stretch_monotone(e1 as int / 131072, e0 as int / 131072);
    }
}

} // verus!
