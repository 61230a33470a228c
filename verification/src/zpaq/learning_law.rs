//! What the mixing components are for: they predict the mean of their inputs by their weights, and
//! every bit moves the weights so that the bit is expected more in the same context.

use vstd::prelude::*;
use vstd::arithmetic::power2::{lemma_pow2_pos, pow2};
use crate::zpaq::component_state::{
    dot_product, lemma_product_range, lemma_weight_row_fits, valid_predictions, weight_row,
    ComponentState,
};
use crate::zpaq::logistic::{clamp_to, lemma_squash_range, squash_of};

verus! {

/// The number of the context that a component with 2^`sizebits` sets of weights is in.
pub open spec fn context_number(h: u32, c8: u32, sizebits: u32) -> int {
    (h + c8) % 0x1_0000_0000 % (pow2(sizebits as nat) as int)
}

/// How far the bit `y` lies above the probability of a one that a logit stands for.
pub open spec fn surprise(y: u8, logit: i32) -> int {
    if y == 1 {
        32767 - squash_of(logit as int)
    } else {
        -squash_of(logit as int)
    }
}

/// The sum of the first `n` inputs from `start` on, each times its weight.
pub open spec fn weighted_sum(
    weights: Seq<i32>,
    first: int,
    inputs: Seq<i32>,
    start: int,
    n: int,
) -> int
    decreases n,
{
    if n <= 0 {
        0
    } else {
        weighted_sum(weights, first, inputs, start, n - 1) + weights[first + n - 1] * inputs[start
            + n - 1]
    }
}

/// A weight moved by `step / scale` parts, up to `slack` of them, within its limits.
pub open spec fn is_moved(
    old: int,
    new: int,
    step: int,
    scale: int,
    slack: int,
    least: int,
    most: int,
) -> bool {
    &&& least <= new <= most
    &&& step >= 0 ==> new >= old
    &&& step <= 0 ==> new <= old
    &&& new < most ==> scale * (new - old) >= step - slack
    &&& new > least ==> scale * (new - old) <= step + slack
}

/// The surprise is never below zero at a one, and never above it at a zero.
pub proof fn law_surprise(y: u8, logit: i32)
    requires
        y <= 1,
    ensures
        y == 1 ==> 0 <= surprise(y, logit) <= 32767,
        y == 0 ==> -32767 <= surprise(y, logit) <= 0,
{
    lemma_squash_range(logit as int);
}

proof fn lemma_sign(a: int, b: int)
    by (nonlinear_arith)
    ensures
        a >= 0 && b >= 0 ==> a * b >= 0,
        a >= 0 && b <= 0 ==> a * b <= 0,
        a <= 0 && b >= 0 ==> a * b <= 0,
        a <= 0 && b <= 0 ==> a * b >= 0,
{
}

proof fn lemma_row(h: u32, c8: u32, sizebits: u32, m: int)
    ensures
        weight_row(h, c8, sizebits, m) == context_number(h, c8, sizebits) * m,
{
    lemma_pow2_pos(sizebits as nat);
}

/// A correction in proportion to a rounded error.
proof fn lemma_rated_step(gap: int, rate: int, p: int, part: int, err: int, delta: int)
    requires
        part == 16 || part == 32,
        0 <= rate,
        -4096 <= p <= 4096,
        err == gap * rate / part,
        delta == (err * p + 4096) / 8192,
    ensures
        gap * p >= 0 ==> delta >= 0,
        gap * p <= 0 ==> delta <= 0,
        -(8192 * part) <= 8192 * part * delta - gap * rate * p <= 8192 * part,
        gap * p >= 0 ==> gap * rate * p >= 0,
        gap * p <= 0 ==> gap * rate * p <= 0,
{
    let x = gap * rate;
    lemma_sign(gap, rate);
    lemma_sign(err, p);
    lemma_sign(x, p);
    let r = x % part;
    assert(x == part * err + r && 0 <= r < part);
    assert(part * (err * p) == x * p - r * p) by (nonlinear_arith)
        requires
            x == part * err + r,
    ;
    lemma_product_range(r, p, part - 1, 4096);
    let s = (err * p + 4096) % 8192;
    assert(8192 * delta == err * p + 4096 - s && 0 <= s < 8192);
    assert(8192 * part * delta == part * (8192 * delta)) by (nonlinear_arith);
    if part == 16 {
        assert(16 * (8192 * delta) == 16 * (err * p) + 65536 - 16 * s);
    } else {
        assert(32 * (8192 * delta) == 32 * (err * p) + 131072 - 32 * s);
    }
    assert(gap * p >= 0 ==> err * p >= 0 && x * p >= 0) by (nonlinear_arith)
        requires
            x == gap * rate,
            rate >= 0,
            x == part * err + r,
            0 <= r < part,
            part > 0,
    ;
    assert(gap * p <= 0 ==> err * p <= 0 && x * p <= 0) by (nonlinear_arith)
        requires
            x == gap * rate,
            rate >= 0,
            x == part * err + r,
            0 <= r < part,
            part > 0,
    ;
}

/// The weights of a mixer after the bit `y`: those of the context move with their inputs and the
/// surprise, by `rate / 131072` of their product. All others stay.
pub proof fn law_mix_weights(
    sizebits: u32,
    start_idx: usize,
    m: usize,
    rate: i32,
    weights: Seq<i32>,
    i: int,
    h: u32,
    c8: u32,
    hmap4: u32,
    predictions: Seq<i32>,
    y: u8,
)
    requires
        (ComponentState::Mix { sizebits, start_idx, m, rate, weights }).wf(predictions.len()),
        valid_predictions(predictions),
        0 <= rate,
        y <= 1,
    ensures
        ({
            let before = (ComponentState::Mix { sizebits, start_idx, m, rate, weights });
            let after = before.updated(i, h, c8, hmap4, predictions, y)->Mix_weights;
            let first = context_number(h, c8, sizebits) * m;
            let gap = surprise(y, predictions[i]);
            &&& after.len() == weights.len()
            &&& 0 <= first && first + m <= weights.len()
            &&& forall|k: int|
                0 <= k < weights.len() && !(first <= k < first + m) ==> #[trigger] after[k]
                    == weights[k]
            &&& forall|k: int|
                first <= k < first + m ==> is_moved(
                    weights[k] as int,
                    #[trigger] after[k] as int,
                    gap * rate * predictions[start_idx + (k - first)],
                    131072,
                    131072,
                    -524288,
                    524287,
                )
            &&& forall|k: int|
                first <= k < first + m ==> {
                    let p = predictions[start_idx + (k - first)];
                    &&& gap * p >= 0 ==> #[trigger] after[k] >= weights[k]
                    &&& gap * p <= 0 ==> after[k] <= weights[k]
                }
        }),
{
    let before = (ComponentState::Mix { sizebits, start_idx, m, rate, weights });
    let after = before.updated(i, h, c8, hmap4, predictions, y)->Mix_weights;
    let first = context_number(h, c8, sizebits) * m;
    let gap = surprise(y, predictions[i]);
    let err = gap * rate / 16;
    lemma_row(h, c8, sizebits, m as int);
    lemma_weight_row_fits(h, c8, sizebits, m as int, weights.len());
    assert forall|k: int| first <= k < first + m implies is_moved(
        weights[k] as int,
        #[trigger] after[k] as int,
        gap * rate * predictions[start_idx + (k - first)],
        131072,
        131072,
        -524288,
        524287,
    ) && {
        let p = predictions[start_idx + (k - first)];
        &&& gap * p >= 0 ==> after[k] >= weights[k]
        &&& gap * p <= 0 ==> after[k] <= weights[k]
    } by {
        let p = predictions[start_idx + (k - first)] as int;
        let delta = (err * p + 4096) / 8192;
        lemma_rated_step(gap, rate as int, p, 16, err, delta);
        lemma_sign(gap, p);
        lemma_sign(rate as int, gap * p);
        assert(gap * rate * p == rate * (gap * p)) by (nonlinear_arith);
        assert(after[k] == clamp_to(weights[k] + delta, -524288, 524287));
        if gap * rate * p >= 0 && gap * p < 0 {
            lemma_zero_rate(gap, rate as int, p);
        } else if gap * rate * p <= 0 && gap * p > 0 {
            lemma_zero_rate(gap, rate as int, p);
        }
    }
}

/// Where a product of three vanishes, the rounded step does.
proof fn lemma_zero_rate(gap: int, rate: int, p: int)
    requires
        rate >= 0,
        gap * p != 0,
        gap * p > 0 ==> gap * rate * p <= 0,
        gap * p < 0 ==> gap * rate * p >= 0,
    ensures
        rate == 0,
        gap * rate == 0,
{
    assert(rate == 0) by (nonlinear_arith)
        requires
            rate >= 0,
            gap * p != 0,
            gap * p > 0 ==> gap * rate * p <= 0,
            gap * p < 0 ==> gap * rate * p >= 0,
    ;
}

/// The sum of inputs by weights does not fall where every weight moves with its input, nor rise
/// where every weight moves against it.
proof fn lemma_products_move(
    old: Seq<i32>,
    new: Seq<i32>,
    first: int,
    inputs: Seq<i32>,
    start: int,
    n: int,
    up: bool,
)
    requires
        forall|j: int|
            0 <= j < n ==> {
                let p = #[trigger] inputs[start + j];
                let (w, v) = (old[first + j], new[first + j]);
                &&& up && p >= 0 || !up && p <= 0 ==> v >= w
                &&& up && p <= 0 || !up && p >= 0 ==> v <= w
            },
    ensures
        up ==> dot_product(new, first, inputs, start, n) >= dot_product(
            old,
            first,
            inputs,
            start,
            n,
        ),
        !up ==> dot_product(new, first, inputs, start, n) <= dot_product(
            old,
            first,
            inputs,
            start,
            n,
        ),
    decreases n,
{
    if n > 0 {
        lemma_products_move(old, new, first, inputs, start, n - 1, up);
        let p = inputs[start + (n - 1)] as int;
        assert(start + n - 1 == start + (n - 1) && first + n - 1 == first + (n - 1));
        let w = old[first + (n - 1)] as int / 256;
        let v = new[first + (n - 1)] as int / 256;
        assert((v - w) * p == v * p - w * p) by (nonlinear_arith);
        lemma_sign(v - w, p);
    }
}

/// After the bit `y`, the prediction of a mixer in the same context from the same inputs has not
/// moved away from `y`. In a context with another number it is as before.
pub proof fn law_mix_learns(
    sizebits: u32,
    start_idx: usize,
    m: usize,
    rate: i32,
    weights: Seq<i32>,
    i: int,
    h: u32,
    c8: u32,
    hmap4: u32,
    predictions: Seq<i32>,
    y: u8,
    h2: u32,
    c82: u32,
    inputs: Seq<i32>,
)
    requires
        (ComponentState::Mix { sizebits, start_idx, m, rate, weights }).wf(predictions.len()),
        valid_predictions(predictions),
        0 <= rate,
        y <= 1,
    ensures
        ({
            let before = (ComponentState::Mix { sizebits, start_idx, m, rate, weights });
            let after = before.updated(i, h, c8, hmap4, predictions, y);
            let p0 = before.predicted(h, c8, hmap4, predictions).1;
            let p1 = after.predicted(h, c8, hmap4, predictions).1;
            &&& y == 1 ==> p1 >= p0
            &&& y == 0 ==> p1 <= p0
            &&& context_number(h, c8, sizebits) != context_number(h2, c82, sizebits)
                ==> after.predicted(h2, c82, hmap4, inputs).1 == before.predicted(
                h2,
                c82,
                hmap4,
                inputs,
            ).1
        }),
{
    let before = (ComponentState::Mix { sizebits, start_idx, m, rate, weights });
    let after = before.updated(i, h, c8, hmap4, predictions, y);
    let new = after->Mix_weights;
    let a = context_number(h, c8, sizebits);
    let first = a * m;
    let gap = surprise(y, predictions[i]);
    law_surprise(y, predictions[i]);
    law_mix_weights(sizebits, start_idx, m, rate, weights, i, h, c8, hmap4, predictions, y);
    lemma_row(h, c8, sizebits, m as int);
    assert forall|j: int| 0 <= j < m implies {
        let p = #[trigger] predictions[start_idx + j];
        let (w, v) = (weights[first + j], new[first + j]);
        &&& y == 1 && p >= 0 || !(y == 1) && p <= 0 ==> v >= w
        &&& y == 1 && p <= 0 || !(y == 1) && p >= 0 ==> v <= w
    } by {
        lemma_sign(gap, predictions[start_idx + j] as int);
        assert(start_idx + ((first + j) - first) == start_idx + j);
        assert(new[first + j] == new[first + j]);
    }
    lemma_products_move(
        weights,
        new,
        first,
        predictions,
        start_idx as int,
        m as int,
        y == 1,
    );
    let b = context_number(h2, c82, sizebits);
    if a != b {
        lemma_row(h2, c82, sizebits, m as int);
        lemma_weight_row_fits(h2, c82, sizebits, m as int, weights.len());
        let other = b * m;
        assert(other + m <= first || first + m <= other) by (nonlinear_arith)
            requires
                first == a * m,
                other == b * m,
                a != b,
                m >= 0,
        ;
        lemma_same_weights(weights, new, other, inputs, start_idx as int, m as int);
    }
}

proof fn lemma_same_weights(
    old: Seq<i32>,
    new: Seq<i32>,
    first: int,
    inputs: Seq<i32>,
    start: int,
    n: int,
)
    requires
        forall|k: int| first <= k < first + n ==> #[trigger] new[k] == old[k],
    ensures
        dot_product(new, first, inputs, start, n) == dot_product(old, first, inputs, start, n),
    decreases n,
{
    if n > 0 {
        lemma_same_weights(old, new, first, inputs, start, n - 1);
        assert(new[first + n - 1] == old[first + n - 1]);
    }
}

proof fn lemma_sum_rounded(
    weights: Seq<i32>,
    first: int,
    inputs: Seq<i32>,
    start: int,
    n: int,
)
    requires
        0 <= n,
        0 <= start,
        start + n <= inputs.len(),
        valid_predictions(inputs),
    ensures
        ({
            let sum = weighted_sum(weights, first, inputs, start, n);
            let rounded = dot_product(weights, first, inputs, start, n);
            -(522240 * n) <= sum - 256 * rounded <= 522240 * n
        }),
    decreases n,
{
    if n > 0 {
        lemma_sum_rounded(weights, first, inputs, start, n - 1);
        let w = weights[first + n - 1] as int;
        let p = inputs[start + n - 1] as int;
        let q = w / 256;
        let r = w % 256;
        assert(w * p == 256 * (q * p) + r * p) by (nonlinear_arith)
            requires
                w == 256 * q + r,
        ;
        lemma_product_range(r, p, 255, 2048);
    }
}

/// A mixer predicts the sum of its inputs by the weights of the context, each of 65536 parts, up to
/// less than eight for each input by rounding, within the range of predictions.
pub proof fn law_mix_predicts(
    sizebits: u32,
    start_idx: usize,
    m: usize,
    rate: i32,
    weights: Seq<i32>,
    h: u32,
    c8: u32,
    hmap4: u32,
    predictions: Seq<i32>,
)
    requires
        (ComponentState::Mix { sizebits, start_idx, m, rate, weights }).wf(predictions.len()),
        valid_predictions(predictions),
    ensures
        ({
            let mixer = (ComponentState::Mix { sizebits, start_idx, m, rate, weights });
            let p = mixer.predicted(h, c8, hmap4, predictions).1;
            let sum = weighted_sum(
                weights,
                context_number(h, c8, sizebits) * m,
                predictions,
                start_idx as int,
                m as int,
            );
            &&& mixer.predicted(h, c8, hmap4, predictions).0 == mixer
            &&& -2048 <= p <= 2047
            &&& p > -2048 ==> 65536 * p <= sum + 522240 * m
            &&& p < 2047 ==> sum - 522240 * m < 65536 * (p + 1)
        }),
{
    let first = context_number(h, c8, sizebits) * m;
    lemma_row(h, c8, sizebits, m as int);
    lemma_sum_rounded(weights, first, predictions, start_idx as int, m as int);
}

/// The weight of a two-way mixer after the bit `y`: that of the context moves with the difference
/// of its inputs and the surprise, by `rate / 262144` of their product. All others stay. The
/// prediction in the same context from the same inputs has not moved away from `y`.
pub proof fn law_mix2_learns(
    sizebits: u32,
    p1_idx: usize,
    p2_idx: usize,
    rate: i32,
    weights: Seq<i32>,
    i: int,
    h: u32,
    c8: u32,
    hmap4: u32,
    predictions: Seq<i32>,
    y: u8,
)
    requires
        (ComponentState::Mix2 { sizebits, p1_idx, p2_idx, rate, weights }).wf(predictions.len()),
        valid_predictions(predictions),
        0 <= rate,
        y <= 1,
    ensures
        ({
            let before = (ComponentState::Mix2 { sizebits, p1_idx, p2_idx, rate, weights });
            let after = before.updated(i, h, c8, hmap4, predictions, y);
            let new = after->Mix2_weights;
            let k = context_number(h, c8, sizebits);
            let gap = surprise(y, predictions[i]);
            let lead = predictions[p1_idx as int] - predictions[p2_idx as int];
            let q0 = before.predicted(h, c8, hmap4, predictions).1;
            let q1 = after.predicted(h, c8, hmap4, predictions).1;
            &&& after is Mix2
            &&& new.len() == weights.len()
            &&& 0 <= k < weights.len()
            &&& forall|j: int| 0 <= j < weights.len() && j != k ==> #[trigger] new[j] == weights[j]
            &&& is_moved(
                weights[k] as int,
                new[k] as int,
                gap * rate * lead,
                262144,
                262144,
                0,
                65535,
            )
            &&& gap * lead >= 0 ==> new[k] >= weights[k]
            &&& gap * lead <= 0 ==> new[k] <= weights[k]
            &&& y == 1 ==> q1 >= q0
            &&& y == 0 ==> q1 <= q0
        }),
{
    let before = (ComponentState::Mix2 { sizebits, p1_idx, p2_idx, rate, weights });
    let after = before.updated(i, h, c8, hmap4, predictions, y);
    let new = after->Mix2_weights;
    let k = context_number(h, c8, sizebits);
    let gap = surprise(y, predictions[i]);
    let p1 = predictions[p1_idx as int] as int;
    let p2 = predictions[p2_idx as int] as int;
    let lead = p1 - p2;
    let err = gap * rate / 32;
    let delta = (err * lead + 4096) / 8192;
    lemma_row(h, c8, sizebits, 1);
    lemma_weight_row_fits(h, c8, sizebits, 1, weights.len());
    law_surprise(y, predictions[i]);
    lemma_rated_step(gap, rate as int, lead, 32, err, delta);
    assert(gap * rate * lead == rate * (gap * lead)) by (nonlinear_arith);
    if gap * rate * lead >= 0 && gap * lead < 0 || gap * rate * lead <= 0 && gap * lead > 0 {
        lemma_zero_rate(gap, rate as int, lead);
    }
    let w = weights[k] as int;
    let v = new[k] as int;
    assert(v == clamp_to(w + delta, 0, 65535));
    lemma_sign(gap, lead);
    lemma_sign(v - w, lead);
    assert(v * p1 + (65536 - v) * p2 == w * p1 + (65536 - w) * p2 + (v - w) * lead)
        by (nonlinear_arith)
        requires
            lead == p1 - p2,
    ;
}

/// A two-way mixer predicts the mean of its two inputs by the weight of the context, of 65536 parts
/// for the first. It lies between them.
pub proof fn law_mix2_predicts(
    sizebits: u32,
    p1_idx: usize,
    p2_idx: usize,
    rate: i32,
    weights: Seq<i32>,
    h: u32,
    c8: u32,
    hmap4: u32,
    predictions: Seq<i32>,
)
    requires
        (ComponentState::Mix2 { sizebits, p1_idx, p2_idx, rate, weights }).wf(predictions.len()),
        valid_predictions(predictions),
    ensures
        ({
            let mixer = (ComponentState::Mix2 { sizebits, p1_idx, p2_idx, rate, weights });
            let p = mixer.predicted(h, c8, hmap4, predictions).1;
            let w = weights[context_number(h, c8, sizebits)];
            let p1 = predictions[p1_idx as int];
            let p2 = predictions[p2_idx as int];
            &&& mixer.predicted(h, c8, hmap4, predictions).0 == mixer
            &&& 65536 * p <= w * p1 + (65536 - w) * p2 < 65536 * (p + 1)
            &&& p1 <= p2 ==> p1 <= p <= p2
            &&& p2 <= p1 ==> p2 <= p <= p1
        }),
{
    let w = weights[context_number(h, c8, sizebits)] as int;
    let p1 = predictions[p1_idx as int] as int;
    let p2 = predictions[p2_idx as int] as int;
    lemma_row(h, c8, sizebits, 1);
    lemma_weight_row_fits(h, c8, sizebits, 1, weights.len());
    assert(0 <= w <= 65535);
    assert(p1 <= p2 ==> 65536 * p1 <= w * p1 + (65536 - w) * p2 <= 65536 * p2) by (nonlinear_arith)
        requires
            0 <= w <= 65535,
    ;
    assert(p2 <= p1 ==> 65536 * p2 <= w * p1 + (65536 - w) * p2 <= 65536 * p1) by (nonlinear_arith)
        requires
            0 <= w <= 65535,
    ;
}

} // verus!
