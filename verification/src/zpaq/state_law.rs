//! What bit histories count: how many zeros and ones came.

use vstd::prelude::*;
use crate::zpaq::history::{cminit_of, next_of};
use crate::zpaq::history_law::law_initial_probability;
use crate::zpaq::tables::{state_entry, STATE_TABLE};

verus! {

/// The zeros that a history counts.
spec fn zeros(s: Seq<u8>, k: int) -> int {
    s[4 * k + 2] as int
}

/// The ones that a history counts.
spec fn ones(s: Seq<u8>, k: int) -> int {
    s[4 * k + 3] as int
}

spec fn counts(s: Seq<u8>, k: int) -> bool {
    let (a, b) = (s[4 * k] as int, s[4 * k + 1] as int);
    &&& a <= 254 && b <= 254
    &&& 1 <= zeros(s, a) <= zeros(s, k) + 1
    &&& ones(s, a) <= ones(s, k)
    &&& 1 <= ones(s, b) <= ones(s, k) + 1
    &&& zeros(s, b) <= zeros(s, k)
    &&& zeros(s, k) > ones(s, k) ==> zeros(s, a) > ones(s, a)
    &&& ones(s, k) > zeros(s, k) ==> ones(s, b) > zeros(s, b)
    &&& ones(s, b) >= ones(s, a) && zeros(s, a) >= zeros(s, b)
    &&& ones(s, b) > ones(s, a) || zeros(s, a) > zeros(s, b)
}

spec fn all_count(s: Seq<u8>, from: int, to: int) -> bool
    decreases to - from,
{
    from >= to || (counts(s, from) && all_count(s, from + 1, to))
}

proof fn lemma_counts_split(s: Seq<u8>, from: int, mid: int, to: int)
    requires
        from <= mid <= to,
        all_count(s, from, mid),
        all_count(s, mid, to),
    ensures
        all_count(s, from, to),
    decreases mid - from,
{
    if from < mid {
        lemma_counts_split(s, from + 1, mid, to);
    }
}

#[verifier::spinoff_prover]
proof fn lemma_counts_to_32()
    ensures
        all_count(STATE_TABLE@, 0, 32),
{
    let s = STATE_TABLE@;
    assert(all_count(s, 0, 8)) by {
        reveal_with_fuel(all_count, 9);
    }
    assert(all_count(s, 8, 16)) by {
        reveal_with_fuel(all_count, 9);
    }
    lemma_counts_split(s, 0, 8, 16);
    assert(all_count(s, 16, 24)) by {
        reveal_with_fuel(all_count, 9);
    }
    lemma_counts_split(s, 0, 16, 24);
    assert(all_count(s, 24, 32)) by {
        reveal_with_fuel(all_count, 9);
    }
    lemma_counts_split(s, 0, 24, 32);
}

#[verifier::spinoff_prover]
proof fn lemma_counts_to_64()
    ensures
        all_count(STATE_TABLE@, 32, 64),
{
    let s = STATE_TABLE@;
    assert(all_count(s, 32, 40)) by {
        reveal_with_fuel(all_count, 9);
    }
    assert(all_count(s, 40, 48)) by {
        reveal_with_fuel(all_count, 9);
    }
    lemma_counts_split(s, 32, 40, 48);
    assert(all_count(s, 48, 56)) by {
        reveal_with_fuel(all_count, 9);
    }
    lemma_counts_split(s, 32, 48, 56);
    assert(all_count(s, 56, 64)) by {
        reveal_with_fuel(all_count, 9);
    }
    lemma_counts_split(s, 32, 56, 64);
}

#[verifier::spinoff_prover]
proof fn lemma_counts_to_96()
    ensures
        all_count(STATE_TABLE@, 64, 96),
{
    let s = STATE_TABLE@;
    assert(all_count(s, 64, 72)) by {
        reveal_with_fuel(all_count, 9);
    }
    assert(all_count(s, 72, 80)) by {
        reveal_with_fuel(all_count, 9);
    }
    lemma_counts_split(s, 64, 72, 80);
    assert(all_count(s, 80, 88)) by {
        reveal_with_fuel(all_count, 9);
    }
    lemma_counts_split(s, 64, 80, 88);
    assert(all_count(s, 88, 96)) by {
        reveal_with_fuel(all_count, 9);
    }
    lemma_counts_split(s, 64, 88, 96);
}

#[verifier::spinoff_prover]
proof fn lemma_counts_to_128()
    ensures
        all_count(STATE_TABLE@, 96, 128),
{
    let s = STATE_TABLE@;
    assert(all_count(s, 96, 104)) by {
        reveal_with_fuel(all_count, 9);
    }
    assert(all_count(s, 104, 112)) by {
        reveal_with_fuel(all_count, 9);
    }
    lemma_counts_split(s, 96, 104, 112);
    assert(all_count(s, 112, 120)) by {
        reveal_with_fuel(all_count, 9);
    }
    lemma_counts_split(s, 96, 112, 120);
    assert(all_count(s, 120, 128)) by {
        reveal_with_fuel(all_count, 9);
    }
    lemma_counts_split(s, 96, 120, 128);
}

#[verifier::spinoff_prover]
proof fn lemma_counts_to_160()
    ensures
        all_count(STATE_TABLE@, 128, 160),
{
    let s = STATE_TABLE@;
    assert(all_count(s, 128, 136)) by {
        reveal_with_fuel(all_count, 9);
    }
    assert(all_count(s, 136, 144)) by {
        reveal_with_fuel(all_count, 9);
    }
    lemma_counts_split(s, 128, 136, 144);
    assert(all_count(s, 144, 152)) by {
        reveal_with_fuel(all_count, 9);
    }
    lemma_counts_split(s, 128, 144, 152);
    assert(all_count(s, 152, 160)) by {
        reveal_with_fuel(all_count, 9);
    }
    lemma_counts_split(s, 128, 152, 160);
}

#[verifier::spinoff_prover]
proof fn lemma_counts_to_192()
    ensures
        all_count(STATE_TABLE@, 160, 192),
{
    let s = STATE_TABLE@;
    assert(all_count(s, 160, 168)) by {
        reveal_with_fuel(all_count, 9);
    }
    assert(all_count(s, 168, 176)) by {
        reveal_with_fuel(all_count, 9);
    }
    lemma_counts_split(s, 160, 168, 176);
    assert(all_count(s, 176, 184)) by {
        reveal_with_fuel(all_count, 9);
    }
    lemma_counts_split(s, 160, 176, 184);
    assert(all_count(s, 184, 192)) by {
        reveal_with_fuel(all_count, 9);
    }
    lemma_counts_split(s, 160, 184, 192);
}

#[verifier::spinoff_prover]
proof fn lemma_counts_to_224()
    ensures
        all_count(STATE_TABLE@, 192, 224),
{
    let s = STATE_TABLE@;
    assert(all_count(s, 192, 200)) by {
        reveal_with_fuel(all_count, 9);
    }
    assert(all_count(s, 200, 208)) by {
        reveal_with_fuel(all_count, 9);
    }
    lemma_counts_split(s, 192, 200, 208);
    assert(all_count(s, 208, 216)) by {
        reveal_with_fuel(all_count, 9);
    }
    lemma_counts_split(s, 192, 208, 216);
    assert(all_count(s, 216, 224)) by {
        reveal_with_fuel(all_count, 9);
    }
    lemma_counts_split(s, 192, 216, 224);
}

#[verifier::spinoff_prover]
proof fn lemma_counts_to_255()
    ensures
        all_count(STATE_TABLE@, 224, 255),
{
    let s = STATE_TABLE@;
    assert(all_count(s, 224, 232)) by {
        reveal_with_fuel(all_count, 9);
    }
    assert(all_count(s, 232, 240)) by {
        reveal_with_fuel(all_count, 9);
    }
    lemma_counts_split(s, 224, 232, 240);
    assert(all_count(s, 240, 248)) by {
        reveal_with_fuel(all_count, 9);
    }
    lemma_counts_split(s, 224, 240, 248);
    assert(all_count(s, 248, 255)) by {
        reveal_with_fuel(all_count, 9);
    }
    lemma_counts_split(s, 224, 248, 255);
}

proof fn lemma_counts_index(s: Seq<u8>, from: int, to: int, k: int)
    requires
        all_count(s, from, to),
        from <= k < to,
    ensures
        counts(s, k),
    decreases to - from,
{
    if from < k {
        lemma_counts_index(s, from + 1, to, k);
    }
}

#[verifier::spinoff_prover]
proof fn lemma_counts(k: int)
    requires
        0 <= k < 255,
    ensures
        counts(STATE_TABLE@, k),
{
    let s = STATE_TABLE@;
    lemma_counts_to_32();
    lemma_counts_to_64();
    lemma_counts_split(s, 0, 32, 64);
    lemma_counts_to_96();
    lemma_counts_split(s, 0, 64, 96);
    lemma_counts_to_128();
    lemma_counts_split(s, 0, 96, 128);
    lemma_counts_to_160();
    lemma_counts_split(s, 0, 128, 160);
    lemma_counts_to_192();
    lemma_counts_split(s, 0, 160, 192);
    lemma_counts_to_224();
    lemma_counts_split(s, 0, 192, 224);
    lemma_counts_to_255();
    lemma_counts_split(s, 0, 224, 255);
    lemma_counts_index(s, 0, 255, k);
}

/// How many zeros a history stands for.
pub open spec fn zeros_of(state: u8) -> int {
    state_entry(state as int * 4 + 2) as int
}

/// How many ones a history stands for.
pub open spec fn ones_of(state: u8) -> int {
    state_entry(state as int * 4 + 3) as int
}

/// After a bit, a history counts at least one of its kind and at most one more than before, and of
/// the other kind no more than before. A majority of the kind stays one. Compared with the other
/// bit, a one leaves no fewer ones and no more zeros, and not the same. The history without a
/// meaning does not come.
#[verifier::spinoff_prover]
pub proof fn law_history_counts(state: u8)
    requires
        state < 255,
    ensures
        ({
            let after0 = next_of(state, 0);
            let after1 = next_of(state, 1);
            &&& after0 < 255 && after1 < 255
            &&& 1 <= zeros_of(after0) <= zeros_of(state) + 1
            &&& ones_of(after0) <= ones_of(state)
            &&& 1 <= ones_of(after1) <= ones_of(state) + 1
            &&& zeros_of(after1) <= zeros_of(state)
            &&& zeros_of(state) > ones_of(state) ==> zeros_of(after0) > ones_of(after0)
            &&& ones_of(state) > zeros_of(state) ==> ones_of(after1) > zeros_of(after1)
            &&& ones_of(after1) >= ones_of(after0)
            &&& zeros_of(after0) >= zeros_of(after1)
            &&& ones_of(after1) > ones_of(after0) || zeros_of(after0) > zeros_of(after1)
        }),
{
    lemma_counts(state as int);
    reveal(state_entry);
}

/// No bit has come in the first history.
pub proof fn law_first_history()
    ensures
        zeros_of(0) == 0,
        ones_of(0) == 0,
{
    reveal(state_entry);
}

/// A history is taken to a higher initial probability of a one by a one than by a zero.
pub proof fn law_history_expects(state: u8)
    requires
        state < 255,
    ensures
        cminit_of(next_of(state, 1)) > cminit_of(next_of(state, 0)),
{
    let (a, b) = (next_of(state, 0), next_of(state, 1));
    law_history_counts(state);
    law_initial_probability(a);
    law_initial_probability(b);
    let (a0, a1, b0, b1) = (zeros_of(a), ones_of(a), zeros_of(b), ones_of(b));
    let (p, q) = (cminit_of(a), cminit_of(b));
    assert((2 * b1 + 1) * (a0 + a1 + 1) >= (2 * a1 + 1) * (b0 + b1 + 1) + 1) by (nonlinear_arith)
        requires
            b1 >= a1 >= 0,
            a0 >= b0 >= 0,
            b1 > a1 || a0 > b0,
    ;
    assert(p < q) by (nonlinear_arith)
        requires
            (2 * b1 + 1) * (a0 + a1 + 1) >= (2 * a1 + 1) * (b0 + b1 + 1) + 1,
            2 * (a0 + a1 + 1) * p <= (2 * a1 + 1) * 8388608,
            (2 * b1 + 1) * 8388608 < 2 * (b0 + b1 + 1) * (q + 1),
            0 <= a0 <= 255,
            0 <= a1 <= 255,
            0 <= b0 <= 255,
            0 <= b1 <= 255,
            p >= 0,
            q >= 0,
    ;
}

} // verus!
