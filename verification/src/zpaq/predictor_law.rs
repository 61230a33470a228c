//! What holds of every predictor: what it knows of the current byte, what an update keeps, what a
//! repeated prediction gives, where the prediction of a context model moves, and what a match model
//! knows of the text.

use vstd::prelude::*;
use crate::zpaq::component_law::{law_cm_learns, same_before};
use crate::zpaq::component_state::{bit_of, slot_of, ComponentState};
use crate::zpaq::logistic::{law_squash_ends, law_squash_monotone, stretch_of};
use crate::zpaq::match_law::{has_seen, has_size, law_match_follows};
use crate::zpaq::predictor::{lemma_next_nibbles, nibbles_of, PredictorState};

verus! {

/// The number that some bits are after a leading one, first bit first.
pub open spec fn after_one(bits: Seq<u8>) -> int
    decreases bits.len(),
{
    if bits.len() == 0 {
        1
    } else {
        2 * after_one(bits.drop_last()) + bits.last()
    }
}

/// The number that some bits are, split into nibbles, each after a leading one.
pub open spec fn in_nibbles(bits: Seq<u8>) -> int {
    if bits.len() <= 3 {
        after_one(bits)
    } else {
        after_one(bits.take(4)) * 16 + after_one(bits.skip(4))
    }
}

/// All of them are bits.
pub open spec fn are_bits(bits: Seq<u8>) -> bool {
    forall|i: int| 0 <= i < bits.len() ==> #[trigger] bits[i] <= 1
}

/// The power of two up to the seventh.
spec fn small_power(n: int) -> int {
    if n <= 0 {
        1
    } else if n == 1 {
        2
    } else if n == 2 {
        4
    } else if n == 3 {
        8
    } else if n == 4 {
        16
    } else if n == 5 {
        32
    } else if n == 6 {
        64
    } else {
        128
    }
}

proof fn lemma_after_one_range(bits: Seq<u8>)
    requires
        bits.len() <= 7,
        are_bits(bits),
    ensures
        small_power(bits.len() as int) <= after_one(bits) < 2 * small_power(bits.len() as int),
    decreases bits.len(),
{
    if bits.len() > 0 {
        let before = bits.drop_last();
        assert forall|i: int| 0 <= i < before.len() implies #[trigger] before[i] <= 1 by {
            assert(bits[i] <= 1);
        }
        lemma_after_one_range(before);
        assert(bits[bits.len() - 1] <= 1);
    }
}

proof fn lemma_after_one_split(bits: Seq<u8>)
    requires
        4 <= bits.len() <= 7,
    ensures
        ({
            let p = small_power(bits.len() - 4);
            after_one(bits) == after_one(bits.take(4)) * p + after_one(bits.skip(4)) - p
        }),
    decreases bits.len(),
{
    let before = bits.drop_last();
    if bits.len() == 4 {
        assert(bits.take(4) =~= bits);
        assert(bits.skip(4) =~= Seq::empty());
    } else {
        lemma_after_one_split(before);
        assert(before.take(4) =~= bits.take(4));
        assert(bits.skip(4).drop_last() =~= before.skip(4));
        assert(bits.skip(4).last() == bits.last());
    }
}

proof fn lemma_in_nibbles(bits: Seq<u8>)
    requires
        bits.len() <= 7,
        are_bits(bits),
    ensures
        1 <= after_one(bits) <= 255,
        in_nibbles(bits) == nibbles_of(after_one(bits) as u32),
        1 <= in_nibbles(bits) <= 511,
{
    lemma_after_one_range(bits);
    if bits.len() >= 4 {
        let rest = bits.skip(4);
        assert forall|i: int| 0 <= i < rest.len() implies #[trigger] rest[i] <= 1 by {
            assert(bits[i + 4] <= 1);
        }
        let first = bits.take(4);
        assert forall|i: int| 0 <= i < first.len() implies #[trigger] first[i] <= 1 by {
            assert(bits[i] <= 1);
        }
        lemma_after_one_split(bits);
        lemma_after_one_range(first);
        lemma_after_one_range(rest);
        let n = after_one(first);
        let l = after_one(rest);
        let c = after_one(bits);
        if bits.len() == 4 {
            assert(c == n * 1 + l - 1);
        } else if bits.len() == 5 {
            assert(c == n * 2 + l - 2 && c / 2 == n);
        } else if bits.len() == 6 {
            assert(c == n * 4 + l - 4 && c / 4 == n);
        } else {
            assert(c == n * 8 + l - 8 && c / 8 == n);
        }
    }
}

impl PredictorState {
    /// The known bits of the current byte are `bits`.
    pub open spec fn knows(self, bits: Seq<u8>) -> bool {
        &&& self.c8 == after_one(bits)
        &&& self.hmap4 == in_nibbles(bits)
    }

    /// The predictor after it learned the first `n` of some bits.
    pub open spec fn learned(self, bits: Seq<u8>, n: int) -> PredictorState
        decreases n,
    {
        if n <= 0 {
            self
        } else {
            self.learned(bits, n - 1).updated(bits[n - 1])
        }
    }

    proof fn lemma_predicted_bits(self, n: int)
        ensures
            self.predicted_upto(n).c8 == self.c8,
            self.predicted_upto(n).hmap4 == self.hmap4,
        decreases n,
    {
        if n > 0 {
            self.lemma_predicted_bits(n - 1);
        }
    }

    /// Of a byte of which some bits are known, one bit more is known after an update, and none
    /// after the eighth. A prediction changes nothing of that. The bits after a leading one are a
    /// number below 256, and their nibbles one below 512.
    pub proof fn law_bit_known(self, bits: Seq<u8>, y: u8)
        requires
            bits.len() <= 7,
            are_bits(bits),
            y <= 1,
            self.knows(bits),
        ensures
            bits.len() < 7 ==> self.updated(y).knows(bits.push(y)),
            bits.len() == 7 ==> self.updated(y).knows(Seq::empty()),
            self.predicted().knows(bits),
            1 <= self.c8 <= 255,
            1 <= self.hmap4 <= 511,
    {
        self.lemma_predicted_bits(self.components.len() as int);
        lemma_in_nibbles(bits);
        lemma_after_one_range(bits);
        let next = bits.push(y);
        let c8 = (self.c8 * 2 + y) as u32;
        assert(next.drop_last() =~= bits);
        if bits.len() < 7 {
            assert forall|i: int| 0 <= i < next.len() implies #[trigger] next[i] <= 1 by {
                if i < bits.len() {
                    assert(bits[i] <= 1);
                }
            }
            lemma_in_nibbles(next);
            lemma_next_nibbles(self.c8, y, c8);
        }
    }

    /// From the beginning of a byte on, the bits that were learned are known. After the eighth, the
    /// next byte begins.
    pub proof fn law_bits_known(self, bits: Seq<u8>)
        requires
            bits.len() <= 8,
            are_bits(bits),
        ensures
            ({
                let after = self.at_new_byte().learned(bits, bits.len() as int);
                &&& bits.len() < 8 ==> after.knows(bits)
                &&& bits.len() == 8 ==> after.c8 == 1 && after.hmap4 == 1
                &&& 1 <= after.c8 <= 255
                &&& 1 <= after.hmap4 <= 511
            }),
    {
        let n = bits.len() as int;
        self.lemma_learned_knows(bits, n);
        if n < 8 {
            assert(bits.take(n) =~= bits);
            lemma_in_nibbles(bits);
        }
    }

    proof fn lemma_learned_knows(self, bits: Seq<u8>, n: int)
        requires
            bits.len() <= 8,
            are_bits(bits),
            0 <= n <= bits.len(),
        ensures
            n < 8 ==> self.at_new_byte().learned(bits, n).knows(bits.take(n)),
            n == 8 ==> self.at_new_byte().learned(bits, n).knows(Seq::empty()),
        decreases n,
    {
        if n > 0 {
            self.lemma_learned_knows(bits, n - 1);
            let before = bits.take(n - 1);
            assert forall|i: int| 0 <= i < before.len() implies #[trigger] before[i] <= 1 by {
                assert(bits[i] <= 1);
            }
            assert(bits[n - 1] <= 1);
            self.at_new_byte().learned(bits, n - 1).law_bit_known(before, bits[n - 1]);
            assert(before.push(bits[n - 1]) =~= bits.take(n));
        }
    }

    /// Every component takes its inputs from the predictions of the components before it.
    pub open spec fn feeds_forward(self) -> bool {
        forall|k: int|
            0 <= k < self.components.len() ==> (#[trigger] self.components[k]).refers_below(k)
    }

    /// Of the first `n` components each predicted from the predictions before it, and the others
    /// are as they were.
    proof fn lemma_predicted_at(self, n: int, i: int)
        requires
            self.wf(),
            0 <= n <= self.components.len(),
            0 <= i < self.predictions.len(),
        ensures
            i < n ==> self.predicted_upto(n).components[i] == self.components[i].predicted(
                self.h[i],
                self.c8,
                self.hmap4,
                self.predicted_upto(i).predictions,
            ).0,
            i < n ==> self.predicted_upto(n).predictions[i] == self.components[i].predicted(
                self.h[i],
                self.c8,
                self.hmap4,
                self.predicted_upto(i).predictions,
            ).1,
            n <= i < self.components.len() ==> self.predicted_upto(n).components[i]
                == self.components[i],
            n <= i ==> self.predicted_upto(n).predictions[i] == self.predictions[i],
        decreases n,
    {
        if n > 0 {
            self.lemma_predicted_at(n - 1, i);
            self.lemma_predicted_upto_wf(n - 1);
            let before = self.predicted_upto(n - 1);
            if i == n - 1 {
                before.components[i].lemma_predicted_wf(
                    before.h[i],
                    before.c8,
                    before.hmap4,
                    before.predictions,
                );
            }
        }
    }

    /// Every component predicts from its own context hash and from what the components before it
    /// have predicted. What is beyond the components stays.
    pub proof fn law_prediction_order(self, i: int)
        requires
            self.wf(),
            0 <= i < self.predictions.len(),
        ensures
            ({
                let after = self.predicted();
                let inputs = Seq::new(
                    self.predictions.len(),
                    |j: int|
                        if j < i {
                            after.predictions[j]
                        } else {
                            self.predictions[j]
                        },
                );
                &&& after.predictions.len() == self.predictions.len()
                &&& i < self.components.len() ==> (after.components[i], after.predictions[i] as int)
                    == self.components[i].predicted(self.h[i], self.c8, self.hmap4, inputs)
                &&& i >= self.components.len() ==> after.predictions[i] == self.predictions[i]
            }),
    {
        let n = self.components.len() as int;
        let after = self.predicted();
        self.lemma_predicted_upto_wf(n);
        self.lemma_predicted_at(n, i);
        if i < n {
            let inputs = Seq::new(
                self.predictions.len(),
                |j: int|
                    if j < i {
                        after.predictions[j]
                    } else {
                        self.predictions[j]
                    },
            );
            self.lemma_predicted_upto_wf(i);
            self.lemma_predictions_stay(i, n);
            let before = self.predicted_upto(i).predictions;
            assert forall|j: int| 0 <= j < before.len() implies before[j] == inputs[j] by {
                self.lemma_predicted_at(i, j);
            }
            assert(before =~= inputs);
        }
    }

    /// The probability of a one is that of the last prediction: one half for zero, and higher for a
    /// higher prediction. Where there are no predictions it is one 16th.
    pub proof fn law_probability(self, other: PredictorState)
        ensures
            self.predictions.len() == 0 ==> self.probability() * 16 == 32768,
            self.predictions.len() > 0 && self.predictions.last() == 0 ==> self.probability()
                == 16384,
            self.predictions.len() > 0 && other.predictions.len() > 0 && self.predictions.last()
                <= other.predictions.last() ==> self.probability() <= other.probability(),
            self.predictions.len() > 0 && self.predictions.last() >= 666 ==> self.probability()
                == 32767,
            self.predictions.len() > 0 && self.predictions.last() <= -666 ==> self.probability()
                == 0,
    {
        law_squash_ends(self.predictions.last() as int);
        if self.predictions.last() <= other.predictions.last() {
            law_squash_monotone(
                self.predictions.last() as int,
                other.predictions.last() as int,
            );
        }
    }

    /// Every component learns the bit in its own context, from what all of them predicted.
    pub proof fn law_update_all(self, y: u8, i: int)
        requires
            0 <= i < self.components.len(),
        ensures
            self.updated(y).components.len() == self.components.len(),
            self.updated(y).components[i] == self.components[i].updated(
                i,
                self.h[i],
                self.c8,
                self.hmap4,
                self.predictions,
                y,
            ),
            self.updated(y).predictions == self.predictions,
    {
    }

    /// A prediction stays, once it is made.
    proof fn lemma_predictions_stay(self, i: int, n: int)
        requires
            self.wf(),
            0 <= i <= n <= self.components.len(),
        ensures
            same_before(self.predicted_upto(i).predictions, self.predicted_upto(n).predictions, i),
    {
        self.lemma_predicted_upto_wf(i);
        self.lemma_predicted_upto_wf(n);
        let p = self.predicted_upto(i).predictions;
        let q = self.predicted_upto(n).predictions;
        assert forall|j: int| 0 <= j < i implies #[trigger] p[j] == q[j] by {
            self.lemma_predicted_at(i, j);
            self.lemma_predicted_at(n, j);
        }
    }

    proof fn lemma_predicted_again_upto(self, n: int)
        requires
            self.wf(),
            self.feeds_forward(),
            0 <= n <= self.components.len(),
        ensures
            self.predicted().predicted_upto(n) == self.predicted(),
        decreases n,
    {
        if n > 0 {
            self.lemma_predicted_again_upto(n - 1);
            let all = self.components.len() as int;
            let done = self.predicted();
            let i = n - 1;
            let inputs = self.predicted_upto(i).predictions;
            self.lemma_predicted_upto_wf(all);
            self.lemma_predicted_upto_wf(i);
            self.lemma_predicted_at(all, i);
            self.lemma_predictions_stay(i, all);
            self.components[i].law_predicted_again(
                i,
                self.h[i],
                self.c8,
                self.hmap4,
                inputs,
                done.predictions,
            );
            self.components[i].lemma_predicted_wf(self.h[i], self.c8, self.hmap4, inputs);
            let again = done.predicted_upto(n);
            assert(again.components =~= done.components);
            assert(again.predictions =~= done.predictions);
        }
    }

    /// A second prediction without an update in between gives the same probability, and changes
    /// nothing.
    pub proof fn law_predict_again(self)
        requires
            self.wf(),
            self.feeds_forward(),
        ensures
            self.predicted().predicted() == self.predicted(),
            self.predicted().predicted().probability() == self.predicted().probability(),
    {
        let n = self.components.len() as int;
        self.lemma_predicted_upto_wf(n);
        self.lemma_predicted_again_upto(n);
    }

    /// An update keeps the predictor well formed. It keeps the text, the context hashes and the
    /// predictions, and of every component the kind, the parameters, the inputs and the sizes of
    /// the tables. A prediction keeps the same, but for the predictions.
    pub proof fn law_shape_kept(self, y: u8)
        requires
            self.wf(),
            y <= 1,
        ensures
            self.updated(y).wf(),
            self.updated(y).m == self.m,
            self.updated(y).h == self.h,
            self.updated(y).predictions == self.predictions,
            self.updated(y).components.len() == self.components.len(),
            forall|i: int|
                0 <= i < self.components.len() ==> self.components[i].same_shape(
                    #[trigger] self.updated(y).components[i],
                ),
            self.predicted().wf(),
            self.predicted().m == self.m,
            self.predicted().h == self.h,
            self.predicted().predictions.len() == self.predictions.len(),
            self.predicted().components.len() == self.components.len(),
            forall|i: int|
                0 <= i < self.components.len() ==> self.components[i].same_shape(
                    #[trigger] self.predicted().components[i],
                ),
    {
        let n = self.components.len() as int;
        self.lemma_updated_wf(y);
        self.lemma_predicted_upto_wf(n);
        assert forall|i: int| 0 <= i < n implies self.components[i].same_shape(
            #[trigger] self.updated(y).components[i],
        ) by {
            self.components[i].law_shape_kept(
                i,
                self.h[i],
                self.c8,
                self.hmap4,
                self.predictions,
                y,
            );
        }
        assert forall|i: int| 0 <= i < n implies self.components[i].same_shape(
            #[trigger] self.predicted().components[i],
        ) by {
            self.lemma_predicted_at(n, i);
            self.lemma_predicted_upto_wf(i);
            self.components[i].law_shape_kept(
                i,
                self.h[i],
                self.c8,
                self.hmap4,
                self.predicted_upto(i).predictions,
                y,
            );
        }
    }

    /// The predictor after a prediction at the first bit of a byte, the bit `y` and a new byte,
    /// with the same context hashes.
    pub open spec fn relearned(self, y: u8) -> PredictorState {
        self.predicted().updated(y).at_new_byte()
    }

    /// A match model of the predictor that has seen the first bits of a text has seen one bit more
    /// after a prediction and an update with the next bit, whatever the context hashes are.
    pub proof fn law_match_follows(
        self,
        i: int,
        text: Seq<u8>,
        t: int,
        sizebits1: u32,
        sizebits2: u32,
    )
        requires
            self.wf(),
            0 <= i < self.components.len(),
            self.components[i] is Match,
            has_size(self.components[i]->index.len(), sizebits1),
            has_size(self.components[i]->buf.len(), sizebits2),
            0 <= t,
            t / 8 + 257 < self.components[i]->buf.len(),
            has_seen(self.components[i], text, t),
        ensures
            ({
                let next = self.predicted().updated(bit_of(text[t / 8], t % 8)).components[i];
                &&& next is Match
                &&& next->index.len() == self.components[i]->index.len()
                &&& next->buf.len() == self.components[i]->buf.len()
                &&& has_seen(next, text, t + 1)
            }),
    {
        let n = self.components.len() as int;
        let q = self.predicted();
        self.lemma_predicted_upto_wf(n);
        self.lemma_predicted_at(n, i);
        assert(q.components[i] == self.components[i]);
        law_match_follows(
            self.components[i],
            text,
            t,
            sizebits1,
            sizebits2,
            i,
            self.h[i],
            self.c8,
            self.hmap4,
            q.predictions,
        );
    }

    proof fn lemma_relearned(self, i: int, y: u8)
        requires
            self.wf(),
            y <= 1,
            0 <= i < self.components.len(),
            self.components[i] is Cm,
        ensures
            self.relearned(y).wf(),
            self.relearned(y).components.len() == self.components.len(),
            self.relearned(y).predictions.len() == self.predictions.len(),
            self.relearned(y).h == self.h,
            self.relearned(y).components[i] == self.components[i].updated(
                i,
                self.h[i],
                self.c8,
                self.hmap4,
                self.predicted().predictions,
                y,
            ),
    {
        let n = self.components.len() as int;
        self.lemma_predicted_upto_wf(n);
        self.lemma_predicted_at(n, i);
        assert(self.predicted().components[i] == self.components[i]);
        let learned = self.predicted().updated(y);
        self.predicted().lemma_updated_wf(y);
        assert(self.relearned(y).components == learned.components);
        assert(learned.predictions == self.predicted().predictions);
        assert(self.relearned(y).wf());
    }

    /// What a context model at place `i` predicts.
    proof fn lemma_predicted_cm(self, i: int, limit: usize, cm: Seq<u32>)
        requires
            self.wf(),
            0 <= i < self.components.len(),
            self.components[i] == (ComponentState::Cm { limit, cm }),
        ensures
            self.predicted().components[i] == self.components[i],
            self.predicted().predictions[i] == stretch_of(
                cm[slot_of(self.h[i] ^ self.hmap4, cm.len())] as int / 131072,
            ),
            self.predicted().predictions.len() == self.predictions.len(),
    {
        let n = self.components.len() as int;
        self.lemma_predicted_upto_wf(n);
        self.lemma_predicted_at(n, i);
    }

    /// After an update with the bit `y`, the prediction of a context model in the same context has
    /// not moved away from `y`, and no other entry of its table has changed. Where it is the last
    /// component, the same holds of the probability.
    pub proof fn law_cm_learns(self, i: int, y: u8)
        requires
            self.wf(),
            self.c8 == 1,
            self.hmap4 == 1,
            0 <= i < self.components.len(),
            self.components[i] is Cm,
            self.components[i]->Cm_limit <= 1023,
            y <= 1,
        ensures
            ({
                let q0 = self.predicted();
                let q1 = self.relearned(y).predicted();
                let slot = slot_of(
                    self.h[i] ^ 1,
                    self.components[i]->Cm_cm.len(),
                );
                &&& y == 1 ==> q1.predictions[i] >= q0.predictions[i]
                &&& y == 0 ==> q1.predictions[i] <= q0.predictions[i]
                &&& i == self.predictions.len() - 1 && y == 1 ==> q1.probability()
                    >= q0.probability()
                &&& i == self.predictions.len() - 1 && y == 0 ==> q1.probability()
                    <= q0.probability()
                &&& q1.components[i] is Cm
                &&& q1.components[i]->Cm_cm.len() == self.components[i]->Cm_cm.len()
                &&& forall|k: int|
                    0 <= k < self.components[i]->Cm_cm.len() && k != slot
                        ==> #[trigger] q1.components[i]->Cm_cm[k] == self.components[i]->Cm_cm[k]
            }),
    {
        let q0 = self.predicted();
        let next = self.relearned(y);
        let q1 = next.predicted();
        self.lemma_relearned(i, y);
        let before = self.components[i];
        let after = next.components[i];
        let limit = before->Cm_limit;
        let cm = before->Cm_cm;
        assert(before == (ComponentState::Cm { limit, cm }));
        assert(before.wf(self.predictions.len()));
        law_cm_learns(limit, cm, i, self.h[i], 1, 1, q0.predictions, y);
        assert(after == (ComponentState::Cm { limit, cm: after->Cm_cm }));
        self.lemma_predicted_cm(i, limit, cm);
        next.lemma_predicted_cm(i, limit, after->Cm_cm);
        if y == 1 {
            law_squash_monotone(q0.predictions[i] as int, q1.predictions[i] as int);
        } else {
            law_squash_monotone(q1.predictions[i] as int, q0.predictions[i] as int);
        }
    }
}

} // verus!
