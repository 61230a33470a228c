//! The predictor: a network of components that estimates the next bit.

use vstd::prelude::*;
use crate::zpaq::component::Component;
use crate::zpaq::component_state::{valid_predictions, ComponentState};
use crate::zpaq::logistic::{lemma_squash_range, squash, squash_of, Stretch};

verus! {

/// The predictor that combines all components.
pub struct Predictor {
    /// The bytes that the context hashes are computed from.
    pub m: Vec<u8>,
    /// The context hashes, one for each component.
    pub h: Vec<u32>,
    /// The components.
    pub components: Vec<Component>,
    /// The part of the current byte that is known.
    pub bits: KnownBits,
    /// The logits that the components predicted.
    pub predictions: Vec<i32>,
    /// The logits of all probabilities.
    pub stretch: Stretch,
}

/// The bits of the current byte that are known, in the two forms that contexts are made of.
pub struct KnownBits {
    c8: u32,
    hmap4: u32,
}

impl KnownBits {
    /// The bits after a leading one.
    pub closed spec fn c8(self) -> u32 {
        self.c8
    }

    /// The bits split into nibbles.
    pub closed spec fn hmap4(self) -> u32 {
        self.hmap4
    }
}

/// The mathematical model of a `Predictor`.
#[verifier::ext_equal]
pub ghost struct PredictorState {
    /// The bytes that the context hashes are computed from.
    pub m: Seq<u8>,
    /// The context hashes, one for each component.
    pub h: Seq<u32>,
    /// The components.
    pub components: Seq<ComponentState>,
    /// The bits of the current byte that are known, after a leading one.
    pub c8: u32,
    /// The bits of the current byte that are known, split into nibbles.
    pub hmap4: u32,
    /// The logits that the components predicted.
    pub predictions: Seq<i32>,
}

/// The bits of the current byte in nibbles after the bit `y`, where `c8` already has it.
pub open spec fn next_nibbles(hmap4: u32, c8: u32, y: u8) -> u32 {
    if 16 <= c8 < 32 {
        ((hmap4 & 0xf) << 5) | ((y as u32) << 4) | 1
    } else {
        (hmap4 & 0x1f0) | ((((hmap4 & 0xf) * 2 + y) as u32) & 0xf)
    }
}

/// The known bits of a byte, after a leading one, split into nibbles: those of the first nibble
/// after a leading one, and behind them, once it is whole, those of the second after another.
pub open spec fn nibbles_of(c8: u32) -> u32 {
    if c8 < 16 {
        c8
    } else if c8 < 32 {
        (c8 * 16 + 1) as u32
    } else if c8 < 64 {
        (c8 / 2 * 16 + 2 + c8 % 2) as u32
    } else if c8 < 128 {
        (c8 / 4 * 16 + 4 + c8 % 4) as u32
    } else {
        (c8 / 8 * 16 + 8 + c8 % 8) as u32
    }
}

/// The nibbles follow the bits.
pub proof fn lemma_next_nibbles(c8: u32, y: u8, next: u32)
    by (bit_vector)
    requires
        1 <= c8 <= 127,
        y <= 1,
        next == c8 * 2 + y,
    ensures
        next_nibbles(nibbles_of(c8), next, y) == nibbles_of(next),
{
}

impl PredictorState {
    /// The components can predict, have context hashes, and their predictions have a place.
    pub open spec fn ready(self) -> bool {
        &&& self.components.len() <= self.h.len()
        &&& self.components.len() <= self.predictions.len() <= usize::MAX
        &&& forall|i: int|
            0 <= i < self.components.len() ==> (#[trigger] self.components[i]).ready(
                self.predictions.len(),
            )
        &&& valid_predictions(self.predictions)
        &&& self.c8 <= 255
    }

    /// The components are well formed, have context hashes, and their predictions have a place. A
    /// part of a byte is known, in both its forms.
    pub open spec fn wf(self) -> bool {
        &&& self.components.len() <= self.h.len()
        &&& self.components.len() <= self.predictions.len() <= usize::MAX
        &&& forall|i: int|
            0 <= i < self.components.len() ==> (#[trigger] self.components[i]).wf(
                self.predictions.len(),
            )
        &&& valid_predictions(self.predictions)
        &&& 1 <= self.c8 <= 255
        &&& self.hmap4 == nibbles_of(self.c8)
    }

    /// The predictor after the first `n` components predicted.
    pub open spec fn predicted_upto(self, n: int) -> PredictorState
        decreases n,
    {
        if n <= 0 {
            self
        } else {
            let before = self.predicted_upto(n - 1);
            let (component, p) = before.components[n - 1].predicted(
                before.h[n - 1],
                before.c8,
                before.hmap4,
                before.predictions,
            );
            PredictorState {
                components: before.components.update(n - 1, component),
                predictions: before.predictions.update(n - 1, p as i32),
                ..before
            }
        }
    }

    /// The predictor after all components predicted, each from the predictions before it.
    pub open spec fn predicted(self) -> PredictorState {
        self.predicted_upto(self.components.len() as int)
    }

    /// The probability of a one, in units of 1/32768, that the last prediction stands for.
    pub open spec fn probability(self) -> int {
        if self.predictions.len() > 0 {
            squash_of(self.predictions.last() as int)
        } else {
            2048
        }
    }

    /// The predictor after it learned that the next bit was `y`.
    pub open spec fn updated(self, y: u8) -> PredictorState {
        let c8 = (self.c8 * 2 + y) as u32;
        PredictorState {
            components: Seq::new(
                self.components.len(),
                |i: int|
                    self.components[i].updated(
                        i,
                        self.h[i],
                        self.c8,
                        self.hmap4,
                        self.predictions,
                        y,
                    ),
            ),
            c8: if c8 < 256 {
                c8
            } else {
                1
            },
            hmap4: if c8 < 256 {
                next_nibbles(self.hmap4, c8, y)
            } else {
                1
            },
            ..self
        }
    }

    /// The predictor at the first bit of a byte.
    pub open spec fn at_new_byte(self) -> PredictorState {
        PredictorState { c8: 1, hmap4: 1, ..self }
    }

    /// A well formed predictor can predict.
    pub proof fn lemma_ready(self)
        requires
            self.wf(),
        ensures
            self.ready(),
    {
    }

    /// Predicting leaves the predictor ready to predict, and keeps all but its components and
    /// predictions.
    pub proof fn lemma_predicted_upto_ready(self, n: int)
        requires
            self.ready(),
            0 <= n <= self.components.len(),
        ensures
            self.predicted_upto(n).ready(),
            self.predicted_upto(n).m == self.m,
            self.predicted_upto(n).h == self.h,
            self.predicted_upto(n).c8 == self.c8,
            self.predicted_upto(n).hmap4 == self.hmap4,
            self.predicted_upto(n).components.len() == self.components.len(),
            self.predicted_upto(n).predictions.len() == self.predictions.len(),
        decreases n,
    {
        if n > 0 {
            self.lemma_predicted_upto_ready(n - 1);
            let before = self.predicted_upto(n - 1);
            before.components[n - 1].lemma_predicted_ready(
                before.h[n - 1],
                before.c8,
                before.hmap4,
                before.predictions,
            );
        }
    }

    /// Predicting keeps the predictor well formed and all but its components and predictions.
    pub proof fn lemma_predicted_upto_wf(self, n: int)
        requires
            self.wf(),
            0 <= n <= self.components.len(),
        ensures
            self.predicted_upto(n).wf(),
            self.predicted_upto(n).m == self.m,
            self.predicted_upto(n).h == self.h,
            self.predicted_upto(n).c8 == self.c8,
            self.predicted_upto(n).hmap4 == self.hmap4,
            self.predicted_upto(n).components.len() == self.components.len(),
            self.predicted_upto(n).predictions.len() == self.predictions.len(),
        decreases n,
    {
        if n > 0 {
            self.lemma_predicted_upto_wf(n - 1);
            let before = self.predicted_upto(n - 1);
            before.components[n - 1].lemma_predicted_wf(
                before.h[n - 1],
                before.c8,
                before.hmap4,
                before.predictions,
            );
        }
    }

    /// Learning keeps the predictor well formed.
    pub proof fn lemma_updated_wf(self, y: u8)
        requires
            self.wf(),
            y <= 1,
        ensures
            self.updated(y).wf(),
    {
        let next = (self.c8 * 2 + y) as u32;
        if self.c8 <= 127 {
            lemma_next_nibbles(self.c8, y, next);
        }
        assert forall|i: int| 0 <= i < self.components.len() implies (#[trigger] self.updated(
            y,
        ).components[i]).wf(self.predictions.len()) by {
            self.components[i].lemma_updated_wf(
                i,
                self.h[i],
                self.c8,
                self.hmap4,
                self.predictions,
                y,
            );
        }
    }

    /// Predicting and learning keep the text and the context hashes.
    pub proof fn lemma_step_contexts(self, y: u8)
        requires
            self.wf(),
        ensures
            self.predicted().updated(y).m == self.m,
            self.predicted().updated(y).h == self.h,
    {
        self.lemma_predicted_upto_wf(self.components.len() as int);
    }

    /// A probability is a 15-bit number.
    pub proof fn lemma_probability_range(self)
        ensures
            0 <= self.probability() <= 32767,
    {
        lemma_squash_range(self.predictions.last() as int);
    }
}

impl View for Predictor {
    type V = PredictorState;

    closed spec fn view(&self) -> PredictorState {
        PredictorState {
            m: self.m@,
            h: self.h@,
            components: Seq::new(self.components@.len(), |i: int| self.components@[i]@),
            c8: self.bits.c8,
            hmap4: self.bits.hmap4,
            predictions: self.predictions@,
        }
    }
}

impl Predictor {
    /// The fields are those of the model.
    pub proof fn lemma_view(&self)
        ensures
            self@.m == self.m@,
            self@.h == self.h@,
            self@.components == Seq::new(self.components@.len(), |i: int| self.components@[i]@),
            self@.predictions == self.predictions@,
            self@.c8 == self.bits.c8(),
            self@.hmap4 == self.bits.hmap4(),
    {
    }

    /// Creates a predictor without components, with room for `num_components` predictions,
    /// `h_size` context hashes and `m_size` bytes.
    pub fn new(num_components: usize, h_size: usize, m_size: usize) -> (r: Self)
        requires
            num_components * 4 <= isize::MAX,
            h_size * 4 <= isize::MAX,
            m_size <= isize::MAX,
        ensures
            r@ == (PredictorState {
                m: Seq::new(m_size as nat, |i: int| 0u8),
                h: Seq::new(h_size as nat, |i: int| 0u32),
                components: Seq::empty(),
                c8: 1,
                hmap4: 1,
                predictions: Seq::new(num_components as nat, |i: int| 0i32),
            }),
            r@.wf(),
    {
        let r = Predictor {
            m: vec![0u8; m_size],
            h: vec![0u32; h_size],
            components: Vec::new(),
            bits: KnownBits { c8: 1, hmap4: 1 },
            predictions: vec![0i32; num_components],
            stretch: Stretch::get(),
        };
        assert(r@.m =~= Seq::new(m_size as nat, |i: int| 0u8));
        assert(r@.h =~= Seq::new(h_size as nat, |i: int| 0u32));
        assert(r@.components =~= Seq::empty());
        assert(r@.predictions =~= Seq::new(num_components as nat, |i: int| 0i32));
        r
    }

    /// Adds a component to the predictor and returns its number.
    pub fn add_component(&mut self, comp: Component) -> (id: usize)
        ensures
            id == old(self)@.components.len(),
            final(self)@ == (PredictorState {
                components: old(self)@.components.push(comp@),
                ..old(self)@
            }),
    {
        let id: usize = self.components.len();
        self.components.push(comp);
        assert(self@.components =~= old(self)@.components.push(comp@));
        id
    }

    /// Predicts the next bit: the probability of a one, in units of 1/32768.
    pub fn predict(&mut self) -> (p: i32)
        requires
            old(self)@.ready(),
        ensures
            final(self)@ == old(self)@.predicted(),
            p == old(self)@.predicted().probability(),
            final(self)@.ready(),
            old(self)@.wf() ==> final(self)@.wf(),
            0 <= p <= 32767,
    {
        let mut i: usize = 0;
        while i < self.components.len()
            invariant
                i <= self.components@.len() == old(self)@.components.len(),
                old(self)@.ready(),
                self@.ready(),
                self@ == old(self)@.predicted_upto(i as int),
            decreases self.components.len() - i,
        {
            let ghost before = self@;
            let h: u32 = self.h[i];
            proof {
                assert(before.components[i as int] == self.components@[i as int]@);
                before.components[i as int].lemma_predicted_ready(
                    h,
                    before.c8,
                    before.hmap4,
                    before.predictions,
                );
            }
            let p: i32 = self.components[i].predict(
                h,
                self.bits.c8,
                self.bits.hmap4,
                &self.predictions,
                &self.stretch,
            );
            self.predictions.set(i, p);
            i = i + 1;
            proof {
                let after = old(self)@.predicted_upto(i as int);
                assert(self@.components =~= after.components);
                assert(self@.predictions =~= after.predictions);
                old(self)@.lemma_predicted_upto_ready(i as int);
            }
        }
        proof {
            self@.lemma_probability_range();
            if old(self)@.wf() {
                old(self)@.lemma_predicted_upto_wf(i as int);
            }
        }
        let n: usize = self.predictions.len();
        if n > 0 {
            squash(self.predictions[n - 1])
        } else {
            2048
        }
    }

    /// Updates the predictor with the actual value of the bit.
    pub fn update(&mut self, y: u8)
        requires
            old(self)@.wf(),
            y <= 1,
        ensures
            final(self)@ == old(self)@.updated(y),
            final(self)@.wf(),
    {
        proof {
            self@.lemma_updated_wf(y);
        }
        let ghost before = self@;
        let mut i: usize = 0;
        while i < self.components.len()
            invariant
                i <= self.components@.len() == before.components.len(),
                before.wf(),
                y <= 1,
                self.m@ == before.m,
                self.h@ == before.h,
                self.bits.c8 == before.c8,
                self.bits.hmap4 == before.hmap4,
                self.predictions@ == before.predictions,
                forall|k: int|
                    0 <= k < i ==> (#[trigger] self.components@[k])@ == before.updated(
                        y,
                    ).components[k],
                forall|k: int|
                    i <= k < self.components@.len() ==> (#[trigger] self.components@[k])@
                        == before.components[k],
            decreases self.components.len() - i,
        {
            let h: u32 = self.h[i];
            assert(self.components@[i as int]@ == before.components[i as int]);
            self.components[i].update(i, h, self.bits.c8, self.bits.hmap4, &self.predictions, y);
            i = i + 1;
        }
        let c8: u32 = self.bits.c8 * 2 + y as u32;
        assert(self.bits.hmap4 & 0xf <= 0xf) by {
            let x = self.bits.hmap4;
            assert(x & 0xf <= 0xf) by (bit_vector);
        }
        if c8 >= 256 {
            self.bits.hmap4 = 1;
            self.bits.c8 = 1;
        } else {
            self.bits.c8 = c8;
            if c8 >= 16 && c8 < 32 {
                self.bits.hmap4 = ((self.bits.hmap4 & 0xf) << 5) | ((y as u32) << 4) | 1;
            } else {
                let low: u32 = ((self.bits.hmap4 & 0xf) * 2 + y as u32) & 0xf;
                self.bits.hmap4 = (self.bits.hmap4 & 0x1f0) | low;
            }
        }
        assert(self@.components =~= before.updated(y).components);
    }

    /// Resets the bit position for a new byte.
    pub fn new_byte(&mut self)
        ensures
            final(self)@ == old(self)@.at_new_byte(),
    {
        self.bits.c8 = 1;
        self.bits.hmap4 = 1;
    }
}

} // verus!
