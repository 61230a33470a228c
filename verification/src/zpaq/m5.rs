//! The model that the compressor runs: its network of components and its context hashes.

use vstd::prelude::*;
use vstd::arithmetic::power2::lemma2_to64;
use crate::zpaq::component::Component;
use crate::zpaq::component_state::{back, lemma_wide_slot_fits, wide_slot_of, ComponentState};
use crate::zpaq::predictor::{Predictor, PredictorState};

verus! {

/// The components of the model, where the first of them has the number `base`.
pub open spec fn m5_components(base: int) -> Seq<ComponentState> {
    seq![
        ComponentState::new_icm(18),
        ComponentState::new_isse(18, base as usize),
        ComponentState::new_cm(9, 32),
        ComponentState::new_icm(5),
        ComponentState::new_isse(11, (base + 3) as usize),
        ComponentState::new_isse(17, (base + 4) as usize),
        ComponentState::new_isse(18, (base + 5) as usize),
        ComponentState::new_isse(18, (base + 6) as usize),
        ComponentState::new_isse(18, (base + 7) as usize),
        ComponentState::new_isse(18, (base + 8) as usize),
        ComponentState::new_isse(18, (base + 9) as usize),
        ComponentState::new_match(22, 24),
        ComponentState::new_icm(13),
        ComponentState::new_isse(18, (base + 12) as usize),
        ComponentState::new_icm(13),
        ComponentState::new_isse(18, (base + 14) as usize),
        ComponentState::new_icm(14),
        ComponentState::new_isse(18, (base + 16) as usize),
        ComponentState::new_mix(8, base as usize, (base + 17) as usize, 24),
        ComponentState::new_mix(16, base as usize, (base + 18) as usize, 24),
        ComponentState::new_mix2(8, (base + 19) as usize, (base + 18) as usize, 24),
        ComponentState::new_sse(19, (base + 20) as usize, 32, 64),
        ComponentState::new_mix2(0, (base + 21) as usize, (base + 20) as usize, 24),
    ]
}

/// Every component of the model is well formed where all of them have a prediction.
proof fn lemma_m5_components_wf(base: int, n: nat)
    requires
        0 <= base,
        base + 23 <= n <= usize::MAX,
    ensures
        forall|i: int| 0 <= i < 23 ==> (#[trigger] m5_components(base)[i]).wf(n),
{
    lemma2_to64();
    assert forall|i: int| 0 <= i < 23 implies (#[trigger] m5_components(base)[i]).wf(n) by {
    }
}

/// Every component of the model takes its inputs from the components before it.
pub proof fn law_m5_feeds_forward(base: int)
    requires
        0 <= base,
        base + 23 <= usize::MAX,
    ensures
        forall|i: int| 0 <= i < 23 ==> (#[trigger] m5_components(base)[i]).refers_below(base + i),
{
    assert forall|i: int| 0 <= i < 23 implies (#[trigger] m5_components(base)[i]).refers_below(
        base + i,
    ) by {
    }
}

/// Configures a predictor with the components of the model.
pub fn configure_m5(predictor: &mut Predictor, _buf_size: usize)
    requires
        old(predictor)@.components.len() + 23 <= usize::MAX,
    ensures
        final(predictor)@ == (PredictorState {
            components: old(predictor)@.components + m5_components(
                old(predictor)@.components.len() as int,
            ),
            ..old(predictor)@
        }),
        old(predictor)@.wf() && old(predictor)@.components.len() + 23 <= old(
            predictor,
        )@.predictions.len() && old(predictor)@.components.len() + 23 <= old(predictor)@.h.len()
            ==> final(predictor)@.wf(),
{
    let ghost base = predictor@.components.len() as int;
    proof {
        lemma2_to64();
    }
    let c0: usize = predictor.add_component(Component::icm(18));
    let _c1: usize = predictor.add_component(Component::isse(18, c0));
    let _c2: usize = predictor.add_component(Component::cm(9, 32));
    let c3: usize = predictor.add_component(Component::icm(5));
    let c4: usize = predictor.add_component(Component::isse(11, c3));
    let c5: usize = predictor.add_component(Component::isse(17, c4));
    let c6: usize = predictor.add_component(Component::isse(18, c5));
    let c7: usize = predictor.add_component(Component::isse(18, c6));
    let c8: usize = predictor.add_component(Component::isse(18, c7));
    let c9: usize = predictor.add_component(Component::isse(18, c8));
    let _c10: usize = predictor.add_component(Component::isse(18, c9));
    let _c11: usize = predictor.add_component(Component::match_(22, 24));
    let c12: usize = predictor.add_component(Component::icm(13));
    let _c13: usize = predictor.add_component(Component::isse(18, c12));
    let c14: usize = predictor.add_component(Component::icm(13));
    let _c15: usize = predictor.add_component(Component::isse(18, c14));
    let c16: usize = predictor.add_component(Component::icm(14));
    let c17: usize = predictor.add_component(Component::isse(18, c16));
    let c18: usize = predictor.add_component(Component::mix(8, c0..=c17, 24));
    let c19: usize = predictor.add_component(Component::mix(16, c0..=c18, 24));
    let c20: usize = predictor.add_component(Component::mix2(8, c19, c18, 24));
    let c21: usize = predictor.add_component(Component::sse(19, c20, 32, 64));
    let _c22: usize = predictor.add_component(Component::mix2(0, c21, c20, 24));
    proof {
        assert(predictor@.components =~= old(predictor)@.components + m5_components(base));
        if base + 23 <= predictor@.predictions.len() <= usize::MAX {
            lemma_m5_components_wf(base, predictor@.predictions.len());
        }
    }
}

/// The hash step of the contexts: `a` mixed with `x`, modulo 2^32.
pub open spec fn hash_of(a: u32, x: u32) -> u32 {
    a.wrapping_add(x).wrapping_add(512).wrapping_mul(773)
}

/// The byte is an ASCII letter.
pub open spec fn is_letter(byte: u8) -> bool {
    65 <= byte <= 90 || 97 <= byte <= 122
}

/// The byte before the last `k` bytes of the text in `m` that ends at `ptr`.
pub open spec fn recent(m: Seq<u8>, ptr: usize, k: int) -> u32 {
    m[back(ptr, k as usize, m.len())] as u32
}

/// The hash of the last `n` bytes of the text in `m` that ends at `ptr`, latest byte first.
pub open spec fn order_hash(m: Seq<u8>, ptr: usize, n: int) -> u32
    decreases n,
{
    if n <= 0 {
        0
    } else {
        hash_of(order_hash(m, ptr, n - 1), recent(m, ptr, n - 1))
    }
}

/// The position in the text, counted down.
pub open spec fn countdown(ptr: usize, len: nat) -> usize {
    (len - 1 - wide_slot_of(ptr, len)) as usize
}

/// The hash of the current word, where `h` is the hash so far.
pub open spec fn word_hash(h: u32, byte: u8) -> u32 {
    if is_letter(byte) {
        h.wrapping_mul(20).wrapping_add(byte as u32).wrapping_add(1)
    } else {
        0
    }
}

/// The hash of a column number with the byte before the last `k` bytes of the text.
pub open spec fn column_hash(column: u32, m: Seq<u8>, ptr: usize, k: int) -> u32 {
    hash_of(hash_of(0, column), recent(m, ptr, k))
}

/// The context hash `i` of the model once `byte` is the last byte of the text, where `h` holds the
/// hashes so far: of words, of the last bytes, of matches, and of columns two, three and four wide.
pub open spec fn m5_context(i: int, h: Seq<u32>, m: Seq<u8>, byte: u8, ptr: usize) -> u32 {
    let ch = byte as u32;
    let column = countdown(ptr, m.len());
    if i == 0 {
        word_hash(h[0], byte)
    } else if i == 1 {
        hash_of(word_hash(h[0], byte), ch)
    } else if i == 2 || i == 3 {
        0
    } else if 4 <= i <= 9 {
        order_hash(m, ptr, i - 3)
    } else if i == 10 {
        order_hash(m, ptr, 8)
    } else if i == 11 {
        h[11].wrapping_mul(24).wrapping_add(ch).wrapping_add(1)
    } else if i == 12 {
        column_hash((column & 1) as u32, m, ptr, 1)
    } else if i == 13 {
        hash_of(column_hash((column & 1) as u32, m, ptr, 1), ch)
    } else if i == 14 {
        column_hash((column % 3) as u32, m, ptr, 2)
    } else if i == 15 {
        hash_of(column_hash((column % 3) as u32, m, ptr, 2), ch)
    } else if i == 16 {
        column_hash((column & 3) as u32, m, ptr, 3)
    } else if i == 17 {
        hash_of(column_hash((column & 3) as u32, m, ptr, 3), ch)
    } else if i == 19 {
        ch << 8
    } else if i == 21 {
        ((ch << 8).wrapping_add(recent(m, ptr, 1)) >> 5) << 8
    } else {
        h[i]
    }
}

/// The predictor once `byte` is the byte number `ptr` of the text.
pub open spec fn hcomp_of(state: PredictorState, byte: u8, ptr: usize) -> PredictorState {
    let m = state.m.update(wide_slot_of(ptr, state.m.len()), byte);
    let seen = wide_slot_of((byte + 255) as usize, state.h.len());
    let h = state.h.update(seen, countdown(ptr, m.len()) as u32);
    PredictorState {
        m,
        h: Seq::new(h.len(), |i: int| m5_context(i, h, m, byte, ptr)),
        ..state
    }
}

/// The context hashes keep a predictor well formed.
pub proof fn lemma_hcomp_wf(state: PredictorState, byte: u8, ptr: usize)
    requires
        state.wf(),
        0 < state.h.len() <= usize::MAX,
    ensures
        hcomp_of(state, byte, ptr).wf(),
{
    lemma_wide_slot_fits((byte + 255) as usize, state.h.len());
}

fn hash(a: u32, x: u32) -> (r: u32)
    ensures
        r == hash_of(a, x),
{
    a.wrapping_add(x).wrapping_add(512).wrapping_mul(773)
}

fn read_recent(m: &Vec<u8>, ptr: usize, k: usize) -> (r: u32)
    requires
        m.len() > 0,
    ensures
        r == recent(m@, ptr, k as int),
{
    proof {
        lemma_wide_slot_fits(ptr.wrapping_sub(k), m@.len());
    }
    m[ptr.wrapping_sub(k) & (m.len() - 1)] as u32
}

/// The first `n` of the hashes `cur` are those after `byte`, the others are those in `h`.
spec fn computed(cur: Seq<u32>, n: int, h: Seq<u32>, m: Seq<u8>, byte: u8, ptr: usize) -> bool {
    &&& cur.len() == h.len()
    &&& forall|i: int|
        0 <= i < h.len() ==> #[trigger] cur[i] == if i < n {
            m5_context(i, h, m, byte, ptr)
        } else {
            h[i]
        }
}

/// Computes the context hashes `h` after `byte`, the last byte of the text in `m` that ends at
/// `ptr`.
fn compute_contexts(h: &mut Vec<u32>, m: &Vec<u8>, byte: u8, ptr: usize)
    requires
        m.len() > 0,
        old(h).len() >= 22,
    ensures
        final(h)@ == Seq::new(old(h)@.len(), |i: int| m5_context(i, old(h)@, m@, byte, ptr)),
{
    let ghost h0 = h@;
    let ch: u32 = byte as u32;
    proof {
        lemma_wide_slot_fits(ptr, m@.len());
    }
    let column: usize = m.len() - 1 - (ptr & (m.len() - 1));

    // Components 0 to 3: words.
    assert(65 <= byte & 223 <= 90 <==> is_letter(byte)) by (bit_vector);
    let word: u32 = if 65 <= byte & 223 && byte & 223 <= 90 {
        h[0].wrapping_mul(20).wrapping_add(ch).wrapping_add(1)
    } else {
        0
    };
    h.set(0, word);
    h.set(1, hash(word, ch));
    h.set(2, 0);
    h.set(3, 0);
    assert(computed(h@, 4, h0, m@, byte, ptr));

    // Components 4 to 10: the last bytes.
    let mut a: u32 = 0;
    let mut d: usize = 4;
    while d <= 9
        invariant
            4 <= d <= 10,
            a == order_hash(m@, ptr, d - 4),
            m.len() > 0,
            h0.len() >= 22,
            computed(h@, d as int, h0, m@, byte, ptr),
        decreases 10 - d,
    {
        a = hash(a, read_recent(m, ptr, d - 4));
        h.set(d, a);
        d = d + 1;
    }
    a = hash(a, read_recent(m, ptr, 6));
    a = hash(a, read_recent(m, ptr, 7));
    assert(a == order_hash(m@, ptr, 8)) by {
        reveal_with_fuel(order_hash, 3);
    }
    h.set(10, a);
    assert(computed(h@, 11, h0, m@, byte, ptr));

    // Component 11: matches.
    let matched: u32 = h[11].wrapping_mul(24).wrapping_add(ch).wrapping_add(1);
    h.set(11, matched);
    assert(computed(h@, 12, h0, m@, byte, ptr));

    // Components 12 to 17: columns.
    let h12: u32 = hash(hash(0, (column & 1) as u32), read_recent(m, ptr, 1));
    h.set(12, h12);
    h.set(13, hash(h12, ch));
    assert(computed(h@, 14, h0, m@, byte, ptr));
    let h14: u32 = hash(hash(0, (column % 3) as u32), read_recent(m, ptr, 2));
    h.set(14, h14);
    h.set(15, hash(h14, ch));
    assert(computed(h@, 16, h0, m@, byte, ptr));
    let h16: u32 = hash(hash(0, (column & 3) as u32), read_recent(m, ptr, 3));
    h.set(16, h16);
    h.set(17, hash(h16, ch));
    assert(computed(h@, 19, h0, m@, byte, ptr));

    // Components 19 and 21: the mixer and the final estimation.
    h.set(19, ch << 8);
    assert(computed(h@, 21, h0, m@, byte, ptr));
    let prev1: u32 = read_recent(m, ptr, 1);
    h.set(21, ((ch << 8).wrapping_add(prev1) >> 5) << 8);
    assert(computed(h@, 22, h0, m@, byte, ptr));
    assert(h@ =~= Seq::new(h0.len(), |i: int| m5_context(i, h0, m@, byte, ptr)));
}

/// Computes the context hashes of the model after `byte`, the byte number `buf_ptr` of the text.
pub fn hcomp_m5(predictor: &mut Predictor, byte: u8, buf_ptr: usize)
    requires
        old(predictor)@.m.len() > 0,
        old(predictor)@.h.len() >= 22,
    ensures
        final(predictor)@ == hcomp_of(old(predictor)@, byte, buf_ptr),
        old(predictor)@.wf() ==> final(predictor)@.wf(),
        final(predictor)@.m.len() == old(predictor)@.m.len(),
        final(predictor)@.h.len() == old(predictor)@.h.len(),
{
    let ghost before = predictor@;
    proof {
        predictor.lemma_view();
    }
    let buf_mask: usize = predictor.m.len() - 1;
    let h_mask: usize = predictor.h.len() - 1;
    proof {
        lemma_wide_slot_fits(buf_ptr, before.m.len());
        lemma_wide_slot_fits((byte + 255) as usize, before.h.len());
        if before.wf() {
            lemma_hcomp_wf(before, byte, buf_ptr);
        }
    }
    predictor.m.set(buf_ptr & buf_mask, byte);
    let column: usize = buf_mask - (buf_ptr & buf_mask);
    predictor.h.set((byte as usize + 255) & h_mask, column as u32);
    compute_contexts(&mut predictor.h, &predictor.m, byte, buf_ptr);
    proof {
        predictor.lemma_view();
        assert(predictor@ =~= hcomp_of(before, byte, buf_ptr));
    }
}

} // verus!
