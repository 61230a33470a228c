//! What a match model knows of the text that it has seen: the text itself, where the text continues
//! one that came before, and how far back the two agree.

use vstd::prelude::*;
use vstd::arithmetic::div_mod::{lemma_fundamental_div_mod_converse, lemma_mod_multiples_vanish};
use vstd::arithmetic::power2::{lemma2_to64, lemma_pow2_adds, lemma_pow2_pos, pow2};
use crate::zpaq::component_state::{
    back, bit_of, lemma_match_length_range, lemma_wide_slot_fits, match_length, table_fits,
    wide_slot_of, ComponentState,
};
use crate::zpaq::logistic::{
    law_stretch_monotone, law_stretch_signs, law_stretch_symmetric, stretch_of,
};

verus! {

/// The byte at the place `x` of a ring buffer, where places before the first count from the end.
pub open spec fn ring(buf: Seq<u8>, x: int) -> u8 {
    buf[x % buf.len() as int]
}

/// The byte `j` before the last one before `ptr` is the same as that `b` bytes before it.
pub open spec fn is_pair(buf: Seq<u8>, ptr: int, b: int, j: int) -> bool {
    ring(buf, ptr - 1 - j) == ring(buf, ptr - 1 - j - b)
}

/// The last `a` bytes before `ptr` agree with those `b` bytes before them.
pub open spec fn agrees(buf: Seq<u8>, ptr: int, b: int, a: int) -> bool {
    forall|j: int| 0 <= j < a ==> #[trigger] is_pair(buf, ptr, b, j)
}

/// The last `c` bits of `v` are the first `c` bits of `byte`.
pub open spec fn ends_with_bits(v: u8, byte: u8, c: int) -> bool {
    forall|k: int| 0 <= k < c ==> bit_of(v, 8 - c + k) == #[trigger] bit_of(byte, k)
}

/// The first `c` bits of two bytes are the same.
pub open spec fn begins_with_bits(v: u8, byte: u8, c: int) -> bool {
    forall|k: int| 0 <= k < c ==> bit_of(v, k) == #[trigger] bit_of(byte, k)
}

/// The match model has seen the first `t` bits of `text`: it holds the whole bytes, and the bits of
/// the byte that is not whole. Where it follows a match, the text agrees with the text `b` bytes
/// before it, in the last `a` bytes and in the bits behind them.
pub open spec fn has_seen(state: ComponentState, text: Seq<u8>, t: int) -> bool {
    let n = t / 8;
    let c = t % 8;
    match state {
        ComponentState::Match { cxt, buf, index, a, b, ptr } => {
            &&& cxt == c
            &&& ptr == n
            &&& forall|k: int| 0 <= k < n ==> #[trigger] buf[k] == text[k]
            &&& ends_with_bits(buf[n], text[n], c)
            &&& forall|k: int| 0 <= k < index.len() ==> #[trigger] index[k] <= n
            &&& a <= 255
            &&& a > 0 ==> {
                &&& 1 <= b <= n
                &&& agrees(buf, n, b as int, a as int)
                &&& begins_with_bits(buf[n - b], text[n], c)
            }
        },
        _ => false,
    }
}

/// A table of 2^`sizebits` entries can be indexed.
pub open spec fn has_size(len: nat, sizebits: u32) -> bool {
    sizebits < usize::BITS && len == pow2(sizebits as nat) <= usize::MAX
}

/// The low bits of a number select its remainder.
pub proof fn lemma_slot_is_remainder(x: usize, len: nat, sizebits: u32)
    requires
        has_size(len, sizebits),
    ensures
        wide_slot_of(x, len) == x as int % len as int,
        0 <= wide_slot_of(x, len) < len,
{
    lemma_pow2_pos(sizebits as nat);
    vstd::bits::lemma_usize_low_bits_mask_is_mod(x, sizebits as nat);
    lemma_wide_slot_fits(x, len);
}

/// The number of machine words is a multiple of every table size.
pub proof fn lemma_words(len: nat, sizebits: u32) -> (q: int)
    requires
        has_size(len, sizebits),
    ensures
        usize::MAX + 1 == q * len,
{
    let bits = usize::BITS as nat;
    lemma2_to64();
    lemma_pow2_adds(sizebits as nat, (bits - sizebits) as nat);
    let q = pow2((bits - sizebits) as nat) as int;
    assert(pow2(bits) == usize::MAX + 1);
    assert(q * len == len * q) by (nonlinear_arith);
    q
}

/// A step back in the ring is a difference.
pub proof fn lemma_back(ptr: usize, k: usize, len: nat, sizebits: u32)
    requires
        has_size(len, sizebits),
    ensures
        back(ptr, k, len) == (ptr - k) % len as int,
        ptr.wrapping_sub(k) as int % len as int == (ptr - k) % len as int,
{
    let q = lemma_words(len, sizebits);
    lemma_pow2_pos(sizebits as nat);
    lemma_slot_is_remainder(ptr.wrapping_sub(k), len, sizebits);
    if ptr < k {
        let x = ptr - k;
        assert(ptr.wrapping_sub(k) == x + q * len);
        assert(q * len == len * q) by (nonlinear_arith);
        lemma_mod_multiples_vanish(q, x, len as int);
    }
}

/// Two steps back in the ring.
proof fn lemma_back_twice(ptr: usize, k: usize, b: usize, len: nat, sizebits: u32)
    requires
        has_size(len, sizebits),
    ensures
        back(ptr.wrapping_sub(k), b, len) == (ptr - k - b) % len as int,
{
    lemma_pow2_pos(sizebits as nat);
    lemma_back(ptr, k, len, sizebits);
    let x = ptr.wrapping_sub(k);
    lemma_back(x, b, len, sizebits);
    let l = len as int;
    vstd::arithmetic::div_mod::lemma_sub_mod_noop(x as int, b as int, l);
    vstd::arithmetic::div_mod::lemma_sub_mod_noop(ptr - k, b as int, l);
}

/// The places shortly before `n` in a ring that is large enough are other places than `n`.
proof fn lemma_place(x: int, n: int, len: nat)
    requires
        -256 <= x < n,
        0 <= n,
        n + 256 < len,
    ensures
        0 <= x % len as int,
        x % (len as int) < len,
        x % len as int != n,
        x >= 0 ==> x % len as int == x,
{
    let l = len as int;
    if x >= 0 {
        lemma_fundamental_div_mod_converse(x, l, 0, x);
    } else {
        assert(x == -1 * l + (x + l)) by (nonlinear_arith);
        lemma_fundamental_div_mod_converse(x, l, -1, x + l);
    }
}

/// What is written at `n` does not change how the text before it agrees.
proof fn lemma_agrees_kept(buf: Seq<u8>, v: u8, n: int, b: int, a: int)
    requires
        0 <= n,
        n + 256 < buf.len(),
        0 <= a <= 255,
        1 <= b <= n,
        agrees(buf, n, b, a),
    ensures
        agrees(buf.update(n, v), n, b, a),
{
    let new = buf.update(n, v);
    assert forall|j: int| 0 <= j < a implies #[trigger] is_pair(new, n, b, j) by {
        assert(is_pair(buf, n, b, j));
        lemma_place(n - 1 - j, n, buf.len());
        lemma_place(n - 1 - j - b, n, buf.len());
    }
}

/// A byte that agrees makes the match longer.
proof fn lemma_agrees_longer(buf: Seq<u8>, n: int, b: int, a: int)
    requires
        0 <= n,
        n + 256 < buf.len(),
        0 <= a <= 255,
        1 <= b <= n,
        agrees(buf, n, b, a),
        buf[n] == buf[n - b],
    ensures
        agrees(buf, n + 1, b, a + 1),
{
    let l = buf.len() as int;
    assert forall|j: int| 0 <= j < a + 1 implies #[trigger] is_pair(buf, n + 1, b, j) by {
        if j == 0 {
            lemma_fundamental_div_mod_converse(n, l, 0, n);
            lemma_fundamental_div_mod_converse(n - b, l, 0, n - b);
        } else {
            assert(is_pair(buf, n, b, j - 1));
        }
    }
}

/// As far as the search for a match goes, the text agrees.
proof fn lemma_found_agrees(buf: Seq<u8>, ptr: usize, b: usize, a: int, sizebits: u32)
    requires
        has_size(buf.len(), sizebits),
        0 <= a <= 255,
        agrees(buf, ptr as int, b as int, a),
    ensures
        agrees(buf, ptr as int, b as int, match_length(buf, ptr, b, a)),
    decreases 255 - a,
{
    let k = (a + 1) as usize;
    lemma_back(ptr, k, buf.len(), sizebits);
    lemma_back_twice(ptr, k, b, buf.len(), sizebits);
    if a < 255 && buf[back(ptr, k, buf.len())] == buf[back(
        ptr.wrapping_sub(k),
        b,
        buf.len(),
    )] {
        assert(is_pair(buf, ptr as int, b as int, a));
        lemma_found_agrees(buf, ptr, b, a + 1, sizebits);
    }
}

proof fn lemma_shifted_bit(v: u8, y: u8, w: u8, d: u8)
    by (bit_vector)
    requires
        y <= 1,
        w == (v * 2 + y) % 256,
        d < 7,
    ensures
        (w >> 0u8) & 1 == y,
        (w >> ((d + 1) as u8)) & 1 == (v >> d) & 1,
{
}

/// A byte that takes up one bit more.
proof fn lemma_bit_taken(v: u8, byte: u8, c: int)
    requires
        0 <= c < 8,
        ends_with_bits(v, byte, c),
    ensures
        ends_with_bits(((v * 2 + bit_of(byte, c)) % 256) as u8, byte, c + 1),
{
    let y = bit_of(byte, c);
    let w = ((v * 2 + y) % 256) as u8;
    lemma_bit_range(byte, c);
    assert forall|k: int| 0 <= k < c + 1 implies bit_of(w, 8 - (c + 1) + k) == #[trigger] bit_of(
        byte,
        k,
    ) by {
        if k < c {
            lemma_shifted_bit(v, y, w, (7 - (8 - c + k)) as u8);
        } else {
            lemma_shifted_bit(v, y, w, 0);
        }
    }
}

proof fn lemma_bit_range(byte: u8, c: int)
    ensures
        bit_of(byte, c) <= 1,
{
    let x = byte >> ((7 - c) as u8);
    assert(x & 1 <= 1) by (bit_vector);
}

proof fn lemma_bits_decide(v: u8, w: u8)
    by (bit_vector)
    requires
        (v >> 0u8) & 1 == (w >> 0u8) & 1,
        (v >> 1u8) & 1 == (w >> 1u8) & 1,
        (v >> 2u8) & 1 == (w >> 2u8) & 1,
        (v >> 3u8) & 1 == (w >> 3u8) & 1,
        (v >> 4u8) & 1 == (w >> 4u8) & 1,
        (v >> 5u8) & 1 == (w >> 5u8) & 1,
        (v >> 6u8) & 1 == (w >> 6u8) & 1,
        (v >> 7u8) & 1 == (w >> 7u8) & 1,
    ensures
        v == w,
{
}

/// Bytes with the same bits are the same.
proof fn lemma_same_bytes(v: u8, byte: u8)
    requires
        begins_with_bits(v, byte, 8),
    ensures
        v == byte,
{
    assert(bit_of(v, 0) == bit_of(byte, 0));
    assert(bit_of(v, 1) == bit_of(byte, 1));
    assert(bit_of(v, 2) == bit_of(byte, 2));
    assert(bit_of(v, 3) == bit_of(byte, 3));
    assert(bit_of(v, 4) == bit_of(byte, 4));
    assert(bit_of(v, 5) == bit_of(byte, 5));
    assert(bit_of(v, 6) == bit_of(byte, 6));
    assert(bit_of(v, 7) == bit_of(byte, 7));
    lemma_bits_decide(v, byte);
}

/// What the model knows after one bit more, but before it goes on to the next byte.
proof fn lemma_bit_seen(
    text: Seq<u8>,
    n: int,
    c: int,
    buf: Seq<u8>,
    a: int,
    b: int,
) -> (r: (Seq<u8>, int))
    requires
        0 <= n,
        n + 256 < buf.len(),
        0 <= c < 8,
        forall|k: int| 0 <= k < n ==> #[trigger] buf[k] == text[k],
        ends_with_bits(buf[n], text[n], c),
        0 <= a <= 255,
        a > 0 ==> 1 <= b <= n && agrees(buf, n, b, a) && begins_with_bits(buf[n - b], text[n], c),
    ensures
        r.0 == buf.update(n, ((buf[n] * 2 + bit_of(text[n], c)) % 256) as u8),
        r.1 == (if a > 0 && bit_of(buf[n - b], c) != bit_of(text[n], c) {
            0
        } else {
            a
        }),
        forall|k: int| 0 <= k < n ==> #[trigger] r.0[k] == text[k],
        ends_with_bits(r.0[n], text[n], c + 1),
        r.1 > 0 ==> agrees(r.0, n, b, r.1) && begins_with_bits(r.0[n - b], text[n], c + 1),
{
    let y = bit_of(text[n], c);
    let new = buf.update(n, ((buf[n] * 2 + y) % 256) as u8);
    lemma_bit_taken(buf[n], text[n], c);
    let left: int = if a > 0 && bit_of(buf[n - b], c) != y {
        0
    } else {
        a
    };
    if left > 0 {
        lemma_agrees_kept(buf, new[n], n, b, a);
        assert(new[n - b] == buf[n - b]);
    }
    (new, left)
}

proof fn lemma_low_part(x: usize)
    ensures
        x as u32 <= x,
        x <= u32::MAX ==> x as u32 == x,
{
    let low = x as u32;
    assert(low <= x) by (bit_vector)
        requires
            low == x as u32,
    ;
}

/// A match model that has seen the first bits of a text has seen one bit more once it learned the
/// next bit, whatever else the contexts are. At the end of a byte, the context hash leads to the
/// place behind it.
pub proof fn law_match_follows(
    state: ComponentState,
    text: Seq<u8>,
    t: int,
    sizebits1: u32,
    sizebits2: u32,
    i: int,
    h: u32,
    c8: u32,
    hmap4: u32,
    predictions: Seq<i32>,
)
    requires
        0 <= t,
        state is Match,
        has_size(state->index.len(), sizebits1),
        has_size(state->buf.len(), sizebits2),
        t / 8 + 257 < state->buf.len(),
        has_seen(state, text, t),
    ensures
        ({
            let y = bit_of(text[t / 8], t % 8);
            let next = state.updated(i, h, c8, hmap4, predictions, y);
            let slot = wide_slot_of(h as usize, state->index.len());
            &&& next is Match
            &&& next->index.len() == state->index.len()
            &&& next->buf.len() == state->buf.len()
            &&& has_seen(next, text, t + 1)
            &&& t % 8 == 7 ==> next->index[slot] == ((t / 8 + 1) as usize) as u32
        }),
{
    let n = t / 8;
    let c = t % 8;
    let y = bit_of(text[n], c);
    let next = state.updated(i, h, c8, hmap4, predictions, y);
    match state {
        ComponentState::Match { cxt, buf, index, a, b, ptr } => {
            let len = buf.len();
            if a > 0 {
                lemma_back(ptr, b, len, sizebits2);
                lemma_place(n - b, n, len);
            }
            let (new, left) = lemma_bit_seen(text, n, c, buf, a as int, b as int);
            if c < 7 {
                assert((t + 1) / 8 == n && (t + 1) % 8 == c + 1);
                assert(next == (ComponentState::Match {
                    cxt: (c + 1) as usize,
                    buf: new,
                    index,
                    a: left as usize,
                    b,
                    ptr,
                }));
            } else {
                assert((t + 1) / 8 == n + 1 && (t + 1) % 8 == 0);
                lemma_byte_seen(text, n, new, left, b as int, ptr, index, h, sizebits1, sizebits2);
            }
        },
        _ => {},
    }
}

/// The place where the model looks for a match at the end of a byte.
proof fn lemma_byte_seen(
    text: Seq<u8>,
    n: int,
    buf: Seq<u8>,
    a: int,
    b: int,
    ptr: usize,
    index: Seq<u32>,
    h: u32,
    sizebits1: u32,
    sizebits2: u32,
)
    requires
        ptr == n,
        has_size(index.len(), sizebits1),
        has_size(buf.len(), sizebits2),
        n + 257 < buf.len(),
        forall|k: int| 0 <= k < n ==> #[trigger] buf[k] == text[k],
        ends_with_bits(buf[n], text[n], 8),
        forall|k: int| 0 <= k < index.len() ==> #[trigger] index[k] <= n,
        0 <= a <= 255,
        a > 0 ==> 1 <= b <= n && agrees(buf, n, b, a) && begins_with_bits(buf[n - b], text[n], 8),
    ensures
        ({
            let next = wide_slot_of((ptr + 1) as usize, buf.len()) as usize;
            let slot = wide_slot_of(h as usize, index.len());
            let offset = back(next, index[slot] as usize, buf.len()) as usize;
            let found = match_length(buf, next, offset, 0);
            &&& next == n + 1
            &&& 0 <= slot < index.len()
            &&& forall|k: int| 0 <= k < n + 1 ==> #[trigger] buf[k] == text[k]
            &&& forall|k: int|
                0 <= k < index.len() ==> #[trigger] index.update(slot, next as u32)[k] <= n + 1
            &&& 1 <= offset <= n + 1
            &&& 0 <= found <= 255
            &&& agrees(buf, n + 1, offset as int, found)
            &&& a > 0 ==> agrees(buf, n + 1, b, a + 1)
            &&& a > 0 ==> agrees(buf, n + 1, b, a)
        }),
{
    let len = buf.len();
    lemma_same_bytes(buf[n], text[n]);
    lemma_slot_is_remainder((ptr + 1) as usize, len, sizebits2);
    lemma_fundamental_div_mod_converse(n + 1, len as int, 0, n + 1);
    let next = (n + 1) as usize;
    let slot = wide_slot_of(h as usize, index.len());
    lemma_pow2_pos(sizebits1 as nat);
    lemma_wide_slot_fits(h as usize, index.len());
    lemma_low_part(next);
    let from = index[slot] as usize;
    lemma_back(next, from, len, sizebits2);
    lemma_fundamental_div_mod_converse(next - from, len as int, 0, next - from);
    let offset = back(next, from, len) as usize;
    lemma_match_length_range(buf, next, offset, 0);
    lemma_found_agrees(buf, next, offset, 0, sizebits2);
    if a > 0 {
        lemma_same_bytes(buf[n - b], text[n]);
        lemma_agrees_longer(buf, n, b, a);
        assert forall|j: int| 0 <= j < a implies #[trigger] is_pair(buf, n + 1, b, j) by {
        }
    }
}

/// A new match model after the first `t` bits of `text`, where `h` holds the context hash at each
/// of them.
pub open spec fn matched(
    sizebits1: u32,
    sizebits2: u32,
    text: Seq<u8>,
    h: Seq<u32>,
    t: int,
) -> ComponentState
    decreases t,
{
    if t <= 0 {
        ComponentState::new_match(sizebits1, sizebits2)
    } else {
        matched(sizebits1, sizebits2, text, h, t - 1).updated(
            0,
            h[t - 1],
            1,
            1,
            Seq::empty(),
            bit_of(text[(t - 1) / 8], (t - 1) % 8),
        )
    }
}

proof fn lemma_matched(sizebits1: u32, sizebits2: u32, text: Seq<u8>, h: Seq<u32>, t: int)
    requires
        table_fits(sizebits1, 4),
        table_fits(sizebits2, 1),
        0 <= t <= 8 * text.len(),
        text.len() + 256 < pow2(sizebits2 as nat),
    ensures
        ({
            let state = matched(sizebits1, sizebits2, text, h, t);
            let slot = wide_slot_of(h[t - 1] as usize, state->index.len());
            &&& state is Match
            &&& has_size(state->index.len(), sizebits1)
            &&& has_size(state->buf.len(), sizebits2)
            &&& has_seen(state, text, t)
            &&& t > 0 && t % 8 == 0 ==> state->index[slot] == ((t / 8) as usize) as u32
        }),
    decreases t,
{
    if t > 0 {
        lemma_matched(sizebits1, sizebits2, text, h, t - 1);
        let before = matched(sizebits1, sizebits2, text, h, t - 1);
        assert((t - 1) / 8 + 257 < before->buf.len());
        law_match_follows(
            before,
            text,
            t - 1,
            sizebits1,
            sizebits2,
            0,
            h[t - 1],
            1,
            1,
            Seq::empty(),
        );
    }
}

/// A new match model that has learned the bits of `text`, first bit first and with any context
/// hashes, stands behind the text and holds it. Where it follows a match, the last `a` bytes agree
/// with those `b` bytes before them. The last context hash leads to the end of the text.
pub proof fn law_match_of_text(sizebits1: u32, sizebits2: u32, text: Seq<u8>, h: Seq<u32>)
    requires
        table_fits(sizebits1, 4),
        table_fits(sizebits2, 1),
        1 <= text.len(),
        text.len() + 256 < pow2(sizebits2 as nat),
        h.len() == 8 * text.len(),
    ensures
        match matched(sizebits1, sizebits2, text, h, 8 * text.len() as int) {
            ComponentState::Match { cxt, buf, index, a, b, ptr } => {
                let n = text.len();
                let slot = wide_slot_of(h.last() as usize, index.len());
                &&& ptr == n
                &&& cxt == 0
                &&& buf.len() == pow2(sizebits2 as nat)
                &&& index.len() == pow2(sizebits1 as nat)
                &&& buf.take(n as int) == text
                &&& a <= 255
                &&& a > 0 ==> 1 <= b <= n && agrees(buf, n as int, b as int, a as int)
                &&& 0 <= slot < index.len()
                &&& n <= u32::MAX ==> index[slot] == n
            },
            _ => false,
        },
{
    let t = 8 * text.len() as int;
    lemma_matched(sizebits1, sizebits2, text, h, t);
    match matched(sizebits1, sizebits2, text, h, t) {
        ComponentState::Match { cxt, buf, index, a, b, ptr } => {
            assert(buf.take(text.len() as int) =~= text);
            lemma_pow2_pos(sizebits1 as nat);
            lemma_wide_slot_fits(h.last() as usize, index.len());
            lemma_low_part(ptr);
        },
        _ => {},
    }
}

/// The bits of a byte are its binary digits, top bit first.
pub proof fn law_bits_of_byte(byte: u8)
    ensures
        byte == 128 * bit_of(byte, 0) + 64 * bit_of(byte, 1) + 32 * bit_of(byte, 2) + 16 * bit_of(
            byte,
            3,
        ) + 8 * bit_of(byte, 4) + 4 * bit_of(byte, 5) + 2 * bit_of(byte, 6) + bit_of(byte, 7),
        forall|k: int| #[trigger] bit_of(byte, k) <= 1,
{
    assert(byte == 128 * ((byte >> 7) & 1) + 64 * ((byte >> 6) & 1) + 32 * ((byte >> 5) & 1) + 16
        * ((byte >> 4) & 1) + 8 * ((byte >> 3) & 1) + 4 * ((byte >> 2) & 1) + 2 * ((byte >> 1) & 1)
        + ((byte >> 0) & 1)) by (bit_vector);
    assert forall|k: int| #[trigger] bit_of(byte, k) <= 1 by {
        lemma_bit_range(byte, k);
    }
}

/// A match of `a` bytes leaves one part of `16 * a` to the bit that did not come behind it.
proof fn lemma_match_odds(a: int)
    requires
        1 <= a <= 255,
    ensures
        8 <= 2048int / a <= 2048,
        (-(2048int / a)) % 32768 == 32768 - 2048int / a,
{
    let q = 2048int / a;
    assert(8 <= q <= 2048) by (nonlinear_arith)
        requires
            q == 2048int / a,
            1 <= a <= 255,
    ;
}

/// Where a match model follows a match, it expects the bit that came behind the match: its logit is
/// above zero for a one, and below zero for a zero, and leaves one part of `16 * a` to the other
/// bit. Without a match it expects neither.
pub proof fn law_match_expects(
    state: ComponentState,
    h: u32,
    c8: u32,
    hmap4: u32,
    predictions: Seq<i32>,
)
    requires
        state is Match,
        state->a <= 255,
    ensures
        ({
            let (after, p) = state.predicted(h, c8, hmap4, predictions);
            let bit = bit_of(
                state->buf[back(state->ptr, state->Match_b, state->buf.len())],
                state->Match_cxt as int,
            );
            &&& after == state
            &&& state->a == 0 ==> p == 0
            &&& state->a > 0 && bit == 1 ==> p >= 1
            &&& state->a > 0 && bit == 0 ==> p <= -1
            &&& state->a > 0 && bit == 1 ==> p == -stretch_of(2048int / state->a as int - 1)
            &&& state->a > 0 && bit == 0 ==> p == stretch_of(2048int / state->a as int)
            &&& bit <= 1
        }),
{
    let byte = state->buf[back(state->ptr, state->Match_b, state->buf.len())];
    lemma_bit_range(byte, state->Match_cxt as int);
    if state->a > 0 {
        let q = 2048int / state->a as int;
        lemma_match_odds(state->a as int);
        law_stretch_signs(q);
        law_stretch_signs(32768 - q);
        law_stretch_symmetric(q - 1);
    }
}

/// The longer a match, the more the bit behind it is expected.
pub proof fn law_match_confidence(
    shorter: ComponentState,
    longer: ComponentState,
    h: u32,
    c8: u32,
    hmap4: u32,
    predictions: Seq<i32>,
)
    requires
        shorter is Match,
        longer is Match,
        longer == (ComponentState::Match {
            cxt: shorter->Match_cxt,
            buf: shorter->buf,
            index: shorter->index,
            a: longer->a,
            b: shorter->Match_b,
            ptr: shorter->ptr,
        }),
        shorter->a <= longer->a <= 255,
    ensures
        ({
            let p = shorter.predicted(h, c8, hmap4, predictions).1;
            let q = longer.predicted(h, c8, hmap4, predictions).1;
            &&& p > 0 ==> q >= p
            &&& p < 0 ==> q <= p
        }),
{
    law_match_expects(shorter, h, c8, hmap4, predictions);
    law_match_expects(longer, h, c8, hmap4, predictions);
    if shorter->a > 0 {
        let a = shorter->a as int;
        let c = longer->a as int;
        lemma_match_odds(a);
        lemma_match_odds(c);
        vstd::arithmetic::div_mod::lemma_div_is_ordered_by_denominator(2048, a, c);
        law_stretch_monotone(2048int / c, 2048int / a);
        law_stretch_monotone(32768 - 2048int / a, 32768 - 2048int / c);
    }
}

/// A match model that has seen a text up to a bit, and follows a match, expects the bit of the text
/// so many bytes before.
pub proof fn law_match_of_text_expects(
    state: ComponentState,
    text: Seq<u8>,
    t: int,
    sizebits: u32,
    h: u32,
    c8: u32,
    hmap4: u32,
    predictions: Seq<i32>,
)
    requires
        0 <= t,
        has_seen(state, text, t),
        has_size(state->buf.len(), sizebits),
        t / 8 < state->buf.len(),
        state->a > 0,
    ensures
        ({
            let p = state.predicted(h, c8, hmap4, predictions).1;
            let earlier = bit_of(text[t / 8 - state->Match_b], t % 8);
            &&& 1 <= state->Match_b <= t / 8
            &&& earlier == 1 ==> p >= 1
            &&& earlier == 0 ==> p <= -1
            &&& earlier <= 1
        }),
{
    let n = t / 8;
    let b = state->Match_b;
    law_match_expects(state, h, c8, hmap4, predictions);
    lemma_back(state->ptr, b, state->buf.len(), sizebits);
    lemma_fundamental_div_mod_converse(n - b, state->buf.len() as int, 0, n - b);
    assert(state->buf[n - b] == text[n - b]);
}

/// The search for a match goes as far as the text agrees.
proof fn lemma_found_ends(buf: Seq<u8>, ptr: usize, b: usize, a: int, sizebits: u32)
    requires
        has_size(buf.len(), sizebits),
        0 <= a <= 255,
    ensures
        ({
            let found = match_length(buf, ptr, b, a);
            found == 255 || !is_pair(buf, ptr as int, b as int, found)
        }),
    decreases 255 - a,
{
    let k = (a + 1) as usize;
    lemma_back(ptr, k, buf.len(), sizebits);
    lemma_back_twice(ptr, k, b, buf.len(), sizebits);
    if a < 255 && buf[back(ptr, k, buf.len())] == buf[back(
        ptr.wrapping_sub(k),
        b,
        buf.len(),
    )] {
        lemma_found_ends(buf, ptr, b, a + 1, sizebits);
    }
}

/// What a match model does with a bit. It takes the bit up into the byte at its place. A match goes
/// on while its bits come, and ends with the first that does not. At the end of a byte, a match
/// that went on is one byte longer, up to 255. Otherwise the context leads to the place where it
/// was seen last, and the match is as long as the texts before both places agree, up to 255 bytes.
/// The context then leads to the new place.
pub proof fn law_match_step(
    state: ComponentState,
    sizebits1: u32,
    sizebits2: u32,
    i: int,
    h: u32,
    c8: u32,
    hmap4: u32,
    predictions: Seq<i32>,
    y: u8,
)
    requires
        state is Match,
        state->Match_cxt < 8,
        state->a <= 255,
        state->ptr < state->buf.len(),
        has_size(state->index.len(), sizebits1),
        has_size(state->buf.len(), sizebits2),
        y <= 1,
    ensures
        ({
            let (buf, index, ptr, a, b) = (
                state->buf,
                state->index,
                state->ptr,
                state->a,
                state->Match_b,
            );
            let next = state.updated(i, h, c8, hmap4, predictions, y);
            let len = buf.len() as int;
            let goes_on = a > 0 && bit_of(ring(buf, ptr - b), state->Match_cxt as int) == y;
            let slot = h as int % index.len() as int;
            &&& next is Match
            &&& next->buf == buf.update(ptr as int, ((2 * buf[ptr as int] + y) % 256) as u8)
            &&& state->Match_cxt < 7 ==> {
                &&& next->Match_cxt == state->Match_cxt + 1
                &&& next->ptr == ptr
                &&& next->index == index
                &&& next->Match_b == b
                &&& next->a == if goes_on {
                    a as int
                } else {
                    0
                }
            }
            &&& state->Match_cxt == 7 ==> {
                &&& next->Match_cxt == 0
                &&& next->ptr == (ptr + 1) % len
                &&& next->index == index.update(slot, next->ptr as u32)
                &&& 0 <= slot < index.len()
                &&& goes_on ==> next->Match_b == b
                &&& goes_on && a < 255 ==> next->a == a + 1
                &&& goes_on && a == 255 ==> next->a == 255
                &&& !goes_on ==> next->Match_b == (next->ptr - index[slot]) % len
                &&& !goes_on && next->Match_b == 0 ==> next->a == 0
                &&& !goes_on && next->Match_b > 0 ==> {
                    &&& next->a <= 255
                    &&& agrees(next->buf, next->ptr as int, next->Match_b as int, next->a as int)
                    &&& next->a == 255 || !is_pair(
                        next->buf,
                        next->ptr as int,
                        next->Match_b as int,
                        next->a as int,
                    )
                }
            }
        }),
{
    match state {
        ComponentState::Match { cxt, buf, index, a, b, ptr } => {
            let len = buf.len();
            lemma_pow2_pos(sizebits1 as nat);
            lemma_pow2_pos(sizebits2 as nat);
            lemma_back(ptr, b, len, sizebits2);
            lemma_slot_is_remainder((ptr + 1) as usize, len, sizebits2);
            lemma_slot_is_remainder(h as usize, index.len(), sizebits1);
            let new = buf.update(ptr as int, ((buf[ptr as int] * 2 + y) % 256) as u8);
            let next = wide_slot_of((ptr + 1) as usize, len) as usize;
            let slot = wide_slot_of(h as usize, index.len());
            lemma_back(next, index[slot] as usize, len, sizebits2);
            let offset = back(next, index[slot] as usize, len) as usize;
            lemma_match_length_range(new, next, offset, 0);
            lemma_found_agrees(new, next, offset, 0, sizebits2);
            lemma_found_ends(new, next, offset, 0, sizebits2);
        },
        _ => {},
    }
}

} // verus!
