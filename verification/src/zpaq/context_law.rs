//! What the contexts of the model are: numbers made of the text alone, of its last word, its last
//! bytes and its columns.

use vstd::prelude::*;
use vstd::arithmetic::div_mod::{lemma_mod_multiples_vanish, lemma_sub_mod_noop};
use vstd::arithmetic::power2::lemma2_to64;
use crate::zpaq::component_state::wide_slot_of;
use crate::zpaq::compress::{coded, initial_predictor};
use crate::zpaq::encoder::EncoderState;
use crate::zpaq::m5::{
    column_hash, countdown, hash_of, hcomp_of, m5_context, order_hash, recent, word_hash,
};
use crate::zpaq::match_law::{has_size, lemma_back, lemma_slot_is_remainder};
use crate::zpaq::predictor::PredictorState;

verus! {

/// The byte of a text so many before the last, or zero where the text does not go back so far.
pub open spec fn latest(text: Seq<u8>, k: int) -> int {
    if 0 <= k < text.len() {
        text[text.len() - 1 - k] as int
    } else {
        0
    }
}

/// A number with one more mixed in, in 32 bits.
pub open spec fn mixed(a: int, x: int) -> int {
    (a + x + 512) * 773 % 0x1_0000_0000
}

/// The last `n` bytes of a text mixed to a number, the last byte first.
pub open spec fn mixed_back(text: Seq<u8>, n: int) -> int
    decreases n,
{
    if n <= 0 {
        0
    } else {
        mixed(mixed_back(text, n - 1), latest(text, n - 1))
    }
}

/// A letter from A to Z, in upper or lower case.
pub open spec fn is_word_byte(byte: int) -> bool {
    65 <= byte <= 90 || 97 <= byte <= 122
}

/// The number of the word that a text ends with, in 32 bits: zero where it does not end with a
/// letter.
pub open spec fn word_number(text: Seq<u8>) -> int
    decreases text.len(),
{
    if text.len() == 0 || !is_word_byte(text.last() as int) {
        0
    } else {
        (word_number(text.drop_last()) * 20 + text.last() + 1) % 0x1_0000_0000
    }
}

/// The number of a text, in 32 bits: each byte counts 24 times as much as the one behind it.
pub open spec fn text_number(text: Seq<u8>) -> int
    decreases text.len(),
{
    if text.len() == 0 {
        0
    } else {
        (text_number(text.drop_last()) * 24 + text.last() + 1) % 0x1_0000_0000
    }
}

/// The column of the last byte of a text, counted down from 65535.
pub open spec fn column_of(text: Seq<u8>) -> int {
    65535 - (text.len() - 1) % 65536
}

/// The last byte but `k` of a text mixed with its column in lines of `width` bytes.
pub open spec fn column_number(text: Seq<u8>, width: int, k: int) -> int {
    mixed(mixed(0, column_of(text) % width), latest(text, k))
}

/// The context number `i` of a text.
pub open spec fn context_of(text: Seq<u8>, i: int) -> int {
    if i == 0 {
        word_number(text)
    } else if i == 1 {
        mixed(word_number(text), latest(text, 0))
    } else if 4 <= i <= 9 {
        mixed_back(text, i - 3)
    } else if i == 10 {
        mixed_back(text, 8)
    } else if i == 11 {
        text_number(text)
    } else if i == 12 {
        column_number(text, 2, 1)
    } else if i == 13 {
        mixed(column_number(text, 2, 1), latest(text, 0))
    } else if i == 14 {
        column_number(text, 3, 2)
    } else if i == 15 {
        mixed(column_number(text, 3, 2), latest(text, 0))
    } else if i == 16 {
        column_number(text, 4, 3)
    } else if i == 17 {
        mixed(column_number(text, 4, 3), latest(text, 0))
    } else if i == 19 {
        latest(text, 0) * 256
    } else if i == 21 {
        (latest(text, 0) * 256 + latest(text, 1)) / 32 * 256
    } else {
        0
    }
}

/// The last 65536 bytes of `text` stand in `m`, each at the rest of its number by 65536.
pub open spec fn holds(m: Seq<u8>, text: Seq<u8>) -> bool {
    &&& m.len() == 65536
    &&& forall|k: int|
        0 <= k < 65536 ==> m[#[trigger] ((text.len() - 1 - k) % 65536)] == latest(text, k)
}

/// The predictor has the text and its contexts.
pub open spec fn tracks(state: PredictorState, text: Seq<u8>) -> bool {
    &&& holds(state.m, text)
    &&& state.h.len() == 512
    &&& text.len() > 0 ==> forall|i: int|
        0 <= i < 23 ==> #[trigger] state.h[i] == context_of(text, i)
    &&& text.len() == 0 ==> forall|i: int| 0 <= i < 23 ==> #[trigger] state.h[i] == 0
}

proof fn lemma_mixed(a: u32, x: u32)
    ensures
        hash_of(a, x) == mixed(a as int, x as int),
{
    let s = a.wrapping_add(x).wrapping_add(512) as int;
    let t = a + x + 512;
    let d: int = (t - s) / 0x1_0000_0000;
    assert(t == s + 0x1_0000_0000 * d);
    lemma_mod_multiples_vanish(773 * d, s * 773, 0x1_0000_0000);
}

/// One more byte is held at its place.
proof fn lemma_held(m: Seq<u8>, text: Seq<u8>, byte: u8)
    requires
        holds(m, text),
    ensures
        holds(m.update(text.len() as int % 65536, byte), text.push(byte)),
{
    let n = text.len() as int;
    let new = m.update(n % 65536, byte);
    let longer = text.push(byte);
    assert forall|k: int| 0 <= k < 65536 implies new[#[trigger] ((longer.len() - 1 - k) % 65536)]
        == latest(longer, k) by {
        if k > 0 {
            assert((n - k) % 65536 != n % 65536);
            assert(m[(text.len() - 1 - (k - 1)) % 65536] == latest(text, k - 1));
            assert(text.len() - 1 - (k - 1) == longer.len() - 1 - k);
        }
    }
}

proof fn lemma_recent(m: Seq<u8>, text: Seq<u8>, k: int)
    requires
        holds(m, text),
        text.len() > 0,
        0 <= k < 65536,
    ensures
        recent(m, ((text.len() - 1) % 65536) as usize, k) == latest(text, k),
{
    lemma2_to64();
    let ptr = ((text.len() - 1) % 65536) as usize;
    assert(has_size(m.len(), 16));
    lemma_back(ptr, k as usize, m.len(), 16);
    lemma_sub_mod_noop(text.len() - 1, k, 65536);
    lemma_sub_mod_noop(ptr as int, k, 65536);
    assert((ptr - k) % 65536 == (text.len() - 1 - k) % 65536);
}

proof fn lemma_order(m: Seq<u8>, text: Seq<u8>, n: int)
    requires
        holds(m, text),
        text.len() > 0,
        0 <= n <= 8,
    ensures
        order_hash(m, ((text.len() - 1) % 65536) as usize, n) == mixed_back(text, n),
    decreases n,
{
    if n > 0 {
        lemma_order(m, text, n - 1);
        lemma_recent(m, text, n - 1);
        let ptr = ((text.len() - 1) % 65536) as usize;
        lemma_mixed(order_hash(m, ptr, n - 1), recent(m, ptr, n - 1));
    }
}

proof fn lemma_column(m: Seq<u8>, text: Seq<u8>, column: u32, width: int, k: int)
    requires
        holds(m, text),
        text.len() > 0,
        0 <= k < 65536,
        column == column_of(text) % width,
    ensures
        column_hash(column, m, ((text.len() - 1) % 65536) as usize, k) == column_number(
            text,
            width,
            k,
        ),
{
    let ptr = ((text.len() - 1) % 65536) as usize;
    lemma_recent(m, text, k);
    lemma_mixed(0, column);
    lemma_mixed(hash_of(0, column), recent(m, ptr, k));
}

proof fn lemma_columns(x: usize)
    ensures
        (x & 1) as u32 == x % 2,
        (x & 3) as u32 == x % 4,
        (x % 3) as u32 == x % 3,
{
    lemma2_to64();
    vstd::bits::lemma_low_bits_mask_values();
    vstd::bits::lemma_usize_low_bits_mask_is_mod(x, 1);
    vstd::bits::lemma_usize_low_bits_mask_is_mod(x, 2);
}

proof fn lemma_last_shifts(ch: u32, prev: u32)
    requires
        ch <= 255,
        prev <= 255,
    ensures
        ch << 8 == ch * 256,
        ((ch << 8).wrapping_add(prev) >> 5) << 8 == (ch * 256 + prev) / 32 * 256,
{
    lemma2_to64();
    vstd::bits::lemma_u32_shl_is_mul(ch, 8);
    let sum = (ch << 8).wrapping_add(prev);
    vstd::bits::lemma_u32_shr_is_div(sum, 5);
    vstd::bits::lemma_u32_shl_is_mul(sum >> 5, 8);
}

/// The last contexts and the new text lead to the new contexts.
proof fn lemma_context(
    m: Seq<u8>,
    h: Seq<u32>,
    text: Seq<u8>,
    byte: u8,
    i: int,
)
    requires
        holds(m, text.push(byte)),
        0 <= i < 23,
        h.len() == 512,
        h[0] == word_number(text),
        h[11] == text_number(text),
        i == 18 || i == 20 || i == 22 ==> h[i] == 0,
    ensures
        m5_context(i, h, m, byte, (text.len() % 65536) as usize) == context_of(text.push(byte), i),
{
    let longer = text.push(byte);
    let ptr = (text.len() % 65536) as usize;
    lemma2_to64();
    assert(longer.drop_last() =~= text);
    assert(has_size(m.len(), 16));
    lemma_slot_is_remainder(ptr, m.len(), 16);
    let column = countdown(ptr, m.len());
    assert(column == column_of(longer));
    lemma_columns(column);
    lemma_recent(m, longer, 1);
    let word = word_hash(h[0], byte);
    assert(word == word_number(longer)) by {
        let x = h[0] as int;
        assert(h[0].wrapping_mul(20) == x * 20 % 0x1_0000_0000);
    }
    lemma_mixed(word, byte as u32);
    lemma_last_shifts(byte as u32, recent(m, ptr, 1));
    if 4 <= i <= 9 {
        lemma_order(m, longer, i - 3);
    } else if i == 10 {
        lemma_order(m, longer, 8);
    } else if i == 11 {
        assert(h[11].wrapping_mul(24) == h[11] * 24 % 0x1_0000_0000);
    } else if i == 12 || i == 13 {
        lemma_column(m, longer, (column & 1) as u32, 2, 1);
        lemma_mixed(column_hash((column & 1) as u32, m, ptr, 1), byte as u32);
    } else if i == 14 || i == 15 {
        lemma_column(m, longer, (column % 3) as u32, 3, 2);
        lemma_mixed(column_hash((column % 3) as u32, m, ptr, 2), byte as u32);
    } else if i == 16 || i == 17 {
        lemma_column(m, longer, (column & 3) as u32, 4, 3);
        lemma_mixed(column_hash((column & 3) as u32, m, ptr, 3), byte as u32);
    }
}

/// A predictor that has a text and its contexts has them of one byte more, once the contexts are
/// computed after the byte.
pub proof fn law_contexts_follow(state: PredictorState, text: Seq<u8>, byte: u8)
    requires
        tracks(state, text),
    ensures
        tracks(hcomp_of(state, byte, (text.len() % 65536) as usize), text.push(byte)),
{
    let ptr = (text.len() % 65536) as usize;
    let after = hcomp_of(state, byte, ptr);
    lemma2_to64();
    assert(has_size(state.m.len(), 16));
    assert(has_size(state.h.len(), 9));
    lemma_slot_is_remainder(ptr, state.m.len(), 16);
    lemma_slot_is_remainder((byte + 255) as usize, state.h.len(), 9);
    let m = state.m.update(wide_slot_of(ptr, state.m.len()), byte);
    lemma_held(state.m, text, byte);
    let seen = byte + 255;
    let h = state.h.update(seen, countdown(ptr, m.len()) as u32);
    assert(state.h[0] == word_number(text)) by {
        assert(text.len() > 0 ==> state.h[0] == context_of(text, 0));
    }
    assert(state.h[11] == text_number(text)) by {
        assert(text.len() > 0 ==> state.h[11] == context_of(text, 11));
    }
    assert forall|i: int| 0 <= i < 23 implies #[trigger] after.h[i] == context_of(
        text.push(byte),
        i,
    ) by {
        assert(state.h[i] == state.h[i]);
        assert(h[0] == state.h[0] && h[11] == state.h[11] && h[i] == state.h[i]);
        lemma_context(m, h, text, byte, i);
    }
}

/// A predictor with an empty text and no contexts.
pub proof fn law_contexts_start(state: PredictorState)
    requires
        state.m == Seq::new(65536, |i: int| 0u8),
        state.h == Seq::new(512, |i: int| 0u32),
    ensures
        tracks(state, Seq::empty()),
{
}

proof fn lemma_mixed_injective(a: int, b: int, x: int, y: int)
    requires
        0 <= a < 0x1_0000_0000,
        0 <= b < 0x1_0000_0000,
        0 <= x <= 255,
        0 <= y <= 255,
        mixed(a, x) == mixed(b, y),
    ensures
        x == y ==> a == b,
        a == b ==> x == y,
{
    let u = a + x + 512;
    let v = b + y + 512;
    let m: int = 0x1_0000_0000;
    vstd::arithmetic::div_mod::lemma_mul_mod_noop_left(u * 773, 322261453, m);
    vstd::arithmetic::div_mod::lemma_mul_mod_noop_left(v * 773, 322261453, m);
    assert(773 * 322261453 == 1 + m * 58);
    assert(u * 773 * 322261453 == u + m * (58 * u));
    assert(v * 773 * 322261453 == v + m * (58 * v));
    lemma_mod_multiples_vanish(58 * u, u, m);
    lemma_mod_multiples_vanish(58 * v, v, m);
    assert(u % m == v % m);
}

proof fn lemma_mixed_back_range(text: Seq<u8>, n: int)
    ensures
        0 <= mixed_back(text, n) < 0x1_0000_0000,
    decreases n,
{
}

proof fn lemma_mixed_back_differs(s: Seq<u8>, t: Seq<u8>, k: int, n: int)
    requires
        0 <= k,
        forall|j: int| 0 <= j < n && j != k ==> #[trigger] latest(s, j) == latest(t, j),
        latest(s, k) != latest(t, k),
    ensures
        n <= k ==> mixed_back(s, n) == mixed_back(t, n),
        n > k ==> mixed_back(s, n) != mixed_back(t, n),
    decreases n,
{
    if n > 0 {
        lemma_mixed_back_differs(s, t, k, n - 1);
        let (a, b) = (mixed_back(s, n - 1), mixed_back(t, n - 1));
        lemma_mixed_back_range(s, n - 1);
        lemma_mixed_back_range(t, n - 1);
        let (x, y) = (latest(s, n - 1), latest(t, n - 1));
        if mixed(a, x) == mixed(b, y) {
            lemma_mixed_injective(a, b, x, y);
        }
    }
}

/// Of two texts that differ in one of their last bytes, all those contexts differ in which the byte
/// counts, and the others of the last bytes are the same.
pub proof fn law_contexts_differ(
    p: PredictorState,
    q: PredictorState,
    s: Seq<u8>,
    t: Seq<u8>,
    k: int,
    i: int,
)
    requires
        tracks(p, s),
        tracks(q, t),
        s.len() > 0,
        t.len() > 0,
        0 <= k < 8,
        4 <= i <= 10,
        forall|j: int| 0 <= j < 8 && j != k ==> #[trigger] latest(s, j) == latest(t, j),
        latest(s, k) != latest(t, k),
    ensures
        ({
            let n = if i == 10 {
                8
            } else {
                i - 3
            };
            p.h[i] != q.h[i] <==> k < n
        }),
{
    let n = if i == 10 {
        8
    } else {
        i - 3
    };
    lemma_mixed_back_differs(s, t, k, n);
    assert(p.h[i] == context_of(s, i));
    assert(q.h[i] == context_of(t, i));
}

proof fn lemma_predicted_keeps(state: PredictorState, n: int)
    ensures
        state.predicted_upto(n).m == state.m,
        state.predicted_upto(n).h == state.h,
    decreases n,
{
    if n > 0 {
        lemma_predicted_keeps(state, n - 1);
    }
}

proof fn lemma_encoded_keeps(e: EncoderState, byte: u8, n: int)
    ensures
        e.encoded_bits(byte, n).predictor.m == e.predictor.m,
        e.encoded_bits(byte, n).predictor.h == e.predictor.h,
    decreases n,
{
    if n > 0 {
        lemma_encoded_keeps(e, byte, n - 1);
        let p = e.encoded_bits(byte, n - 1).predictor;
        lemma_predicted_keeps(p, p.components.len() as int);
    }
}

/// While a text is compressed, the contexts after every byte are those of the text up to it.
pub proof fn law_coded_contexts(out: Seq<u8>, data: Seq<u8>, n: int)
    requires
        0 <= n <= data.len(),
    ensures
        tracks(
            coded(EncoderState::start(out, initial_predictor()), data, n).predictor,
            data.take(n),
        ),
    decreases n,
{
    reveal(coded);
    let start = EncoderState::start(out, initial_predictor());
    if n == 0 {
        assert(data.take(0) =~= Seq::empty());
        law_contexts_start(initial_predictor());
    } else {
        law_coded_contexts(out, data, n - 1);
        let before = coded(start, data, n - 1);
        let byte = data[n - 1];
        let after = before.encoded_byte(byte);
        lemma_encoded_keeps(before.at_new_byte(), byte, 8);
        assert(tracks(after.predictor, data.take(n - 1)));
        law_contexts_follow(after.predictor, data.take(n - 1), byte);
        assert(data.take(n) =~= data.take(n - 1).push(byte));
        assert(data.take(n - 1).len() == n - 1);
    }
}

/// Behind the contexts, the place of every byte value has the column where it came last. Computing
/// contexts leaves all others as they are.
pub proof fn law_last_columns(state: PredictorState, text: Seq<u8>, byte: u8, i: int)
    requires
        tracks(state, text),
        23 <= i < 512,
    ensures
        ({
            let after = hcomp_of(state, byte, (text.len() % 65536) as usize);
            after.h[i] == if i == 255 + byte {
                column_of(text.push(byte))
            } else {
                state.h[i] as int
            }
        }),
{
    let ptr = (text.len() % 65536) as usize;
    lemma2_to64();
    assert(has_size(state.m.len(), 16));
    assert(has_size(state.h.len(), 9));
    lemma_slot_is_remainder(ptr, state.m.len(), 16);
    lemma_slot_is_remainder((byte + 255) as usize, state.h.len(), 9);
}

} // verus!
