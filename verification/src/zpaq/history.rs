//! Bit histories, adaptive counters and the hash table that finds the histories of a context.

use vstd::prelude::*;
use crate::zpaq::tables;

verus! {

/// The learning rate after `count` observations, in units of 1/65536: roughly one divided by
/// `count + 1.5`.
pub open spec fn dt_of(count: int) -> int {
    131072int / (2 * count + 3) * 2
}

/// The learning rate after `count` observations.
pub fn dt(count: u32) -> (r: u32)
    requires
        2 * count + 3 <= u32::MAX,
    ensures
        r == dt_of(count as int),
        r <= 87380,
{
    proof {
        assert(131072int / (2 * count as int + 3) <= 43690) by (nonlinear_arith)
            requires
                count >= 0,
        ;
        assert(131072int / (2 * count as int + 3) >= 0) by (nonlinear_arith)
            requires
                count >= 0,
        ;
    }
    (131072 / (2 * count + 3)) * 2
}

/// An adaptive probability after the bit `y`: a 22-bit probability above a 10-bit count.
///
/// The probability moves towards `y` at the rate that the count gives, and the count grows up to
/// `limit`. All of it is modulo 2^32.
pub open spec fn trained(pn: u32, limit: u32, y: u8) -> u32 {
    let count = pn as int % 1024;
    let error = y * 32767 - pn as int / 131072;
    let grown: int = if count < limit {
        1
    } else {
        0
    };
    ((pn + error * dt_of(count) / 1024 * 1024 + grown) % 0x1_0000_0000) as u32
}

/// The sum of `a` and `b` modulo 2^32, where `b` is given by its low 32 bits.
proof fn lemma_wrapping_sum(a: u32, d: i64, inc: u32)
    requires
        inc <= 1,
    ensures
        a.wrapping_add((d & !1023i64) as u32).wrapping_add(inc) == (a + d as int / 1024 * 1024
            + inc) % 0x1_0000_0000,
{
    let e: i64 = d & !1023i64;
    let low: u32 = e as u32;
    assert(e == (d / 1024) * 1024 && low == e % 0x1_0000_0000i64) by (bit_vector)
        requires
            e == d & !1023i64,
            low == e as u32,
    ;
    assert((d as int) / 1024 == (d / 1024) as int);
    let e = e as int;
    assert(low == e % 0x1_0000_0000);
    let q = e / 0x1_0000_0000;
    assert(e == q * 0x1_0000_0000 + low) by {
        vstd::arithmetic::div_mod::lemma_fundamental_div_mod(e, 0x1_0000_0000);
    }
    let t = a + low + inc;
    assert((a + e + inc) % 0x1_0000_0000 == t % 0x1_0000_0000) by {
        vstd::arithmetic::div_mod::lemma_mod_multiples_vanish(q, t, 0x1_0000_0000);
    }
}

/// Trains an adaptive probability on the bit `y`.
pub fn train(pn: &mut u32, limit: u32, y: u8)
    requires
        y <= 1,
    ensures
        *final(pn) == trained(*old(pn), limit, y),
{
    let before: u32 = *pn;
    proof {
        assert(before & 0x3ff == before % 1024 && before >> 17 == before / 131072 && before >> 17
            <= 32767) by (bit_vector);
    }
    let count: u32 = before & 0x3ff;
    let error: i32 = y as i32 * 32767 - (before >> 17) as i32;
    let rate: i64 = dt(count) as i64;
    proof {
        assert(-0x7fff_ffff_ffff <= error * rate <= 0x7fff_ffff_ffff) by (nonlinear_arith)
            requires
                -32767 <= error <= 32767,
                0 <= rate <= 87380,
        ;
    }
    let delta: i64 = error as i64 * rate;
    let grown: u32 = if count < limit {
        1
    } else {
        0
    };
    proof {
        lemma_wrapping_sum(before, delta, grown);
    }
    *pn = before.wrapping_add((delta & !1023i64) as u32).wrapping_add(grown);
}

/// A correction upwards that is smaller than the gap to one keeps to 32 bits.
pub proof fn lemma_corrected_upwards(pn: int, delta: int, grown: int)
    requires
        0 <= pn < 0x1_0000_0000,
        0 <= delta <= (32767 - pn / 131072) * 87380,
        0 <= grown <= 1,
        pn % 1024 + grown <= 1023,
    ensures
        pn <= pn + delta / 1024 * 1024 + grown < 0x1_0000_0000,
{
    let p = pn / 131072;
    let sum = pn + delta / 1024 * 1024;
    assert(sum <= pn + (32767 - p) * 87380);
    assert(sum < 0x1_0000_0000);
    assert(sum % 1024 == pn % 1024);
}

/// A correction downwards that is smaller than the gap to zero keeps to 32 bits.
pub proof fn lemma_corrected_downwards(pn: int, delta: int, grown: int)
    requires
        0 <= pn < 0x1_0000_0000,
        -(pn / 131072 * 87380) <= delta <= 0,
        0 <= grown <= 1,
        pn % 1024 + grown <= 1023,
    ensures
        0 <= pn + delta / 1024 * 1024 + grown < 0x1_0000_0000,
        (pn + delta / 1024 * 1024 + grown) / 131072 <= pn / 131072,
{
    let p = pn / 131072;
    let q = delta / 1024;
    assert(delta - 1023 <= q * 1024 <= delta);
    assert(p == 0 ==> q == 0);
    assert(0 <= pn + q * 1024);
    assert((pn + q * 1024 + grown) / 1024 == pn / 1024 + q);
}

/// A trained probability does not move away from the bit, where the count keeps to its ten bits.
pub proof fn law_trained_towards(pn: u32, limit: u32, y: u8)
    requires
        limit <= 1023,
        y <= 1,
    ensures
        y == 1 ==> trained(pn, limit, y) as int / 131072 >= pn as int / 131072,
        y == 0 ==> trained(pn, limit, y) as int / 131072 <= pn as int / 131072,
{
    let count = pn as int % 1024;
    let p = pn as int / 131072;
    let rate = dt_of(count);
    let grown: int = if count < limit {
        1
    } else {
        0
    };
    assert(0 <= 131072int / (2 * count + 3) <= 43690) by (nonlinear_arith)
        requires
            count >= 0,
    ;
    if y == 1 {
        let error = 32767 - p;
        assert(0 <= error * rate <= error * 87380) by (nonlinear_arith)
            requires
                0 <= error,
                0 <= rate <= 87380,
        ;
        lemma_corrected_upwards(pn as int, error * rate, grown);
    } else {
        let error = 0 - p;
        assert(-(p * 87380) <= error * rate <= 0) by (nonlinear_arith)
            requires
                error == -p,
                0 <= p,
                0 <= rate <= 87380,
        ;
        lemma_corrected_downwards(pn as int, error * rate, grown);
    }
}

/// The bit history that follows `state` after the bit `y`.
pub open spec fn next_of(state: u8, y: u8) -> u8 {
    tables::state_entry(state as int * 4 + y)
}

/// Gets the next state given the current state and a bit.
pub fn next(state: u8, y: u8) -> (r: u8)
    requires
        y <= 1,
    ensures
        r == next_of(state, y),
{
    tables::read_state_entry(state as usize * 4 + y as usize)
}

/// The initial probability of a 1, times 2^23, after the zeros and ones that `state` stands for.
pub open spec fn cminit_of(state: u8) -> int {
    let n0 = tables::state_entry(state as int * 4 + 2) as int;
    let n1 = tables::state_entry(state as int * 4 + 3) as int;
    if n0 + n1 == 0 {
        4194304
    } else {
        (2 * n1 + 1) * 4194304 / (n0 + n1 + 1)
    }
}

/// Gets the initial probability of a 1, times 2^23, for a state.
pub fn cminit(state: u8) -> (r: u32)
    ensures
        r == cminit_of(state),
{
    let base: usize = state as usize * 4;
    let n0: u32 = tables::read_state_entry(base + 2) as u32;
    let n1: u32 = tables::read_state_entry(base + 3) as u32;
    if n0 + n1 == 0 {
        4194304
    } else {
        ((n1 * 2 + 1) * 4194304) / (n0 + n1 + 1)
    }
}

/// The first of the three rows that a context can occupy.
pub open spec fn first_row(len: nat, cxt: u32) -> u32 {
    cxt.wrapping_mul(16) & ((len - 16) as u32)
}

/// The check byte of a context.
pub open spec fn check_byte(shift: u32, cxt: u32) -> u8 {
    ((cxt >> shift) & 255) as u8
}

/// The row that makes room for a context: of the three that it can occupy, one whose first history
/// has the lowest priority. The first row goes before the others, and the third before the second.
pub open spec fn victim_row(ht: Seq<u8>, h0: u32) -> u32 {
    let h1 = h0 ^ 16;
    let h2 = h0 ^ 32;
    if ht[h0 + 1] <= ht[h1 + 1] && ht[h0 + 1] <= ht[h2 + 1] {
        h0
    } else if ht[h1 + 1] < ht[h2 + 1] {
        h1
    } else {
        h2
    }
}

/// The table with the row at `row` cleared for a context that has the check byte `chk`.
pub open spec fn claim_row(ht: Seq<u8>, row: int, chk: u8) -> Seq<u8> {
    Seq::new(
        ht.len(),
        |i: int|
            if i == row {
                chk
            } else if row < i < row + 16 {
                0
            } else {
                ht[i]
            },
    )
}

/// The row of a context, and the table once the row is the context's own.
pub open spec fn find_of(ht: Seq<u8>, shift: u32, cxt: u32) -> (Seq<u8>, u32) {
    let chk = check_byte(shift, cxt);
    let h0 = first_row(ht.len(), cxt);
    if ht[h0 as int] == chk {
        (ht, h0)
    } else if ht[(h0 ^ 16) as int] == chk {
        (ht, h0 ^ 16)
    } else if ht[(h0 ^ 32) as int] == chk {
        (ht, h0 ^ 32)
    } else {
        let row = victim_row(ht, h0);
        (claim_row(ht, row as int, chk), row)
    }
}

/// A table size whose rows of 16 bytes come in groups of four.
pub open spec fn valid_table_size(len: nat) -> bool {
    0 < len <= u32::MAX && len % 64 == 0
}

proof fn lemma_rows_fit(mask: u32, x: u32)
    by (bit_vector)
    requires
        mask % 64 == 48,
    ensures
        (x & mask) <= mask,
        ((x & mask) ^ 16) <= mask,
        ((x & mask) ^ 32) <= mask,
{
}

/// The row that is found lies within the table, and the table keeps its size.
pub proof fn lemma_find_fits(ht: Seq<u8>, shift: u32, cxt: u32)
    requires
        valid_table_size(ht.len()),
    ensures
        first_row(ht.len(), cxt) + 16 <= ht.len(),
        (first_row(ht.len(), cxt) ^ 16) + 16 <= ht.len(),
        (first_row(ht.len(), cxt) ^ 32) + 16 <= ht.len(),
        find_of(ht, shift, cxt).0.len() == ht.len(),
        find_of(ht, shift, cxt).1 + 16 <= ht.len(),
{
    lemma_rows_fit((ht.len() - 16) as u32, cxt.wrapping_mul(16));
}

pub proof fn lemma_rows_apart(mask: u32, x: u32)
    by (bit_vector)
    requires
        mask % 64 == 48,
    ensures
        ((x & mask) ^ 16) == (x & mask) + 16 || (x & mask) == ((x & mask) ^ 16) + 16,
        ((x & mask) ^ 32) == (x & mask) + 32 || (x & mask) == ((x & mask) ^ 32) + 32,
        ((x & mask) ^ 16) >= ((x & mask) ^ 32) + 16 || ((x & mask) ^ 32) >= ((x & mask) ^ 16) + 16,
{
}

/// Once a context has a row, it is found there again and the table stays as it is.
pub proof fn law_find_again(ht: Seq<u8>, shift: u32, cxt: u32)
    requires
        valid_table_size(ht.len()),
    ensures
        find_of(find_of(ht, shift, cxt).0, shift, cxt) == find_of(ht, shift, cxt),
{
    lemma_find_fits(ht, shift, cxt);
    lemma_rows_apart((ht.len() - 16) as u32, cxt.wrapping_mul(16));
}

/// Finds the row of a context in the hash table, taking over a row where it has none.
pub fn find(ht: &mut Vec<u8>, shift: u32, cxt: u32) -> (r: usize)
    requires
        shift < 32,
        valid_table_size(old(ht)@.len()),
    ensures
        final(ht)@ == find_of(old(ht)@, shift, cxt).0,
        r == find_of(old(ht)@, shift, cxt).1,
        r + 16 <= final(ht)@.len(),
{
    proof {
        lemma_find_fits(ht@, shift, cxt);
    }
    let chk: u8 = ((cxt >> shift) & 255) as u8;
    let h0: u32 = cxt.wrapping_mul(16) & (ht.len() as u32 - 16);
    let h1: u32 = h0 ^ 16;
    let h2: u32 = h0 ^ 32;
    if ht[h0 as usize] == chk {
        return h0 as usize;
    }
    if ht[h1 as usize] == chk {
        return h1 as usize;
    }
    if ht[h2 as usize] == chk {
        return h2 as usize;
    }
    let p0: u8 = ht[h0 as usize + 1];
    let p1: u8 = ht[h1 as usize + 1];
    let p2: u8 = ht[h2 as usize + 1];
    let row: usize = if p0 <= p1 && p0 <= p2 {
        h0 as usize
    } else if p1 < p2 {
        h1 as usize
    } else {
        h2 as usize
    };
    ht.set(row, chk);
    let mut k: usize = 1;
    while k < 16
        invariant
            1 <= k <= 16,
            row + 16 <= ht.len(),
            ht@.len() == old(ht)@.len(),
            ht@[row as int] == chk,
            forall|i: int| row < i < row + k ==> #[trigger] ht@[i] == 0,
            forall|i: int|
                0 <= i < ht@.len() && (i < row || row + k <= i) ==> #[trigger] ht@[i] == old(
                    ht,
                )@[i],
        decreases 16 - k,
    {
        ht.set(row + k, 0);
        k = k + 1;
    }
    assert(ht@ =~= claim_row(old(ht)@, row as int, chk));
    row
}

} // verus!
