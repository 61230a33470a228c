//! What adaptive probabilities and bit histories are for: probabilities move towards the bits that
//! came, first in large steps and then in small ones, and histories keep count of them.

use vstd::prelude::*;
use vstd::arithmetic::power2::{
    lemma2_to64, lemma_pow2_adds, lemma_pow2_pos, lemma_pow2_strictly_increases, pow2,
};
use crate::zpaq::history::{
    check_byte, cminit_of, dt_of, find_of, first_row, lemma_corrected_downwards,
    lemma_corrected_upwards, lemma_find_fits, lemma_rows_apart, trained, valid_table_size,
};
use crate::zpaq::tables::state_entry;

verus! {

/// The learning rate is one divided by `count + 1.5`, in units of 1/131072 and rounded down to an
/// even number of them. It does not rise with more observations.
pub proof fn law_rate(count: int)
    requires
        0 <= count,
    ensures
        dt_of(count) % 2 == 0,
        (2 * count + 3) * dt_of(count) <= 262144 < (2 * count + 3) * (dt_of(count) + 2),
        0 <= dt_of(count) <= 87380,
        forall|later: int| later >= count ==> #[trigger] dt_of(later) <= dt_of(count),
{
    let d = 2 * count + 3;
    let q = 131072int / d;
    vstd::arithmetic::div_mod::lemma_fundamental_div_mod(131072, d);
    assert(d * (q * 2) <= 262144 < d * (q * 2 + 2) && 0 <= q <= 43690) by (nonlinear_arith)
        requires
            d >= 3,
            131072 == d * q + 131072int % d,
            0 <= 131072int % d < d,
    ;
    assert forall|later: int| later >= count implies #[trigger] dt_of(later) <= dt_of(count) by {
        vstd::arithmetic::div_mod::lemma_div_is_ordered_by_denominator(131072, d, 2 * later + 3);
    }
}

/// An adaptive probability has learned the bit `y`: it moved by the rate's part of what it lacked,
/// and its count grew up to the limit.
pub open spec fn has_learned(old: u32, new: u32, limit: int, y: u8) -> bool {
    let lack = (if y == 1 {
        32767int
    } else {
        0
    }) - old as int / 131072;
    let count = old as int % 1024;
    let moved = new as int / 1024 - old as int / 1024;
    &&& new as int % 1024 == if count < limit {
        count + 1
    } else {
        count
    }
    &&& 1024 * moved <= lack * dt_of(count) < 1024 * moved + 1024
    &&& y == 1 ==> moved >= 0
    &&& y == 0 ==> moved <= 0
}

/// A trained probability moves by the rate's part of what it lacks, and its count grows up to the
/// limit.
pub proof fn law_trained_amount(pn: u32, limit: u32, y: u8)
    requires
        limit <= 1023,
        y <= 1,
    ensures
        has_learned(pn, trained(pn, limit, y), limit as int, y),
{
    let count = pn as int % 1024;
    let p = pn as int / 131072;
    let rate = dt_of(count);
    let grown: int = if count < limit {
        1
    } else {
        0
    };
    law_rate(count);
    let lack = y * 32767 - p;
    let product = lack * rate;
    let q = product / 1024;
    if y == 1 {
        assert(0 <= product <= lack * 87380) by (nonlinear_arith)
            requires
                product == lack * rate,
                0 <= lack,
                0 <= rate <= 87380,
        ;
        lemma_corrected_upwards(pn as int, product, grown);
    } else {
        assert(-(p * 87380) <= product <= 0) by (nonlinear_arith)
            requires
                product == lack * rate,
                lack == -p,
                0 <= p,
                0 <= rate <= 87380,
        ;
        lemma_corrected_downwards(pn as int, product, grown);
    }
    let new = trained(pn, limit, y);
    assert(new == pn + q * 1024 + grown);
    lemma_learned(pn, new, limit as int, y, product, q, grown);
}

proof fn lemma_learned(pn: u32, new: u32, limit: int, y: u8, product: int, q: int, grown: int)
    requires
        y <= 1,
        limit <= 1023,
        q == product / 1024,
        product == (y * 32767 - pn as int / 131072) * dt_of(pn as int % 1024),
        y == 1 ==> product >= 0,
        y == 0 ==> product <= 0,
        grown == if pn as int % 1024 < limit {
            1int
        } else {
            0
        },
        new == pn + q * 1024 + grown,
    ensures
        has_learned(pn, new, limit, y),
{
    lemma_parts(pn as int, q, grown);
    assert(1024 * q <= product < 1024 * q + 1024);
}

proof fn lemma_parts(pn: int, q: int, grown: int)
    requires
        0 <= grown,
        pn % 1024 + grown <= 1023,
    ensures
        (pn + q * 1024 + grown) / 1024 == pn / 1024 + q,
        (pn + q * 1024 + grown) % 1024 == pn % 1024 + grown,
{
}

/// The initial probability of a history is that of a one after so many zeros and ones, where each
/// of them is counted half a time more.
pub proof fn law_initial_probability(state: u8)
    ensures
        ({
            let n0 = state_entry(state as int * 4 + 2) as int;
            let n1 = state_entry(state as int * 4 + 3) as int;
            let p = cminit_of(state);
            &&& 2 * (n0 + n1 + 1) * p <= (2 * n1 + 1) * 8388608 < 2 * (n0 + n1 + 1) * (p + 1)
            &&& 0 < p < 8388608
            &&& n1 > n0 ==> p >= 4194304
            &&& n1 < n0 ==> p < 4194304
            &&& n1 == n0 ==> p == 4194304
        }),
{
    let n0 = state_entry(state as int * 4 + 2) as int;
    let n1 = state_entry(state as int * 4 + 3) as int;
    let d = n0 + n1 + 1;
    let x = (2 * n1 + 1) * 4194304;
    let p = cminit_of(state);
    vstd::arithmetic::div_mod::lemma_fundamental_div_mod(x, d);
    if n0 + n1 == 0 {
        assert(x == 4194304);
        assert(x / 1 == 4194304 && x % 1 == 0);
    }
    let q = x / d;
    assert(p == q);
    assert(2 * d * q <= 2 * x < 2 * d * (q + 1) && 0 < q < 8388608 && (n1 > n0 ==> q >= 4194304)
        && (n1 < n0 ==> q < 4194304) && (n1 == n0 ==> q == 4194304)) by (nonlinear_arith)
        requires
            x == d * q + x % d,
            0 <= x % d < d,
            d == n0 + n1 + 1,
            x == (2 * n1 + 1) * 4194304,
            0 <= n0 <= 255,
            0 <= n1 <= 255,
    ;
}

/// The row that is found is one of three, whose numbers differ in their lowest or second lowest
/// bit, and holds the check byte of the context. Where one of them held it before, nothing changes.
/// Otherwise the one of the three with the least first history is cleared, and all others stay.
pub proof fn law_found_row(ht: Seq<u8>, shift: u32, cxt: u32)
    requires
        valid_table_size(ht.len()),
        shift < 32,
    ensures
        ({
            let (new, row) = find_of(ht, shift, cxt);
            let h0 = first_row(ht.len(), cxt);
            let h1 = h0 ^ 16;
            let h2 = h0 ^ 32;
            let chk = check_byte(shift, cxt);
            let known = ht[h0 as int] == chk || ht[h1 as int] == chk || ht[h2 as int] == chk;
            &&& row == h0 || row == h1 || row == h2
            &&& h0 != h1 && h0 != h2 && h1 != h2
            &&& h0 % 16 == 0 && h1 % 16 == 0 && h2 % 16 == 0
            &&& new.len() == ht.len()
            &&& new[row as int] == chk
            &&& known ==> new == ht
            &&& !known ==> {
                &&& ht[row + 1] <= ht[h0 + 1] && ht[row + 1] <= ht[h1 + 1] && ht[row + 1] <= ht[h2
                    + 1]
                &&& forall|k: int| row < k < row + 16 ==> #[trigger] new[k] == 0
                &&& forall|k: int|
                    0 <= k < ht.len() && !(row <= k < row + 16) ==> #[trigger] new[k] == ht[k]
            }
        }),
{
    lemma_find_fits(ht, shift, cxt);
    let mask = (ht.len() - 16) as u32;
    lemma_rows_apart(mask, cxt.wrapping_mul(16));
    lemma_row_starts(mask, cxt);
}

/// The place of a row is a multiple of its size, made of the low bits of the context's hash.
proof fn lemma_row_starts(mask: u32, cxt: u32)
    requires
        mask % 64 == 48,
    ensures
        (cxt.wrapping_mul(16) & mask) % 16 == 0,
        ((cxt.wrapping_mul(16) & mask) ^ 16) % 16 == 0,
        ((cxt.wrapping_mul(16) & mask) ^ 32) % 16 == 0,
{
    let x = cxt.wrapping_mul(16);
    assert(mask % 64 == 48 ==> (x & mask) % 16 == 0 && ((x & mask) ^ 16) % 16 == 0 && ((x & mask)
        ^ 32) % 16 == 0) by (bit_vector);
}

/// In a table of 2^`sizebits` bytes, the low bits of a context's hash select its first row.
pub proof fn law_first_row(len: nat, sizebits: u32, cxt: u32)
    requires
        6 <= sizebits < 32,
        len == pow2(sizebits as nat),
    ensures
        first_row(len, cxt) == (cxt * 16) % len as int,
{
    lemma2_to64();
    lemma_pow2_adds(6, (sizebits - 6) as nat);
    lemma_pow2_pos((sizebits - 6) as nat);
    lemma_pow2_strictly_increases(sizebits as nat, 32);
    lemma_pow2_adds(sizebits as nat, (32 - sizebits) as nat);
    vstd::bits::lemma_u32_low_bits_mask_is_mod(cxt.wrapping_mul(16), sizebits as nat);
    let x = cxt.wrapping_mul(16);
    let mask = (len - 1) as u32;
    let rows = (len - 16) as u32;
    assert(x == (cxt * 16) % 0x1_0000_0000);
    assert(mask % 64 == 63);
    assert(x & rows == x & mask) by (bit_vector)
        requires
            x % 16 == 0,
            mask % 64 == 63,
            rows == mask - 15,
    ;
    let q = pow2((32 - sizebits) as nat) as int;
    assert(0x1_0000_0000 == len * q);
    lemma_pow2_pos((32 - sizebits) as nat);
    vstd::arithmetic::div_mod::lemma_mod_mod(cxt * 16, len as int, q);
}

/// Contexts in the same rows are told apart by the eight bits of their hashes from `shift` on.
pub proof fn law_check_byte(shift: u32, cxt: u32)
    requires
        shift < 32,
    ensures
        check_byte(shift, cxt) == cxt as int / (pow2(shift as nat) as int)
            % 256,
{
    vstd::bits::lemma_u32_shr_is_div(cxt, shift);
    let x = cxt >> shift;
    assert((x & 255) as u8 == x % 256) by (bit_vector);
}

} // verus!
