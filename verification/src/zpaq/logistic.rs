//! Conversions between probabilities and logits, and the clamps of the mixing arithmetic.

use vstd::prelude::*;
use crate::zpaq::tables;

verus! {

/// The probability, in units of 1/32768, of the logit `x`, in units of 1/64.
pub open spec fn squash_of(x: int) -> int {
    if x < -665 {
        0
    } else if x <= 0 {
        tables::squash_entry(-x)
    } else if x < 666 {
        32767 - tables::squash_entry(x)
    } else {
        32767
    }
}

/// A squashed value is a 15-bit number.
pub proof fn lemma_squash_range(x: int)
    ensures
        0 <= squash_of(x) <= 32767,
{
    if -665 <= x <= 0 {
        tables::lemma_squash_table_falls(-x, -x);
    } else if 0 < x < 666 {
        tables::lemma_squash_table_falls(x, x);
    }
}

/// A higher logit has no lower probability.
pub proof fn law_squash_monotone(x: int, y: int)
    requires
        x <= y,
    ensures
        squash_of(x) <= squash_of(y),
{
    lemma_squash_range(x);
    lemma_squash_range(y);
    if -665 <= x && y <= 0 {
        tables::lemma_squash_table_falls(-y, -x);
    } else if 0 < x && y < 666 {
        tables::lemma_squash_table_falls(x, y);
    } else if -665 <= x <= 0 < y < 666 {
        tables::lemma_squash_table_falls(-x, -x);
        tables::lemma_squash_table_falls(1, y);
    }
}

/// A probability is a 15-bit number, and that of the logit zero is one half. It is zero just for
/// logits up to -666, and the highest just for those from 666 on.
pub proof fn law_squash_ends(x: int)
    ensures
        0 <= squash_of(x) <= 32767,
        squash_of(0) == 16384,
        squash_of(x) == 0 <==> x <= -666,
        squash_of(x) == 32767 <==> x >= 666,
{
    tables::lemma_squash_table_falls(0, 0);
    if -665 <= x <= 0 {
        tables::lemma_squash_table_falls(-x, -x);
    } else if 0 < x < 666 {
        tables::lemma_squash_table_falls(x, x);
    }
}

/// Opposite logits have complementary probabilities.
pub proof fn law_squash_symmetric(x: int)
    requires
        x != 0,
    ensures
        squash_of(-x) == 32767 - squash_of(x),
{
}

/// Converts a logit to a probability.
pub fn squash(x: i32) -> (r: i32)
    ensures
        r == squash_of(x as int),
        0 <= r <= 32767,
{
    proof {
        lemma_squash_range(x as int);
    }
    if x < -665 {
        0
    } else if x <= 0 {
        tables::read_squash_entry((-x) as usize) as i32
    } else if x < 666 {
        32767 - tables::read_squash_entry(x as usize) as i32
    } else {
        32767
    }
}

/// The `k`-th probability above one half lies in the `i`-th run of equal logits.
pub open spec fn in_run(k: int, i: int) -> bool {
    tables::run_total(i) <= k < tables::run_total(i + 1)
}

/// The logit that the `k`-th probability above one half has: the number of its run.
#[verifier::opaque]
pub open spec fn run_of(k: int) -> int {
    choose|i: int| 0 <= i < 711 && #[trigger] in_run(k, i)
}

/// The logit of the probability `p`.
pub open spec fn stretch_of(p: int) -> int {
    if p >= 16384 {
        run_of(p - 16384)
    } else {
        -run_of(16383 - p)
    }
}

proof fn lemma_run_of(k: int, i: int)
    requires
        0 <= i < 711,
        in_run(k, i),
    ensures
        run_of(k) == i,
{
    reveal(run_of);
    let j = run_of(k);
    assert(in_run(k, j) && 0 <= j < 711);
    if j < i {
        tables::lemma_run_total_monotonic(j + 1, i);
    } else if i < j {
        tables::lemma_run_total_monotonic(i + 1, j);
    }
}

proof fn lemma_run_exists(k: int, n: int) -> (i: int)
    requires
        0 <= n <= 711,
        0 <= k < tables::run_total(n),
    ensures
        0 <= i < n,
        in_run(k, i),
    decreases n,
{
    if k >= tables::run_total(n - 1) {
        n - 1
    } else {
        lemma_run_exists(k, n - 1)
    }
}

/// Logits of probabilities are small.
pub proof fn lemma_stretch_range(p: int)
    requires
        0 <= p < 32768,
    ensures
        -710 <= stretch_of(p) <= 710,
{
    tables::lemma_run_total();
    let k = if p >= 16384 { p - 16384 } else { 16383 - p };
    let i = lemma_run_exists(k, 711);
    lemma_run_of(k, i);
}

/// A higher number has no lower run.
proof fn lemma_run_of_monotone(j: int, k: int)
    requires
        0 <= j <= k < 16384,
    ensures
        0 <= run_of(j) <= run_of(k) <= 710,
{
    tables::lemma_run_total();
    let a = lemma_run_exists(j, 711);
    let b = lemma_run_exists(k, 711);
    lemma_run_of(j, a);
    lemma_run_of(k, b);
    if b < a {
        tables::lemma_run_total_monotonic(b + 1, a);
    }
}

/// A higher probability has no lower logit.
pub proof fn law_stretch_monotone(p: int, q: int)
    requires
        0 <= p <= q < 32768,
    ensures
        stretch_of(p) <= stretch_of(q),
{
    if p >= 16384 {
        lemma_run_of_monotone(p - 16384, q - 16384);
    } else if q < 16384 {
        lemma_run_of_monotone(16383 - q, 16383 - p);
    } else {
        lemma_run_of_monotone(0, 16383 - p);
        lemma_run_of_monotone(0, q - 16384);
    }
}

/// Probabilities that differ from one half by 64 or more have logits that are not zero, and of the
/// same sign.
pub proof fn law_stretch_signs(p: int)
    requires
        0 <= p < 32768,
    ensures
        p >= 16384 ==> stretch_of(p) >= 0,
        p >= 16448 ==> stretch_of(p) >= 1,
        p <= 16383 ==> stretch_of(p) <= 0,
        p <= 16319 ==> stretch_of(p) <= -1,
{
    tables::lemma_run_total();
    let k = if p >= 16384 {
        p - 16384
    } else {
        16383 - p
    };
    let i = lemma_run_exists(k, 711);
    lemma_run_of(k, i);
    assert(k >= 64 ==> i >= 1);
}

/// The logits begin at -710, are zero around one half, and end at 710.
pub proof fn law_stretch_ends()
    ensures
        stretch_of(0) == -710,
        stretch_of(16383) == 0,
        stretch_of(16384) == 0,
        stretch_of(32767) == 710,
{
    tables::lemma_run_total();
    assert(in_run(0, 0));
    lemma_run_of(0, 0);
    assert(in_run(16383, 710));
    lemma_run_of(16383, 710);
}

/// Complementary probabilities have opposite logits.
pub proof fn law_stretch_symmetric(p: int)
    ensures
        stretch_of(32767 - p) == -stretch_of(p),
{
}

/// The table of all logits.
pub struct Stretch {
    table: Vec<i32>,
}

impl View for Stretch {
    type V = Seq<i32>;

    /// The logits of all probabilities.
    closed spec fn view(&self) -> Seq<i32> {
        self.table@
    }
}

impl Stretch {
    #[verifier::type_invariant]
    spec fn inv(self) -> bool {
        &&& self.table@.len() == 32768
        &&& forall|p: int| 0 <= p < 32768 ==> #[trigger] self.table@[p] == stretch_of(p)
    }

    /// Expands the run lengths to the table of logits.
    pub fn get() -> (r: Self)
        ensures
            r@.len() == 32768,
            forall|p: int| 0 <= p < 32768 ==> #[trigger] r@[p] == stretch_of(p),
    {
        let mut upper: Vec<i32> = Vec::new();
        let mut i: usize = 0;
        proof {
            tables::lemma_run_total();
        }
        while i < 711
            invariant
                i <= 711,
                tables::run_total(711) == 16384,
                upper@.len() == tables::run_total(i as int),
                forall|k: int| 0 <= k < upper@.len() ==> #[trigger] upper@[k] == run_of(k),
            decreases 711 - i,
        {
            let count: u8 = tables::read_stretch_count(i);
            let mut c: u8 = 0;
            while c < count
                invariant
                    i < 711,
                    c <= count,
                    count == tables::stretch_count(i as int),
                    upper@.len() == tables::run_total(i as int) + c,
                    forall|k: int| 0 <= k < upper@.len() ==> #[trigger] upper@[k] == run_of(k),
                decreases count - c,
            {
                proof {
                    assert(in_run(upper@.len() as int, i as int));
                    lemma_run_of(upper@.len() as int, i as int);
                }
                upper.push(i as i32);
                c = c + 1;
            }
            i = i + 1;
        }
        proof {
            assert forall|k: int| 0 <= k < 16384 implies -710 <= #[trigger] upper@[k] <= 710 by {
                lemma_stretch_range(16384 + k);
            }
        }
        let mut table: Vec<i32> = Vec::with_capacity(32768);
        let mut p: usize = 0;
        while p < 16384
            invariant
                p <= 16384,
                upper@.len() == 16384,
                forall|k: int| 0 <= k < 16384 ==> #[trigger] upper@[k] == run_of(k),
                forall|k: int| 0 <= k < 16384 ==> -710 <= #[trigger] upper@[k] <= 710,
                table@.len() == p,
                forall|k: int| 0 <= k < p ==> #[trigger] table@[k] == stretch_of(k),
            decreases 16384 - p,
        {
            table.push(-upper[16383 - p]);
            p = p + 1;
        }
        table.append(&mut upper);
        Stretch { table }
    }

    /// The logit of the probability in the low 15 bits of `x`.
    pub fn call(&self, x: i32) -> (r: i32)
        ensures
            r == stretch_of(x as int % 32768),
            -710 <= r <= 710,
    {
        proof {
            use_type_invariant(self);
            assert(x & 32767 == x % 32768) by (bit_vector);
            lemma_stretch_range(x as int % 32768);
        }
        self.table[(x & 32767) as usize]
    }
}

/// `x` moved to the nearest point of the interval from `lo` to `hi`.
pub open spec fn clamp_to(x: int, lo: int, hi: int) -> int {
    if x < lo {
        lo
    } else if x > hi {
        hi
    } else {
        x
    }
}

/// Moves `x` into the interval from `lo` to `hi`.
pub fn clamp(x: i32, lo: i32, hi: i32) -> (r: i32)
    ensures
        r == clamp_to(x as int, lo as int, hi as int),
{
    if x < lo {
        lo
    } else if x > hi {
        hi
    } else {
        x
    }
}

/// Clamps to a 12-bit signed integer.
pub fn clamp2k(x: i32) -> (r: i32)
    ensures
        r == clamp_to(x as int, -2048, 2047),
{
    clamp(x, -2048, 2047)
}

/// Clamps to a 20-bit signed integer.
pub fn clamp512k(x: i32) -> (r: i32)
    ensures
        r == clamp_to(x as int, -524288, 524287),
{
    clamp(x, -524288, 524287)
}

} // verus!
