//! Finite sums of integer sequences and the facts about them that the proofs
//! of the polynomial and matrix routines use.

use vstd::arithmetic::div_mod::*;
use vstd::arithmetic::mul::*;
use vstd::prelude::*;

verus! {

/// The sum of the entries of `s`.
pub open spec fn sum_seq(s: Seq<int>) -> int
    decreases s.len(),
{
    if s.len() == 0 {
        0
    } else {
        sum_seq(s.drop_last()) + s.last()
    }
}

/// Replacing one entry changes the sum by the difference.
pub proof fn lemma_sum_update(s: Seq<int>, i: int, v: int)
    requires
        0 <= i < s.len(),
    ensures
        sum_seq(s.update(i, v)) == sum_seq(s) - s[i] + v,
    decreases s.len(),
{
    let t = s.update(i, v);
    if i == s.len() - 1 {
        assert(t.drop_last() =~= s.drop_last());
    } else {
        assert(t.drop_last() =~= s.drop_last().update(i, v));
        lemma_sum_update(s.drop_last(), i, v);
    }
}

/// A sequence that is zero except at index `i` sums to its entry at `i`.
pub proof fn lemma_sum_single(s: Seq<int>, i: int)
    requires
        0 <= i < s.len(),
        forall|r: int| 0 <= r < s.len() && r != i ==> s[r] == 0,
    ensures
        sum_seq(s) == s[i],
{
    lemma_sum_zero(s.update(i, 0));
    lemma_sum_update(s, i, 0);
}

/// An all-zero sequence sums to zero.
pub proof fn lemma_sum_zero(s: Seq<int>)
    requires
        forall|r: int| 0 <= r < s.len() ==> s[r] == 0,
    ensures
        sum_seq(s) == 0,
    decreases s.len(),
{
    if s.len() > 0 {
        lemma_sum_zero(s.drop_last());
    }
}

/// Sums of entrywise congruent sequences are congruent.
pub proof fn lemma_sum_congruent(s: Seq<int>, t: Seq<int>, m: int)
    requires
        m > 0,
        s.len() == t.len(),
        forall|r: int| 0 <= r < s.len() ==> #[trigger] (s[r] % m) == t[r] % m,
    ensures
        sum_seq(s) % m == sum_seq(t) % m,
    decreases s.len(),
{
    if s.len() > 0 {
        lemma_sum_congruent(s.drop_last(), t.drop_last(), m);
        let a = sum_seq(s.drop_last());
        let b = sum_seq(t.drop_last());
        assert(s.last() % m == t.last() % m);
        lemma_add_mod_noop(a, s.last(), m);
        lemma_add_mod_noop(b, t.last(), m);
    }
}

/// Sums of entrywise equal sequences are equal.
pub proof fn lemma_sum_ext(s: Seq<int>, t: Seq<int>)
    requires
        s.len() == t.len(),
        forall|r: int| 0 <= r < s.len() ==> #[trigger] s[r] == t[r],
    ensures
        sum_seq(s) == sum_seq(t),
{
    assert(s =~= t);
}

/// Adding a multiple of `m` does not change a remainder modulo `m`.
pub proof fn lemma_mod_add_multiple(x: int, k: int, m: int)
    requires
        m > 0,
    ensures
        (x + m * k) % m == x % m,
{
    lemma_mod_multiples_vanish(k, x, m);
    assert(m * k + x == x + m * k);
}

/// The sum of `f(i)` for `lo <= i < hi`.
pub open spec fn sum_range(f: spec_fn(int) -> int, lo: int, hi: int) -> int
    decreases hi - lo,
{
    if hi <= lo {
        0
    } else {
        sum_range(f, lo, hi - 1) + f(hi - 1)
    }
}

/// Sums of functions that agree on the range are equal.
pub proof fn lemma_sum_range_ext(f: spec_fn(int) -> int, g: spec_fn(int) -> int, lo: int, hi: int)
    requires
        forall|i: int| lo <= i < hi ==> #[trigger] f(i) == g(i),
    ensures
        sum_range(f, lo, hi) == sum_range(g, lo, hi),
    decreases hi - lo,
{
    if hi > lo {
        lemma_sum_range_ext(f, g, lo, hi - 1);
    }
}

/// The first term can be split off a sum.
pub proof fn lemma_sum_range_first(f: spec_fn(int) -> int, lo: int, hi: int)
    requires
        lo < hi,
    ensures
        sum_range(f, lo, hi) == f(lo) + sum_range(f, lo + 1, hi),
    decreases hi - lo,
{
    if hi > lo + 1 {
        lemma_sum_range_first(f, lo, hi - 1);
    } else {
        assert(sum_range(f, lo, lo) == 0);
        assert(sum_range(f, lo + 1, hi) == 0);
    }
}

/// A sum over `[lo, hi)` splits at any `mid` in between.
pub proof fn lemma_sum_range_split(f: spec_fn(int) -> int, lo: int, mid: int, hi: int)
    requires
        lo <= mid <= hi,
    ensures
        sum_range(f, lo, hi) == sum_range(f, lo, mid) + sum_range(f, mid, hi),
    decreases hi - mid,
{
    if hi > mid {
        lemma_sum_range_split(f, lo, mid, hi - 1);
    }
}

/// Summing in reverse order gives the same sum.
pub proof fn lemma_sum_range_reverse(f: spec_fn(int) -> int, g: spec_fn(int) -> int, lo: int, hi: int)
    requires
        forall|i: int| lo <= i < hi ==> #[trigger] g(i) == f(lo + hi - 1 - i),
    ensures
        sum_range(g, lo, hi) == sum_range(f, lo, hi),
    decreases hi - lo,
{
    if hi - lo >= 2 {
        lemma_sum_range_reverse(f, g, lo + 1, hi - 1);
        lemma_sum_range_first(f, lo, hi);
        lemma_sum_range_first(g, lo, hi);
        assert(g(hi - 1) == f(lo));
        assert(g(lo) == f(hi - 1));
        assert(sum_range(f, lo + 1, hi) == sum_range(f, lo + 1, hi - 1) + f(hi - 1));
        assert(sum_range(g, lo + 1, hi) == sum_range(g, lo + 1, hi - 1) + g(hi - 1));
    } else if hi - lo == 1 {
        assert(g(lo) == f(lo));
        assert(sum_range(f, lo, hi) == f(lo)) by {
            assert(sum_range(f, lo, lo) == 0);
        }
        assert(sum_range(g, lo, hi) == g(lo)) by {
            assert(sum_range(g, lo, lo) == 0);
        }
    }
}

/// The sum of a sequence built from `f` is the sum of `f` over its index range.
pub proof fn lemma_sum_seq_new(f: spec_fn(int) -> int, len: nat)
    ensures
        sum_seq(Seq::new(len, f)) == sum_range(f, 0, len as int),
    decreases len,
{
    if len > 0 {
        assert(Seq::new(len, f).drop_last() =~= Seq::new((len - 1) as nat, f));
        lemma_sum_seq_new(f, (len - 1) as nat);
    }
}


/// A sum over a range shifted by `t` is the sum of the shifted function.
pub proof fn lemma_sum_range_translate(f: spec_fn(int) -> int, g: spec_fn(int) -> int, lo: int, hi: int, t: int)
    requires
        forall|j: int| lo - t <= j < hi - t ==> #[trigger] g(j) == f(j + t),
    ensures
        sum_range(f, lo, hi) == sum_range(g, lo - t, hi - t),
    decreases hi - lo,
{
    if hi > lo {
        lemma_sum_range_translate(f, g, lo, hi - 1, t);
        assert(g(hi - 1 - t) == f(hi - 1));
    }
}

/// Negating every term negates the sum.
pub proof fn lemma_sum_range_neg(f: spec_fn(int) -> int, g: spec_fn(int) -> int, lo: int, hi: int)
    requires
        forall|j: int| lo <= j < hi ==> #[trigger] g(j) == -f(j),
    ensures
        sum_range(g, lo, hi) == -sum_range(f, lo, hi),
    decreases hi - lo,
{
    if hi > lo {
        lemma_sum_range_neg(f, g, lo, hi - 1);
    }
}

/// A constant factor can be pulled out of a sum.
pub proof fn lemma_sum_range_scale(f: spec_fn(int) -> int, g: spec_fn(int) -> int, c: int, lo: int, hi: int)
    requires
        forall|j: int| lo <= j < hi ==> #[trigger] g(j) == c * f(j),
    ensures
        sum_range(g, lo, hi) == c * sum_range(f, lo, hi),
    decreases hi - lo,
{
    if hi > lo {
        lemma_sum_range_scale(f, g, c, lo, hi - 1);
        lemma_mul_is_distributive_add(c, sum_range(f, lo, hi - 1), f(hi - 1));
    } else {
        lemma_mul_basics(c);
    }
}

/// The sum of termwise sums is the sum of the two sums.
pub proof fn lemma_sum_range_add(f: spec_fn(int) -> int, g: spec_fn(int) -> int, h: spec_fn(int) -> int, lo: int, hi: int)
    requires
        forall|j: int| lo <= j < hi ==> #[trigger] h(j) == f(j) + g(j),
    ensures
        sum_range(h, lo, hi) == sum_range(f, lo, hi) + sum_range(g, lo, hi),
    decreases hi - lo,
{
    if hi > lo {
        lemma_sum_range_add(f, g, h, lo, hi - 1);
    }
}

/// A sum whose terms vanish except at `i` equals that term.
pub proof fn lemma_sum_range_single(f: spec_fn(int) -> int, lo: int, hi: int, i: int)
    requires
        lo <= i < hi,
        forall|j: int| lo <= j < hi && j != i ==> #[trigger] f(j) == 0,
    ensures
        sum_range(f, lo, hi) == f(i),
    decreases hi - lo,
{
    if hi - 1 > i {
        lemma_sum_range_single(f, lo, hi - 1, i);
    } else {
        lemma_sum_range_zero(f, lo, hi - 1);
    }
}

/// A sum of zeros is zero.
pub proof fn lemma_sum_range_zero(f: spec_fn(int) -> int, lo: int, hi: int)
    requires
        forall|j: int| lo <= j < hi ==> #[trigger] f(j) == 0,
    ensures
        sum_range(f, lo, hi) == 0,
    decreases hi - lo,
{
    if hi > lo {
        lemma_sum_range_zero(f, lo, hi - 1);
    }
}

/// Sums of termwise congruent functions are congruent.
pub proof fn lemma_sum_range_congruent(f: spec_fn(int) -> int, g: spec_fn(int) -> int, m: int, lo: int, hi: int)
    requires
        m > 0,
        forall|j: int| lo <= j < hi ==> #[trigger] f(j) % m == g(j) % m,
    ensures
        sum_range(f, lo, hi) % m == sum_range(g, lo, hi) % m,
    decreases hi - lo,
{
    if hi > lo {
        lemma_sum_range_congruent(f, g, m, lo, hi - 1);
        lemma_add_mod_noop(sum_range(f, lo, hi - 1), f(hi - 1), m);
        lemma_add_mod_noop(sum_range(g, lo, hi - 1), g(hi - 1), m);
    }
}

/// Row `i` of a two-argument function: `j ↦ f(i, j)`.
pub open spec fn row_fn(f: spec_fn(int, int) -> int, i: int) -> spec_fn(int) -> int {
    |j: int| f(i, j)
}

/// Column `j` of a two-argument function: `i ↦ f(i, j)`.
pub open spec fn col_fn(f: spec_fn(int, int) -> int, j: int) -> spec_fn(int) -> int {
    |i: int| f(i, j)
}

/// `i ↦ Σ_{j < n2} f(i, j)`.
pub open spec fn row_sums(f: spec_fn(int, int) -> int, n2: int) -> spec_fn(int) -> int {
    |i: int| sum_range(row_fn(f, i), 0, n2)
}

/// `j ↦ Σ_{i < n1} f(i, j)`.
pub open spec fn col_sums(f: spec_fn(int, int) -> int, n1: int) -> spec_fn(int) -> int {
    |j: int| sum_range(col_fn(f, j), 0, n1)
}

/// Finite double sums can be taken in either order.
pub proof fn lemma_sum_range_swap(f: spec_fn(int, int) -> int, n1: int, n2: int)
    requires
        0 <= n1,
        0 <= n2,
    ensures
        sum_range(row_sums(f, n2), 0, n1) == sum_range(col_sums(f, n1), 0, n2),
    decreases n1,
{
    if n1 > 0 {
        lemma_sum_range_swap(f, n1 - 1, n2);
        assert forall|j: int| 0 <= j < n2 implies #[trigger] col_sums(f, n1)(j) == col_sums(f, n1 - 1)(j)
            + row_fn(f, n1 - 1)(j) by {
        }
        lemma_sum_range_add(col_sums(f, n1 - 1), row_fn(f, n1 - 1), col_sums(f, n1), 0, n2);
    } else {
        lemma_sum_range_zero(col_sums(f, 0), 0, n2);
    }
}

} // verus!
