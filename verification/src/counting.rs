//! Counting and summing over an initial segment of the integers.
use vstd::prelude::*;

verus! {

/// How many `i` with `0 <= i < n` satisfy `p`.
pub open spec fn count_below(n: int, p: spec_fn(int) -> bool) -> nat
    decreases n,
{
    if n <= 0 {
        0
    } else {
        count_below(n - 1, p) + if p(n - 1) {
            1nat
        } else {
            0nat
        }
    }
}

/// The sum of `f(i)` over `0 <= i < n`.
pub open spec fn sum_below(n: int, f: spec_fn(int) -> int) -> int
    decreases n,
{
    if n <= 0 {
        0
    } else {
        sum_below(n - 1, f) + f(n - 1)
    }
}

/// The entries of a list of marks that are set.
pub open spec fn marks(v: Seq<bool>) -> spec_fn(int) -> bool {
    |i: int| 0 <= i < v.len() && v[i]
}

/// A predicate that holds everywhere below `n` has count `n`.
pub proof fn lemma_count_all(n: int, p: spec_fn(int) -> bool)
    requires
        0 <= n,
        forall|i: int| 0 <= i < n ==> #[trigger] p(i),
    ensures
        count_below(n, p) == n,
    decreases n,
{
    if n > 0 {
        lemma_count_all(n - 1, p);
    }
}

/// No more than `n` numbers below `n` can satisfy a predicate.
pub proof fn lemma_count_bound(n: int, p: spec_fn(int) -> bool)
    ensures
        count_below(n, p) <= if n < 0 {
            0
        } else {
            n
        },
    decreases n,
{
    if n > 0 {
        lemma_count_bound(n - 1, p);
    }
}

/// Predicates that agree below `n` have the same count below `n`.
pub proof fn lemma_count_same(n: int, p: spec_fn(int) -> bool, q: spec_fn(int) -> bool)
    requires
        forall|i: int| 0 <= i < n ==> #[trigger] p(i) == q(i),
    ensures
        count_below(n, p) == count_below(n, q),
    decreases n,
{
    if n > 0 {
        lemma_count_same(n - 1, p, q);
    }
}

/// A predicate that implies another one has at most its count.
pub proof fn lemma_count_monotone(n: int, p: spec_fn(int) -> bool, q: spec_fn(int) -> bool)
    requires
        forall|i: int| 0 <= i < n && #[trigger] p(i) ==> q(i),
    ensures
        count_below(n, p) <= count_below(n, q),
    decreases n,
{
    if n > 0 {
        lemma_count_monotone(n - 1, p, q);
    }
}

/// The count grows with the bound.
pub proof fn lemma_count_grows(m: int, n: int, p: spec_fn(int) -> bool)
    requires
        m <= n,
    ensures
        count_below(m, p) <= count_below(n, p),
    decreases n - m,
{
    if m < n {
        lemma_count_grows(m, n - 1, p);
    }
}

/// A predicate that holds nowhere below `n` has count zero, and conversely.
pub proof fn lemma_count_zero(n: int, p: spec_fn(int) -> bool)
    ensures
        count_below(n, p) == 0 <==> forall|i: int| 0 <= i < n ==> !#[trigger] p(i),
    decreases n,
{
    if n > 0 {
        lemma_count_zero(n - 1, p);
    }
}

/// Only a predicate that holds everywhere below `n` has count `n`.
pub proof fn lemma_count_full(n: int, p: spec_fn(int) -> bool)
    requires
        0 <= n,
        count_below(n, p) == n,
    ensures
        forall|i: int| 0 <= i < n ==> #[trigger] p(i),
    decreases n,
{
    if n > 0 {
        lemma_count_bound(n - 1, p);
        lemma_count_full(n - 1, p);
    }
}

/// A predicate that holds at one more place than another has one more in its count.
pub proof fn lemma_count_one_more(n: int, p: spec_fn(int) -> bool, q: spec_fn(int) -> bool, at: int)
    requires
        0 <= at < n,
        !p(at),
        q(at),
        forall|i: int| 0 <= i < n && i != at ==> #[trigger] p(i) == q(i),
    ensures
        count_below(n, q) == count_below(n, p) + 1,
    decreases n,
{
    if at == n - 1 {
        lemma_count_same(n - 1, p, q);
    } else {
        lemma_count_one_more(n - 1, p, q, at);
    }
}

/// Functions that agree below `n` have the same sum below `n`.
pub proof fn lemma_sum_same(n: int, f: spec_fn(int) -> int, g: spec_fn(int) -> int)
    requires
        forall|i: int| 0 <= i < n ==> #[trigger] f(i) == g(i),
    ensures
        sum_below(n, f) == sum_below(n, g),
    decreases n,
{
    if n > 0 {
        lemma_sum_same(n - 1, f, g);
    }
}

/// A sum of terms between `lo` and `hi` lies between `n * lo` and `n * hi`.
pub proof fn lemma_sum_bounds(n: int, f: spec_fn(int) -> int, lo: int, hi: int)
    requires
        0 <= n,
        forall|i: int| 0 <= i < n ==> lo <= #[trigger] f(i) <= hi,
    ensures
        n * lo <= sum_below(n, f) <= n * hi,
    decreases n,
{
    if n > 0 {
        lemma_sum_bounds(n - 1, f, lo, hi);
        assert((n - 1) * lo + lo == n * lo) by (nonlinear_arith);
        assert((n - 1) * hi + hi == n * hi) by (nonlinear_arith);
    } else {
        assert(n * lo == 0 && n * hi == 0) by (nonlinear_arith)
            requires
                n == 0,
        ;
    }
}

/// A sum of terms that are not negative grows with the bound.
pub proof fn lemma_sum_grows(m: int, n: int, f: spec_fn(int) -> int)
    requires
        0 <= m <= n,
        forall|i: int| 0 <= i < n ==> 0 <= #[trigger] f(i),
    ensures
        0 <= sum_below(m, f) <= sum_below(n, f),
    decreases n,
{
    if m < n {
        lemma_sum_grows(m, n - 1, f);
    } else if n > 0 {
        lemma_sum_grows(m - 1, n - 1, f);
    }
}

/// Filtering one item more either appends that item or changes nothing.
pub proof fn lemma_filter_step<A>(s: Seq<A>, i: int, p: spec_fn(A) -> bool)
    requires
        0 <= i < s.len(),
    ensures
        s.take(i + 1).filter(p) == if p(s[i]) {
            s.take(i).filter(p).push(s[i])
        } else {
            s.take(i).filter(p)
        },
{
    reveal(Seq::filter);
    let longer = s.take(i + 1);
    assert(longer.len() == i + 1);
    assert(longer.drop_last() =~= s.take(i));
    assert(longer.last() == s[i]);
    assert(longer.filter(p) == if p(longer.last()) {
        longer.drop_last().filter(p).push(longer.last())
    } else {
        longer.drop_last().filter(p)
    });
}

} // verus!
