//! Counting indices that satisfy a predicate, and how such counts behave
//! under unions and bijections.
use vstd::prelude::*;
use vstd::set_lib::*;
use vstd::relations::injective_on;

verus! {

/// Number of indices `j` with `0 <= j < n` for which `p(j)` holds.
pub open spec fn count_in(n: int, p: spec_fn(int) -> bool) -> nat
    decreases n,
{
    if n <= 0 {
        0
    } else {
        count_in(n - 1, p) + if p(n - 1) {
            1nat
        } else {
            0nat
        }
    }
}

/// The set of indices below `n` satisfying `p`.
pub open spec fn index_set(n: int, p: spec_fn(int) -> bool) -> Set<int> {
    Set::new(|j: int| 0 <= j < n && p(j))
}

pub proof fn lemma_count_bound(n: int, p: spec_fn(int) -> bool)
    ensures
        n >= 0 ==> count_in(n, p) <= n,
    decreases n,
{
    if n > 0 {
        lemma_count_bound(n - 1, p);
    }
}

pub proof fn lemma_count_ext(n: int, p: spec_fn(int) -> bool, q: spec_fn(int) -> bool)
    requires
        forall|j: int| 0 <= j < n ==> #[trigger] p(j) == q(j),
    ensures
        count_in(n, p) == count_in(n, q),
    decreases n,
{
    if n > 0 {
        lemma_count_ext(n - 1, p, q);
    }
}

pub proof fn lemma_count_mono(n: int, p: spec_fn(int) -> bool, q: spec_fn(int) -> bool)
    requires
        forall|j: int| 0 <= j < n && #[trigger] p(j) ==> q(j),
    ensures
        count_in(n, p) <= count_in(n, q),
    decreases n,
{
    if n > 0 {
        lemma_count_mono(n - 1, p, q);
    }
}

/// Counting a disjunction of two exclusive predicates.
pub proof fn lemma_count_split(
    n: int,
    p: spec_fn(int) -> bool,
    a: spec_fn(int) -> bool,
    b: spec_fn(int) -> bool,
)
    requires
        forall|j: int| 0 <= j < n ==> (#[trigger] p(j) <==> (a(j) || b(j))),
        forall|j: int| 0 <= j < n ==> !(#[trigger] a(j) && b(j)),
    ensures
        count_in(n, p) == count_in(n, a) + count_in(n, b),
    decreases n,
{
    if n > 0 {
        lemma_count_split(n - 1, p, a, b);
    }
}

/// Counting the indices below `k` that lie below `m` as well.
pub proof fn lemma_count_prefix(n: int, k: int, p: spec_fn(int) -> bool)
    requires
        0 <= k <= n,
    ensures
        count_in(n, |j: int| j < k && p(j)) == count_in(k, p),
    decreases n,
{
    if n > k {
        lemma_count_prefix(n - 1, k, p);
    } else {
        lemma_count_ext(n, |j: int| j < k && p(j), p);
    }
}

/// Counting over a shorter prefix never gives more.
pub proof fn lemma_count_prefix_mono(n: int, m: int, p: spec_fn(int) -> bool)
    requires
        m <= n,
    ensures
        count_in(m, p) <= count_in(n, p),
    decreases n - m,
{
    if m < n {
        lemma_count_prefix_mono(n - 1, m, p);
    }
}

/// A count equals the size of the corresponding index set.
pub proof fn lemma_count_is_set_len(n: int, p: spec_fn(int) -> bool)
    ensures
        index_set(n, p).finite(),
        index_set(n, p).len() == count_in(n, p),
    decreases n,
{
    if n <= 0 {
        assert(index_set(n, p) =~= Set::empty());
    } else {
        lemma_count_is_set_len(n - 1, p);
        if p(n - 1) {
            assert(index_set(n, p) =~= index_set(n - 1, p).insert(n - 1));
        } else {
            assert(index_set(n, p) =~= index_set(n - 1, p));
        }
    }
}

/// Two index sets in injective correspondence have the same count.
pub proof fn lemma_count_bijection(
    n: int,
    p: spec_fn(int) -> bool,
    m: int,
    q: spec_fn(int) -> bool,
    f: spec_fn(int) -> int,
)
    requires
        forall|j: int| 0 <= j < n && #[trigger] p(j) ==> 0 <= f(j) < m && q(f(j)),
        forall|j1: int, j2: int|
            0 <= j1 < n && 0 <= j2 < n && p(j1) && p(j2) && #[trigger] f(j1) == #[trigger] f(j2)
                ==> j1 == j2,
        forall|k: int|
            0 <= k < m && #[trigger] q(k) ==> exists|j: int| 0 <= j < n && p(j) && #[trigger] f(j) == k,
    ensures
        count_in(n, p) == count_in(m, q),
{
    let x = index_set(n, p);
    let y = index_set(m, q);
    lemma_count_is_set_len(n, p);
    lemma_count_is_set_len(m, q);
    assert(injective_on(f, x));
    assert forall|k: int| x.map(f).contains(k) <==> y.contains(k) by {
        if y.contains(k) {
            let j = choose|j: int| 0 <= j < n && p(j) && #[trigger] f(j) == k;
            assert(x.contains(j));
        }
    }
    assert(x.map(f) =~= y);
    lemma_map_size(x, y, f);
}

/// Some index below `n` is sent to `k` by `f`.
pub open spec fn hits(n: int, f: spec_fn(int) -> int, k: int) -> bool {
    exists|j: int| 0 <= j < n && #[trigger] f(j) == k
}

/// An injective map of `[0, n)` into itself reaches every index.
pub proof fn lemma_injective_onto(n: int, f: spec_fn(int) -> int)
    requires
        n >= 0,
        forall|j: int| 0 <= j < n ==> 0 <= #[trigger] f(j) < n,
        forall|j1: int, j2: int|
            0 <= j1 < n && 0 <= j2 < n && #[trigger] f(j1) == #[trigger] f(j2) ==> j1 == j2,
    ensures
        forall|k: int| 0 <= k < n ==> #[trigger] hits(n, f, k),
{
    let x = set_int_range(0, n);
    lemma_int_range(0, n);
    assert(injective_on(f, x));
    let y = x.map(f);
    lemma_map_size_bound(x, y, f);
    lemma_map_size(x, y, f);
    assert(y.subset_of(x));
    lemma_subset_equality(y, x);
    assert forall|k: int| 0 <= k < n implies #[trigger] hits(n, f, k) by {
        assert(x.contains(k));
        assert(y.contains(k));
    }
}

/// The indices, ascending, of the first `k` items that pass `p`.
pub open spec fn passing(p: spec_fn(int) -> bool, k: int) -> Seq<usize>
    decreases k,
{
    if k <= 0 {
        Seq::empty()
    } else if p(k - 1) {
        passing(p, k - 1).push((k - 1) as usize)
    } else {
        passing(p, k - 1)
    }
}

/// The indices that pass are below `k`, and index `i` is among them
/// exactly when it passes.
pub proof fn lemma_passing_contains(p: spec_fn(int) -> bool, k: int, i: int)
    requires
        0 <= i < k,
        k <= usize::MAX,
    ensures
        forall|j: int| 0 <= j < passing(p, k).len() ==> #[trigger] passing(p, k)[j] < k,
        passing(p, k).contains(i as usize) <==> p(i),
    decreases k,
{
    let prev = passing(p, k - 1);
    if k - 1 > 0 {
        if i < k - 1 {
            lemma_passing_contains(p, k - 1, i);
        } else {
            lemma_passing_contains(p, k - 1, 0);
        }
    }
    if p(k - 1) {
        assert(passing(p, k) == prev.push((k - 1) as usize));
        if i < k - 1 {
            if prev.contains(i as usize) {
                let j = choose|j: int| 0 <= j < prev.len() && prev[j] == i as usize;
                assert(passing(p, k)[j] == i as usize);
            }
            if passing(p, k).contains(i as usize) {
                let j = choose|j: int| 0 <= j < passing(p, k).len() && passing(p, k)[j] == i as usize;
                assert(j < prev.len());
            }
        } else {
            assert(passing(p, k)[prev.len() as int] == i as usize);
        }
    } else {
        if i == k - 1 && passing(p, k).contains(i as usize) {
            let j = choose|j: int| 0 <= j < prev.len() && prev[j] == i as usize;
            assert(prev[j] < k - 1);
        }
    }
}

} // verus!
