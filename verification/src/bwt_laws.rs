//! The mathematics of the Burrows-Wheeler transform: lexicographic order on
//! suffixes, sorted suffix arrays, the last column of the sorted rotation
//! matrix, and the LF-mapping walk that inverts it.
use vstd::prelude::*;
use crate::counting::{count_in, lemma_count_bound, lemma_count_prefix_mono, hits, lemma_count_bijection, lemma_count_ext, lemma_count_prefix, lemma_count_split, lemma_injective_onto};

verus! {

/// Strict lexicographic order on byte sequences; a proper prefix is smaller.
pub open spec fn lex_lt(a: Seq<u8>, b: Seq<u8>) -> bool
    decreases a.len(),
{
    if a.len() == 0 {
        b.len() > 0
    } else if b.len() == 0 {
        false
    } else if a[0] != b[0] {
        a[0] < b[0]
    } else {
        lex_lt(a.drop_first(), b.drop_first())
    }
}

/// The suffix of `t` that starts at position `i`.
pub open spec fn suffix(t: Seq<u8>, i: int) -> Seq<u8> {
    t.subrange(i, t.len() as int)
}

/// `t` ends with a zero byte and holds no other zero byte.
pub open spec fn sentinel_terminated(t: Seq<u8>) -> bool {
    &&& t.len() > 0
    &&& t[t.len() - 1] == 0
    &&& forall|i: int| 0 <= i < t.len() - 1 ==> #[trigger] t[i] != 0
}

/// `sa` lists every suffix start of `t` in strictly increasing
/// lexicographic order of the suffixes.
pub open spec fn is_sorted_suffix_array(t: Seq<u8>, sa: Seq<usize>) -> bool {
    &&& sa.len() == t.len()
    &&& forall|i: int| 0 <= i < sa.len() ==> #[trigger] sa[i] < t.len()
    &&& forall|i: int, j: int|
        0 <= i < j < sa.len() ==> lex_lt(
            suffix(t, #[trigger] sa[i] as int),
            suffix(t, #[trigger] sa[j] as int),
        )
}

/// The position just before `p`, wrapping around to the last position.
pub open spec fn rotate_back(n: int, p: int) -> int {
    if p == 0 {
        n - 1
    } else {
        p - 1
    }
}

/// The last column of the rotation matrix whose rows are ordered by `sa`:
/// row `i` ends with the byte just before position `sa[i]`.
pub open spec fn last_column(t: Seq<u8>, sa: Seq<usize>) -> Seq<u8> {
    Seq::new(sa.len(), |i: int| t[rotate_back(t.len() as int, sa[i] as int)])
}

/// The predicate "position `j` of `d` holds a byte smaller than `c`".
pub open spec fn byte_lt(d: Seq<u8>, c: int) -> spec_fn(int) -> bool {
    |j: int| d[j] < c
}

/// The predicate "position `j` of `d` holds the byte `c`".
pub open spec fn byte_eq(d: Seq<u8>, c: u8) -> spec_fn(int) -> bool {
    |j: int| d[j] == c
}

/// Number of positions below `k` holding a byte smaller than `c`.
pub open spec fn cnt_less(d: Seq<u8>, k: int, c: int) -> nat {
    count_in(k, byte_lt(d, c))
}

/// Number of positions below `k` holding exactly the byte `c`.
pub open spec fn cnt_eq(d: Seq<u8>, k: int, c: u8) -> nat {
    count_in(k, byte_eq(d, c))
}

/// The LF-mapping of `d`: the `m`-th occurrence of byte `c` in `d` goes to
/// row `m` of the block of rows that start with `c` in the sorted column.
pub open spec fn lf(d: Seq<u8>, i: int) -> int {
    (cnt_less(d, d.len() as int, d[i] as int) + cnt_eq(d, i, d[i])) as int
}

/// The row reached after `k` steps of the LF-mapping, starting at row 0.
pub open spec fn walk_row(d: Seq<u8>, k: nat) -> int
    decreases k,
{
    if k == 0 {
        0
    } else {
        lf(d, walk_row(d, (k - 1) as nat))
    }
}

/// What the inverse transform recovers from the column `d`: position `i`
/// holds the byte read after `len - 1 - i` steps of the LF walk.
pub open spec fn inverse_transform(d: Seq<u8>) -> Seq<u8> {
    Seq::new(
        (d.len() - 1) as nat,
        |i: int| d[walk_row(d, (d.len() - 2 - i) as nat)],
    )
}

/// Counting one more position.
pub proof fn lemma_cnt_step(d: Seq<u8>, k: int, c: int)
    requires
        0 <= k < d.len(),
    ensures
        cnt_less(d, k + 1, c) == cnt_less(d, k, c) + if d[k] < c {
            1nat
        } else {
            0nat
        },
        0 <= c < 256 ==> cnt_eq(d, k + 1, c as u8) == cnt_eq(d, k, c as u8) + if d[k] == c {
            1nat
        } else {
            0nat
        },
{
}

/// No byte is below zero.
pub proof fn lemma_cnt_less_zero(d: Seq<u8>, k: int)
    ensures
        cnt_less(d, k, 0) == 0,
    decreases k,
{
    if k > 0 {
        lemma_cnt_less_zero(d, k - 1);
    }
}

/// Counts never exceed the number of positions counted.
pub proof fn lemma_cnt_bounds(d: Seq<u8>, k: int, c: int)
    requires
        0 <= k <= d.len(),
    ensures
        cnt_less(d, k, c) <= k,
        0 <= c < 256 ==> cnt_eq(d, k, c as u8) <= k,
{
    lemma_count_bound(k, byte_lt(d, c));
    if 0 <= c < 256 {
        lemma_count_bound(k, byte_eq(d, c as u8));
    }
}

/// Bytes below `c + 1` are the bytes below `c` and the bytes equal to `c`.
pub proof fn lemma_cnt_less_next(d: Seq<u8>, k: int, c: int)
    requires
        0 <= c < 256,
    ensures
        cnt_less(d, k, c + 1) == cnt_less(d, k, c) + cnt_eq(d, k, c as u8),
{
    lemma_count_split(k, byte_lt(d, c + 1), byte_lt(d, c), byte_eq(d, c as u8));
}

/// The LF-mapping of any column stays inside the column.
pub proof fn lemma_lf_in_range(d: Seq<u8>, i: int)
    requires
        0 <= i < d.len(),
    ensures
        0 <= lf(d, i) < d.len(),
{
    let n = d.len() as int;
    let c = d[i];
    lemma_cnt_step(d, i, c as int);
    lemma_count_prefix_mono(n, i + 1, byte_eq(d, c));
    lemma_cnt_less_next(d, n, c as int);
    lemma_cnt_bounds(d, n, c as int + 1);
}

/// The row of the sorted suffix array that holds suffix `q`.
pub open spec fn row_of(sa: Seq<usize>, q: int) -> int {
    choose|j: int| 0 <= j < sa.len() && sa[j] == q
}

pub proof fn lemma_lex_irreflexive(a: Seq<u8>)
    ensures
        !lex_lt(a, a),
    decreases a.len(),
{
    if a.len() > 0 {
        lemma_lex_irreflexive(a.drop_first());
    }
}

pub proof fn lemma_lex_asymmetric(a: Seq<u8>, b: Seq<u8>)
    requires
        lex_lt(a, b),
    ensures
        !lex_lt(b, a),
    decreases a.len(),
{
    if a.len() > 0 && b.len() > 0 && a[0] == b[0] {
        lemma_lex_asymmetric(a.drop_first(), b.drop_first());
    }
}

/// Two byte sequences are equal or ordered one way or the other.
pub proof fn lemma_lex_total(a: Seq<u8>, b: Seq<u8>)
    ensures
        a == b || lex_lt(a, b) || lex_lt(b, a),
    decreases a.len(),
{
    if a.len() > 0 && b.len() > 0 && a[0] == b[0] {
        lemma_lex_total(a.drop_first(), b.drop_first());
        if a.drop_first() == b.drop_first() {
            assert(a =~= seq![a[0]] + a.drop_first());
            assert(b =~= seq![b[0]] + b.drop_first());
        }
    } else if a.len() == 0 && b.len() == 0 {
        assert(a =~= b);
    }
}

/// The lexicographic order is transitive.
pub proof fn lemma_lex_transitive(a: Seq<u8>, b: Seq<u8>, c: Seq<u8>)
    requires
        lex_lt(a, b),
        lex_lt(b, c),
    ensures
        lex_lt(a, c),
    decreases a.len(),
{
    if a.len() > 0 && b.len() > 0 && c.len() > 0 && a[0] == b[0] && b[0] == c[0] {
        lemma_lex_transitive(a.drop_first(), b.drop_first(), c.drop_first());
    }
}

pub proof fn lemma_suffix_cons(t: Seq<u8>, i: int)
    requires
        0 <= i < t.len(),
    ensures
        suffix(t, i).len() > 0,
        suffix(t, i)[0] == t[i],
        suffix(t, i).drop_first() =~= suffix(t, i + 1),
{
}

/// In a sorted suffix array, suffix order and row order agree.
pub proof fn lemma_row_order(t: Seq<u8>, sa: Seq<usize>, j1: int, j2: int)
    requires
        is_sorted_suffix_array(t, sa),
        0 <= j1 < sa.len(),
        0 <= j2 < sa.len(),
    ensures
        lex_lt(suffix(t, sa[j1] as int), suffix(t, sa[j2] as int)) <==> j1 < j2,
{
    if j1 < j2 {
    } else if j1 == j2 {
        lemma_lex_irreflexive(suffix(t, sa[j1] as int));
    } else {
        lemma_lex_asymmetric(suffix(t, sa[j2] as int), suffix(t, sa[j1] as int));
    }
}

/// A sorted suffix array is a permutation of the positions of `t`.
pub proof fn lemma_sorted_sa_is_permutation(t: Seq<u8>, sa: Seq<usize>)
    requires
        is_sorted_suffix_array(t, sa),
    ensures
        forall|j1: int, j2: int|
            0 <= j1 < sa.len() && 0 <= j2 < sa.len() && #[trigger] sa[j1] == #[trigger] sa[j2]
                ==> j1 == j2,
        forall|q: int|
            0 <= q < t.len() ==> 0 <= #[trigger] row_of(sa, q) < sa.len() && sa[row_of(sa, q)]
                == q,
{
    let n = sa.len() as int;
    assert forall|j1: int, j2: int|
        0 <= j1 < n && 0 <= j2 < n && #[trigger] sa[j1] == #[trigger] sa[j2] implies j1 == j2 by {
        lemma_row_order(t, sa, j1, j2);
        lemma_lex_irreflexive(suffix(t, sa[j1] as int));
    }
    let f = |j: int| sa[j] as int;
    lemma_injective_onto(n, f);
    assert forall|q: int| 0 <= q < t.len() implies 0 <= #[trigger] row_of(sa, q) < sa.len()
        && sa[row_of(sa, q)] == q by {
        assert(hits(n, f, q));
        let j = choose|j: int| 0 <= j < n && #[trigger] f(j) == q;
        assert(sa[j] == q);
    }
}

/// Rows of a sorted suffix array are determined by the suffix they hold.
pub proof fn lemma_row_of_unique(t: Seq<u8>, sa: Seq<usize>, j: int)
    requires
        is_sorted_suffix_array(t, sa),
        0 <= j < sa.len(),
    ensures
        row_of(sa, sa[j] as int) == j,
{
    lemma_sorted_sa_is_permutation(t, sa);
    let r = row_of(sa, sa[j] as int);
    assert(sa[r] == sa[j]);
}

/// Two sorted suffix arrays of one text agree on their first `i + 1` slots.
proof fn lemma_sorted_sa_prefix_agree(t: Seq<u8>, sa1: Seq<usize>, sa2: Seq<usize>, i: int)
    requires
        is_sorted_suffix_array(t, sa1),
        is_sorted_suffix_array(t, sa2),
        0 <= i < t.len(),
    ensures
        forall|k: int| 0 <= k <= i ==> #[trigger] sa1[k] == sa2[k],
    decreases i,
{
    if i > 0 {
        lemma_sorted_sa_prefix_agree(t, sa1, sa2, i - 1);
    }
    lemma_sorted_sa_is_permutation(t, sa1);
    lemma_sorted_sa_is_permutation(t, sa2);
    let q1 = sa1[i] as int;
    let q2 = sa2[i] as int;
    if q1 != q2 {
        lemma_lex_total(suffix(t, q1), suffix(t, q2));
        let r2 = row_of(sa2, q1);
        let r1 = row_of(sa1, q2);
        assert(sa2[r2] == q1);
        assert(sa1[r1] == q2);
        if r2 < i {
            assert(sa1[r2] == sa2[r2]);
        }
        if r1 < i {
            assert(sa2[r1] == sa1[r1]);
        }
        assert(r2 > i && r1 > i);
        if lex_lt(suffix(t, q1), suffix(t, q2)) {
            lemma_row_order(t, sa2, i, r2);
            lemma_lex_asymmetric(suffix(t, q1), suffix(t, q2));
        } else {
            lemma_row_order(t, sa1, i, r1);
            lemma_lex_asymmetric(suffix(t, q2), suffix(t, q1));
        }
    }
}

/// A text has one sorted suffix array.
pub proof fn lemma_sorted_sa_unique(t: Seq<u8>, sa1: Seq<usize>, sa2: Seq<usize>)
    requires
        is_sorted_suffix_array(t, sa1),
        is_sorted_suffix_array(t, sa2),
    ensures
        sa1 == sa2,
{
    if t.len() > 0 {
        lemma_sorted_sa_prefix_agree(t, sa1, sa2, t.len() - 1);
    }
    assert(sa1 =~= sa2);
}

/// The sentinel suffix is the smallest, so it occupies row 0.
pub proof fn lemma_sentinel_row(t: Seq<u8>, sa: Seq<usize>)
    requires
        sentinel_terminated(t),
        is_sorted_suffix_array(t, sa),
    ensures
        sa[0] == t.len() - 1,
{
    let n = t.len() as int;
    if sa[0] != n - 1 {
        lemma_sorted_sa_is_permutation(t, sa);
        let r = row_of(sa, n - 1);
        lemma_row_order(t, sa, 0, r);
        lemma_suffix_cons(t, sa[0] as int);
        lemma_suffix_cons(t, n - 1);
        assert(t[sa[0] as int] != 0);
    }
}

/// Counting predicates over rows of a sorted suffix array equals counting
/// them over positions.
proof fn lemma_count_rows_as_positions(
    t: Seq<u8>,
    sa: Seq<usize>,
    p: spec_fn(int) -> bool,
    g: spec_fn(int) -> int,
)
    requires
        is_sorted_suffix_array(t, sa),
        forall|j: int| 0 <= j < sa.len() ==> 0 <= #[trigger] g(j) < t.len(),
        forall|j1: int, j2: int|
            0 <= j1 < sa.len() && 0 <= j2 < sa.len() && #[trigger] g(j1) == #[trigger] g(j2)
                ==> j1 == j2,
    ensures
        count_in(sa.len() as int, |j: int| p(g(j))) == count_in(t.len() as int, p),
{
    let n = sa.len() as int;
    lemma_injective_onto(n, g);
    let pg = |j: int| p(g(j));
    assert forall|k: int| 0 <= k < n && #[trigger] p(k) implies exists|j: int|
        0 <= j < n && pg(j) && #[trigger] g(j) == k by {
        assert(hits(n, g, k));
        let j = choose|j: int| 0 <= j < n && #[trigger] g(j) == k;
        assert(pg(j));
    }
    lemma_count_bijection(n, pg, n, p, g);
}

proof fn lemma_count_all_below(n: int, r: int)
    requires
        0 <= r <= n,
    ensures
        count_in(n, |j: int| j < r) == r,
{
    let tt = |j: int| true;
    lemma_count_prefix(n, r, tt);
    lemma_count_ext(n, |j: int| j < r, |j: int| j < r && tt(j));
    lemma_count_all(r, tt);
}

proof fn lemma_count_all(r: int, p: spec_fn(int) -> bool)
    requires
        r >= 0,
        forall|j: int| #[trigger] p(j),
    ensures
        count_in(r, p) == r,
    decreases r,
{
    if r > 0 {
        lemma_count_all(r - 1, p);
    }
}

/// The LF-mapping of the last column sends the row of suffix `p` to the row
/// of suffix `p - 1`.
pub proof fn lemma_lf_steps_back(t: Seq<u8>, sa: Seq<usize>, i: int)
    requires
        sentinel_terminated(t),
        is_sorted_suffix_array(t, sa),
        0 <= i < sa.len(),
        sa[i] >= 1,
    ensures
        lf(last_column(t, sa), i) == row_of(sa, sa[i] - 1),
        0 <= row_of(sa, sa[i] - 1) < sa.len(),
{
    let n = t.len() as int;
    let l = last_column(t, sa);
    let p = sa[i] as int;
    let c = t[p - 1];
    lemma_sorted_sa_is_permutation(t, sa);
    let r = row_of(sa, p - 1);
    assert(l[i] == c);
    assert(c != 0);
    let below = |j: int| j < r;
    let a = |j: int| t[sa[j] as int] < c;
    let b = |j: int| t[sa[j] as int] == c && row_of(sa, sa[j] + 1) < i;
    assert forall|j: int| 0 <= j < n implies (#[trigger] below(j) <==> (a(j) || b(j))) by {
        lemma_row_order(t, sa, j, r);
        lemma_suffix_cons(t, sa[j] as int);
        lemma_suffix_cons(t, p - 1);
        if t[sa[j] as int] == c {
            let q = sa[j] as int;
            assert(q < n - 1);
            let rq = row_of(sa, q + 1);
            lemma_row_order(t, sa, rq, i);
        }
    }
    lemma_count_split(n, below, a, b);
    lemma_count_all_below(n, r);
    // Rows with a smaller first byte, counted as positions.
    let sa_g = |j: int| sa[j] as int;
    let less_c = |q: int| t[q] < c;
    lemma_count_rows_as_positions(t, sa, less_c, sa_g);
    lemma_count_ext(n, a, |j: int| less_c(sa_g(j)));
    // The last column holds the same bytes, so it counts the same.
    let rot_g = |j: int| rotate_back(n, sa[j] as int);
    assert forall|j1: int, j2: int|
        0 <= j1 < n && 0 <= j2 < n && #[trigger] rot_g(j1) == #[trigger] rot_g(j2) implies j1
        == j2 by {
        assert(sa[j1] == sa[j2]);
    }
    lemma_count_rows_as_positions(t, sa, less_c, rot_g);
    lemma_count_ext(n, byte_lt(l, c as int), |j: int| less_c(rot_g(j)));
    // Rows with the same first byte whose successor row lies above row i.
    let h = |j: int| row_of(sa, sa[j] + 1);
    let eq_c = |j: int| l[j] == c;
    assert forall|j: int| 0 <= j < n && #[trigger] b(j) implies 0 <= h(j) < i && eq_c(h(j)) by {
        let q = sa[j] as int;
        assert(q < n - 1);
        assert(sa[h(j)] == q + 1);
    }
    assert forall|j1: int, j2: int|
        0 <= j1 < n && 0 <= j2 < n && b(j1) && b(j2) && #[trigger] h(j1) == #[trigger] h(j2)
            implies j1 == j2 by {
        assert(sa[j1] < n - 1);
        assert(sa[j2] < n - 1);
        assert(sa[h(j1)] == sa[j1] + 1);
        assert(sa[h(j2)] == sa[j2] + 1);
    }
    assert forall|k: int| 0 <= k < i && #[trigger] eq_c(k) implies exists|j: int|
        0 <= j < n && b(j) && #[trigger] h(j) == k by {
        assert(sa[k] != 0);
        let j = row_of(sa, sa[k] - 1);
        lemma_row_of_unique(t, sa, k);
        assert(sa[j] + 1 == sa[k]);
        assert(h(j) == k);
        assert(b(j));
    }
    lemma_count_bijection(n, b, i, eq_c, h);
    lemma_count_ext(i, eq_c, byte_eq(l, c));
}

/// Walking the LF-mapping from row 0 visits the suffixes `n-1, n-2, ...`.
pub proof fn lemma_walk_visits_suffixes(t: Seq<u8>, sa: Seq<usize>, k: nat)
    requires
        sentinel_terminated(t),
        is_sorted_suffix_array(t, sa),
        k <= t.len() - 1,
    ensures
        walk_row(last_column(t, sa), k) == row_of(sa, t.len() - 1 - k),
        0 <= walk_row(last_column(t, sa), k) < sa.len(),
    decreases k,
{
    let n = t.len() as int;
    lemma_sorted_sa_is_permutation(t, sa);
    if k == 0 {
        lemma_sentinel_row(t, sa);
        lemma_row_of_unique(t, sa, 0);
    } else {
        lemma_walk_visits_suffixes(t, sa, (k - 1) as nat);
        let row = walk_row(last_column(t, sa), (k - 1) as nat);
        assert(sa[row] == n - k);
        lemma_lf_steps_back(t, sa, row);
    }
}

/// The inverse transform recovers the text from the last column of any
/// sorted suffix array of it (the sentinel itself is dropped).
pub proof fn lemma_inverse_recovers_text(input: Seq<u8>, sa: Seq<usize>)
    requires
        forall|i: int| 0 <= i < input.len() ==> #[trigger] input[i] != 0,
        is_sorted_suffix_array(input.push(0), sa),
    ensures
        inverse_transform(last_column(input.push(0), sa)) =~= input,
{
    let t = input.push(0);
    let n = t.len() as int;
    let l = last_column(t, sa);
    assert(sentinel_terminated(t)) by {
        assert forall|i: int| 0 <= i < t.len() - 1 implies #[trigger] t[i] != 0 by {
            assert(t[i] == input[i]);
        }
    }
    lemma_sorted_sa_is_permutation(t, sa);
    let inv = inverse_transform(l);
    assert(inv.len() == input.len());
    assert forall|i: int| 0 <= i < input.len() implies inv[i] == input[i] by {
        let k = (n - 2 - i) as nat;
        lemma_walk_visits_suffixes(t, sa, k);
        let row = walk_row(l, k);
        assert(sa[row] == i + 1);
        assert(l[row] == t[i]);
    }
}

} // verus!
