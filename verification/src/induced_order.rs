//! Why induced sorting orders suffixes: with the left-most S-type suffixes
//! sorted at the tails of their byte buckets, the left-to-right scan places
//! every L-type suffix at the head of its bucket in increasing order.
use vstd::prelude::*;
use crate::bwt_laws::{
    byte_eq, byte_lt, cnt_eq, cnt_less, lemma_cnt_bounds, lemma_cnt_less_next, lemma_suffix_cons,
    lex_lt, sentinel_terminated, suffix,
};
use crate::counting::{count_in, lemma_count_ext, lemma_count_mono, lemma_count_split};
use crate::suffix_array::{
    bucket_heads, cnt_lms_eq, induce_l_scan, induce_l_step, lms_at, lms_with_byte, s_type,
};

verus! {

/// First slot of the bucket of suffixes that start with byte `c`.
pub open spec fn bstart(t: Seq<u8>, c: int) -> int {
    cnt_less(t, t.len() as int, c) as int
}

/// One past the last slot of the bucket of byte `c`.
pub open spec fn bend(t: Seq<u8>, c: int) -> int {
    cnt_less(t, t.len() as int, c + 1) as int
}

/// First slot of the tail of bucket `c` that its LMS suffixes fill.
pub open spec fn tail_start(t: Seq<u8>, ty: Seq<bool>, c: int) -> int {
    bend(t, c) - cnt_lms_eq(t, ty, t.len() as int, c)
}

/// `t` ends with the sentinel and `ty` holds the type of each position.
pub open spec fn well_typed(t: Seq<u8>, ty: Seq<bool>) -> bool {
    &&& sentinel_terminated(t)
    &&& ty.len() == t.len()
    &&& forall|k: int| 0 <= k < t.len() ==> #[trigger] ty[k] == s_type(t, k)
}

/// Every filled slot lies in the bucket of the byte its suffix starts with.
pub open spec fn in_own_bucket(t: Seq<u8>, sa: Seq<usize>) -> bool {
    forall|k: int|
        0 <= k < sa.len() && #[trigger] sa[k] != usize::MAX ==> sa[k] < t.len() && bstart(
            t,
            t[sa[k] as int] as int,
        ) <= k < bend(t, t[sa[k] as int] as int)
}

/// The filled slots hold suffixes in strictly increasing order.
pub open spec fn entries_sorted(t: Seq<u8>, sa: Seq<usize>) -> bool {
    forall|k1: int, k2: int|
        0 <= k1 < k2 < sa.len() && #[trigger] sa[k1] != usize::MAX && #[trigger] sa[k2]
            != usize::MAX ==> lex_lt(suffix(t, sa[k1] as int), suffix(t, sa[k2] as int))
}

/// The array before the L-type scan: every left-most S-type suffix, and
/// nothing else, in the tail of its bucket, in increasing order.
pub open spec fn lms_at_tails(t: Seq<u8>, ty: Seq<bool>, sa: Seq<usize>) -> bool {
    &&& well_typed(t, ty)
    &&& t.len() < usize::MAX
    &&& sa.len() == t.len()
    &&& in_own_bucket(t, sa)
    &&& entries_sorted(t, sa)
    &&& forall|k: int|
        0 <= k < sa.len() && #[trigger] sa[k] != usize::MAX ==> lms_at(ty, sa[k] as int)
            && tail_start(t, ty, t[sa[k] as int] as int) <= k
    &&& forall|p: int| 0 <= p < t.len() && #[trigger] lms_at(ty, p) ==> sa.contains(p as usize)
}

/// The array after the L-type scan from `sa0`: the LMS suffixes stay where
/// they were, every L-type suffix has been added, the first `l_count(c)`
/// slots of each bucket `c` hold its L-type suffixes and no L-type suffix
/// lies elsewhere, and all filled slots are in increasing suffix order.
pub open spec fn l_induced(t: Seq<u8>, ty: Seq<bool>, sa0: Seq<usize>, sa: Seq<usize>) -> bool {
    &&& sa.len() == t.len()
    &&& in_own_bucket(t, sa)
    &&& entries_sorted(t, sa)
    &&& forall|k: int| 0 <= k < sa.len() && #[trigger] sa0[k] != usize::MAX ==> sa[k] == sa0[k]
    &&& forall|k: int|
        0 <= k < sa.len() && #[trigger] sa[k] != usize::MAX && sa0[k] == usize::MAX
            ==> !ty[sa[k] as int]
    &&& forall|j: int| 0 <= j < t.len() && !#[trigger] ty[j] ==> sa.contains(j as usize)
    &&& forall|c: int, k: int|
        0 <= c < 256 && bstart(t, c) <= k < bstart(t, c) + #[trigger] l_count(t, ty, c)
            ==> #[trigger] sa[k] != usize::MAX && !ty[sa[k] as int]
    &&& forall|k: int|
        0 <= k < sa.len() && #[trigger] sa[k] != usize::MAX && !ty[sa[k] as int] ==> k < bstart(
            t,
            t[sa[k] as int] as int,
        ) + l_count(t, ty, t[sa[k] as int] as int)
}

/// The number of L-type positions holding byte `c`.
pub open spec fn l_count(t: Seq<u8>, ty: Seq<bool>, c: int) -> int {
    count_in(t.len() as int, l_with_byte(t, ty, c)) as int
}

/// Buckets of smaller bytes end before buckets of larger bytes begin.
pub proof fn lemma_bucket_order(t: Seq<u8>, c1: int, c2: int)
    requires
        c1 < c2,
    ensures
        bend(t, c1) <= bstart(t, c2),
{
    lemma_count_mono(t.len() as int, byte_lt(t, c1 + 1), byte_lt(t, c2));
}

/// A bucket lies inside the array, and holds the positions of its byte.
pub proof fn lemma_bucket_bounds(t: Seq<u8>, c: int)
    requires
        0 <= c < 256,
    ensures
        0 <= bstart(t, c) <= bend(t, c) <= t.len(),
        bend(t, c) - bstart(t, c) == cnt_eq(t, t.len() as int, c as u8),
{
    lemma_cnt_less_next(t, t.len() as int, c);
    lemma_cnt_bounds(t, t.len() as int, c + 1);
}

/// A suffix with a smaller first byte is smaller.
pub proof fn lemma_first_byte_order(t: Seq<u8>, a: int, b: int)
    requires
        0 <= a < t.len(),
        0 <= b < t.len(),
        t[a] < t[b],
    ensures
        lex_lt(suffix(t, a), suffix(t, b)),
{
    lemma_suffix_cons(t, a);
    lemma_suffix_cons(t, b);
}

/// Suffixes with the same first byte are ordered as the suffixes after it.
pub proof fn lemma_same_first_byte(t: Seq<u8>, a: int, b: int)
    requires
        0 <= a < t.len(),
        0 <= b < t.len(),
        t[a] == t[b],
    ensures
        lex_lt(suffix(t, a), suffix(t, b)) == lex_lt(suffix(t, a + 1), suffix(t, b + 1)),
{
    lemma_suffix_cons(t, a);
    lemma_suffix_cons(t, b);
}

/// Of two suffixes with the same first byte, the L-type one is smaller.
pub proof fn lemma_l_before_s(t: Seq<u8>, a: int, b: int)
    requires
        sentinel_terminated(t),
        0 <= a < t.len(),
        0 <= b < t.len(),
        t[a] == t[b],
        !s_type(t, a),
        s_type(t, b),
    ensures
        lex_lt(suffix(t, a), suffix(t, b)),
    decreases t.len() - a,
{
    let n = t.len() as int;
    lemma_same_first_byte(t, a, b);
    assert(a < n - 1);
    assert(t[a] != 0);
    assert(b < n - 1);
    if t[a + 1] < t[a] {
        lemma_first_byte_order(t, a + 1, b + 1);
    } else {
        assert(t[a + 1] == t[a]);
        if t[b + 1] > t[b] {
            lemma_first_byte_order(t, a + 1, b + 1);
        } else {
            lemma_l_before_s(t, a + 1, b + 1);
        }
    }
}

/// Counting the single index `j`.
pub proof fn lemma_count_single(n: int, j: int)
    requires
        0 <= j < n,
    ensures
        count_in(n, |q: int| q == j) == 1,
    decreases n,
{
    if n - 1 > j {
        lemma_count_single(n - 1, j);
    } else {
        lemma_count_ext(n - 1, |q: int| q == j, |q: int| false);
        lemma_count_none(n - 1);
    }
}

/// Counting nothing.
pub proof fn lemma_count_none(n: int)
    ensures
        count_in(n, |q: int| false) == 0,
    decreases n,
{
    if n > 0 {
        lemma_count_none(n - 1);
    }
}

/// The L-type positions holding byte `c` that the array `sa` contains.
pub open spec fn placed_l(t: Seq<u8>, ty: Seq<bool>, sa: Seq<usize>, c: int) -> spec_fn(int) -> bool {
    |q: int| !ty[q] && t[q] == c && sa.contains(q as usize)
}

/// The L-type positions holding byte `c`.
pub open spec fn l_with_byte(t: Seq<u8>, ty: Seq<bool>, c: int) -> spec_fn(int) -> bool {
    |q: int| !ty[q] && t[q] == c
}

/// The state of the L-type scan from `sa0` after its first `i` slots, with
/// bucket heads `h`: the LMS suffixes are untouched, each bucket starts
/// with the L-type suffixes placed so far (as many as its head has moved),
/// followed by empty slots up to its LMS tail; every scanned suffix whose
/// predecessor is L-type has had that predecessor placed, and every placed
/// suffix was induced from a scanned one.
pub open spec fn l_scan_inv(
    t: Seq<u8>,
    ty: Seq<bool>,
    sa0: Seq<usize>,
    sa: Seq<usize>,
    h: Seq<int>,
    i: int,
) -> bool {
    let n = t.len() as int;
    &&& lms_at_tails(t, ty, sa0)
    &&& 0 <= i <= n
    &&& sa.len() == n
    &&& h.len() == 256
    &&& in_own_bucket(t, sa)
    &&& entries_sorted(t, sa)
    &&& forall|k: int| 0 <= k < n && #[trigger] sa0[k] != usize::MAX ==> sa[k] == sa0[k]
    &&& forall|k: int|
        0 <= k < n && #[trigger] sa[k] != usize::MAX && sa0[k] == usize::MAX ==> !ty[sa[k] as int]
            && k < h[t[sa[k] as int] as int]
    &&& forall|c: int|
        0 <= c < 256 ==> bstart(t, c) <= #[trigger] h[c] <= tail_start(t, ty, c) && h[c] - bstart(
            t,
            c,
        ) == count_in(n, placed_l(t, ty, sa, c))
    &&& forall|c: int, k: int|
        0 <= c < 256 && bstart(t, c) <= k < #[trigger] h[c] ==> #[trigger] sa[k] != usize::MAX
    &&& forall|c: int, k: int|
        0 <= c < 256 && #[trigger] h[c] <= k < tail_start(t, ty, c) ==> #[trigger] sa[k]
            == usize::MAX
    &&& forall|k: int|
        0 <= k < i && #[trigger] sa[k] != usize::MAX && sa[k] > 0 && !ty[sa[k] - 1]
            ==> sa.contains((sa[k] - 1) as usize)
    &&& forall|k: int|
        0 <= k < n && #[trigger] sa[k] != usize::MAX && sa0[k] == usize::MAX ==> exists|k2: int|
            0 <= k2 < i && #[trigger] sa[k2] == sa[k] + 1
}

/// Two buckets that share a slot are the same bucket.
proof fn lemma_same_bucket(t: Seq<u8>, c1: int, c2: int, k: int)
    requires
        bstart(t, c1) <= k < bend(t, c1),
        bstart(t, c2) <= k < bend(t, c2),
    ensures
        c1 == c2,
{
    if c1 < c2 {
        lemma_bucket_order(t, c1, c2);
    } else if c2 < c1 {
        lemma_bucket_order(t, c2, c1);
    }
}

/// The scan starts in its invariant.
proof fn lemma_l_start(t: Seq<u8>, ty: Seq<bool>, sa0: Seq<usize>)
    requires
        lms_at_tails(t, ty, sa0),
    ensures
        l_scan_inv(t, ty, sa0, sa0, bucket_heads(t), 0),
{
    let n = t.len() as int;
    let h = bucket_heads(t);
    assert forall|c: int| 0 <= c < 256 implies bstart(t, c) <= #[trigger] h[c] <= tail_start(t, ty, c)
        && h[c] - bstart(t, c) == count_in(n, placed_l(t, ty, sa0, c)) by {
        lemma_bucket_bounds(t, c);
        lemma_count_mono(n, lms_with_byte(t, ty, c), byte_eq(t, c as u8));
        assert forall|q: int| 0 <= q < n implies #[trigger] placed_l(t, ty, sa0, c)(q) == false by {
            if placed_l(t, ty, sa0, c)(q) {
                let k = choose|k: int| 0 <= k < sa0.len() && sa0[k] == q as usize;
                assert(sa0[k] as int == q);
                assert(lms_at(ty, sa0[k] as int));
            }
        }
        lemma_count_ext(n, placed_l(t, ty, sa0, c), |q: int| false);
        lemma_count_none(n);
    }
    assert forall|c: int, k: int|
        0 <= c < 256 && #[trigger] h[c] <= k < tail_start(t, ty, c) implies #[trigger] sa0[k]
        == usize::MAX by {
        lemma_bucket_bounds(t, c);
        if sa0[k] != usize::MAX {
            let c2 = t[sa0[k] as int] as int;
            lemma_same_bucket(t, c, c2, k);
        }
    }
}

/// At a slot whose suffix has an L-type predecessor `j`: `j` is not placed
/// yet, and the head of its bucket is an empty slot past the cursor.
proof fn lemma_l_step_room(
    t: Seq<u8>,
    ty: Seq<bool>,
    sa0: Seq<usize>,
    sa: Seq<usize>,
    h: Seq<int>,
    i: int,
)
    requires
        l_scan_inv(t, ty, sa0, sa, h, i),
        0 <= i < t.len(),
        sa[i] != usize::MAX,
        sa[i] > 0,
        !ty[sa[i] - 1],
    ensures
        sa[i] < t.len(),
        !sa.contains((sa[i] - 1) as usize),
        i < h[t[sa[i] - 1] as int] < tail_start(t, ty, t[sa[i] - 1] as int),
        h[t[sa[i] - 1] as int] < t.len(),
        sa[h[t[sa[i] - 1] as int]] == usize::MAX,
{
    let n = t.len() as int;
    let p = sa[i] as int;
    let j = p - 1;
    let c = t[j] as int;
    assert(p < n);
    assert(ty[j] == s_type(t, j));
    // `j` is not placed yet: it would have been induced from an earlier slot
    // holding `p`, but `p` sits at slot `i` and suffixes are distinct.
    if sa.contains(j as usize) {
        let k = choose|k: int| 0 <= k < sa.len() && sa[k] == j as usize;
        assert(sa[k] != usize::MAX);
        if sa0[k] != usize::MAX {
            assert(lms_at(ty, sa0[k] as int));
        }
        let k2 = choose|k2: int| 0 <= k2 < i && #[trigger] sa[k2] == sa[k] + 1;
        assert(sa[k2] == sa[i]);
        crate::bwt_laws::lemma_lex_irreflexive(suffix(t, p));
        assert(false);
    }
    // Room at the head: the placed L-types of byte `c` miss `j`, and the
    // L-types and LMS positions of byte `c` fit in its bucket.
    let lc = l_with_byte(t, ty, c);
    let lcj = |q: int| !ty[q] && t[q] == c && q != j;
    let one = |q: int| q == j;
    let pl = placed_l(t, ty, sa, c);
    assert forall|q: int| 0 <= q < n && #[trigger] pl(q) implies lcj(q) by {
        if q == j {
            assert(sa.contains(j as usize));
        }
    }
    lemma_count_mono(n, pl, lcj);
    lemma_count_split(n, lc, lcj, one);
    lemma_count_single(n, j);
    let lms_c = lms_with_byte(t, ty, c);
    let either = |q: int| lc(q) || lms_c(q);
    lemma_count_split(n, either, lc, lms_c);
    lemma_count_mono(n, either, byte_eq(t, c as u8));
    lemma_bucket_bounds(t, c);
    assert(h[c] < tail_start(t, ty, c));
    // Past the cursor: the bucket of `p` ends before that of `c`, or `p` is
    // an L-type of the same bucket, already before its head.
    let cp = t[p] as int;
    assert(bstart(t, cp) <= i < bend(t, cp));
    if cp < c {
        lemma_bucket_order(t, cp, c);
    } else {
        assert(cp == c);
        assert(ty[p] == s_type(t, p));
        if sa0[i] != usize::MAX {
            assert(lms_at(ty, sa0[i] as int));
        }
        assert(i < h[c]);
    }
    assert(sa[h[c]] == usize::MAX);
}

/// The suffix induced at a slot fits the order of the filled slots around
/// the head of its bucket.
proof fn lemma_l_step_order(
    t: Seq<u8>,
    ty: Seq<bool>,
    sa0: Seq<usize>,
    sa: Seq<usize>,
    h: Seq<int>,
    i: int,
)
    requires
        l_scan_inv(t, ty, sa0, sa, h, i),
        0 <= i < t.len(),
        sa[i] != usize::MAX,
        sa[i] > 0,
        !ty[sa[i] - 1],
    ensures
        forall|k: int|
            0 <= k < h[t[sa[i] - 1] as int] && #[trigger] sa[k] != usize::MAX ==> lex_lt(
                suffix(t, sa[k] as int),
                suffix(t, sa[i] - 1),
            ),
        forall|k: int|
            h[t[sa[i] - 1] as int] < k < t.len() && #[trigger] sa[k] != usize::MAX ==> lex_lt(
                suffix(t, sa[i] - 1),
                suffix(t, sa[k] as int),
            ),
{
    let n = t.len() as int;
    let p = sa[i] as int;
    let j = p - 1;
    let c = t[j] as int;
    lemma_l_step_room(t, ty, sa0, sa, h, i);
    let s = h[c];
    assert(ty[j] == s_type(t, j));
    lemma_bucket_bounds(t, c);
    assert forall|k: int| 0 <= k < s && #[trigger] sa[k] != usize::MAX implies lex_lt(
        suffix(t, sa[k] as int),
        suffix(t, j),
    ) by {
        let q = sa[k] as int;
        let cq = t[q] as int;
        if cq < c {
            lemma_first_byte_order(t, q, j);
        } else if cq > c {
            lemma_bucket_order(t, c, cq);
        } else {
            if sa0[k] != usize::MAX {
                assert(lms_at(ty, sa0[k] as int));
                assert(tail_start(t, ty, cq) <= k);
            }
            let k2 = choose|k2: int| 0 <= k2 < i && #[trigger] sa[k2] == sa[k] + 1;
            assert(lex_lt(suffix(t, sa[k2] as int), suffix(t, sa[i] as int)));
            lemma_same_first_byte(t, q, j);
        }
    }
    assert forall|k: int| s < k < n && #[trigger] sa[k] != usize::MAX implies lex_lt(
        suffix(t, j),
        suffix(t, sa[k] as int),
    ) by {
        let q = sa[k] as int;
        let cq = t[q] as int;
        if cq > c {
            lemma_first_byte_order(t, j, q);
        } else if cq < c {
            lemma_bucket_order(t, cq, c);
        } else {
            if k < tail_start(t, ty, c) {
                assert(sa[k] == usize::MAX);
            }
            if sa0[k] == usize::MAX {
                assert(k < h[c]);
            }
            assert(lms_at(ty, sa0[k] as int));
            assert(ty[q] == s_type(t, q));
            lemma_l_before_s(t, j, q);
        }
    }
}

/// The array after slot `i` induces its L-type predecessor into the head
/// of its bucket.
pub open spec fn l_placed_sa(t: Seq<u8>, sa: Seq<usize>, h: Seq<int>, i: int) -> Seq<usize> {
    sa.update(h[t[sa[i] - 1] as int], (sa[i] - 1) as usize)
}

/// The bucket heads after slot `i` induces its L-type predecessor.
pub open spec fn l_placed_h(t: Seq<u8>, sa: Seq<usize>, h: Seq<int>, i: int) -> Seq<int> {
    h.update(t[sa[i] - 1] as int, h[t[sa[i] - 1] as int] + 1)
}

/// Placing the predecessor adds it and nothing else, keeps the order and
/// the buckets.
proof fn lemma_l_place_entries(
    t: Seq<u8>,
    ty: Seq<bool>,
    sa0: Seq<usize>,
    sa: Seq<usize>,
    h: Seq<int>,
    i: int,
)
    requires
        l_scan_inv(t, ty, sa0, sa, h, i),
        0 <= i < t.len(),
        sa[i] != usize::MAX,
        sa[i] > 0,
        !ty[sa[i] - 1],
    ensures
        forall|q: int|
            0 <= q < t.len() ==> #[trigger] l_placed_sa(t, sa, h, i).contains(q as usize) == (
            sa.contains(q as usize) || q == sa[i] - 1),
        in_own_bucket(t, l_placed_sa(t, sa, h, i)),
        entries_sorted(t, l_placed_sa(t, sa, h, i)),
{
    let n = t.len() as int;
    lemma_l_step_room(t, ty, sa0, sa, h, i);
    lemma_l_step_order(t, ty, sa0, sa, h, i);
    let j = sa[i] - 1;
    let c = t[j] as int;
    let s = h[c];
    let sa2 = l_placed_sa(t, sa, h, i);
    lemma_bucket_bounds(t, c);
    assert forall|q: int| 0 <= q < n implies #[trigger] sa2.contains(q as usize) == (sa.contains(
        q as usize,
    ) || q == j) by {
        if q == j {
            assert(sa2[s] == q as usize);
        }
        if sa.contains(q as usize) {
            let k = choose|k: int| 0 <= k < sa.len() && sa[k] == q as usize;
            assert(k != s);
            assert(sa2[k] == q as usize);
        }
        if sa2.contains(q as usize) && q != j {
            let k = choose|k: int| 0 <= k < sa2.len() && sa2[k] == q as usize;
            assert(k != s);
            assert(sa[k] == q as usize);
        }
    }
    assert forall|k: int| 0 <= k < sa2.len() && #[trigger] sa2[k] != usize::MAX implies sa2[k] < t.len()
        && bstart(t, t[sa2[k] as int] as int) <= k < bend(t, t[sa2[k] as int] as int) by {
        if k != s {
            assert(sa[k] != usize::MAX);
        }
    }
    assert forall|k1: int, k2: int|
        0 <= k1 < k2 < sa2.len() && #[trigger] sa2[k1] != usize::MAX && #[trigger] sa2[k2]
            != usize::MAX implies lex_lt(suffix(t, sa2[k1] as int), suffix(t, sa2[k2] as int)) by {
        if k1 == s {
            assert(sa[k2] != usize::MAX);
        } else if k2 == s {
            assert(sa[k1] != usize::MAX);
        } else {
            assert(sa[k1] != usize::MAX && sa[k2] != usize::MAX);
        }
    }
}

/// Placing the predecessor moves one head by one and keeps the layout of
/// the buckets.
#[verifier::rlimit(30)]
proof fn lemma_l_place_heads(
    t: Seq<u8>,
    ty: Seq<bool>,
    sa0: Seq<usize>,
    sa: Seq<usize>,
    h: Seq<int>,
    i: int,
)
    requires
        l_scan_inv(t, ty, sa0, sa, h, i),
        0 <= i < t.len(),
        sa[i] != usize::MAX,
        sa[i] > 0,
        !ty[sa[i] - 1],
    ensures
        ({
            let sa2 = l_placed_sa(t, sa, h, i);
            let h2 = l_placed_h(t, sa, h, i);
            &&& h2.len() == 256
            &&& forall|c: int|
                0 <= c < 256 ==> bstart(t, c) <= #[trigger] h2[c] <= tail_start(t, ty, c) && h2[c]
                    - bstart(t, c) == count_in(t.len() as int, placed_l(t, ty, sa2, c))
            &&& forall|c: int, k: int|
                0 <= c < 256 && bstart(t, c) <= k < #[trigger] h2[c] ==> #[trigger] sa2[k]
                    != usize::MAX
            &&& forall|c: int, k: int|
                0 <= c < 256 && #[trigger] h2[c] <= k < tail_start(t, ty, c) ==> #[trigger] sa2[k]
                    == usize::MAX
        }),
{
    let n = t.len() as int;
    lemma_l_step_room(t, ty, sa0, sa, h, i);
    lemma_l_place_entries(t, ty, sa0, sa, h, i);
    let j = sa[i] - 1;
    let c = t[j] as int;
    let s = h[c];
    let sa2 = l_placed_sa(t, sa, h, i);
    let h2 = l_placed_h(t, sa, h, i);
    lemma_bucket_bounds(t, c);
    assert forall|c2: int|
        0 <= c2 < 256 implies bstart(t, c2) <= #[trigger] h2[c2] <= tail_start(t, ty, c2) && h2[c2]
        - bstart(t, c2) == count_in(n, placed_l(t, ty, sa2, c2)) by {
        if c2 == c {
            assert forall|q: int| 0 <= q < n implies #[trigger] placed_l(t, ty, sa2, c)(q) <==> (
            placed_l(t, ty, sa, c)(q) || q == j) by {
                assert(sa2.contains(q as usize) == (sa.contains(q as usize) || q == j));
            }
            lemma_count_split(n, placed_l(t, ty, sa2, c), placed_l(t, ty, sa, c), |q: int| q == j);
            lemma_count_single(n, j);
        } else {
            assert forall|q: int| 0 <= q < n implies #[trigger] placed_l(t, ty, sa2, c2)(q)
                == placed_l(t, ty, sa, c2)(q) by {
                assert(sa2.contains(q as usize) == (sa.contains(q as usize) || q == j));
            }
            lemma_count_ext(n, placed_l(t, ty, sa2, c2), placed_l(t, ty, sa, c2));
        }
    }
    assert forall|c2: int, k: int|
        0 <= c2 < 256 && bstart(t, c2) <= k < #[trigger] h2[c2] implies #[trigger] sa2[k]
        != usize::MAX by {
        lemma_bucket_bounds(t, c2);
        if k != s {
            if c2 == c {
                assert(k < h[c]);
            } else {
                assert(h2[c2] == h[c2]);
            }
            assert(sa[k] != usize::MAX);
            assert(sa2[k] == sa[k]);
        } else {
            assert(sa2[k] == j as usize);
        }
    }
    assert forall|c2: int, k: int|
        0 <= c2 < 256 && #[trigger] h2[c2] <= k < tail_start(t, ty, c2) implies #[trigger] sa2[k]
        == usize::MAX by {
        lemma_bucket_bounds(t, c2);
        if k == s {
            lemma_same_bucket(t, c, c2, k);
        }
        if c2 != c {
            assert(h2[c2] == h[c2]);
        }
        assert(sa[k] == usize::MAX);
    }
}

/// One step of the L-type scan keeps its invariant.
#[verifier::rlimit(40)]
proof fn lemma_l_scan_step(
    t: Seq<u8>,
    ty: Seq<bool>,
    sa0: Seq<usize>,
    sa: Seq<usize>,
    h: Seq<int>,
    i: int,
)
    requires
        l_scan_inv(t, ty, sa0, sa, h, i),
        0 <= i < t.len(),
    ensures
        l_scan_inv(
            t,
            ty,
            sa0,
            induce_l_step(t, ty, (sa, h), i).0,
            induce_l_step(t, ty, (sa, h), i).1,
            i + 1,
        ),
{
    let n = t.len() as int;
    let p = sa[i];
    if p != usize::MAX && p != 0 && !ty[p - 1] {
        lemma_l_step_room(t, ty, sa0, sa, h, i);
        lemma_l_place_entries(t, ty, sa0, sa, h, i);
        lemma_l_place_heads(t, ty, sa0, sa, h, i);
        let j = p - 1;
        let c = t[j] as int;
        let s = h[c];
        let sa2 = l_placed_sa(t, sa, h, i);
        let h2 = l_placed_h(t, sa, h, i);
        assert(induce_l_step(t, ty, (sa, h), i) == (sa2, h2));
        assert forall|k: int|
            0 <= k < i + 1 && #[trigger] sa2[k] != usize::MAX && sa2[k] > 0 && !ty[sa2[k] - 1]
                implies sa2.contains((sa2[k] - 1) as usize) by {
            if k < i {
                assert(sa.contains((sa[k] - 1) as usize));
            }
        }
        assert forall|k: int|
            0 <= k < n && #[trigger] sa2[k] != usize::MAX && sa0[k] == usize::MAX implies exists|k2: int|
            0 <= k2 < i + 1 && #[trigger] sa2[k2] == sa2[k] + 1 by {
            if k == s {
                assert(sa2[i] == sa2[k] + 1);
            } else {
                let k2 = choose|k2: int| 0 <= k2 < i && #[trigger] sa[k2] == sa[k] + 1;
                assert(sa2[k2] == sa2[k] + 1);
            }
        }
        assert forall|k: int|
            0 <= k < n && #[trigger] sa2[k] != usize::MAX && sa0[k] == usize::MAX implies !ty[sa2[k] as int]
            && k < h2[t[sa2[k] as int] as int] by {
            if k != s {
                assert(sa[k] != usize::MAX);
            }
        }
        assert forall|k: int| 0 <= k < n && #[trigger] sa0[k] != usize::MAX implies sa2[k] == sa0[k] by {
            assert(sa[k] == sa0[k]);
        }
    } else {
        assert(induce_l_step(t, ty, (sa, h), i) == (sa, h));
        assert forall|k: int|
            0 <= k < n && #[trigger] sa[k] != usize::MAX && sa0[k] == usize::MAX implies exists|k2: int|
            0 <= k2 < i + 1 && #[trigger] sa[k2] == sa[k] + 1 by {
            let k2 = choose|k2: int| 0 <= k2 < i && #[trigger] sa[k2] == sa[k] + 1;
        }
    }
}

/// The scan keeps its invariant over its first `i` slots.
proof fn lemma_l_scan_inv(t: Seq<u8>, ty: Seq<bool>, sa0: Seq<usize>, i: nat)
    requires
        lms_at_tails(t, ty, sa0),
        i <= t.len(),
    ensures
        l_scan_inv(t, ty, sa0, induce_l_scan(t, ty, sa0, i).0, induce_l_scan(t, ty, sa0, i).1, i as int),
    decreases i,
{
    if i == 0 {
        lemma_l_start(t, ty, sa0);
    } else {
        lemma_l_scan_inv(t, ty, sa0, (i - 1) as nat);
        let st = induce_l_scan(t, ty, sa0, (i - 1) as nat);
        lemma_l_scan_step(t, ty, sa0, st.0, st.1, i - 1);
    }
}

/// After the whole scan, every L-type position is in the array.
proof fn lemma_l_present(
    t: Seq<u8>,
    ty: Seq<bool>,
    sa0: Seq<usize>,
    sa: Seq<usize>,
    h: Seq<int>,
    j: int,
)
    requires
        l_scan_inv(t, ty, sa0, sa, h, t.len() as int),
        0 <= j < t.len(),
        !ty[j],
    ensures
        sa.contains(j as usize),
    decreases t.len() - j,
{
    let n = t.len() as int;
    assert(ty[j] == s_type(t, j));
    assert(j < n - 1);
    let p = j + 1;
    if ty[p] {
        assert(lms_at(ty, p));
        assert(sa0.contains(p as usize));
        let k = choose|k: int| 0 <= k < sa0.len() && sa0[k] == p as usize;
        assert(sa[k] == p as usize);
        assert(sa[k] != usize::MAX && sa[k] > 0 && !ty[sa[k] - 1]);
    } else {
        lemma_l_present(t, ty, sa0, sa, h, p);
        let k = choose|k: int| 0 <= k < sa.len() && sa[k] == p as usize;
        assert(sa[k] != usize::MAX && sa[k] > 0 && !ty[sa[k] - 1]);
    }
}

/// With the LMS suffixes sorted at the bucket tails, the L-type scan adds
/// every L-type suffix, each bucket starting with its L-type suffixes in
/// increasing order, and keeps the LMS suffixes in place.
pub proof fn lemma_induce_l_orders(t: Seq<u8>, ty: Seq<bool>, sa0: Seq<usize>)
    requires
        lms_at_tails(t, ty, sa0),
    ensures
        l_induced(t, ty, sa0, induce_l_scan(t, ty, sa0, t.len() as nat).0),
{
    let n = t.len() as int;
    lemma_l_scan_inv(t, ty, sa0, t.len() as nat);
    let st = induce_l_scan(t, ty, sa0, t.len() as nat);
    let sa = st.0;
    let h = st.1;
    assert forall|j: int| 0 <= j < n && !#[trigger] ty[j] implies sa.contains(j as usize) by {
        lemma_l_present(t, ty, sa0, sa, h, j);
    }
    assert forall|c: int| 0 <= c < 256 implies #[trigger] h[c] == bstart(t, c) + l_count(t, ty, c) by {
        assert forall|q: int| 0 <= q < n implies #[trigger] placed_l(t, ty, sa, c)(q) == l_with_byte(
            t,
            ty,
            c,
        )(q) by {
            if l_with_byte(t, ty, c)(q) {
                assert(!ty[q]);
                assert(sa.contains(q as usize));
            }
        }
        lemma_count_ext(n, placed_l(t, ty, sa, c), l_with_byte(t, ty, c));
    }
    assert forall|c: int, k: int|
        0 <= c < 256 && bstart(t, c) <= k < bstart(t, c) + #[trigger] l_count(t, ty, c)
            implies #[trigger] sa[k] != usize::MAX && !ty[sa[k] as int] by {
        lemma_bucket_bounds(t, c);
        assert(h[c] == bstart(t, c) + l_count(t, ty, c));
        assert(sa[k] != usize::MAX);
        if sa0[k] != usize::MAX {
            let c2 = t[sa0[k] as int] as int;
            lemma_same_bucket(t, c, c2, k);
            assert(tail_start(t, ty, c2) <= k);
        }
    }
    assert forall|k: int|
        0 <= k < sa.len() && #[trigger] sa[k] != usize::MAX && !ty[sa[k] as int] implies k < bstart(
            t,
            t[sa[k] as int] as int,
        ) + l_count(t, ty, t[sa[k] as int] as int) by {
        let c = t[sa[k] as int] as int;
        if sa0[k] != usize::MAX {
            assert(lms_at(ty, sa0[k] as int));
        }
        assert(h[c] == bstart(t, c) + l_count(t, ty, c));
    }
}

/// The S-type positions holding byte `c`, the sentinel position aside.
pub open spec fn s_with_byte(t: Seq<u8>, ty: Seq<bool>, c: int) -> spec_fn(int) -> bool {
    |q: int| ty[q] && t[q] == c && q != t.len() - 1
}

/// The number of S-type positions holding byte `c`, the sentinel aside.
pub open spec fn s_count(t: Seq<u8>, ty: Seq<bool>, c: int) -> int {
    count_in(t.len() as int, s_with_byte(t, ty, c)) as int
}

/// The first slot of bucket `c` that the S-type scan fills: after the
/// L-type suffixes, and after the sentinel in the sentinel's bucket.
pub open spec fn s_region_start(t: Seq<u8>, ty: Seq<bool>, c: int) -> int {
    bstart(t, c) + l_count(t, ty, c) + if c == 0 {
        1int
    } else {
        0int
    }
}

/// The array before the S-type scan: every L-type suffix, in the first
/// `l_count(c)` slots of its bucket and nowhere else, the sentinel suffix in
/// slot 0, and all filled slots in increasing suffix order.
pub open spec fn s_ready(t: Seq<u8>, ty: Seq<bool>, sa: Seq<usize>) -> bool {
    &&& well_typed(t, ty)
    &&& 2 <= t.len() < usize::MAX
    &&& sa.len() == t.len()
    &&& in_own_bucket(t, sa)
    &&& entries_sorted(t, sa)
    &&& sa[0] == t.len() - 1
    &&& forall|j: int| 0 <= j < t.len() && !#[trigger] ty[j] ==> sa.contains(j as usize)
    &&& forall|c: int, k: int|
        0 <= c < 256 && bstart(t, c) <= k < bstart(t, c) + #[trigger] l_count(t, ty, c)
            ==> #[trigger] sa[k] != usize::MAX && !ty[sa[k] as int]
    &&& forall|k: int|
        0 <= k < sa.len() && #[trigger] sa[k] != usize::MAX && !ty[sa[k] as int] ==> k < bstart(
            t,
            t[sa[k] as int] as int,
        ) + l_count(t, ty, t[sa[k] as int] as int)
}

/// Every byte is below 256, so the last bucket ends at the end of the array.
proof fn lemma_all_below_256(t: Seq<u8>, k: int)
    requires
        0 <= k <= t.len(),
    ensures
        cnt_less(t, k, 256) == k,
    decreases k,
{
    if k > 0 {
        lemma_all_below_256(t, k - 1);
        crate::bwt_laws::lemma_cnt_step(t, k - 1, 256);
    }
}

/// The bucket that holds slot `k`, searching down from bucket `c`.
proof fn lemma_slot_bucket_from(t: Seq<u8>, k: int, c: int) -> (r: int)
    requires
        0 <= c < 256,
        0 <= k < bend(t, c),
    ensures
        0 <= r <= c,
        bstart(t, r) <= k < bend(t, r),
    decreases c,
{
    if bstart(t, c) <= k {
        c
    } else {
        crate::bwt_laws::lemma_cnt_less_zero(t, t.len() as int);
        lemma_slot_bucket_from(t, k, c - 1)
    }
}

/// Every slot lies in a bucket.
proof fn lemma_slot_bucket(t: Seq<u8>, k: int) -> (c: int)
    requires
        0 <= k < t.len(),
    ensures
        0 <= c < 256,
        bstart(t, c) <= k < bend(t, c),
{
    lemma_all_below_256(t, t.len() as int);
    lemma_slot_bucket_from(t, k, 255)
}

/// A bucket holds its L-type positions, then its S-type positions (the
/// sentinel, alone in bucket 0, among them).
proof fn lemma_bucket_split(t: Seq<u8>, ty: Seq<bool>, c: int)
    requires
        well_typed(t, ty),
        0 <= c < 256,
    ensures
        s_region_start(t, ty, c) + s_count(t, ty, c) == bend(t, c),
        c == 0 ==> l_count(t, ty, c) == 0,
{
    let n = t.len() as int;
    lemma_bucket_bounds(t, c);
    let all_s = |q: int| ty[q] && t[q] == c;
    let last = |q: int| ty[q] && t[q] == c && q == n - 1;
    lemma_count_split(n, byte_eq(t, c as u8), l_with_byte(t, ty, c), all_s);
    lemma_count_split(n, all_s, s_with_byte(t, ty, c), last);
    assert(ty[n - 1] == s_type(t, n - 1));
    if c == 0 {
        lemma_count_ext(n, last, |q: int| q == n - 1);
        lemma_count_single(n, n - 1);
        assert forall|q: int| 0 <= q < n implies #[trigger] l_with_byte(t, ty, c)(q) == false by {
            if t[q] == 0 {
                assert(q == n - 1);
            }
        }
        lemma_count_ext(n, l_with_byte(t, ty, c), |q: int| false);
        lemma_count_none(n);
    } else {
        lemma_count_ext(n, last, |q: int| false);
        lemma_count_none(n);
    }
}

/// A predicate that implies another and counts as many is equivalent to it.
proof fn lemma_count_full(n: int, p: spec_fn(int) -> bool, q: spec_fn(int) -> bool)
    requires
        forall|j: int| 0 <= j < n && #[trigger] p(j) ==> q(j),
        count_in(n, p) == count_in(n, q),
    ensures
        forall|j: int| 0 <= j < n && #[trigger] q(j) ==> p(j),
    decreases n,
{
    if n > 0 {
        lemma_count_mono(n - 1, p, q);
        lemma_count_full(n - 1, p, q);
    }
}

/// Slot `k` holds a suffix that the S-type scan treats as placed: an L-type
/// suffix or the sentinel in the front of its bucket, or an S-type suffix in
/// the part of its bucket the scan has filled (from tail `h[c]` on).
pub open spec fn s_live(t: Seq<u8>, ty: Seq<bool>, sa: Seq<usize>, h: Seq<int>, k: int) -> bool {
    &&& sa[k] != usize::MAX
    &&& (k < s_region_start(t, ty, t[sa[k] as int] as int) || h[t[sa[k] as int] as int] <= k)
}

/// Position `q` has been written into the filled part of its bucket.
pub open spec fn s_written(t: Seq<u8>, sa: Seq<usize>, h: Seq<int>, q: int) -> bool {
    exists|k: int| h[t[q] as int] <= k < bend(t, t[q] as int) && #[trigger] sa[k] == q as usize
}

/// The S-type positions of byte `c` written so far.
pub open spec fn written_s(t: Seq<u8>, ty: Seq<bool>, sa: Seq<usize>, h: Seq<int>, c: int) -> spec_fn(
    int,
) -> bool {
    |q: int| s_with_byte(t, ty, c)(q) && s_written(t, sa, h, q)
}

/// The state of the S-type scan from `sa1` once the slots from `i` on are
/// scanned, with bucket tails `h`: each bucket ends with the S-type suffixes
/// written so far (as many as its tail has moved), its other slots are as
/// in `sa1`, and a bucket still has unwritten S-type suffixes only when its
/// tail is below the cursor; the placed suffixes are in increasing order;
/// every scanned suffix with an S-type predecessor has had it written, and
/// every written suffix was induced from a scanned one.
pub open spec fn s_scan_inv(
    t: Seq<u8>,
    ty: Seq<bool>,
    sa1: Seq<usize>,
    sa: Seq<usize>,
    h: Seq<int>,
    i: int,
) -> bool {
    let n = t.len() as int;
    &&& s_ready(t, ty, sa1)
    &&& 0 <= i <= n
    &&& sa.len() == n
    &&& h.len() == 256
    &&& in_own_bucket(t, sa)
    &&& forall|c: int|
        0 <= c < 256 ==> s_region_start(t, ty, c) <= #[trigger] h[c] <= bend(t, c) && bend(t, c)
            - h[c] == count_in(n, written_s(t, ty, sa, h, c)) && (h[c] == s_region_start(t, ty, c)
            || h[c] <= i)
    &&& forall|c: int, k: int|
        0 <= c < 256 && #[trigger] h[c] <= k < bend(t, c) ==> #[trigger] sa[k] != usize::MAX
            && s_with_byte(t, ty, c)(sa[k] as int)
    &&& forall|c: int, k: int|
        0 <= c < 256 && bstart(t, c) <= k < #[trigger] h[c] ==> #[trigger] sa[k] == sa1[k]
    &&& forall|k1: int, k2: int|
        0 <= k1 < k2 < n && #[trigger] s_live(t, ty, sa, h, k1) && #[trigger] s_live(
            t,
            ty,
            sa,
            h,
            k2,
        ) ==> lex_lt(suffix(t, sa[k1] as int), suffix(t, sa[k2] as int))
    &&& forall|k: int|
        i <= k < n && #[trigger] s_live(t, ty, sa, h, k) && sa[k] > 0 && ty[sa[k] - 1] ==> s_written(
            t,
            sa,
            h,
            sa[k] - 1,
        )
    &&& forall|c: int, k: int|
        #![trigger h[c], sa[k]]
        0 <= c < 256 && h[c] <= k < bend(t, c) ==> exists|k2: int|
            #![trigger sa[k2]]
            i <= k2 < n && s_live(t, ty, sa, h, k2) && sa[k2] == sa[k] + 1
}

/// The scan starts in its invariant.
proof fn lemma_s_start(t: Seq<u8>, ty: Seq<bool>, sa1: Seq<usize>)
    requires
        s_ready(t, ty, sa1),
    ensures
        s_scan_inv(t, ty, sa1, sa1, crate::suffix_array::bucket_tails(t), t.len() as int),
{
    let n = t.len() as int;
    let h = crate::suffix_array::bucket_tails(t);
    assert forall|c: int| 0 <= c < 256 implies s_region_start(t, ty, c) <= #[trigger] h[c] <= bend(
        t,
        c,
    ) && bend(t, c) - h[c] == count_in(n, written_s(t, ty, sa1, h, c)) && (h[c] == s_region_start(
        t,
        ty,
        c,
    ) || h[c] <= n) by {
        lemma_bucket_split(t, ty, c);
        lemma_bucket_bounds(t, c);
        lemma_count_ext(n, written_s(t, ty, sa1, h, c), |q: int| false);
        lemma_count_none(n);
    }
    assert forall|k1: int, k2: int|
        0 <= k1 < k2 < n && #[trigger] s_live(t, ty, sa1, h, k1) && #[trigger] s_live(
            t,
            ty,
            sa1,
            h,
            k2,
        ) implies lex_lt(suffix(t, sa1[k1] as int), suffix(t, sa1[k2] as int)) by {
        assert(sa1[k1] != usize::MAX && sa1[k2] != usize::MAX);
    }
}

/// With the buckets above `c` complete and the tail of bucket `c` past the
/// slot `i` about to be scanned, every S-type position of byte `c` is
/// written: its successor, larger, is placed in a scanned slot.
proof fn lemma_s_chain(
    t: Seq<u8>,
    ty: Seq<bool>,
    sa1: Seq<usize>,
    sa: Seq<usize>,
    h: Seq<int>,
    i: int,
    c: int,
    q: int,
)
    requires
        s_scan_inv(t, ty, sa1, sa, h, i + 1),
        0 <= i < t.len(),
        0 <= c < 256,
        h[c] > i,
        forall|c2: int, j: int|
            c < c2 < 256 && 0 <= j < t.len() && #[trigger] s_with_byte(t, ty, c2)(j) ==> s_written(
                t,
                sa,
                h,
                j,
            ),
        0 <= q < t.len(),
        s_with_byte(t, ty, c)(q),
    ensures
        s_written(t, sa, h, q),
    decreases t.len() - q,
{
    let n = t.len() as int;
    assert(ty[q] == s_type(t, q));
    assert(q < n - 1);
    let p = q + 1;
    assert(ty[p] == s_type(t, p));
    lemma_bucket_bounds(t, c);
    if t[p] as int > c {
        let c2 = t[p] as int;
        lemma_bucket_order(t, c, c2);
        lemma_bucket_bounds(t, c2);
        if !ty[p] {
            let k = choose|k: int| 0 <= k < sa1.len() && sa1[k] == p as usize;
            assert(sa1[k] != usize::MAX);
            assert(k < bstart(t, c2) + l_count(t, ty, c2));
            assert(h[c2] >= s_region_start(t, ty, c2));
            assert(sa[k] == sa1[k]);
            assert(s_live(t, ty, sa, h, k));
            assert(s_written(t, sa, h, sa[k] - 1));
        } else {
            assert(t[n - 1] == 0);
            assert(s_with_byte(t, ty, c2)(p));
            assert(s_written(t, sa, h, p));
            let k = choose|k: int| h[t[p] as int] <= k < bend(t, t[p] as int) && #[trigger] sa[k] == p as usize;
            assert(s_live(t, ty, sa, h, k));
            assert(s_written(t, sa, h, sa[k] - 1));
        }
    } else {
        assert(t[p] as int == c);
        assert(c != 0);
        assert(s_with_byte(t, ty, c)(p));
        lemma_s_chain(t, ty, sa1, sa, h, i, c, p);
        let k = choose|k: int| h[t[p] as int] <= k < bend(t, t[p] as int) && #[trigger] sa[k] == p as usize;
        assert(s_live(t, ty, sa, h, k));
        assert(s_written(t, sa, h, sa[k] - 1));
    }
}

/// Before slot `i` is scanned, every bucket is complete or has its tail at
/// or below `i`.
proof fn lemma_s_no_stale(
    t: Seq<u8>,
    ty: Seq<bool>,
    sa1: Seq<usize>,
    sa: Seq<usize>,
    h: Seq<int>,
    i: int,
)
    requires
        s_scan_inv(t, ty, sa1, sa, h, i + 1),
        0 <= i < t.len(),
    ensures
        forall|c: int| 0 <= c < 256 ==> #[trigger] h[c] == s_region_start(t, ty, c) || h[c] <= i,
{
    let n = t.len() as int;
    assert forall|c: int| 0 <= c < 256 implies #[trigger] h[c] == s_region_start(t, ty, c) || h[c]
        <= i by {
        if h[c] != s_region_start(t, ty, c) && h[c] > i {
            lemma_bucket_bounds(t, c);
            assert forall|c2: int, j: int|
                c < c2 < 256 && 0 <= j < n && #[trigger] s_with_byte(t, ty, c2)(j) implies s_written(
                t,
                sa,
                h,
                j,
            ) by {
                lemma_bucket_order(t, c, c2);
                lemma_bucket_bounds(t, c2);
                lemma_bucket_split(t, ty, c2);
                assert(h[c2] == s_region_start(t, ty, c2));
                lemma_count_full(n, written_s(t, ty, sa, h, c2), s_with_byte(t, ty, c2));
                assert(written_s(t, ty, sa, h, c2)(j));
            }
            lemma_bucket_split(t, ty, c);
            if forall|j: int| 0 <= j < n && #[trigger] s_with_byte(t, ty, c)(j) ==> s_written(t, sa, h, j) {
                lemma_count_mono(n, s_with_byte(t, ty, c), written_s(t, ty, sa, h, c));
                assert(false);
            }
            let q = choose|j: int| 0 <= j < n && #[trigger] s_with_byte(t, ty, c)(j) && !s_written(t, sa, h, j);
            lemma_s_chain(t, ty, sa1, sa, h, i, c, q);
        }
    }
}

/// The slot about to be scanned holds a placed suffix.
proof fn lemma_s_slot_live(
    t: Seq<u8>,
    ty: Seq<bool>,
    sa1: Seq<usize>,
    sa: Seq<usize>,
    h: Seq<int>,
    i: int,
)
    requires
        s_scan_inv(t, ty, sa1, sa, h, i + 1),
        0 <= i < t.len(),
    ensures
        s_live(t, ty, sa, h, i),
        sa[i] < t.len(),
{
    let n = t.len() as int;
    lemma_s_no_stale(t, ty, sa1, sa, h, i);
    let c = lemma_slot_bucket(t, i);
    lemma_bucket_split(t, ty, c);
    if h[c] <= i {
        assert(sa[i] != usize::MAX);
        assert(s_with_byte(t, ty, c)(sa[i] as int));
    } else {
        assert(h[c] == s_region_start(t, ty, c));
        assert(sa[i] == sa1[i]);
        if i < bstart(t, c) + l_count(t, ty, c) {
            assert(sa1[i] != usize::MAX);
            let c2 = t[sa1[i] as int] as int;
            lemma_same_bucket(t, c, c2, i);
        } else {
            assert(c == 0);
            crate::bwt_laws::lemma_cnt_less_zero(t, n);
            assert(i == 0);
            assert(t[n - 1] == 0);
        }
    }
}

/// At a slot whose suffix has an S-type predecessor `j`: `j` is not written
/// yet, and its bucket has room below its tail, below the cursor.
proof fn lemma_s_step_room(
    t: Seq<u8>,
    ty: Seq<bool>,
    sa1: Seq<usize>,
    sa: Seq<usize>,
    h: Seq<int>,
    i: int,
)
    requires
        s_scan_inv(t, ty, sa1, sa, h, i + 1),
        0 <= i < t.len(),
        sa[i] != usize::MAX,
        sa[i] > 0,
        ty[sa[i] - 1],
    ensures
        sa[i] < t.len(),
        t[sa[i] - 1] != 0,
        s_with_byte(t, ty, t[sa[i] - 1] as int)(sa[i] - 1),
        !s_written(t, sa, h, sa[i] - 1),
        s_region_start(t, ty, t[sa[i] - 1] as int) < h[t[sa[i] - 1] as int] <= i,
{
    let n = t.len() as int;
    lemma_s_slot_live(t, ty, sa1, sa, h, i);
    lemma_s_no_stale(t, ty, sa1, sa, h, i);
    let p = sa[i] as int;
    let j = p - 1;
    let c = t[j] as int;
    assert(t[j] != 0);
    assert(s_with_byte(t, ty, c)(j));
    if s_written(t, sa, h, j) {
        let k = choose|k: int| h[t[j] as int] <= k < bend(t, t[j] as int) && #[trigger] sa[k] == j as usize;
        let k2 = choose|k2: int| #![trigger sa[k2]] i + 1 <= k2 < n && s_live(t, ty, sa, h, k2) && sa[k2] == sa[k] + 1;
        assert(sa[k2] == sa[i]);
        crate::bwt_laws::lemma_lex_irreflexive(suffix(t, p));
        assert(false);
    }
    let sc = s_with_byte(t, ty, c);
    let scj = |q: int| ty[q] && t[q] == c && q != n - 1 && q != j;
    let w = written_s(t, ty, sa, h, c);
    assert forall|q: int| 0 <= q < n && #[trigger] w(q) implies scj(q) by {
        if q == j {
            assert(s_written(t, sa, h, j));
        }
    }
    lemma_count_mono(n, w, scj);
    lemma_count_split(n, sc, scj, |q: int| q == j);
    lemma_count_single(n, j);
    lemma_bucket_split(t, ty, c);
    assert(h[c] > s_region_start(t, ty, c));
}

/// The suffix induced at a slot fits the order of the placed suffixes
/// around the slot below the tail of its bucket.
proof fn lemma_s_step_order(
    t: Seq<u8>,
    ty: Seq<bool>,
    sa1: Seq<usize>,
    sa: Seq<usize>,
    h: Seq<int>,
    i: int,
)
    requires
        s_scan_inv(t, ty, sa1, sa, h, i + 1),
        0 <= i < t.len(),
        sa[i] != usize::MAX,
        sa[i] > 0,
        ty[sa[i] - 1],
    ensures
        forall|k: int|
            0 <= k < h[t[sa[i] - 1] as int] - 1 && #[trigger] s_live(t, ty, sa, h, k) ==> lex_lt(
                suffix(t, sa[k] as int),
                suffix(t, sa[i] - 1),
            ),
        forall|k: int|
            h[t[sa[i] - 1] as int] - 1 < k < t.len() && #[trigger] s_live(t, ty, sa, h, k) ==> lex_lt(
                suffix(t, sa[i] - 1),
                suffix(t, sa[k] as int),
            ),
        !s_live(t, ty, sa, h, h[t[sa[i] - 1] as int] - 1),
{
    let n = t.len() as int;
    lemma_s_slot_live(t, ty, sa1, sa, h, i);
    lemma_s_step_room(t, ty, sa1, sa, h, i);
    let p = sa[i] as int;
    let j = p - 1;
    let c = t[j] as int;
    let s = h[c] - 1;
    lemma_bucket_bounds(t, c);
    lemma_bucket_split(t, ty, c);
    assert(ty[j] == s_type(t, j));
    assert forall|k: int| 0 <= k < s && #[trigger] s_live(t, ty, sa, h, k) implies lex_lt(
        suffix(t, sa[k] as int),
        suffix(t, j),
    ) by {
        let q = sa[k] as int;
        let cq = t[q] as int;
        if cq < c {
            lemma_first_byte_order(t, q, j);
        } else if cq > c {
            lemma_bucket_order(t, c, cq);
        } else {
            assert(k < s_region_start(t, ty, c));
            assert(sa[k] == sa1[k]);
            assert(!ty[q]);
            assert(ty[q] == s_type(t, q));
            lemma_l_before_s(t, q, j);
        }
    }
    assert forall|k: int| s < k < n && #[trigger] s_live(t, ty, sa, h, k) implies lex_lt(
        suffix(t, j),
        suffix(t, sa[k] as int),
    ) by {
        let q = sa[k] as int;
        let cq = t[q] as int;
        if cq > c {
            lemma_first_byte_order(t, j, q);
        } else if cq < c {
            lemma_bucket_order(t, cq, c);
        } else {
            assert(h[c] <= k);
            let k2 = choose|k2: int| #![trigger sa[k2]] i + 1 <= k2 < n && s_live(t, ty, sa, h, k2) && sa[k2] == sa[k] + 1;
            assert(lex_lt(suffix(t, sa[i] as int), suffix(t, sa[k2] as int)));
            lemma_same_first_byte(t, j, q);
        }
    }
    if sa[s] != usize::MAX {
        let c2 = t[sa[s] as int] as int;
        lemma_same_bucket(t, c, c2, s);
    }
}

/// The array after slot `i` induces its S-type predecessor below the tail
/// of its bucket.
pub open spec fn s_placed_sa(t: Seq<u8>, sa: Seq<usize>, h: Seq<int>, i: int) -> Seq<usize> {
    sa.update(h[t[sa[i] - 1] as int] - 1, (sa[i] - 1) as usize)
}

/// The bucket tails after slot `i` induces its S-type predecessor.
pub open spec fn s_placed_h(t: Seq<u8>, sa: Seq<usize>, h: Seq<int>, i: int) -> Seq<int> {
    h.update(t[sa[i] - 1] as int, h[t[sa[i] - 1] as int] - 1)
}

/// Writing the predecessor below the tail changes what is placed and what
/// is written by exactly that slot and that position.
proof fn lemma_s_place_basic(
    t: Seq<u8>,
    ty: Seq<bool>,
    sa1: Seq<usize>,
    sa: Seq<usize>,
    h: Seq<int>,
    i: int,
)
    requires
        s_scan_inv(t, ty, sa1, sa, h, i + 1),
        0 <= i < t.len(),
        sa[i] != usize::MAX,
        sa[i] > 0,
        ty[sa[i] - 1],
    ensures
        ({
            let sa2 = s_placed_sa(t, sa, h, i);
            let h2 = s_placed_h(t, sa, h, i);
            let s = h[t[sa[i] - 1] as int] - 1;
            &&& sa2.len() == t.len()
            &&& h2.len() == 256
            &&& in_own_bucket(t, sa2)
            &&& s_live(t, ty, sa2, h2, s)
            &&& forall|k: int|
                0 <= k < t.len() && k != s ==> #[trigger] s_live(t, ty, sa2, h2, k) == s_live(
                    t,
                    ty,
                    sa,
                    h,
                    k,
                )
            &&& forall|q: int|
                0 <= q < t.len() ==> #[trigger] s_written(t, sa2, h2, q) == (s_written(t, sa, h, q)
                    || q == sa[i] - 1)
        }),
{
    let n = t.len() as int;
    lemma_s_step_room(t, ty, sa1, sa, h, i);
    let p = sa[i] as int;
    let j = p - 1;
    let c = t[j] as int;
    let s = h[c] - 1;
    let sa2 = s_placed_sa(t, sa, h, i);
    let h2 = s_placed_h(t, sa, h, i);
    lemma_bucket_bounds(t, c);
    lemma_bucket_split(t, ty, c);
    assert forall|k: int| 0 <= k < sa2.len() && #[trigger] sa2[k] != usize::MAX implies sa2[k] < t.len()
        && bstart(t, t[sa2[k] as int] as int) <= k < bend(t, t[sa2[k] as int] as int) by {
        if k != s {
            assert(sa[k] != usize::MAX);
        }
    }
    assert(sa2[s] == j as usize);
    assert forall|k: int| 0 <= k < n && k != s implies #[trigger] s_live(t, ty, sa2, h2, k) == s_live(
        t,
        ty,
        sa,
        h,
        k,
    ) by {
        assert(sa2[k] == sa[k]);
        if sa[k] != usize::MAX && t[sa[k] as int] as int == c {
            assert(h2[c] == s);
        }
    }
    assert forall|q: int| 0 <= q < n implies #[trigger] s_written(t, sa2, h2, q) == (s_written(
        t,
        sa,
        h,
        q,
    ) || q == j) by {
        let cq = t[q] as int;
        lemma_bucket_bounds(t, cq);
        if q == j {
            assert(sa2[s] == q as usize);
        }
        if s_written(t, sa, h, q) {
            let k = choose|k: int| h[t[q] as int] <= k < bend(t, t[q] as int) && #[trigger] sa[k] == q as usize;
            if cq == c {
                assert(k != s);
            } else {
                if k == s {
                    lemma_same_bucket(t, c, cq, k);
                }
            }
            assert(sa2[k] == q as usize);
        }
        if s_written(t, sa2, h2, q) && q != j {
            let k = choose|k: int| h2[t[q] as int] <= k < bend(t, t[q] as int) && #[trigger] sa2[k] == q as usize;
            assert(k != s);
            assert(sa[k] == q as usize);
            if cq != c {
                assert(h2[cq] == h[cq]);
            }
        }
    }
}

/// Writing the predecessor moves one tail down by one and keeps the layout
/// of the buckets.
#[verifier::rlimit(30)]
proof fn lemma_s_place_heads(
    t: Seq<u8>,
    ty: Seq<bool>,
    sa1: Seq<usize>,
    sa: Seq<usize>,
    h: Seq<int>,
    i: int,
)
    requires
        s_scan_inv(t, ty, sa1, sa, h, i + 1),
        0 <= i < t.len(),
        sa[i] != usize::MAX,
        sa[i] > 0,
        ty[sa[i] - 1],
    ensures
        ({
            let sa2 = s_placed_sa(t, sa, h, i);
            let h2 = s_placed_h(t, sa, h, i);
            let n = t.len() as int;
            &&& forall|c: int|
                0 <= c < 256 ==> s_region_start(t, ty, c) <= #[trigger] h2[c] <= bend(t, c) && bend(
                    t,
                    c,
                ) - h2[c] == count_in(n, written_s(t, ty, sa2, h2, c)) && (h2[c] == s_region_start(
                    t,
                    ty,
                    c,
                ) || h2[c] <= i)
            &&& forall|c: int, k: int|
                0 <= c < 256 && #[trigger] h2[c] <= k < bend(t, c) ==> #[trigger] sa2[k] != usize::MAX
                    && s_with_byte(t, ty, c)(sa2[k] as int)
            &&& forall|c: int, k: int|
                0 <= c < 256 && bstart(t, c) <= k < #[trigger] h2[c] ==> #[trigger] sa2[k] == sa1[k]
        }),
{
    let n = t.len() as int;
    lemma_s_step_room(t, ty, sa1, sa, h, i);
    lemma_s_place_basic(t, ty, sa1, sa, h, i);
    lemma_s_no_stale(t, ty, sa1, sa, h, i);
    let p = sa[i] as int;
    let j = p - 1;
    let c = t[j] as int;
    let s = h[c] - 1;
    let sa2 = s_placed_sa(t, sa, h, i);
    let h2 = s_placed_h(t, sa, h, i);
    lemma_bucket_bounds(t, c);
    assert forall|c2: int|
        0 <= c2 < 256 implies s_region_start(t, ty, c2) <= #[trigger] h2[c2] <= bend(t, c2) && bend(
        t,
        c2,
    ) - h2[c2] == count_in(n, written_s(t, ty, sa2, h2, c2)) && (h2[c2] == s_region_start(t, ty, c2)
        || h2[c2] <= i) by {
        if c2 == c {
            assert forall|q: int| 0 <= q < n implies #[trigger] written_s(t, ty, sa2, h2, c)(q) <==> (
            written_s(t, ty, sa, h, c)(q) || q == j) by {
                assert(s_written(t, sa2, h2, q) == (s_written(t, sa, h, q) || q == j));
            }
            lemma_count_split(n, written_s(t, ty, sa2, h2, c), written_s(t, ty, sa, h, c), |q: int| q == j);
            lemma_count_single(n, j);
        } else {
            assert forall|q: int| 0 <= q < n implies #[trigger] written_s(t, ty, sa2, h2, c2)(q)
                == written_s(t, ty, sa, h, c2)(q) by {
                assert(s_written(t, sa2, h2, q) == (s_written(t, sa, h, q) || q == j));
            }
            lemma_count_ext(n, written_s(t, ty, sa2, h2, c2), written_s(t, ty, sa, h, c2));
        }
    }
    assert forall|c2: int, k: int|
        0 <= c2 < 256 && #[trigger] h2[c2] <= k < bend(t, c2) implies #[trigger] sa2[k] != usize::MAX
        && s_with_byte(t, ty, c2)(sa2[k] as int) by {
        lemma_bucket_bounds(t, c2);
        if k != s {
            if c2 == c {
                assert(h[c] <= k);
            } else {
                assert(h2[c2] == h[c2]);
            }
            assert(sa2[k] == sa[k]);
        } else {
            lemma_same_bucket(t, c, c2, k);
        }
    }
    assert forall|c2: int, k: int|
        0 <= c2 < 256 && bstart(t, c2) <= k < #[trigger] h2[c2] implies #[trigger] sa2[k] == sa1[k] by {
        lemma_bucket_bounds(t, c2);
        if c2 != c {
            assert(h2[c2] == h[c2]);
            if k == s {
                lemma_same_bucket(t, c, c2, k);
            }
        }
        assert(sa[k] == sa1[k]);
    }
}

/// Writing the predecessor keeps the placed suffixes in order.
proof fn lemma_s_place_sorted(
    t: Seq<u8>,
    ty: Seq<bool>,
    sa1: Seq<usize>,
    sa: Seq<usize>,
    h: Seq<int>,
    i: int,
)
    requires
        s_scan_inv(t, ty, sa1, sa, h, i + 1),
        0 <= i < t.len(),
        sa[i] != usize::MAX,
        sa[i] > 0,
        ty[sa[i] - 1],
    ensures
        forall|k1: int, k2: int|
            0 <= k1 < k2 < t.len() && #[trigger] s_live(
                t,
                ty,
                s_placed_sa(t, sa, h, i),
                s_placed_h(t, sa, h, i),
                k1,
            ) && #[trigger] s_live(t, ty, s_placed_sa(t, sa, h, i), s_placed_h(t, sa, h, i), k2)
                ==> lex_lt(
                suffix(t, s_placed_sa(t, sa, h, i)[k1] as int),
                suffix(t, s_placed_sa(t, sa, h, i)[k2] as int),
            ),
{
    let n = t.len() as int;
    lemma_s_step_room(t, ty, sa1, sa, h, i);
    lemma_s_step_order(t, ty, sa1, sa, h, i);
    lemma_s_place_basic(t, ty, sa1, sa, h, i);
    let j = sa[i] - 1;
    let c = t[j] as int;
    let s = h[c] - 1;
    lemma_bucket_bounds(t, c);
    lemma_bucket_split(t, ty, c);
    let sa2 = s_placed_sa(t, sa, h, i);
    let h2 = s_placed_h(t, sa, h, i);
    assert forall|k1: int, k2: int|
        0 <= k1 < k2 < n && #[trigger] s_live(t, ty, sa2, h2, k1) && #[trigger] s_live(
            t,
            ty,
            sa2,
            h2,
            k2,
        ) implies lex_lt(suffix(t, sa2[k1] as int), suffix(t, sa2[k2] as int)) by {
        assert(sa2[s] as int == j);
        if k1 == s {
            assert(s_live(t, ty, sa, h, k2));
            assert(sa2[k2] == sa[k2]);
        } else if k2 == s {
            assert(s_live(t, ty, sa, h, k1));
            assert(sa2[k1] == sa[k1]);
        } else {
            assert(s_live(t, ty, sa, h, k1) && s_live(t, ty, sa, h, k2));
            assert(sa2[k1] == sa[k1] && sa2[k2] == sa[k2]);
        }
    }
}

/// Writing the predecessor keeps the record of what was induced from where.
proof fn lemma_s_place_records(
    t: Seq<u8>,
    ty: Seq<bool>,
    sa1: Seq<usize>,
    sa: Seq<usize>,
    h: Seq<int>,
    i: int,
)
    requires
        s_scan_inv(t, ty, sa1, sa, h, i + 1),
        0 <= i < t.len(),
        sa[i] != usize::MAX,
        sa[i] > 0,
        ty[sa[i] - 1],
    ensures
        ({
            let sa2 = s_placed_sa(t, sa, h, i);
            let h2 = s_placed_h(t, sa, h, i);
            let n = t.len() as int;
            &&& forall|k: int|
                i <= k < n && #[trigger] s_live(t, ty, sa2, h2, k) && sa2[k] > 0 && ty[sa2[k] - 1]
                    ==> s_written(t, sa2, h2, sa2[k] - 1)
            &&& forall|c: int, k: int|
                #![trigger h2[c], sa2[k]]
                0 <= c < 256 && h2[c] <= k < bend(t, c) ==> exists|k2: int|
                    #![trigger sa2[k2]]
                    i <= k2 < n && s_live(t, ty, sa2, h2, k2) && sa2[k2] == sa2[k] + 1
        }),
{
    let n = t.len() as int;
    lemma_s_slot_live(t, ty, sa1, sa, h, i);
    lemma_s_step_room(t, ty, sa1, sa, h, i);
    lemma_s_place_basic(t, ty, sa1, sa, h, i);
    let j = sa[i] - 1;
    let c = t[j] as int;
    let s = h[c] - 1;
    let sa2 = s_placed_sa(t, sa, h, i);
    let h2 = s_placed_h(t, sa, h, i);
    assert forall|k: int|
        i <= k < n && #[trigger] s_live(t, ty, sa2, h2, k) && sa2[k] > 0 && ty[sa2[k] - 1]
            implies s_written(t, sa2, h2, sa2[k] - 1) by {
        assert(k != s);
        assert(s_live(t, ty, sa, h, k));
        if k > i {
            assert(s_written(t, sa, h, sa[k] - 1));
        }
    }
    assert forall|c2: int, k: int|
        #![trigger h2[c2], sa2[k]]
        0 <= c2 < 256 && h2[c2] <= k < bend(t, c2) implies exists|k2: int|
        #![trigger sa2[k2]]
        i <= k2 < n && s_live(t, ty, sa2, h2, k2) && sa2[k2] == sa2[k] + 1 by {
        if k == s {
            assert(sa2[i] == sa2[k] + 1);
            assert(s_live(t, ty, sa2, h2, i));
        } else {
            lemma_bucket_bounds(t, c2);
            if c2 == c {
                assert(h[c] <= k);
            } else {
                assert(h2[c2] == h[c2]);
            }
            let k2 = choose|k2: int| #![trigger sa[k2]] i + 1 <= k2 < n && s_live(t, ty, sa, h, k2) && sa[k2] == sa[k] + 1;
            assert(k2 != s);
            assert(sa2[k2] == sa2[k] + 1);
            assert(s_live(t, ty, sa2, h2, k2));
        }
    }
}

/// One step of the S-type scan keeps its invariant.
#[verifier::rlimit(40)]
proof fn lemma_s_scan_step(
    t: Seq<u8>,
    ty: Seq<bool>,
    sa1: Seq<usize>,
    sa: Seq<usize>,
    h: Seq<int>,
    i: int,
)
    requires
        s_scan_inv(t, ty, sa1, sa, h, i + 1),
        0 <= i < t.len(),
    ensures
        s_scan_inv(
            t,
            ty,
            sa1,
            crate::suffix_array::induce_s_step(t, ty, (sa, h), i).0,
            crate::suffix_array::induce_s_step(t, ty, (sa, h), i).1,
            i,
        ),
{
    let n = t.len() as int;
    lemma_s_slot_live(t, ty, sa1, sa, h, i);
    lemma_s_no_stale(t, ty, sa1, sa, h, i);
    let p = sa[i];
    if p != usize::MAX && p != 0 && ty[p - 1] {
        lemma_s_step_room(t, ty, sa1, sa, h, i);
        lemma_s_place_basic(t, ty, sa1, sa, h, i);
        lemma_s_place_heads(t, ty, sa1, sa, h, i);
        lemma_s_place_sorted(t, ty, sa1, sa, h, i);
        lemma_s_place_records(t, ty, sa1, sa, h, i);
        let sa2 = s_placed_sa(t, sa, h, i);
        let h2 = s_placed_h(t, sa, h, i);
        assert(crate::suffix_array::induce_s_step(t, ty, (sa, h), i) == (sa2, h2));
    } else {
        assert(crate::suffix_array::induce_s_step(t, ty, (sa, h), i) == (sa, h));
        assert forall|c2: int, k: int|
            #![trigger h[c2], sa[k]]
            0 <= c2 < 256 && h[c2] <= k < bend(t, c2) implies exists|k2: int|
            #![trigger sa[k2]]
            i <= k2 < n && s_live(t, ty, sa, h, k2) && sa[k2] == sa[k] + 1 by {
            let k2 = choose|k2: int| #![trigger sa[k2]] i + 1 <= k2 < n && s_live(t, ty, sa, h, k2) && sa[k2] == sa[k] + 1;
        }
    }
}

/// The S-type scan keeps its invariant over its last `k` slots.
proof fn lemma_s_scan_inv(t: Seq<u8>, ty: Seq<bool>, sa1: Seq<usize>, k: nat)
    requires
        s_ready(t, ty, sa1),
        k <= t.len(),
    ensures
        s_scan_inv(
            t,
            ty,
            sa1,
            crate::suffix_array::induce_s_scan(t, ty, sa1, k).0,
            crate::suffix_array::induce_s_scan(t, ty, sa1, k).1,
            t.len() - k,
        ),
    decreases k,
{
    if k == 0 {
        lemma_s_start(t, ty, sa1);
    } else {
        lemma_s_scan_inv(t, ty, sa1, (k - 1) as nat);
        let st = crate::suffix_array::induce_s_scan(t, ty, sa1, (k - 1) as nat);
        lemma_s_scan_step(t, ty, sa1, st.0, st.1, t.len() - k);
    }
}

/// From the L-type suffixes at the fronts of their buckets and the sentinel
/// in slot 0, the S-type scan gives the suffix array.
pub proof fn lemma_induce_s_sorts(t: Seq<u8>, ty: Seq<bool>, sa1: Seq<usize>)
    requires
        s_ready(t, ty, sa1),
    ensures
        crate::bwt_laws::is_sorted_suffix_array(
            t,
            crate::suffix_array::induce_s_scan(t, ty, sa1, t.len() as nat).0,
        ),
{
    let n = t.len() as int;
    lemma_s_scan_inv(t, ty, sa1, t.len() as nat);
    let st = crate::suffix_array::induce_s_scan(t, ty, sa1, t.len() as nat);
    let sa = st.0;
    let h = st.1;
    assert forall|k: int| 0 <= k < n implies #[trigger] s_live(t, ty, sa, h, k) by {
        let c = lemma_slot_bucket(t, k);
        lemma_bucket_split(t, ty, c);
        lemma_bucket_bounds(t, c);
        assert(h[c] == s_region_start(t, ty, c) || h[c] <= 0);
        if k < s_region_start(t, ty, c) {
            assert(sa[k] == sa1[k]);
            if k < bstart(t, c) + l_count(t, ty, c) {
                assert(sa1[k] != usize::MAX);
                let c2 = t[sa1[k] as int] as int;
                lemma_same_bucket(t, c, c2, k);
            } else {
                crate::bwt_laws::lemma_cnt_less_zero(t, n);
                assert(k == 0);
                assert(t[n - 1] == 0);
            }
        } else {
            assert(sa[k] != usize::MAX);
            assert(s_with_byte(t, ty, c)(sa[k] as int));
        }
    }
    assert forall|k1: int, k2: int| 0 <= k1 < k2 < sa.len() implies lex_lt(
        suffix(t, #[trigger] sa[k1] as int),
        suffix(t, #[trigger] sa[k2] as int),
    ) by {
        assert(s_live(t, ty, sa, h, k1) && s_live(t, ty, sa, h, k2));
    }
    assert forall|k: int| 0 <= k < sa.len() implies #[trigger] sa[k] < t.len() by {
        assert(s_live(t, ty, sa, h, k));
    }
}

/// The L-type scan from the LMS layout leaves the array ready for the
/// S-type scan.
pub proof fn lemma_l_induced_ready(t: Seq<u8>, ty: Seq<bool>, sa0: Seq<usize>, sa: Seq<usize>)
    requires
        lms_at_tails(t, ty, sa0),
        l_induced(t, ty, sa0, sa),
        t.len() >= 2,
    ensures
        s_ready(t, ty, sa),
{
    let n = t.len() as int;
    assert(ty[n - 1] == s_type(t, n - 1));
    assert(ty[n - 2] == s_type(t, n - 2));
    assert(lms_at(ty, n - 1));
    let k = choose|k: int| 0 <= k < sa0.len() && sa0[k] == (n - 1) as usize;
    assert(sa0[k] != usize::MAX);
    lemma_cnt_less_next(t, n, 0);
    crate::bwt_laws::lemma_cnt_less_zero(t, n);
    lemma_count_ext(n, byte_eq(t, 0u8), |q: int| q == n - 1);
    lemma_count_single(n, n - 1);
    assert(bend(t, 0) == 1);
    assert(k == 0);
}

/// Induced sorting: from the left-most S-type suffixes, sorted, at the tails
/// of their buckets, the L-type scan and then the S-type scan give the
/// suffix array of the text.
pub proof fn lemma_induced_sorting(t: Seq<u8>, ty: Seq<bool>, sa0: Seq<usize>)
    requires
        lms_at_tails(t, ty, sa0),
        t.len() >= 2,
    ensures
        crate::bwt_laws::is_sorted_suffix_array(
            t,
            crate::suffix_array::induce_s_scan(
                t,
                ty,
                induce_l_scan(t, ty, sa0, t.len() as nat).0,
                t.len() as nat,
            ).0,
        ),
{
    lemma_induce_l_orders(t, ty, sa0);
    lemma_l_induced_ready(t, ty, sa0, induce_l_scan(t, ty, sa0, t.len() as nat).0);
    lemma_induce_s_sorts(t, ty, induce_l_scan(t, ty, sa0, t.len() as nat).0);
}

} // verus!
