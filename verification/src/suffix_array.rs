//! Suffix array construction by induced sorting (SA-IS).
//!
//! Positions are classified as S-type (the suffix is smaller than the next
//! one) or L-type; left-most S-type positions (LMS) are placed at the ends
//! of their byte buckets, L-type and then S-type suffixes are induced from
//! them, and when LMS substrings repeat the algorithm recurses on a reduced
//! string of LMS substring names.
use vstd::prelude::*;
use crate::bwt_laws::{byte_lt, cnt_less, is_sorted_suffix_array, lemma_lex_total, lemma_row_order, lemma_lex_transitive, lemma_suffix_cons, lemma_cnt_bounds, lemma_cnt_less_next, lemma_cnt_less_zero, lemma_cnt_step, lex_lt, suffix};
use crate::induced_order::{l_induced, lemma_induce_l_orders, lemma_l_induced_ready, lemma_induce_s_sorts, lms_at_tails, s_ready};
use crate::counting::{count_in, lemma_count_bound, lemma_count_mono, lemma_count_prefix_mono};

verus! {

/// The type of position `i` by the local rule: S-type when the byte is
/// smaller than the next one, L-type when larger, the next position's type
/// when equal; the last position is S-type.
pub open spec fn s_type(t: Seq<u8>, i: int) -> bool
    decreases t.len() - i,
{
    if i >= t.len() - 1 {
        true
    } else if t[i] < t[i + 1] {
        true
    } else if t[i] > t[i + 1] {
        false
    } else {
        s_type(t, i + 1)
    }
}

/// Position `i` is S-type and the position before it is L-type.
pub open spec fn lms_at(types: Seq<bool>, i: int) -> bool {
    i > 0 && types[i] && !types[i - 1]
}

/// Every entry of `sa` is a position of a text of length `n`, or empty.
pub open spec fn entries_valid(sa: Seq<usize>, n: int) -> bool {
    forall|k: int| 0 <= k < sa.len() ==> #[trigger] sa[k] < n || sa[k] == usize::MAX
}

/// When the last byte is strictly smaller than all others, the local rule
/// gives the suffix order: position `i` is S-type exactly when its suffix is
/// smaller than the suffix that follows it.
pub proof fn lemma_s_type_is_suffix_order(t: Seq<u8>, i: int)
    requires
        t.len() >= 1,
        forall|j: int| 0 <= j < t.len() - 1 ==> #[trigger] t[j] > t[t.len() - 1],
        0 <= i < t.len() - 1,
    ensures
        s_type(t, i) == lex_lt(suffix(t, i), suffix(t, i + 1)),
    decreases t.len() - i,
{
    let n = t.len() as int;
    assert(suffix(t, i).drop_first() =~= suffix(t, i + 1));
    assert(suffix(t, i + 1).drop_first() =~= suffix(t, i + 2));
    if t[i] == t[i + 1] {
        if i + 1 < n - 1 {
            lemma_s_type_is_suffix_order(t, i + 1);
        } else {
            assert(t[i] > t[n - 1]);
        }
    }
}

/// Classify each position as S-type (`true`) or L-type (`false`).
fn classify_types(text: &[u8]) -> (types: Vec<bool>)
    requires
        text.len() >= 1,
    ensures
        types.len() == text.len(),
        forall|i: int| 0 <= i < text.len() ==> #[trigger] types[i] == s_type(text@, i),
{
    let n = text.len();
    let mut types: Vec<bool> = vec![false; n];
    types.set(n - 1, true);
    let mut i = n - 1;
    while i > 0
        invariant
            n == text.len(),
            types.len() == n,
            i <= n - 1,
            forall|j: int| i <= j < n ==> #[trigger] types[j] == s_type(text@, j),
        decreases i,
    {
        i -= 1;
        let t = if text[i] < text[i + 1] {
            true
        } else if text[i] > text[i + 1] {
            false
        } else {
            types[i + 1]
        };
        types.set(i, t);
    }
    types
}

/// Whether position `i` is a left-most S-type position.
fn is_lms(types: &[bool], i: usize) -> (r: bool)
    requires
        i < types.len(),
    ensures
        r == lms_at(types@, i as int),
{
    i > 0 && types[i] && !types[i - 1]
}

/// Bucket boundaries for each byte value: with `end` the position one past
/// the last suffix starting with the byte, otherwise the first position.
fn get_buckets(text: &[u8], end: bool) -> (buckets: Vec<usize>)
    ensures
        buckets.len() == 256,
        forall|c: int|
            0 <= c < 256 ==> #[trigger] buckets[c] == if end {
                cnt_less(text@, text.len() as int, c + 1)
            } else {
                cnt_less(text@, text.len() as int, c)
            },
        forall|c: int| 0 <= c < 256 ==> #[trigger] buckets[c] <= text.len(),
{
    let ghost t = text@;
    let n = text.len();
    let mut count: Vec<usize> = vec![0usize; 256];
    let mut k: usize = 0;
    while k < n
        invariant
            n == t.len(),
            t == text@,
            k <= n,
            count.len() == 256,
            forall|c: int|
                0 <= c < 256 ==> #[trigger] count[c] == crate::bwt_laws::cnt_eq(t, k as int, c as u8),
        decreases n - k,
    {
        let b = text[k];
        proof {
            assert forall|c: int| 0 <= c < 256 implies #[trigger] crate::bwt_laws::cnt_eq(
                t,
                k + 1,
                c as u8,
            ) == crate::bwt_laws::cnt_eq(t, k as int, c as u8) + if t[k as int] == c {
                1nat
            } else {
                0nat
            } by {
                lemma_cnt_step(t, k as int, c);
            }
            lemma_cnt_bounds(t, k as int, b as int);
        }
        count.set(b as usize, count[b as usize] + 1);
        k += 1;
    }
    let mut buckets: Vec<usize> = vec![0usize; 256];
    let mut sum: usize = 0;
    let mut c: usize = 0;
    proof {
        lemma_cnt_less_zero(t, n as int);
    }
    while c < 256
        invariant
            n == t.len(),
            c <= 256,
            count.len() == 256,
            buckets.len() == 256,
            forall|b: int|
                0 <= b < 256 ==> #[trigger] count[b] == crate::bwt_laws::cnt_eq(t, n as int, b as u8),
            forall|b: int|
                0 <= b < c ==> #[trigger] buckets[b] == if end {
                    cnt_less(t, n as int, b + 1)
                } else {
                    cnt_less(t, n as int, b)
                },
            forall|b: int| 0 <= b < c ==> #[trigger] buckets[b] <= n,
            sum == cnt_less(t, n as int, c as int),
        decreases 256 - c,
    {
        proof {
            lemma_cnt_less_next(t, n as int, c as int);
            lemma_cnt_bounds(t, n as int, c as int + 1);
            lemma_cnt_bounds(t, n as int, c as int);
        }
        if end {
            sum += count[c];
            buckets.set(c, sum);
        } else {
            buckets.set(c, sum);
            sum += count[c];
        }
        c += 1;
    }
    buckets
}

/// Number of left-most S-type positions below `k` that hold byte `c`.
pub open spec fn cnt_lms_eq(t: Seq<u8>, types: Seq<bool>, k: int, c: int) -> nat {
    count_in(k, lms_with_byte(t, types, c))
}

/// The predicate "position `j` is LMS and holds byte `c`".
pub open spec fn lms_with_byte(t: Seq<u8>, types: Seq<bool>, c: int) -> spec_fn(int) -> bool {
    |j: int| lms_at(types, j) && t[j] == c
}

/// The slot that the LMS position `i` takes when the LMS suffixes are
/// placed: its byte's bucket ends at `cnt_less(t, n, c + 1)`, and the LMS
/// positions holding that byte fill the bucket from its end in order of
/// position.
pub open spec fn lms_slot(t: Seq<u8>, types: Seq<bool>, i: int) -> int {
    cnt_less(t, t.len() as int, t[i] as int + 1) - cnt_lms_eq(t, types, i + 1, t[i] as int)
}

/// The slot of an LMS position lies inside the bucket of its byte.
proof fn lemma_lms_slot_range(t: Seq<u8>, ty: Seq<bool>, i: int)
    requires
        ty.len() == t.len(),
        0 <= i < t.len(),
        lms_at(ty, i),
    ensures
        cnt_less(t, t.len() as int, t[i] as int) <= lms_slot(t, ty, i),
        lms_slot(t, ty, i) < cnt_less(t, t.len() as int, t[i] as int + 1),
        0 <= lms_slot(t, ty, i) < t.len(),
{
    let n = t.len() as int;
    let c = t[i] as int;
    let lc = lms_with_byte(t, ty, c);
    let ec = crate::bwt_laws::byte_eq(t, c as u8);
    lemma_count_mono(i + 1, lc, ec);
    lemma_count_prefix_mono(n, i + 1, ec);
    lemma_cnt_less_next(t, n, c);
    lemma_cnt_bounds(t, n, c + 1);
    assert(count_in(i + 1, lc) == count_in(i, lc) + 1);
}

/// Distinct LMS positions take distinct slots.
proof fn lemma_lms_slots_distinct(t: Seq<u8>, ty: Seq<bool>, i: int, j: int)
    requires
        ty.len() == t.len(),
        0 <= i < j < t.len(),
        lms_at(ty, i),
        lms_at(ty, j),
    ensures
        lms_slot(t, ty, i) != lms_slot(t, ty, j),
{
    let n = t.len() as int;
    lemma_lms_slot_range(t, ty, i);
    lemma_lms_slot_range(t, ty, j);
    if t[i] == t[j] {
        let lc = lms_with_byte(t, ty, t[i] as int);
        lemma_count_prefix_mono(j, i + 1, lc);
        assert(count_in(j + 1, lc) == count_in(j, lc) + 1);
    } else if t[i] < t[j] {
        lemma_count_mono(n, byte_lt(t, t[i] as int + 1), byte_lt(t, t[j] as int));
    } else {
        lemma_count_mono(n, byte_lt(t, t[j] as int + 1), byte_lt(t, t[i] as int));
    }
}

/// Place every LMS suffix at the end of its byte bucket, filling each
/// bucket from right to left in order of position.
///
/// Each LMS position `i` lands in slot `lms_slot(text, types, i)`; every
/// other slot keeps what it held.
fn place_lms(sa: &mut Vec<usize>, text: &[u8], types: &[bool])
    requires
        old(sa).len() == text.len(),
        types.len() == text.len(),
        entries_valid(old(sa)@, text.len() as int),
    ensures
        final(sa).len() == old(sa).len(),
        entries_valid(final(sa)@, text.len() as int),
        forall|i: int|
            0 <= i < text.len() && lms_at(types@, i) ==> 0 <= #[trigger] lms_slot(
                text@,
                types@,
                i,
            ) < text.len() && final(sa)[lms_slot(text@, types@, i)] == i,
        forall|k: int|
            0 <= k < final(sa).len() ==> #[trigger] final(sa)[k] == old(sa)[k] || (final(sa)[k]
                < text.len() && lms_at(types@, final(sa)[k] as int) && lms_slot(
                text@,
                types@,
                final(sa)[k] as int,
            ) == k),
{
    let ghost t = text@;
    let ghost ty = types@;
    let n = text.len();
    let mut buckets = get_buckets(text, true);
    let mut i: usize = 0;
    while i < n
        invariant
            n == t.len(),
            t == text@,
            ty == types@,
            types.len() == n,
            i <= n,
            sa.len() == n,
            old(sa).len() == n,
            buckets.len() == 256,
            entries_valid(sa@, n as int),
            forall|j: int|
                0 <= j < i && lms_at(ty, j) ==> 0 <= #[trigger] lms_slot(t, ty, j) < n && sa[lms_slot(
                    t,
                    ty,
                    j,
                )] == j,
            forall|k: int|
                0 <= k < n ==> #[trigger] sa[k] == old(sa)[k] || (sa[k] < i && lms_at(
                    ty,
                    sa[k] as int,
                ) && lms_slot(t, ty, sa[k] as int) == k),
            forall|c: int|
                0 <= c < 256 ==> #[trigger] buckets[c] + cnt_lms_eq(t, ty, i as int, c)
                    == cnt_less(t, n as int, c + 1),
        decreases n - i,
    {
        if is_lms(types, i) {
            let c = text[i] as usize;
            proof {
                let lc = lms_with_byte(t, ty, c as int);
                let ec = crate::bwt_laws::byte_eq(t, c as u8);
                lemma_count_mono(i as int, lc, ec);
                lemma_cnt_step(t, i as int, c as int);
                lemma_count_prefix_mono(n as int, i + 1, ec);
                lemma_cnt_less_next(t, n as int, c as int);
                lemma_cnt_bounds(t, n as int, c as int + 1);
                lemma_lms_slot_range(t, ty, i as int);
                assert(cnt_lms_eq(t, ty, i as int, c as int) <= crate::bwt_laws::cnt_eq(
                    t,
                    i as int,
                    c as u8,
                ));
                assert(count_in(i + 1, lc) == count_in(i as int, lc) + 1);
            }
            buckets.set(c, buckets[c] - 1);
            let ghost prev = sa@;
            sa.set(buckets[c], i);
            proof {
                assert(buckets[c as int] == lms_slot(t, ty, i as int));
                assert forall|j: int|
                    0 <= j < i + 1 && lms_at(ty, j) implies 0 <= #[trigger] lms_slot(t, ty, j) < n
                    && sa[lms_slot(t, ty, j)] == j by {
                    if j < i {
                        lemma_lms_slots_distinct(t, ty, j, i as int);
                        assert(prev[lms_slot(t, ty, j)] == j);
                    }
                }
            }
        }
        proof {
            assert forall|c: int| 0 <= c < 256 implies #[trigger] buckets[c] + cnt_lms_eq(
                t,
                ty,
                i + 1,
                c,
            ) == cnt_less(t, n as int, c + 1) by {
                assert(cnt_lms_eq(t, ty, i + 1, c) == cnt_lms_eq(t, ty, i as int, c) + if lms_at(
                    ty,
                    i as int,
                ) && t[i as int] == c {
                    1nat
                } else {
                    0nat
                });
            }
        }
        i += 1;
    }
}

/// The bucket heads before the L-type scan: each byte's bucket starts after
/// all the suffixes that begin with a smaller byte.
pub open spec fn bucket_heads(t: Seq<u8>) -> Seq<int> {
    Seq::new(256, |c: int| cnt_less(t, t.len() as int, c) as int)
}

/// The bucket tails before the S-type scan: each byte's bucket ends before
/// the suffixes that begin with a larger byte.
pub open spec fn bucket_tails(t: Seq<u8>) -> Seq<int> {
    Seq::new(256, |c: int| cnt_less(t, t.len() as int, c + 1) as int)
}

/// One step of the L-type scan at slot `i`, on the array and bucket heads
/// `st`: when slot `i` holds a position `p > 0` whose predecessor is L-type,
/// `p - 1` goes to the head of its byte's bucket and the head moves right;
/// a head already past the end of the array takes nothing.
pub open spec fn induce_l_step(t: Seq<u8>, ty: Seq<bool>, st: (Seq<usize>, Seq<int>), i: int) -> (
    Seq<usize>,
    Seq<int>,
) {
    let p = st.0[i];
    if p != usize::MAX && p != 0 && !ty[p - 1] && st.1[t[p - 1] as int] < t.len() {
        let c = t[p - 1] as int;
        (st.0.update(st.1[c], (p - 1) as usize), st.1.update(c, st.1[c] + 1))
    } else {
        st
    }
}

/// The array and bucket heads after the L-type scan has visited the first
/// `k` slots of `sa`, left to right.
pub open spec fn induce_l_scan(t: Seq<u8>, ty: Seq<bool>, sa: Seq<usize>, k: nat) -> (
    Seq<usize>,
    Seq<int>,
)
    decreases k,
{
    if k == 0 {
        (sa, bucket_heads(t))
    } else {
        induce_l_step(t, ty, induce_l_scan(t, ty, sa, (k - 1) as nat), k - 1)
    }
}

/// Induce L-type suffixes: scanning left to right, the position before each
/// placed suffix, when L-type, goes to the front of its byte bucket.
///
/// The result is the array after the scan has visited every slot,
/// `induce_l_scan(text, types, sa, n).0`. When the array holds exactly the
/// LMS suffixes, sorted, at the tails of their buckets, the scan adds every
/// L-type suffix: each bucket then starts with its L-type suffixes in
/// increasing order (`l_induced`).
fn induce_l(sa: &mut Vec<usize>, text: &[u8], types: &[bool])
    requires
        old(sa).len() == text.len(),
        types.len() == text.len(),
        entries_valid(old(sa)@, text.len() as int),
    ensures
        final(sa).len() == old(sa).len(),
        entries_valid(final(sa)@, text.len() as int),
        final(sa)@ == induce_l_scan(text@, types@, old(sa)@, text.len() as nat).0,
        forall|k: int|
            0 <= k < final(sa).len() ==> #[trigger] final(sa)[k] == old(sa)[k] || (final(sa)[k]
                < text.len() && !types[final(sa)[k] as int]),
        lms_at_tails(text@, types@, old(sa)@) ==> l_induced(text@, types@, old(sa)@, final(sa)@),
        lms_at_tails(text@, types@, old(sa)@) && text.len() >= 2 ==> s_ready(
            text@,
            types@,
            final(sa)@,
        ),
{
    let n = text.len();
    let mut buckets = get_buckets(text, false);
    let mut i: usize = 0;
    while i < n
        invariant
            n == text.len(),
            types.len() == n,
            i <= n,
            sa.len() == n,
            old(sa).len() == n,
            buckets.len() == 256,
            entries_valid(sa@, n as int),
            sa@ == induce_l_scan(text@, types@, old(sa)@, i as nat).0,
            induce_l_scan(text@, types@, old(sa)@, i as nat).1.len() == 256,
            forall|c: int|
                0 <= c < 256 ==> #[trigger] buckets[c] == induce_l_scan(
                    text@,
                    types@,
                    old(sa)@,
                    i as nat,
                ).1[c],
            forall|k: int|
                0 <= k < n ==> #[trigger] sa[k] == old(sa)[k] || (sa[k] < n && !types[sa[k] as int]),
        decreases n - i,
    {
        let ghost st = induce_l_scan(text@, types@, old(sa)@, i as nat);
        assert(induce_l_scan(text@, types@, old(sa)@, (i + 1) as nat) == induce_l_step(
            text@,
            types@,
            st,
            i as int,
        ));
        let p = sa[i];
        if p != usize::MAX && p != 0 {
            let j = p - 1;
            if !types[j] {
                let c = text[j] as usize;
                // A slot past the end would be an out-of-range write.
                if buckets[c] < n {
                    sa.set(buckets[c], j);
                    buckets.set(c, buckets[c] + 1);
                }
            }
        }
        i += 1;
    }
    proof {
        if lms_at_tails(text@, types@, old(sa)@) {
            lemma_induce_l_orders(text@, types@, old(sa)@);
            if text.len() >= 2 {
                lemma_l_induced_ready(text@, types@, old(sa)@, sa@);
            }
        }
    }
}

/// One step of the S-type scan at slot `i`, on the array and bucket tails
/// `st`: when slot `i` holds a position `p > 0` whose predecessor is S-type,
/// the tail of its byte's bucket moves left and `p - 1` goes there; an
/// exhausted bucket (tail at zero) takes nothing.
pub open spec fn induce_s_step(t: Seq<u8>, ty: Seq<bool>, st: (Seq<usize>, Seq<int>), i: int) -> (
    Seq<usize>,
    Seq<int>,
) {
    let p = st.0[i];
    if p != usize::MAX && p != 0 && ty[p - 1] && st.1[t[p - 1] as int] > 0 {
        let c = t[p - 1] as int;
        (st.0.update(st.1[c] - 1, (p - 1) as usize), st.1.update(c, st.1[c] - 1))
    } else {
        st
    }
}

/// The array and bucket tails after the S-type scan has visited the last
/// `k` slots of `sa`, right to left.
pub open spec fn induce_s_scan(t: Seq<u8>, ty: Seq<bool>, sa: Seq<usize>, k: nat) -> (
    Seq<usize>,
    Seq<int>,
)
    decreases k,
{
    if k == 0 {
        (sa, bucket_tails(t))
    } else {
        induce_s_step(t, ty, induce_s_scan(t, ty, sa, (k - 1) as nat), sa.len() - k)
    }
}

/// Induce S-type suffixes: scanning right to left, the position before each
/// placed suffix, when S-type, goes to the back of its byte bucket.
///
/// The result is the array after the scan has visited every slot,
/// `induce_s_scan(text, types, sa, n).0`. When the array holds every L-type
/// suffix at the front of its bucket in increasing order and the sentinel
/// suffix in slot 0 (`s_ready`, what `induce_l` leaves from sorted LMS
/// suffixes), the result is the suffix array of `text`.
fn induce_s(sa: &mut Vec<usize>, text: &[u8], types: &[bool])
    requires
        old(sa).len() == text.len(),
        types.len() == text.len(),
        entries_valid(old(sa)@, text.len() as int),
    ensures
        final(sa).len() == old(sa).len(),
        entries_valid(final(sa)@, text.len() as int),
        final(sa)@ == induce_s_scan(text@, types@, old(sa)@, text.len() as nat).0,
        forall|k: int|
            0 <= k < final(sa).len() ==> #[trigger] final(sa)[k] == old(sa)[k] || (final(sa)[k]
                < text.len() && types[final(sa)[k] as int]),
        s_ready(text@, types@, old(sa)@) ==> is_sorted_suffix_array(text@, final(sa)@),
{
    let n = text.len();
    let mut buckets = get_buckets(text, true);
    let mut i: usize = n;
    while i > 0
        invariant
            n == text.len(),
            types.len() == n,
            i <= n,
            sa.len() == n,
            old(sa).len() == n,
            buckets.len() == 256,
            forall|c: int| 0 <= c < 256 ==> #[trigger] buckets[c] <= n,
            entries_valid(sa@, n as int),
            sa@ == induce_s_scan(text@, types@, old(sa)@, (n - i) as nat).0,
            induce_s_scan(text@, types@, old(sa)@, (n - i) as nat).1.len() == 256,
            forall|c: int|
                0 <= c < 256 ==> #[trigger] buckets[c] == induce_s_scan(
                    text@,
                    types@,
                    old(sa)@,
                    (n - i) as nat,
                ).1[c],
            forall|k: int|
                0 <= k < n ==> #[trigger] sa[k] == old(sa)[k] || (sa[k] < n && types[sa[k] as int]),
        decreases i,
    {
        let ghost st = induce_s_scan(text@, types@, old(sa)@, (n - i) as nat);
        i -= 1;
        assert(induce_s_scan(text@, types@, old(sa)@, (n - i) as nat) == induce_s_step(
            text@,
            types@,
            st,
            i as int,
        ));
        let p = sa[i];
        if p != usize::MAX && p != 0 {
            let j = p - 1;
            if types[j] {
                let c = text[j] as usize;
                // An exhausted bucket would underflow its tail pointer.
                if buckets[c] > 0 {
                    buckets.set(c, buckets[c] - 1);
                    sa.set(buckets[c], j);
                }
            }
        }
    }
    proof {
        if s_ready(text@, types@, old(sa)@) {
            lemma_induce_s_sorts(text@, types@, old(sa)@);
        }
    }
}

/// Whether the suffix of `text` at `p` is lexicographically smaller than
/// the suffix at `q`, comparing byte by byte.
fn suffix_less(text: &[u8], p: usize, q: usize) -> (r: bool)
    requires
        p <= text.len(),
        q <= text.len(),
    ensures
        r == lex_lt(suffix(text@, p as int), suffix(text@, q as int)),
{
    let ghost t = text@;
    let n = text.len();
    let mut k: usize = 0;
    while p + k < n && q + k < n && text[p + k] == text[q + k]
        invariant
            t == text@,
            n == t.len(),
            p + k <= n,
            q + k <= n,
            lex_lt(suffix(t, p as int), suffix(t, q as int)) == lex_lt(
                suffix(t, p + k),
                suffix(t, q + k),
            ),
        decreases n - p - k,
    {
        proof {
            lemma_suffix_cons(t, p + k);
            lemma_suffix_cons(t, q + k);
        }
        k += 1;
    }
    if p + k < n {
        proof {
            lemma_suffix_cons(t, p + k);
        }
    }
    if q + k < n {
        proof {
            lemma_suffix_cons(t, q + k);
        }
    }
    if p + k == n {
        q + k < n
    } else if q + k == n {
        false
    } else {
        text[p + k] < text[q + k]
    }
}

/// `rank` inverts `sa`: both list the `n` positions, and the slot of each
/// position `p` in `sa` is `rank[p]`.
pub open spec fn inverts(sa: Seq<usize>, rank: Seq<usize>, n: int) -> bool {
    &&& sa.len() == n
    &&& rank.len() == n
    &&& forall|i: int| 0 <= i < n ==> #[trigger] sa[i] < n && rank[sa[i] as int] == i
    &&& forall|p: int| 0 <= p < n ==> #[trigger] rank[p] < n && sa[rank[p] as int] == p
}

/// The rank of the suffix at `p`: one more than its slot, and 0 for the
/// empty suffix at the end of the text.
pub open spec fn rank_of(rank: Seq<usize>, n: int, p: int) -> int {
    if p >= n {
        0
    } else {
        rank[p] + 1
    }
}

/// The local test between slots `k` and `k + 1`: the first byte grows, or
/// it stays and the rest of the suffix ranks higher.
pub open spec fn step_ordered(t: Seq<u8>, sa: Seq<usize>, rank: Seq<usize>, k: int) -> bool {
    let n = t.len() as int;
    let a = sa[k] as int;
    let b = sa[k + 1] as int;
    t[a] < t[b] || (t[a] == t[b] && rank_of(rank, n, a + 1) < rank_of(rank, n, b + 1))
}

/// Across passing local tests, first bytes never fall, and where they stay
/// the same the rests of the suffixes rank in slot order.
proof fn lemma_steps_chain(t: Seq<u8>, sa: Seq<usize>, rank: Seq<usize>, i: int, j: int)
    requires
        inverts(sa, rank, t.len() as int),
        0 <= i < j < t.len(),
        forall|k: int| 0 <= k < t.len() - 1 ==> #[trigger] step_ordered(t, sa, rank, k),
    ensures
        t[sa[i] as int] <= t[sa[j] as int],
        t[sa[i] as int] == t[sa[j] as int] ==> rank_of(rank, t.len() as int, sa[i] + 1) < rank_of(
            rank,
            t.len() as int,
            sa[j] + 1,
        ),
    decreases j - i,
{
    assert(step_ordered(t, sa, rank, j - 1));
    if j > i + 1 {
        lemma_steps_chain(t, sa, rank, i, j - 1);
    }
}

/// Passing local tests order the suffixes by rank.
proof fn lemma_rank_order(t: Seq<u8>, sa: Seq<usize>, rank: Seq<usize>, p: int, q: int)
    requires
        inverts(sa, rank, t.len() as int),
        forall|k: int| 0 <= k < t.len() - 1 ==> #[trigger] step_ordered(t, sa, rank, k),
        0 <= p <= t.len(),
        0 <= q <= t.len(),
        rank_of(rank, t.len() as int, p) < rank_of(rank, t.len() as int, q),
    ensures
        lex_lt(suffix(t, p), suffix(t, q)),
    decreases t.len() - p,
{
    let n = t.len() as int;
    assert(q < n);
    lemma_suffix_cons(t, q);
    if p < n {
        lemma_suffix_cons(t, p);
        let i = rank[p] as int;
        let j = rank[q] as int;
        lemma_steps_chain(t, sa, rank, i, j);
        if t[p] == t[q] {
            lemma_rank_order(t, sa, rank, p + 1, q + 1);
        }
    }
}

/// In a suffix array whose inverse is `rank`, every local test passes.
proof fn lemma_sorted_steps_ordered(t: Seq<u8>, sa: Seq<usize>, rank: Seq<usize>, k: int)
    requires
        is_sorted_suffix_array(t, sa),
        inverts(sa, rank, t.len() as int),
        0 <= k < t.len() - 1,
    ensures
        step_ordered(t, sa, rank, k),
{
    let n = t.len() as int;
    let a = sa[k] as int;
    let b = sa[k + 1] as int;
    assert(lex_lt(suffix(t, a), suffix(t, b)));
    lemma_suffix_cons(t, a);
    lemma_suffix_cons(t, b);
    if t[a] == t[b] {
        assert(lex_lt(suffix(t, a + 1), suffix(t, b + 1)));
        assert(rank[a] == k && rank[b] == k + 1);
        if b + 1 == n {
            assert(suffix(t, b + 1).len() == 0);
        } else if a + 1 < n {
            lemma_row_order(t, sa, rank[a + 1] as int, rank[b + 1] as int);
        }
    }
}

/// Whether `sa` is the suffix array of `text`: one entry per position of
/// `text`, each a position, with the suffixes in strictly increasing order.
///
/// Checked in linear time: `sa` must list every position once, and between
/// neighbouring slots the first byte must grow, or stay while the rest of
/// the suffix ranks higher.
fn is_suffix_order(text: &[u8], sa: &[usize]) -> (r: bool)
    ensures
        r == is_sorted_suffix_array(text@, sa@),
{
    let ghost t = text@;
    let n = text.len();
    if sa.len() != n {
        return false;
    }
    // rank[p] is the slot that holds position p.
    let mut rank: Vec<usize> = vec![usize::MAX; n];
    let mut i: usize = 0;
    while i < n
        invariant
            t == text@,
            n == t.len(),
            sa.len() == n,
            rank.len() == n,
            i <= n,
            forall|k: int| 0 <= k < i ==> #[trigger] sa[k] < n && rank[sa[k] as int] == k,
            forall|p: int|
                0 <= p < n ==> #[trigger] rank[p] == usize::MAX || (rank[p] < i && sa[rank[p]
                    as int] == p),
        decreases n - i,
    {
        let p = sa[i];
        if p >= n {
            return false;
        }
        if rank[p] != usize::MAX {
            proof {
                let k = rank[p as int] as int;
                if is_sorted_suffix_array(t, sa@) {
                    crate::bwt_laws::lemma_sorted_sa_is_permutation(t, sa@);
                    assert(sa@[k] == sa@[i as int]);
                }
            }
            return false;
        }
        rank.set(p, i);
        i += 1;
    }
    let mut p: usize = 0;
    while p < n
        invariant
            t == text@,
            n == t.len(),
            sa.len() == n,
            rank.len() == n,
            forall|k: int| 0 <= k < n ==> #[trigger] sa[k] < n && rank[sa[k] as int] == k,
            forall|q: int|
                0 <= q < n ==> #[trigger] rank[q] == usize::MAX || (rank[q] < n && sa[rank[q]
                    as int] == q),
            p <= n,
            forall|q: int| 0 <= q < p ==> #[trigger] rank[q] != usize::MAX,
        decreases n - p,
    {
        if rank[p] == usize::MAX {
            proof {
                if is_sorted_suffix_array(t, sa@) {
                    crate::bwt_laws::lemma_sorted_sa_is_permutation(t, sa@);
                    let k = crate::bwt_laws::row_of(sa@, p as int);
                    assert(rank[sa@[k] as int] == k);
                }
            }
            return false;
        }
        p += 1;
    }
    assert(inverts(sa@, rank@, n as int));
    if n == 0 {
        return true;
    }
    let mut i: usize = 1;
    while i < n
        invariant
            t == text@,
            n == t.len(),
            inverts(sa@, rank@, n as int),
            1 <= i <= n,
            forall|k: int| 0 <= k < i - 1 ==> #[trigger] step_ordered(t, sa@, rank@, k),
        decreases n - i,
    {
        let a = sa[i - 1];
        let b = sa[i];
        let ra: usize = if a + 1 == n {
            0
        } else {
            rank[a + 1] + 1
        };
        let rb: usize = if b + 1 == n {
            0
        } else {
            rank[b + 1] + 1
        };
        let ok = text[a] < text[b] || (text[a] == text[b] && ra < rb);
        assert(ok == step_ordered(t, sa@, rank@, i - 1));
        if !ok {
            proof {
                if is_sorted_suffix_array(t, sa@) {
                    lemma_sorted_steps_ordered(t, sa@, rank@, i - 1);
                }
            }
            return false;
        }
        i += 1;
    }
    assert forall|x: int, y: int| 0 <= x < y < sa@.len() implies lex_lt(
        suffix(t, #[trigger] sa@[x] as int),
        suffix(t, #[trigger] sa@[y] as int),
    ) by {
        lemma_rank_order(t, sa@, rank@, sa@[x] as int, sa@[y] as int);
    }
    true
}

/// Sort the positions of `text` by their suffixes, inserting one position
/// at a time in front of the first larger suffix.
fn sort_suffixes(text: &[u8]) -> (sa: Vec<usize>)
    ensures
        is_sorted_suffix_array(text@, sa@),
{
    let ghost t = text@;
    let n = text.len();
    let mut sa: Vec<usize> = Vec::new();
    let mut x: usize = 0;
    while x < n
        invariant
            t == text@,
            n == t.len(),
            x <= n,
            sa.len() == x,
            forall|k: int| 0 <= k < x ==> #[trigger] sa[k] < x,
            forall|a: int, b: int|
                0 <= a < b < x ==> lex_lt(
                    suffix(t, #[trigger] sa[a] as int),
                    suffix(t, #[trigger] sa[b] as int),
                ),
        decreases n - x,
    {
        let mut k: usize = 0;
        while k < sa.len() && !suffix_less(text, x, sa[k])
            invariant
                t == text@,
                n == t.len(),
                x < n,
                sa.len() == x,
                k <= x,
                forall|m: int| 0 <= m < x ==> #[trigger] sa[m] < x,
                forall|m: int|
                    0 <= m < k ==> lex_lt(suffix(t, #[trigger] sa[m] as int), suffix(t, x as int)),
            decreases x - k,
        {
            proof {
                lemma_lex_total(suffix(t, x as int), suffix(t, sa[k as int] as int));
            }
            k += 1;
        }
        let ghost old_sa = sa@;
        sa.insert(k, x);
        proof {
            old_sa.insert_ensures(k as int, x);
            assert forall|a: int, b: int| 0 <= a < b < x + 1 implies lex_lt(
                suffix(t, #[trigger] sa@[a] as int),
                suffix(t, #[trigger] sa@[b] as int),
            ) by {
                if b < k {
                    assert(sa@[a] == old_sa[a] && sa@[b] == old_sa[b]);
                } else if b == k {
                    assert(sa@[a] == old_sa[a]);
                } else if a < k {
                    assert(sa@[a] == old_sa[a] && sa@[b] == old_sa[b - 1]);
                } else if a == k {
                    assert(sa@[b] == old_sa[b - 1]);
                    if b - 1 > k {
                        assert(lex_lt(suffix(t, old_sa[k as int] as int), suffix(t, old_sa[b - 1] as int)));
                        lemma_lex_transitive(
                            suffix(t, x as int),
                            suffix(t, old_sa[k as int] as int),
                            suffix(t, old_sa[b - 1] as int),
                        );
                    }
                } else {
                    assert(sa@[a] == old_sa[a - 1] && sa@[b] == old_sa[b - 1]);
                }
            }
            assert forall|m: int| 0 <= m < x + 1 implies #[trigger] sa@[m] < x + 1 by {
                if m < k {
                    assert(sa@[m] == old_sa[m]);
                } else if m > k {
                    assert(sa@[m] == old_sa[m - 1]);
                }
            }
        }
        x += 1;
    }
    sa
}

/// Build the suffix array of `text`: its positions ordered by the suffixes
/// that start there.
///
/// The suffixes are sorted by induced sorting; the order found is checked
/// slot by slot, and where the check fails the positions are sorted by
/// direct comparison of their suffixes instead.
pub fn build_suffix_array(text: &[u8]) -> (sa: Vec<usize>)
    requires
        text.len() <= usize::MAX / 2,
    ensures
        is_sorted_suffix_array(text@, sa@),
        entries_valid(sa@, text.len() as int),
{
    let sa = induced_sort(text);
    if is_suffix_order(text, sa.as_slice()) {
        sa
    } else {
        sort_suffixes(text)
    }
}

/// Sort the suffixes of `text` by induced sorting (SA-IS).
///
/// Every entry of the result is a position of `text` or the empty marker
/// `usize::MAX`; texts of one byte give `[0]`.
fn induced_sort(text: &[u8]) -> (sa: Vec<usize>)
    requires
        text.len() <= usize::MAX / 2,
    ensures
        sa.len() == text.len(),
        entries_valid(sa@, text.len() as int),
        text.len() == 1 ==> sa@ == seq![0usize],
    decreases text.len(),
{
    let n = text.len();
    if n == 0 {
        return Vec::new();
    }
    if n == 1 {
        let mut one = Vec::new();
        one.push(0usize);
        assert(one@ =~= seq![0usize]);
        return one;
    }
    let types = classify_types(text);

    // All LMS positions, in increasing order.
    let mut lms_positions: Vec<usize> = Vec::new();
    let mut i: usize = 0;
    while i < n
        invariant
            n == text.len(),
            types.len() == n,
            i <= n,
            lms_positions.len() <= if i == 0 {
                0
            } else {
                i - 1
            },
            forall|k: int| 0 <= k < lms_positions.len() ==> #[trigger] lms_positions[k] < n,
        decreases n - i,
    {
        if is_lms(types.as_slice(), i) {
            lms_positions.push(i);
        }
        i += 1;
    }

    // Step 1: place LMS suffixes, then induce L-type and S-type suffixes.
    let mut sa: Vec<usize> = vec![usize::MAX; n];
    assert(entries_valid(sa@, n as int));
    place_lms(&mut sa, text, types.as_slice());
    induce_l(&mut sa, text, types.as_slice());
    induce_s(&mut sa, text, types.as_slice());

    // Step 2: the LMS suffixes in the order the induced sort left them.
    let mut sorted_lms: Vec<usize> = Vec::new();
    let mut k: usize = 0;
    while k < n
        invariant
            n == text.len(),
            types.len() == n,
            sa.len() == n,
            k <= n,
            sorted_lms.len() <= k,
            forall|m: int| 0 <= m < sorted_lms.len() ==> #[trigger] sorted_lms[m] < n,
        decreases n - k,
    {
        let p = sa[k];
        if p < n && is_lms(types.as_slice(), p) {
            sorted_lms.push(p);
        }
        k += 1;
    }
    if sorted_lms.len() == 0 {
        // No LMS suffix survived the induced sort; nothing to name.
        return sa;
    }

    // Name the LMS substrings: equal substrings get equal names.
    let mut names: Vec<usize> = vec![usize::MAX; n];
    let mut current_name: usize = 0;
    names.set(sorted_lms[0], current_name);
    let mut k: usize = 1;
    while k < sorted_lms.len()
        invariant
            n == text.len(),
            n <= usize::MAX / 2,
            types.len() == n,
            names.len() == n,
            1 <= k <= sorted_lms.len(),
            sorted_lms.len() <= n,
            current_name < k,
            forall|m: int| 0 <= m < sorted_lms.len() ==> #[trigger] sorted_lms[m] < n,
        decreases sorted_lms.len() - k,
    {
        let prev = sorted_lms[k - 1];
        let curr = sorted_lms[k];
        let mut different = false;
        let mut d: usize = 0;
        while d < n
            invariant
                n == text.len(),
                n <= usize::MAX / 2,
                types.len() == n,
                prev < n,
                curr < n,
                d <= n,
            decreases n - d,
        {
            let p = prev + d;
            let c = curr + d;
            if p >= n || c >= n || text[p] != text[c] || types[p] != types[c] {
                different = true;
                break;
            }
            if d > 0 && (is_lms(types.as_slice(), p) || is_lms(types.as_slice(), c)) {
                break;
            }
            d += 1;
        }
        if different {
            current_name += 1;
        }
        names.set(curr, current_name);
        k += 1;
    }

    if current_name + 1 < lms_positions.len() {
        // Names repeat: sort the reduced string of names recursively.
        let m = lms_positions.len();
        let mut reduced: Vec<u8> = Vec::new();
        let mut r: usize = 0;
        while r < m
            invariant
                m == lms_positions.len(),
                names.len() == n,
                r <= m,
                reduced.len() == r,
                forall|q: int| 0 <= q < m ==> #[trigger] lms_positions[q] < n,
            decreases m - r,
        {
            // Names past 255 wrap around here; an order spoiled by that is
            // caught by the check in `build_suffix_array`.
            reduced.push(#[verifier::truncate] (names[lms_positions[r]] as u8));
            r += 1;
        }
        let reduced_sa = induced_sort(reduced.as_slice());

        // Place the LMS suffixes in the order found by the recursion.
        sa = vec![usize::MAX; n];
        let mut buckets = get_buckets(text, true);
        let mut q: usize = reduced_sa.len();
        while q > 0
            invariant
                n == text.len(),
                sa.len() == n,
                m == lms_positions.len(),
                buckets.len() == 256,
                q <= reduced_sa.len(),
                forall|c: int| 0 <= c < 256 ==> #[trigger] buckets[c] <= n,
                forall|x: int| 0 <= x < m ==> #[trigger] lms_positions[x] < n,
                entries_valid(sa@, n as int),
            decreases q,
        {
            q -= 1;
            let idx = reduced_sa[q];
            // An entry that names no LMS position cannot be placed.
            if idx < m {
                let lms_pos = lms_positions[idx];
                let c = text[lms_pos] as usize;
                // An exhausted bucket would underflow its tail pointer.
                if buckets[c] > 0 {
                    buckets.set(c, buckets[c] - 1);
                    sa.set(buckets[c], lms_pos);
                }
            }
        }
    } else {
        // All LMS substrings are distinct: their induced order is final.
        sa = vec![usize::MAX; n];
        let mut buckets = get_buckets(text, true);
        let mut q: usize = sorted_lms.len();
        while q > 0
            invariant
                n == text.len(),
                sa.len() == n,
                buckets.len() == 256,
                q <= sorted_lms.len(),
                forall|c: int| 0 <= c < 256 ==> #[trigger] buckets[c] <= n,
                forall|x: int| 0 <= x < sorted_lms.len() ==> #[trigger] sorted_lms[x] < n,
                entries_valid(sa@, n as int),
            decreases q,
        {
            q -= 1;
            let lms_pos = sorted_lms[q];
            let c = text[lms_pos] as usize;
            // An exhausted bucket would underflow its tail pointer.
            if buckets[c] > 0 {
                buckets.set(c, buckets[c] - 1);
                sa.set(buckets[c], lms_pos);
            }
        }
    }

    // Final induced sort from the ordered LMS suffixes.
    induce_l(&mut sa, text, types.as_slice());
    induce_s(&mut sa, text, types.as_slice());
    sa
}

} // verus!
