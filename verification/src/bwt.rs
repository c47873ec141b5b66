//! Burrows-Wheeler transform of byte strings and its inverse.
//!
//! The forward transform appends a zero sentinel byte, sorts the suffixes of
//! the result and reads off the byte before each suffix. The inverse walks
//! the LF-mapping of the transformed column from the sentinel row.
use vstd::prelude::*;
use vstd::string::{StringExecFns, StringSliceAdditionalSpecFns};
use vstd::utf8::{decode_utf8, valid_utf8};
use crate::bwt_laws::{
    cnt_eq, cnt_less, inverse_transform, is_sorted_suffix_array, last_column, lemma_sorted_sa_unique,
    lemma_cnt_bounds, lemma_cnt_less_next, lemma_cnt_less_zero, lemma_cnt_step,
    lemma_inverse_recovers_text, lemma_lf_in_range, lemma_sorted_sa_is_permutation, lf, row_of,
    walk_row,
};
use crate::suffix_array::{build_suffix_array, entries_valid};

verus! {

/// Byte appended to the input to mark its end; it must not occur in the input.
pub const SENTINEL: u8 = 0x00;

/// Result of a forward Burrows-Wheeler transform.
#[derive(Debug, Clone, PartialEq, Eq)]
pub struct BwtOutput {
    /// The transformed bytes (last column of the sorted rotation matrix).
    pub data: Vec<u8>,
    /// The row of the sorted rotation matrix whose last byte is the sentinel.
    pub sentinel_index: usize,
}

/// Errors of the transforms.
#[derive(Debug, Clone, Copy, PartialEq, Eq, Structural)]
pub enum BwtError {
    /// The input contains the sentinel byte (`\0`), which is reserved.
    InputContainsSentinel,
    /// The sentinel index is out of bounds for the given data.
    InvalidSentinelIndex,
    /// The data does not hold the sentinel byte at the given index.
    MissingSentinel,
}

/// The human-readable description of each error.
pub open spec fn bwt_error_message(e: BwtError) -> Seq<char> {
    match e {
        BwtError::InputContainsSentinel => "input contains the reserved sentinel byte (0x00)"@,
        BwtError::InvalidSentinelIndex => "sentinel index is out of bounds"@,
        BwtError::MissingSentinel => "expected sentinel byte not found in data"@,
    }
}

impl BwtError {
    /// The error's description, as its `Display` text reads.
    pub fn message(&self) -> (s: String)
        ensures
            s@ == bwt_error_message(*self),
    {
        match self {
            BwtError::InputContainsSentinel => {
                String::from_str("input contains the reserved sentinel byte (0x00)")
            },
            BwtError::InvalidSentinelIndex => String::from_str("sentinel index is out of bounds"),
            BwtError::MissingSentinel => {
                String::from_str("expected sentinel byte not found in data")
            },
        }
    }
}

/// What the inverse transform gives for a column `data` with the sentinel
/// reported at `sentinel_index`.
pub open spec fn ibwt_outcome(data: Seq<u8>, sentinel_index: usize) -> Result<Seq<u8>, BwtError> {
    if sentinel_index >= data.len() {
        Err(BwtError::InvalidSentinelIndex)
    } else if data[sentinel_index as int] != 0 {
        Err(BwtError::MissingSentinel)
    } else {
        Ok(inverse_transform(data))
    }
}

/// A result of the inverse transform agrees with the expected outcome.
pub open spec fn matches_outcome(res: Result<Vec<u8>, BwtError>, expected: Result<Seq<u8>, BwtError>) -> bool {
    match expected {
        Ok(s) => res matches Ok(v) && v@ == s,
        Err(e) => res == Err::<Vec<u8>, BwtError>(e),
    }
}

/// Inverse Burrows-Wheeler transform: recovers the original bytes (without
/// the sentinel) by walking the LF-mapping from row 0.
///
/// Every column with the sentinel byte at `sentinel_index` is accepted; the
/// result is the LF walk over it. An index past the end of the column (any
/// index, for an empty column) is an error.
pub fn ibwt(output: &BwtOutput) -> (res: Result<Vec<u8>, BwtError>)
    ensures
        matches_outcome(res, ibwt_outcome(output.data@, output.sentinel_index)),
{
    let n = output.data.len();
    if output.sentinel_index >= n {
        return Err(BwtError::InvalidSentinelIndex);
    }
    if output.data[output.sentinel_index] != SENTINEL {
        return Err(BwtError::MissingSentinel);
    }
    let ghost d = output.data@;

    // Occurrences of each byte value.
    let mut count: Vec<usize> = vec![0usize; 256];
    let mut k: usize = 0;
    while k < n
        invariant
            n == d.len(),
            d == output.data@,
            k <= n,
            count.len() == 256,
            forall|c: int| 0 <= c < 256 ==> #[trigger] count[c] == cnt_eq(d, k as int, c as u8),
        decreases n - k,
    {
        let b = output.data[k];
        proof {
            assert forall|c: int| 0 <= c < 256 implies #[trigger] cnt_eq(d, k + 1, c as u8) == cnt_eq(
                d,
                k as int,
                c as u8,
            ) + if d[k as int] == c {
                1nat
            } else {
                0nat
            } by {
                lemma_cnt_step(d, k as int, c);
            }
            lemma_cnt_bounds(d, k as int, b as int);
        }
        count.set(b as usize, count[b as usize] + 1);
        k += 1;
    }

    // cumulative[c] = number of bytes strictly below c.
    let mut cumulative: Vec<usize> = vec![0usize; 256];
    let mut total: usize = 0;
    let mut c: usize = 0;
    proof {
        lemma_cnt_less_zero(d, n as int);
    }
    while c < 256
        invariant
            n == d.len(),
            c <= 256,
            count.len() == 256,
            cumulative.len() == 256,
            forall|b: int| 0 <= b < 256 ==> #[trigger] count[b] == cnt_eq(d, n as int, b as u8),
            forall|b: int| 0 <= b < c ==> #[trigger] cumulative[b] == cnt_less(d, n as int, b),
            total == cnt_less(d, n as int, c as int),
        decreases 256 - c,
    {
        proof {
            lemma_cnt_less_next(d, n as int, c as int);
            lemma_cnt_bounds(d, n as int, c as int + 1);
        }
        cumulative.set(c, total);
        total = total + count[c];
        c += 1;
    }

    // LF-mapping: the m-th occurrence of byte c maps to cumulative[c] + m.
    let mut lf_map: Vec<usize> = vec![0usize; n];
    let mut seen: Vec<usize> = vec![0usize; 256];
    let mut i: usize = 0;
    while i < n
        invariant
            n == d.len(),
            d == output.data@,
            i <= n,
            seen.len() == 256,
            cumulative.len() == 256,
            lf_map.len() == n,
            forall|b: int| 0 <= b < 256 ==> #[trigger] cumulative[b] == cnt_less(d, n as int, b),
            forall|b: int| 0 <= b < 256 ==> #[trigger] seen[b] == cnt_eq(d, i as int, b as u8),
            forall|j: int| 0 <= j < i ==> #[trigger] lf_map[j] == lf(d, j),
        decreases n - i,
    {
        let c = output.data[i] as usize;
        proof {
            lemma_lf_in_range(d, i as int);
            assert forall|b: int| 0 <= b < 256 implies #[trigger] cnt_eq(d, i + 1, b as u8) == cnt_eq(
                d,
                i as int,
                b as u8,
            ) + if d[i as int] == b {
                1nat
            } else {
                0nat
            } by {
                lemma_cnt_step(d, i as int, b);
            }
            lemma_cnt_bounds(d, i as int, c as int);
        }
        lf_map.set(i, cumulative[c] + seen[c]);
        seen.set(c, seen[c] + 1);
        i += 1;
    }

    // Walk the LF-mapping from the sentinel row, filling from the right.
    let len = n - 1;
    let mut result: Vec<u8> = vec![0u8; len];
    let mut row: usize = 0;
    let mut i: usize = len;
    while i > 0
        invariant
            n == d.len(),
            d == output.data@,
            len == n - 1,
            i <= len,
            lf_map.len() == n,
            forall|j: int| 0 <= j < n ==> #[trigger] lf_map[j] == lf(d, j),
            result.len() == len,
            row < n,
            row == walk_row(d, (len - i) as nat),
            forall|j: int|
                i <= j < len ==> #[trigger] result[j] == d[walk_row(d, (len - 1 - j) as nat)],
        decreases i,
    {
        i -= 1;
        result.set(i, output.data[row]);
        proof {
            lemma_lf_in_range(d, row as int);
        }
        row = lf_map[row];
    }
    assert(result@ =~= inverse_transform(d));
    Ok(result)
}

/// The byte before suffix position `p` of `t`, wrapping around at 0; an
/// entry past the end reads as the wrap-around byte as well.
pub open spec fn column_byte(t: Seq<u8>, p: int) -> u8 {
    if p == 0 || p > t.len() {
        t[t.len() - 1]
    } else {
        t[p - 1]
    }
}

/// The last index of `d` that holds a zero byte, or 0 when there is none.
pub open spec fn last_zero_row(d: Seq<u8>) -> int
    decreases d.len(),
{
    if d.len() == 0 {
        0
    } else if d[d.len() - 1] == 0 {
        d.len() - 1
    } else {
        last_zero_row(d.drop_last())
    }
}

/// `input` holds the reserved sentinel byte.
pub open spec fn contains_sentinel(input: Seq<u8>) -> bool {
    exists|i: int| 0 <= i < input.len() && input[i] == 0
}

/// `out` is the last column of the rotation matrix of `input` followed by
/// the sentinel, for the row order `sa`, with the sentinel row recorded.
pub open spec fn is_transform_by(input: Seq<u8>, sa: Seq<usize>, out: BwtOutput) -> bool {
    let t = input.push(0);
    &&& sa.len() == t.len()
    &&& entries_valid(sa, t.len() as int)
    &&& out.data@ == Seq::new(sa.len(), |i: int| column_byte(t, sa[i] as int))
    &&& out.sentinel_index == last_zero_row(out.data@)
}

/// What the forward transform gives for `input`: the last column of the
/// rotation matrix of `input` and the sentinel, its rows in sorted suffix
/// order.
pub open spec fn bwt_ok(input: Seq<u8>, res: Result<BwtOutput, BwtError>) -> bool {
    match res {
        Ok(out) => !contains_sentinel(input) && exists|sa: Seq<usize>|
            is_sorted_suffix_array(input.push(0), sa) && #[trigger] is_transform_by(input, sa, out),
        Err(e) => contains_sentinel(input) && e == BwtError::InputContainsSentinel,
    }
}

/// Forward Burrows-Wheeler transform.
///
/// Appends the sentinel, builds the suffix array and reads off, for each
/// suffix in order, the byte just before it. Input holding the sentinel byte
/// is refused.
pub fn bwt(input: &[u8]) -> (res: Result<BwtOutput, BwtError>)
    requires
        input.len() < usize::MAX / 2,
    ensures
        bwt_ok(input@, res),
{
    let mut k: usize = 0;
    while k < input.len()
        invariant
            k <= input.len(),
            forall|j: int| 0 <= j < k ==> input[j] != 0,
        decreases input.len() - k,
    {
        if input[k] == SENTINEL {
            return Err(BwtError::InputContainsSentinel);
        }
        k += 1;
    }
    // Augmented string = input + sentinel.
    let mut text: Vec<u8> = Vec::with_capacity(input.len() + 1);
    text.extend_from_slice(input);
    text.push(SENTINEL);
    let ghost t = text@;
    assert(t =~= input@.push(0));

    let n = text.len();
    let sa = build_suffix_array(text.as_slice());
    let mut data: Vec<u8> = Vec::with_capacity(n);
    let mut sentinel_index: usize = 0;
    let mut i: usize = 0;
    while i < n
        invariant
            n == t.len(),
            t == text@,
            sa.len() == n,
            i <= n,
            data.len() == i,
            forall|j: int| 0 <= j < i ==> #[trigger] data[j] == column_byte(t, sa[j] as int),
            sentinel_index == last_zero_row(data@),
        decreases n - i,
    {
        let pos = sa[i];
        let bwt_char = if pos == 0 || pos > n {
            text[n - 1]
        } else {
            text[pos - 1]
        };
        let ghost before = data@;
        if bwt_char == SENTINEL {
            sentinel_index = i;
        }
        data.push(bwt_char);
        assert(data@.drop_last() =~= before);
        i += 1;
    }
    let out = BwtOutput { data, sentinel_index };
    assert(out.data@ =~= Seq::new(sa@.len(), |i: int| column_byte(t, sa@[i] as int)));
    assert(is_sorted_suffix_array(input@.push(0), sa@));
    assert(is_transform_by(input@, sa@, out));
    assert(!contains_sentinel(input@));
    let ghost r = Ok::<BwtOutput, BwtError>(out);
    assert(r->Ok_0 == out);
    assert(bwt_ok(input@, r));
    Ok(out)
}

/// Forward transform of the UTF-8 bytes of a string.
pub fn bwt_str(input: &str) -> (res: Result<BwtOutput, BwtError>)
    requires
        input.spec_bytes().len() < usize::MAX / 2,
    ensures
        bwt_ok(input.spec_bytes(), res),
{
    bwt(input.as_bytes())
}

/// `std::string::String::from_utf8`: the bytes as a string when they are
/// well-formed UTF-8, decoded as UTF-8; nothing otherwise.
#[verifier::external_body]
pub(crate) fn string_from_utf8(bytes: Vec<u8>) -> (r: Option<String>)
    ensures
        r is Some <==> valid_utf8(bytes@),
        r matches Some(s) ==> s@ == decode_utf8(bytes@),
{
    String::from_utf8(bytes).ok()
}

/// Inverse transform returning a string. The recovered bytes must be
/// well-formed UTF-8.
pub fn ibwt_str(output: &BwtOutput) -> (res: Result<String, BwtError>)
    requires
        ibwt_outcome(output.data@, output.sentinel_index) matches Ok(s) ==> valid_utf8(s),
    ensures
        match ibwt_outcome(output.data@, output.sentinel_index) {
            Ok(s) => res matches Ok(st) && st@ == decode_utf8(s),
            Err(e) => res == Err::<String, BwtError>(e),
        },
{
    match ibwt(output) {
        Ok(bytes) => match string_from_utf8(bytes) {
            Some(s) => Ok(s),
            None => Ok(String::new()),
        },
        Err(e) => Err(e),
    }
}

/// A zero byte of `d` is found by `last_zero_row`.
pub proof fn lemma_last_zero_row(d: Seq<u8>, z: int)
    requires
        0 <= z < d.len(),
        d[z] == 0,
    ensures
        0 <= last_zero_row(d) < d.len(),
        d[last_zero_row(d)] == 0,
    decreases d.len(),
{
    if d[d.len() - 1] != 0 {
        lemma_last_zero_row(d.drop_last(), z);
    }
}

/// Round trip: when the rows are ordered by a sorted suffix array of the
/// input followed by the sentinel, the column that the forward transform
/// reads off, with its sentinel row, is inverted back to the input.
pub proof fn lemma_transform_roundtrip(input: Seq<u8>, sa: Seq<usize>, out: BwtOutput)
    requires
        !contains_sentinel(input),
        is_sorted_suffix_array(input.push(0), sa),
        is_transform_by(input, sa, out),
    ensures
        ibwt_outcome(out.data@, out.sentinel_index) == Ok::<Seq<u8>, BwtError>(input),
{
    let t = input.push(0);
    let n = t.len() as int;
    assert forall|i: int| 0 <= i < input.len() implies #[trigger] input[i] != 0 by {
        if input[i] == 0 {
            assert(contains_sentinel(input));
        }
    }
    assert(out.data@ =~= last_column(t, sa));
    lemma_sorted_sa_is_permutation(t, sa);
    let r = row_of(sa, 0);
    assert(out.data@[r] == 0);
    lemma_last_zero_row(out.data@, r);
    lemma_inverse_recovers_text(input, sa);
}

/// Round trip: the inverse transform gives back the input of every forward
/// transform.
pub proof fn lemma_bwt_roundtrip(input: Seq<u8>, out: BwtOutput)
    requires
        bwt_ok(input, Ok::<BwtOutput, BwtError>(out)),
    ensures
        ibwt_outcome(out.data@, out.sentinel_index) == Ok::<Seq<u8>, BwtError>(input),
{
    let sa = choose|sa: Seq<usize>|
        is_sorted_suffix_array(input.push(0), sa) && #[trigger] is_transform_by(input, sa, out);
    lemma_transform_roundtrip(input, sa, out);
}

/// Two results of the forward transform agree.
pub open spec fn same_transform(r1: Result<BwtOutput, BwtError>, r2: Result<BwtOutput, BwtError>) -> bool {
    match (r1, r2) {
        (Ok(o1), Ok(o2)) => o1.data@ == o2.data@ && o1.sentinel_index == o2.sentinel_index,
        (Err(e1), Err(e2)) => e1 == e2,
        _ => false,
    }
}

/// The forward transform is determined by its input: any two results it
/// may give for one input agree (so `bwt_str` gives what `bwt` gives on the
/// string's bytes).
pub proof fn lemma_bwt_unique(input: Seq<u8>, r1: Result<BwtOutput, BwtError>, r2: Result<BwtOutput, BwtError>)
    requires
        bwt_ok(input, r1),
        bwt_ok(input, r2),
    ensures
        same_transform(r1, r2),
{
    if let (Ok(o1), Ok(o2)) = (r1, r2) {
        let sa1 = choose|sa: Seq<usize>|
            is_sorted_suffix_array(input.push(0), sa) && #[trigger] is_transform_by(input, sa, o1);
        let sa2 = choose|sa: Seq<usize>|
            is_sorted_suffix_array(input.push(0), sa) && #[trigger] is_transform_by(input, sa, o2);
        lemma_sorted_sa_unique(input.push(0), sa1, sa2);
        assert(o1.data@ =~= o2.data@);
    }
}

} // verus!
