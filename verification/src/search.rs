//! The text logic of a file search tool: line offsets, which lines match,
//! the context lines shown around a match, grouping files by directory
//! depth, size units for reports, and the key under which an index is
//! cached.
use vstd::prelude::*;
use vstd::utf8::{encode_utf8, is_char_boundary};
use vstd::string::StringSliceAdditionalSpecFns;
use crate::text::{lowercase_chars, query_terms, search_terms, to_lowercase};

verus! {

/// The line break byte.
pub const NEWLINE: u8 = 0x0A;

/// Lines of `b[..k]` ended by a line break, as (start, end) byte offsets
/// with the line break excluded.
pub open spec fn closed_lines(b: Seq<u8>, k: int) -> Seq<(usize, usize)>
    decreases k,
{
    if k <= 0 {
        Seq::empty()
    } else if b[k - 1] == NEWLINE {
        closed_lines(b, k - 1).push((line_start(b, k - 1) as usize, (k - 1) as usize))
    } else {
        closed_lines(b, k - 1)
    }
}

/// Where the line that contains offset `k` starts: just after the last
/// line break before `k`, or 0.
pub open spec fn line_start(b: Seq<u8>, k: int) -> int
    decreases k,
{
    if k <= 0 {
        0
    } else if b[k - 1] == NEWLINE {
        k
    } else {
        line_start(b, k - 1)
    }
}

/// The (start, end) byte offsets of every line of `b`, line breaks
/// excluded; a last line without a line break counts when it is not empty.
pub open spec fn line_offsets(b: Seq<u8>) -> Seq<(usize, usize)> {
    let n = b.len() as int;
    if line_start(b, n) < n {
        closed_lines(b, n).push((line_start(b, n) as usize, n as usize))
    } else {
        closed_lines(b, n)
    }
}

proof fn lemma_line_start_bounds(b: Seq<u8>, k: int)
    requires
        0 <= k <= b.len(),
    ensures
        0 <= line_start(b, k) <= k,
        forall|j: int| line_start(b, k) <= j < k ==> #[trigger] b[j] != NEWLINE,
    decreases k,
{
    if k > 0 {
        lemma_line_start_bounds(b, k - 1);
    }
}

/// The byte offsets of the lines of a text (given as its UTF-8 bytes; a
/// line break byte only ever encodes a line break).
pub fn compute_line_offsets(content: &[u8]) -> (offsets: Vec<(usize, usize)>)
    ensures
        offsets@ == line_offsets(content@),
        forall|i: int|
            0 <= i < offsets.len() ==> {
                &&& (#[trigger] offsets[i]).0 <= offsets[i].1 <= content.len()
                &&& forall|j: int|
                    offsets[i].0 <= j < offsets[i].1 ==> #[trigger] content[j] != NEWLINE
            },
{
    let mut offsets: Vec<(usize, usize)> = Vec::new();
    let mut start: usize = 0;
    let mut i: usize = 0;
    while i < content.len()
        invariant
            i <= content.len(),
            start == line_start(content@, i as int),
            offsets@ == closed_lines(content@, i as int),
            forall|x: int|
                0 <= x < offsets.len() ==> {
                    &&& (#[trigger] offsets[x]).0 <= offsets[x].1 < i
                    &&& forall|j: int|
                        offsets[x].0 <= j < offsets[x].1 ==> #[trigger] content[j] != NEWLINE
                },
        decreases content.len() - i,
    {
        proof {
            lemma_line_start_bounds(content@, i as int);
        }
        if content[i] == NEWLINE {
            offsets.push((start, i));
            start = i + 1;
        }
        i += 1;
    }
    proof {
        lemma_line_start_bounds(content@, content.len() as int);
    }
    if start < content.len() {
        offsets.push((start, content.len()));
    }
    offsets
}

/// `needle` occurs in `hay` starting at `i`.
pub open spec fn occurs_at(hay: Seq<u8>, needle: Seq<u8>, i: int) -> bool {
    0 <= i && i + needle.len() <= hay.len() && hay.subrange(i, i + needle.len()) == needle
}

/// `needle` occurs somewhere in `hay` (the empty needle always does).
pub open spec fn contains_bytes(hay: Seq<u8>, needle: Seq<u8>) -> bool {
    exists|i: int| #[trigger] occurs_at(hay, needle, i)
}

/// Whether `needle` occurs in `hay[start..end]`.
pub fn slice_contains(hay: &[u8], start: usize, end: usize, needle: &[u8]) -> (r: bool)
    requires
        start <= end <= hay.len(),
    ensures
        r == contains_bytes(hay@.subrange(start as int, end as int), needle@),
{
    let ghost h = hay@.subrange(start as int, end as int);
    if needle.len() > end - start {
        assert forall|i: int| !#[trigger] occurs_at(h, needle@, i) by {}
        return false;
    }
    let last = end - start - needle.len();
    let mut i: usize = 0;
    while i <= last
        invariant
            h == hay@.subrange(start as int, end as int),
            start <= end <= hay.len(),
            last == end - start - needle.len(),
            i <= last + 1,
            forall|x: int| 0 <= x < i ==> !#[trigger] occurs_at(h, needle@, x),
        decreases last + 1 - i,
    {
        let mut j: usize = 0;
        let mut same = true;
        while j < needle.len()
            invariant
                h == hay@.subrange(start as int, end as int),
                start <= end <= hay.len(),
                i <= last,
                last == end - start - needle.len(),
                j <= needle.len(),
                same == forall|y: int| 0 <= y < j ==> h[i + y] == needle[y],
            decreases needle.len() - j,
        {
            if hay[start + i + j] != needle[j] {
                same = false;
            }
            j += 1;
        }
        if same {
            assert(h.subrange(i as int, i + needle.len()) =~= needle@);
            assert(occurs_at(h, needle@, i as int));
            return true;
        }
        assert(!occurs_at(h, needle@, i as int)) by {
            if h.subrange(i as int, i + needle.len()) =~= needle@ {
                let y = choose|y: int| 0 <= y < needle.len() && h[i + y] != needle[y];
                assert(h.subrange(i as int, i + needle.len())[y] == h[i + y]);
            }
        }
        i += 1;
    }
    assert forall|x: int| !#[trigger] occurs_at(h, needle@, x) by {
        if 0 <= x <= last {
        }
    }
    false
}

/// Some term occurs in `hay`.
pub open spec fn any_term_occurs(hay: Seq<u8>, terms: Seq<Seq<u8>>) -> bool {
    exists|t: int| 0 <= t < terms.len() && contains_bytes(hay, #[trigger] terms[t])
}

/// The line `(s, e)` of `content` holds one of the terms.
pub open spec fn line_matches(content: Seq<u8>, line: (usize, usize), terms: Seq<Seq<u8>>) -> bool {
    any_term_occurs(content.subrange(line.0 as int, line.1 as int), terms)
}

/// The bytes of each byte vector.
pub open spec fn byte_views(v: Seq<Vec<u8>>) -> Seq<Seq<u8>> {
    v.map_values(|t: Vec<u8>| t@)
}

/// The indices of the first `k` lines that hold at least one of the terms,
/// in order.
pub open spec fn matching_line_indices(content: Seq<u8>, lines: Seq<(usize, usize)>, terms: Seq<Seq<u8>>, k: int) -> Seq<usize>
    decreases k,
{
    if k <= 0 {
        Seq::empty()
    } else if line_matches(content, lines[k - 1], terms) {
        matching_line_indices(content, lines, terms, k - 1).push((k - 1) as usize)
    } else {
        matching_line_indices(content, lines, terms, k - 1)
    }
}

/// Which lines of a file hold at least one search term (byte-wise substring
/// search; an empty term matches every line).
pub fn matching_lines(content: &[u8], lines: &[(usize, usize)], terms: &Vec<Vec<u8>>) -> (r: Vec<usize>)
    requires
        forall|i: int| 0 <= i < lines.len() ==> (#[trigger] lines[i]).0 <= lines[i].1 <= content.len(),
    ensures
        r@ == matching_line_indices(content@, lines@, byte_views(terms@), lines.len() as int),
{
    let mut r: Vec<usize> = Vec::new();
    let mut li: usize = 0;
    while li < lines.len()
        invariant
            li <= lines.len(),
            forall|i: int| 0 <= i < lines.len() ==> (#[trigger] lines[i]).0 <= lines[i].1 <= content.len(),
            r@ == matching_line_indices(content@, lines@, byte_views(terms@), li as int),
        decreases lines.len() - li,
    {
        let (s, e) = lines[li];
        let mut found = false;
        let mut t: usize = 0;
        while t < terms.len()
            invariant
                t <= terms.len(),
                s <= e <= content.len(),
                found == exists|x: int| 0 <= x < t && contains_bytes(
                    content@.subrange(s as int, e as int),
                    #[trigger] byte_views(terms@)[x],
                ),
            decreases terms.len() - t,
        {
            assert(byte_views(terms@)[t as int] == terms@[t as int]@);
            if !found {
                if slice_contains(content, s, e, terms[t].as_slice()) {
                    found = true;
                }
            }
            t += 1;
        }
        if found {
            r.push(li);
        }
        li += 1;
    }
    r
}

/// The first line shown before a match on line `line_idx`.
pub open spec fn context_first(line_idx: int, context_lines: int) -> int {
    if line_idx >= context_lines {
        line_idx - context_lines
    } else {
        0
    }
}

/// The lines shown before a match on line `line_idx`: up to
/// `context_lines` of them, ascending, ending just before it.
pub open spec fn context_before(line_idx: int, context_lines: int) -> Seq<usize> {
    let first = context_first(line_idx, context_lines);
    Seq::new((line_idx - first) as nat, |k: int| (k + first) as usize)
}

/// The lines shown after a match on line `line_idx` of a file of
/// `num_lines` lines: up to `context_lines` of them, ascending, starting
/// just after it.
pub open spec fn context_after(line_idx: int, context_lines: int, num_lines: int) -> Seq<usize> {
    let count = if line_idx + context_lines < num_lines {
        context_lines
    } else {
        num_lines - 1 - line_idx
    };
    Seq::new(count as nat, |k: int| (line_idx + 1 + k) as usize)
}

/// The context lines shown around the match on line `line_idx` of a file of
/// `num_lines` lines: up to `context_lines` lines before it and after it, as
/// ascending line indices.
pub fn context_window(line_idx: usize, context_lines: usize, num_lines: usize) -> (r: (Vec<usize>, Vec<usize>))
    requires
        line_idx < num_lines,
        line_idx + context_lines + 1 <= usize::MAX,
    ensures
        r.0@ == context_before(line_idx as int, context_lines as int),
        r.1@ == context_after(line_idx as int, context_lines as int, num_lines as int),
{
    let mut before: Vec<usize> = Vec::new();
    // Offsets `context_lines, ..., 1` before the match, nearest last.
    let mut i: usize = context_lines;
    let first = if line_idx >= context_lines {
        line_idx - context_lines
    } else {
        0
    };
    while i > 0
        invariant
            i <= context_lines,
            first == if line_idx >= context_lines {
                line_idx - context_lines
            } else {
                0
            },
            before@ == Seq::new(
                (if line_idx >= i {
                    line_idx - i
                } else {
                    0
                } - first) as nat,
                |k: int| (k + first) as usize,
            ),
        decreases i,
    {
        if line_idx >= i {
            before.push(line_idx - i);
        }
        i -= 1;
        assert(before@ =~= Seq::new(
            (if line_idx >= i {
                line_idx - i
            } else {
                0
            } - first) as nat,
            |k: int| (k + first) as usize,
        ));
    }
    assert(before@ =~= Seq::new((line_idx - first) as nat, |k: int| (k + first) as usize));
    let mut after: Vec<usize> = Vec::new();
    let mut j: usize = 1;
    while j <= context_lines
        invariant
            line_idx < num_lines,
            line_idx + context_lines + 1 <= usize::MAX,
            1 <= j <= context_lines + 1,
            after@ == Seq::new(
                (if line_idx + j - 1 < num_lines {
                    j - 1
                } else {
                    num_lines - 1 - line_idx
                }) as nat,
                |k: int| (line_idx + 1 + k) as usize,
            ),
        decreases context_lines + 1 - j,
    {
        let ctx_idx = line_idx + j;
        if ctx_idx < num_lines {
            after.push(ctx_idx);
        }
        j += 1;
        assert(after@ =~= Seq::new(
            (if line_idx + j - 1 < num_lines {
                j - 1
            } else {
                num_lines - 1 - line_idx
            }) as nat,
            |k: int| (line_idx + 1 + k) as usize,
        ));
    }
    (before, after)
}

/// The unit a byte count is reported in.
#[derive(Debug, Clone, Copy, PartialEq, Eq, Structural)]
pub enum SizeUnit {
    Bytes,
    Kilobytes,
    Megabytes,
    Gigabytes,
}

/// The unit a size report uses: the largest binary unit that the count
/// reaches (bytes below one kilobyte).
pub fn size_unit(bytes: u64) -> (u: SizeUnit)
    ensures
        bytes >= 1024 * 1024 * 1024 ==> u == SizeUnit::Gigabytes,
        1024 * 1024 <= bytes < 1024 * 1024 * 1024 ==> u == SizeUnit::Megabytes,
        1024 <= bytes < 1024 * 1024 ==> u == SizeUnit::Kilobytes,
        bytes < 1024 ==> u == SizeUnit::Bytes,
{
    let kb: u64 = 1024;
    let mb: u64 = kb * 1024;
    let gb: u64 = mb * 1024;
    if bytes >= gb {
        SizeUnit::Gigabytes
    } else if bytes >= mb {
        SizeUnit::Megabytes
    } else if bytes >= kb {
        SizeUnit::Kilobytes
    } else {
        SizeUnit::Bytes
    }
}

/// Whether streaming display stops after `match_count` matches when at most
/// `max_results` are wanted (0 means no limit).
pub fn display_limit_reached(match_count: usize, max_results: usize) -> (r: bool)
    ensures
        r == (max_results > 0 && match_count >= max_results),
{
    max_results > 0 && match_count >= max_results
}

/// A line that holds a search term, with the context lines shown around it
/// (all as 0-based line indices).
pub struct LineMatch {
    pub line_index: usize,
    pub before: Vec<usize>,
    pub after: Vec<usize>,
}

/// The text that is searched: the file's content, lowercased when case is
/// ignored, as UTF-8 bytes.
pub open spec fn search_haystack(content: Seq<char>, ignore_case: bool) -> Seq<u8> {
    encode_utf8(if ignore_case { lowercase_chars(content) } else { content })
}

/// The byte strings searched for: the query's terms, lowercased when case is
/// ignored, as UTF-8 bytes.
pub open spec fn search_needles(query: Seq<char>, ignore_case: bool) -> Seq<Seq<u8>> {
    query_terms(query).map_values(
        |t: Seq<char>| encode_utf8(if ignore_case { lowercase_chars(t) } else { t }),
    )
}

/// A line's byte range can be cut out of the searched text: it is in order,
/// in bounds, and both ends fall on character boundaries.
pub open spec fn line_cuttable(hay: Seq<u8>, line: (usize, usize)) -> bool {
    line.0 <= line.1 <= hay.len() && is_char_boundary(hay, line.0 as int) && is_char_boundary(
        hay,
        line.1 as int,
    )
}

/// Every line's byte range can be cut out of the searched text.
pub open spec fn all_lines_cuttable(hay: Seq<u8>, lines: Seq<(usize, usize)>) -> bool {
    forall|i: int| 0 <= i < lines.len() ==> line_cuttable(hay, #[trigger] lines[i])
}

/// The matches `find_matches_in_file` reports: one per line that holds a
/// needle, in line order, each with its context lines.
pub open spec fn reported_matches(
    ms: Seq<LineMatch>,
    hay: Seq<u8>,
    lines: Seq<(usize, usize)>,
    needles: Seq<Seq<u8>>,
    context_lines: int,
) -> bool {
    let idx = matching_line_indices(hay, lines, needles, lines.len() as int);
    &&& ms.len() == idx.len()
    &&& forall|k: int|
        0 <= k < ms.len() ==> {
            &&& (#[trigger] ms[k]).line_index == idx[k]
            &&& ms[k].before@ == context_before(idx[k] as int, context_lines)
            &&& ms[k].after@ == context_after(idx[k] as int, context_lines, lines.len() as int)
        }
}

proof fn lemma_matching_indices_bounds(
    content: Seq<u8>,
    lines: Seq<(usize, usize)>,
    terms: Seq<Seq<u8>>,
    k: int,
)
    requires
        0 <= k <= lines.len(),
    ensures
        forall|i: int|
            0 <= i < matching_line_indices(content, lines, terms, k).len() ==> #[trigger] matching_line_indices(
                content,
                lines,
                terms,
                k,
            )[i] < k,
    decreases k,
{
    if k > 0 {
        lemma_matching_indices_bounds(content, lines, terms, k - 1);
        let prev = matching_line_indices(content, lines, terms, k - 1);
        assert forall|i: int|
            0 <= i < matching_line_indices(content, lines, terms, k).len() implies #[trigger] matching_line_indices(
            content,
            lines,
            terms,
            k,
        )[i] < k by {
            if i < prev.len() {
                assert(prev[i] < k - 1);
            }
        }
    }
}

/// The lines of a file that hold a term of the query, each with its context
/// lines. `lines` are the byte ranges of the file's lines. When case is
/// ignored, the file and the terms are lowercased first and the same byte
/// ranges are cut out of the lowercased text. A query without terms matches
/// nothing. `None` when the query has terms and some line's byte range cannot
/// be cut out of the searched text.
pub fn find_matches_in_file(
    content: &str,
    lines: &Vec<(usize, usize)>,
    query: &str,
    context_lines: usize,
    ignore_case: bool,
) -> (r: Option<Vec<LineMatch>>)
    requires
        lines.len() + context_lines < usize::MAX,
    ensures
        r is None <==> query_terms(query@).len() > 0 && !all_lines_cuttable(
            search_haystack(content@, ignore_case),
            lines@,
        ),
        r matches Some(ms) ==> reported_matches(
            ms@,
            search_haystack(content@, ignore_case),
            lines@,
            search_needles(query@, ignore_case),
            context_lines as int,
        ),
{
    let terms = search_terms(query);
    let ghost needles = search_needles(query@, ignore_case);
    let ghost hay_spec = search_haystack(content@, ignore_case);
    let mut matches: Vec<LineMatch> = Vec::new();
    if terms.len() == 0 {
        assert(matching_line_indices(hay_spec, lines@, needles, lines.len() as int) =~= Seq::empty()) by {
            lemma_no_needles(hay_spec, lines@, needles, lines.len() as int);
        }
        return Some(matches);
    }
    let lowered: String = if ignore_case {
        to_lowercase(content)
    } else {
        String::from_str(content)
    };
    let hay = lowered.as_str();
    let hay_bytes = hay.as_bytes();
    assert(hay_bytes@ == hay_spec);
    assert(query_terms(query@).len() > 0) by {
        assert(crate::text::views(terms@).len() == terms@.len());
    }
    let mut needle_bytes: Vec<Vec<u8>> = Vec::new();
    let mut t: usize = 0;
    while t < terms.len()
        invariant
            t <= terms.len(),
            crate::text::views(terms@) == query_terms(query@),
            needles == search_needles(query@, ignore_case),
            needle_bytes@.len() == t,
            forall|x: int| 0 <= x < t ==> (#[trigger] needle_bytes@[x])@ == needles[x],
        decreases terms.len() - t,
    {
        assert(crate::text::views(terms@)[t as int] == terms@[t as int]@);
        let b = if ignore_case {
            to_lowercase(terms[t].as_str()).as_str().as_bytes_vec()
        } else {
            terms[t].as_str().as_bytes_vec()
        };
        needle_bytes.push(b);
        t += 1;
    }
    assert(byte_views(needle_bytes@) =~= needles);
    let mut li: usize = 0;
    while li < lines.len()
        invariant
            li <= lines.len(),
            hay_bytes@ == hay_spec,
            hay.spec_bytes() == hay_spec,
            hay_spec == search_haystack(content@, ignore_case),
            query_terms(query@).len() > 0,
            forall|i: int| 0 <= i < li ==> line_cuttable(hay_spec, #[trigger] lines@[i]),
        decreases lines.len() - li,
    {
        let (s, e) = lines[li];
        if !(s <= e && e <= hay_bytes.len() && hay.is_char_boundary(s) && hay.is_char_boundary(e)) {
            return None;
        }
        li += 1;
    }
    assert(all_lines_cuttable(hay_spec, lines@));
    let idx = matching_lines(hay_bytes, lines.as_slice(), &needle_bytes);
    proof {
        lemma_matching_indices_bounds(hay_spec, lines@, needles, lines.len() as int);
    }
    let mut k: usize = 0;
    while k < idx.len()
        invariant
            k <= idx.len(),
            idx@ == matching_line_indices(hay_spec, lines@, needles, lines.len() as int),
            forall|i: int| 0 <= i < idx.len() ==> #[trigger] idx@[i] < lines.len(),
            lines.len() + context_lines < usize::MAX,
            matches@.len() == k,
            forall|j: int|
                0 <= j < k ==> {
                    &&& (#[trigger] matches@[j]).line_index == idx@[j]
                    &&& matches@[j].before@ == context_before(idx@[j] as int, context_lines as int)
                    &&& matches@[j].after@ == context_after(
                        idx@[j] as int,
                        context_lines as int,
                        lines.len() as int,
                    )
                },
        decreases idx.len() - k,
    {
        let line_index = idx[k];
        assert(idx@[k as int] < lines.len());
        let (before, after) = context_window(line_index, context_lines, lines.len());
        matches.push(LineMatch { line_index, before, after });
        k += 1;
    }
    Some(matches)
}

proof fn lemma_no_needles(content: Seq<u8>, lines: Seq<(usize, usize)>, terms: Seq<Seq<u8>>, k: int)
    requires
        terms.len() == 0,
    ensures
        matching_line_indices(content, lines, terms, k) =~= Seq::empty(),
    decreases k,
{
    if k > 0 {
        lemma_no_needles(content, lines, terms, k - 1);
    }
}

/// The indices, ascending, of the first `k` files whose depth is `d`.
pub open spec fn depth_indices(depths: Seq<usize>, d: usize, k: int) -> Seq<usize>
    decreases k,
{
    if k <= 0 {
        Seq::empty()
    } else if depths[k - 1] == d {
        depth_indices(depths, d, k - 1).push((k - 1) as usize)
    } else {
        depth_indices(depths, d, k - 1)
    }
}

/// `groups` holds the files grouped by directory depth: one group per depth
/// that occurs, shallowest first, each with the indices of its files in
/// their original order.
pub open spec fn grouped_by_depth(depths: Seq<usize>, groups: Seq<(usize, Vec<usize>)>) -> bool {
    &&& forall|g: int, h: int| 0 <= g < h < groups.len() ==> (#[trigger] groups[g]).0 < (#[trigger] groups[h]).0
    &&& forall|i: int| 0 <= i < depths.len() ==> #[trigger] has_group(groups, depths[i])
    &&& forall|g: int| 0 <= g < groups.len() ==> #[trigger] depth_occurs(depths, groups[g].0)
    &&& forall|g: int| 0 <= g < groups.len() ==> (#[trigger] groups[g]).1@ == depth_indices(depths, groups[g].0, depths.len() as int)
}

/// Some file has depth `d`.
pub open spec fn depth_occurs(depths: Seq<usize>, d: usize) -> bool {
    exists|i: int| 0 <= i < depths.len() && depths[i] == d
}

/// Some group has key `d`.
pub open spec fn has_group(groups: Seq<(usize, Vec<usize>)>, d: usize) -> bool {
    exists|g: int| 0 <= g < groups.len() && groups[g].0 == d
}

/// Every depth of a file that is at most `bound` has a group.
pub open spec fn depths_covered(depths: Seq<usize>, groups: Seq<(usize, Vec<usize>)>, bound: int) -> bool {
    forall|i: int| 0 <= i < depths.len() && depths[i] <= bound ==> #[trigger] has_group(groups, depths[i])
}

/// The groups built so far: keys ascending, each key a file's depth, each
/// list the indices of the files of that depth.
pub open spec fn groups_so_far(depths: Seq<usize>, groups: Seq<(usize, Vec<usize>)>) -> bool {
    &&& forall|g: int, h: int| 0 <= g < h < groups.len() ==> (#[trigger] groups[g]).0 < (#[trigger] groups[h]).0
    &&& forall|g: int| 0 <= g < groups.len() ==> #[trigger] depth_occurs(depths, groups[g].0)
    &&& forall|g: int| 0 <= g < groups.len() ==> (#[trigger] groups[g]).1@ == depth_indices(depths, groups[g].0, depths.len() as int)
}

proof fn lemma_group_keys(g0: Seq<(usize, Vec<usize>)>, e: (usize, Vec<usize>), last: Option<usize>)
    requires
        forall|g: int, h: int| 0 <= g < h < g0.len() ==> (#[trigger] g0[g]).0 < (#[trigger] g0[h]).0,
        last is None <==> g0.len() == 0,
        last matches Some(l) ==> l == g0[g0.len() - 1].0 && e.0 > l,
    ensures
        forall|g: int, h: int|
            0 <= g < h < g0.push(e).len() ==> (#[trigger] g0.push(e)[g]).0 < (#[trigger] g0.push(e)[h]).0,
{
    let gs = g0.push(e);
    assert forall|g: int, h: int| 0 <= g < h < gs.len() implies (#[trigger] gs[g]).0 < (#[trigger] gs[h]).0 by {
        if h == g0.len() {
            assert(g0[g].0 <= g0[g0.len() - 1].0) by {
                if g < g0.len() - 1 {
                    assert(g0[g].0 < g0[g0.len() - 1].0);
                }
            }
        } else {
            assert(gs[g] == g0[g] && gs[h] == g0[h]);
        }
    }
}

proof fn lemma_group_occurs(depths: Seq<usize>, g0: Seq<(usize, Vec<usize>)>, e: (usize, Vec<usize>), w: int)
    requires
        forall|g: int| 0 <= g < g0.len() ==> #[trigger] depth_occurs(depths, g0[g].0),
        0 <= w < depths.len(),
        depths[w] == e.0,
    ensures
        forall|g: int| 0 <= g < g0.push(e).len() ==> #[trigger] depth_occurs(depths, g0.push(e)[g].0),
{
    let gs = g0.push(e);
    assert forall|g: int| 0 <= g < gs.len() implies #[trigger] depth_occurs(depths, gs[g].0) by {
        if g < g0.len() {
            assert(gs[g] == g0[g]);
            assert(depth_occurs(depths, g0[g].0));
        } else {
            assert(gs[g].0 == depths[w]);
        }
    }
}

proof fn lemma_group_lists(depths: Seq<usize>, g0: Seq<(usize, Vec<usize>)>, e: (usize, Vec<usize>))
    requires
        forall|g: int| 0 <= g < g0.len() ==> (#[trigger] g0[g]).1@ == depth_indices(depths, g0[g].0, depths.len() as int),
        e.1@ == depth_indices(depths, e.0, depths.len() as int),
    ensures
        forall|g: int| 0 <= g < g0.push(e).len() ==> (#[trigger] g0.push(e)[g]).1@ == depth_indices(depths, g0.push(e)[g].0, depths.len() as int),
{
    let gs = g0.push(e);
    assert forall|g: int| 0 <= g < gs.len() implies (#[trigger] gs[g]).1@ == depth_indices(depths, gs[g].0, depths.len() as int) by {
        if g < g0.len() {
            assert(gs[g] == g0[g]);
        }
    }
}

proof fn lemma_group_cover(depths: Seq<usize>, g0: Seq<(usize, Vec<usize>)>, e: (usize, Vec<usize>), last: Option<usize>)
    requires
        last matches Some(l) ==> depths_covered(depths, g0, l as int),
        forall|j: int| 0 <= j < depths.len() && above_last(depths[j], last) ==> e.0 <= #[trigger] depths[j],
    ensures
        depths_covered(depths, g0.push(e), e.0 as int),
{
    let gs = g0.push(e);
    assert forall|i: int| 0 <= i < depths.len() && depths[i] <= e.0 implies #[trigger] has_group(gs, depths[i]) by {
        if !above_last(depths[i], last) {
            let l = last->0;
            assert(depths_covered(depths, g0, l as int));
            assert(depths[i] <= l);
            assert(has_group(g0, depths[i]));
            let g = choose|g: int| 0 <= g < g0.len() && g0[g].0 == depths[i];
            assert(gs[g] == g0[g]);
        } else {
            assert(e.0 <= depths[i]);
            assert(gs[g0.len() as int].0 == depths[i]);
        }
    }
}

/// Group files by their directory depth below the search root, for
/// searching the shallowest files first.
pub fn group_by_depth(depths: &Vec<usize>) -> (groups: Vec<(usize, Vec<usize>)>)
    ensures
        grouped_by_depth(depths@, groups@),
{
    let mut groups: Vec<(usize, Vec<usize>)> = Vec::new();
    let mut last: Option<usize> = None;
    loop
        invariant
            last is None <==> groups.len() == 0,
            last matches Some(l) ==> l == groups@[groups.len() - 1].0,
            groups_so_far(depths@, groups@),
            last matches Some(l) ==> depths_covered(depths@, groups@, l as int),
        ensures
            grouped_by_depth(depths@, groups@),
        decreases (match last { Some(l) => usize::MAX - l, None => usize::MAX + 1 }),
    {
        match smallest_depth_above(depths, last) {
            None => {
                proof {
                    lemma_group_finish(depths@, groups@, last);
                }
                break;
            },
            Some(best) => {
                let ghost witness = choose|j: int| 0 <= j < depths.len() && depths@[j] == best;
                assert(0 <= witness < depths.len() && depths@[witness] == best);
                let idx = indices_of_depth(depths, best);
                let ghost g0 = groups@;
                let entry = (best, idx);
                proof {
                    lemma_group_keys(g0, entry, last);
                    lemma_group_occurs(depths@, g0, entry, witness);
                    lemma_group_lists(depths@, g0, entry);
                    lemma_group_cover(depths@, g0, entry, last);
                }
                groups.push(entry);
                assert(groups@ == g0.push(entry));
                last = Some(best);
            },
        }
    }
    groups
}

proof fn lemma_group_finish(depths: Seq<usize>, groups: Seq<(usize, Vec<usize>)>, last: Option<usize>)
    requires
        last is None <==> groups.len() == 0,
        groups_so_far(depths, groups),
        last matches Some(l) ==> depths_covered(depths, groups, l as int),
        forall|j: int| 0 <= j < depths.len() ==> !above_last(#[trigger] depths[j], last),
    ensures
        grouped_by_depth(depths, groups),
{
    assert forall|i: int| 0 <= i < depths.len() implies #[trigger] has_group(groups, depths[i]) by {
        assert(!above_last(depths[i], last));
    }
}

/// `d` is above the last group's depth (any depth is, before the first
/// group).
pub open spec fn above_last(d: usize, last: Option<usize>) -> bool {
    match last {
        Some(l) => d > l,
        None => true,
    }
}

/// The smallest depth above `last` (any depth when `last` is `None`), if
/// there is one.
fn smallest_depth_above(depths: &Vec<usize>, last: Option<usize>) -> (r: Option<usize>)
    ensures
        r matches Some(b) ==> {
            &&& depth_occurs(depths@, b)
            &&& last matches Some(l) ==> b > l
            &&& forall|j: int| 0 <= j < depths.len() && above_last(depths@[j], last) ==> b <= #[trigger] depths@[j]
        },
        r is None ==> forall|j: int| 0 <= j < depths.len() ==> !above_last(#[trigger] depths@[j], last),
{
    let mut found = false;
    let mut best: usize = 0;
    let mut i: usize = 0;
    while i < depths.len()
        invariant
            i <= depths.len(),
            found ==> exists|j: int| 0 <= j < i && depths@[j] == best,
            found ==> (last matches Some(l) ==> best > l),
            forall|j: int| 0 <= j < i && above_last(depths@[j], last) ==> found && best <= #[trigger] depths@[j],
        decreases depths.len() - i,
    {
        let d = depths[i];
        let above = match last {
            Some(l) => d > l,
            None => true,
        };
        if above && (!found || d < best) {
            found = true;
            best = d;
        }
        i += 1;
    }
    if found {
        Some(best)
    } else {
        assert forall|j: int| 0 <= j < depths.len() implies !above_last(#[trigger] depths@[j], last) by {
            if above_last(depths@[j], last) {
                assert(found);
            }
        }
        None
    }
}

/// The indices, ascending, of the files whose depth is `d`.
fn indices_of_depth(depths: &Vec<usize>, d: usize) -> (idx: Vec<usize>)
    ensures
        idx@ == depth_indices(depths@, d, depths.len() as int),
{
    let mut idx: Vec<usize> = Vec::new();
    let mut k: usize = 0;
    while k < depths.len()
        invariant
            k <= depths.len(),
            idx@ == depth_indices(depths@, d, k as int),
        decreases depths.len() - k,
    {
        if depths[k] == d {
            idx.push(k);
        }
        k += 1;
    }
    idx
}

/// How many hits an index search asks for: `max_results`, or 10000 when it
/// is 0 (no limit).
pub fn result_limit(max_results: usize) -> (r: usize)
    ensures
        r == if max_results == 0 {
            10000
        } else {
            max_results
        },
{
    if max_results == 0 {
        10000
    } else {
        max_results
    }
}

/// The starts of the non-overlapping occurrences of `needle` in `hay` at or
/// after `i`, each found leftmost after the end of the previous one.
pub open spec fn match_starts_from(hay: Seq<u8>, needle: Seq<u8>, i: int) -> Seq<usize>
    decreases hay.len() - i,
{
    if needle.len() == 0 || i < 0 || i + needle.len() > hay.len() {
        Seq::empty()
    } else if occurs_at(hay, needle, i) {
        seq![i as usize] + match_starts_from(hay, needle, i + needle.len())
    } else {
        match_starts_from(hay, needle, i + 1)
    }
}

/// Where a term is highlighted in a line: the starts of its non-overlapping
/// occurrences, left to right.
pub fn match_starts(hay: &[u8], needle: &[u8]) -> (r: Vec<usize>)
    requires
        needle.len() > 0,
    ensures
        r@ == match_starts_from(hay@, needle@, 0),
{
    let mut r: Vec<usize> = Vec::new();
    let mut i: usize = 0;
    while needle.len() <= hay.len() - i
        invariant
            needle.len() > 0,
            i <= hay.len(),
            r@ + match_starts_from(hay@, needle@, i as int) == match_starts_from(hay@, needle@, 0),
        decreases hay.len() - i,
    {
        let mut j: usize = 0;
        let mut same = true;
        while j < needle.len()
            invariant
                i + needle.len() <= hay.len(),
                j <= needle.len(),
                same == forall|y: int| 0 <= y < j ==> hay@[i + y] == needle@[y],
            decreases needle.len() - j,
        {
            if hay[i + j] != needle[j] {
                same = false;
            }
            j += 1;
        }
        assert(same == occurs_at(hay@, needle@, i as int)) by {
            if same {
                assert(hay@.subrange(i as int, i + needle.len()) =~= needle@);
            } else if hay@.subrange(i as int, i + needle.len()) =~= needle@ {
                let y = choose|y: int| 0 <= y < needle.len() && hay@[i + y] != needle@[y];
                assert(hay@.subrange(i as int, i + needle.len())[y] == hay@[i + y]);
            }
        }
        if same {
            r.push(i);
            assert(r@ + match_starts_from(hay@, needle@, i + needle.len()) =~= match_starts_from(hay@, needle@, 0)) by {
                assert(r@.drop_last() + match_starts_from(hay@, needle@, i as int) == match_starts_from(hay@, needle@, 0));
                assert(r@ =~= r@.drop_last().push(i as usize));
                assert(r@.drop_last() + (seq![i as usize] + match_starts_from(hay@, needle@, i + needle.len())) =~= r@ + match_starts_from(hay@, needle@, i + needle.len()));
            }
            i = i + needle.len();
        } else {
            i = i + 1;
        }
    }
    assert(match_starts_from(hay@, needle@, i as int) =~= Seq::<usize>::empty());
    assert(r@ =~= r@ + Seq::<usize>::empty());
    r
}

/// Around a match on line `line_idx`, the lines shown before it are the
/// `min(line_idx, context_lines)` lines just before it, and the lines shown
/// after it the `min(context_lines, num_lines - 1 - line_idx)` lines just
/// after it, both in ascending order.
pub proof fn lemma_context_lines(line_idx: int, context_lines: int, num_lines: int)
    requires
        0 <= line_idx < num_lines <= usize::MAX,
        0 <= context_lines,
    ensures
        context_before(line_idx, context_lines).len() == if line_idx < context_lines {
            line_idx
        } else {
            context_lines
        },
        forall|k: int|
            0 <= k < context_before(line_idx, context_lines).len() ==> #[trigger] context_before(
                line_idx,
                context_lines,
            )[k] == line_idx - context_before(line_idx, context_lines).len() + k,
        context_after(line_idx, context_lines, num_lines).len() == if context_lines < num_lines - 1
            - line_idx {
            context_lines
        } else {
            num_lines - 1 - line_idx
        },
        forall|k: int|
            0 <= k < context_after(line_idx, context_lines, num_lines).len() ==> #[trigger] context_after(
                line_idx,
                context_lines,
                num_lines,
            )[k] == line_idx + 1 + k,
{
}

} // verus!
