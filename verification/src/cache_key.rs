//! The key under which a search index is cached: the file list sorted by
//! path, the bytes that describe the search parameters and the files, and
//! their BLAKE3 digest in lowercase hexadecimal.
use vstd::prelude::*;
use vstd::bytes::spec_u64_to_le_bytes;
use vstd::utf8::encode_utf8;
use crate::bwt_laws::{lex_lt, lemma_lex_irreflexive, lemma_lex_asymmetric, lemma_lex_total, lemma_lex_transitive};
use crate::le_bytes::push_le64;

verus! {

broadcast use vstd::seq_lib::group_to_multiset_ensures;

/// What the cache key records of one file.
pub struct FileMeta {
    pub path: String,
    pub size: u64,
    /// Seconds since the UNIX epoch.
    pub modified: u64,
}

/// The UTF-8 bytes of a file's path, by which files are ordered.
pub open spec fn path_key(m: FileMeta) -> Seq<u8> {
    encode_utf8(m.path@)
}

/// The files are in ascending byte order of their paths.
pub open spec fn sorted_by_path(ms: Seq<FileMeta>) -> bool {
    forall|i: int, j: int| 0 <= i < j < ms.len() ==> !lex_lt(path_key(ms[j]), path_key(ms[i]))
}

proof fn lemma_lex_skip(a: Seq<u8>, b: Seq<u8>, i: int)
    requires
        0 <= i <= a.len(),
        i <= b.len(),
        a.subrange(0, i) == b.subrange(0, i),
    ensures
        lex_lt(a, b) == lex_lt(a.skip(i), b.skip(i)),
    decreases i,
{
    if i == 0 {
        assert(a.skip(0) =~= a);
        assert(b.skip(0) =~= b);
    } else {
        assert(a[0] == a.subrange(0, i)[0]);
        assert(b[0] == b.subrange(0, i)[0]);
        assert(a.drop_first().subrange(0, i - 1) =~= a.subrange(0, i).drop_first());
        assert(b.drop_first().subrange(0, i - 1) =~= b.subrange(0, i).drop_first());
        lemma_lex_skip(a.drop_first(), b.drop_first(), i - 1);
        assert(a.drop_first().skip(i - 1) =~= a.skip(i));
        assert(b.drop_first().skip(i - 1) =~= b.skip(i));
    }
}

/// Whether `a` comes strictly before `b` in byte-wise lexicographic order.
pub fn bytes_before(a: &[u8], b: &[u8]) -> (r: bool)
    ensures
        r == lex_lt(a@, b@),
{
    let mut i: usize = 0;
    while i < a.len() && i < b.len()
        invariant
            i <= a.len(),
            i <= b.len(),
            a@.subrange(0, i as int) == b@.subrange(0, i as int),
        decreases a.len() - i,
    {
        if a[i] != b[i] {
            proof {
                lemma_lex_skip(a@, b@, i as int);
                assert(a@.skip(i as int)[0] == a[i as int]);
                assert(b@.skip(i as int)[0] == b[i as int]);
            }
            return a[i] < b[i];
        }
        assert(a@.subrange(0, i + 1) =~= a@.subrange(0, i as int).push(a[i as int]));
        assert(b@.subrange(0, i + 1) =~= b@.subrange(0, i as int).push(b[i as int]));
        i += 1;
    }
    proof {
        lemma_lex_skip(a@, b@, i as int);
    }
    i < b.len()
}

proof fn lemma_insert_to_multiset<A>(s: Seq<A>, p: int, x: A)
    requires
        0 <= p <= s.len(),
    ensures
        s.insert(p, x).to_multiset() =~= s.to_multiset().insert(x),
{
    let t = s.insert(p, x);
    assert(t.remove(p) =~= s);
    assert(t[p] == x);
    assert(t.contains(x));
    assert(t.to_multiset().count(x) > 0);
}

/// The predicate "the file's path has the bytes `k`".
pub open spec fn path_is(k: Seq<u8>) -> spec_fn(FileMeta) -> bool {
    |m: FileMeta| path_key(m) == k
}

/// No file of `s` has the path bytes `k`.
proof fn lemma_filter_none(s: Seq<FileMeta>, k: Seq<u8>)
    requires
        forall|i: int| 0 <= i < s.len() ==> path_key(#[trigger] s[i]) != k,
    ensures
        s.filter(path_is(k)) =~= Seq::<FileMeta>::empty(),
    decreases s.len(),
{
    reveal(Seq::filter);
    if s.len() > 0 {
        lemma_filter_none(s.drop_last(), k);
        assert(path_key(s[s.len() - 1]) != k);
    }
}

/// The files ordered by path, in byte-wise lexicographic order; files with
/// equal paths keep their order (a stable sort).
pub fn sort_by_path(metas: Vec<FileMeta>) -> (r: Vec<FileMeta>)
    ensures
        sorted_by_path(r@),
        r@.to_multiset() =~= metas@.to_multiset(),
        forall|k: Seq<u8>| #[trigger] r@.filter(path_is(k)) == metas@.filter(path_is(k)),
{
    let mut rest = metas;
    let mut r: Vec<FileMeta> = Vec::new();
    while rest.len() > 0
        invariant
            sorted_by_path(r@),
            r@.to_multiset().add(rest@.to_multiset()) =~= metas@.to_multiset(),
            forall|k: Seq<u8>|
                #[trigger] metas@.filter(path_is(k)) == r@.filter(path_is(k)) + rest@.filter(
                    path_is(k),
                ),
        decreases rest.len(),
    {
        let ghost rest0 = rest@;
        let x = rest.remove(0);
        assert(rest0.remove(0) =~= rest@);
        let xk = x.path.as_str().as_bytes();
        let mut p: usize = 0;
        while p < r.len()
            invariant
                p <= r.len(),
                xk@ == path_key(x),
                forall|i: int| 0 <= i < p ==> !lex_lt(path_key(x), #[trigger] path_key(r@[i])),
            ensures
                p <= r.len(),
                forall|i: int| 0 <= i < p ==> !lex_lt(path_key(x), #[trigger] path_key(r@[i])),
                p == r.len() || lex_lt(path_key(x), path_key(r@[p as int])),
            decreases r.len() - p,
        {
            let rk = r[p].path.as_str().as_bytes();
            if bytes_before(xk, rk) {
                break;
            }
            p += 1;
        }
        let ghost r0 = r@;
        proof {
            assert forall|j: int| p <= j < r0.len() implies lex_lt(path_key(x), #[trigger] path_key(r0[j])) by {
                assert(lex_lt(path_key(x), path_key(r0[p as int])));
                if j > p {
                    lemma_lex_total(path_key(r0[p as int]), path_key(r0[j]));
                    if lex_lt(path_key(r0[p as int]), path_key(r0[j])) {
                        lemma_lex_transitive(path_key(x), path_key(r0[p as int]), path_key(r0[j]));
                    }
                }
            }
            lemma_insert_to_multiset(r0, p as int, x);
        }
        r.insert(p, x);
        proof {
            assert forall|i: int, j: int| 0 <= i < j < r@.len() implies !lex_lt(
                path_key(r@[j]),
                path_key(r@[i]),
            ) by {
                if j == p {
                    assert(r@[i] == r0[i]);
                } else if i == p {
                    assert(r@[j] == r0[j - 1]);
                    lemma_lex_asymmetric(path_key(x), path_key(r0[j - 1]));
                } else {
                    let ii = if i < p { i } else { i - 1 };
                    let jj = if j < p { j } else { j - 1 };
                    assert(r@[i] == r0[ii]);
                    assert(r@[j] == r0[jj]);
                }
            }
            assert(rest0.to_multiset() =~= rest@.to_multiset().insert(x)) by {
                assert(rest0.to_multiset().remove(rest0[0]) =~= rest@.to_multiset());
                assert(rest0.contains(rest0[0]));
            }
            let a = r0.subrange(0, p as int);
            let b = r0.subrange(p as int, r0.len() as int);
            assert(r0 =~= a + b);
            assert(r@ =~= (a + seq![x]) + b);
            assert(rest0 =~= seq![x] + rest@);
            assert forall|k: Seq<u8>| #[trigger] metas@.filter(path_is(k)) == r@.filter(path_is(k))
                + rest@.filter(path_is(k)) by {
                let f = path_is(k);
                assert(metas@.filter(f) == r0.filter(f) + rest0.filter(f));
                rest@.lemma_filter_prepend(x, f);
                Seq::filter_distributes_over_add(a, b, f);
                Seq::filter_distributes_over_add(a + seq![x], b, f);
                Seq::filter_distributes_over_add(a, seq![x], f);
                Seq::<FileMeta>::empty().lemma_filter_prepend(x, f);
                assert(seq![x] =~= seq![x] + Seq::<FileMeta>::empty());
                if path_key(x) == k {
                    assert forall|i: int| 0 <= i < b.len() implies path_key(#[trigger] b[i]) != k by {
                        assert(b[i] == r0[p + i]);
                        lemma_lex_irreflexive(k);
                    }
                    lemma_filter_none(b, k);
                    assert(r@.filter(f) =~= a.filter(f) + seq![x]);
                    assert(rest0.filter(f) =~= seq![x] + rest@.filter(f));
                    assert(metas@.filter(f) =~= r@.filter(f) + rest@.filter(f));
                } else {
                    assert(r@.filter(f) =~= r0.filter(f));
                    assert(rest0.filter(f) =~= rest@.filter(f));
                }
            }
        }
    }
    r
}

/// The bytes that the cache key hashes: the search path, the hidden-files
/// flag, the depth limit (8 bytes, little-endian), the follow-links flag,
/// each extension filter, then for each file its path, size and
/// modification time (8 bytes each, little-endian).
pub open spec fn cache_key_message(
    search_path: Seq<char>,
    hidden: bool,
    max_depth: usize,
    follow_links: bool,
    extensions: Seq<String>,
    files: Seq<FileMeta>,
) -> Seq<u8> {
    encode_utf8(search_path) + seq![if hidden { 1u8 } else { 0u8 }] + spec_u64_to_le_bytes(
        max_depth as u64,
    ) + seq![if follow_links { 1u8 } else { 0u8 }] + extension_bytes(extensions, extensions.len() as int)
        + file_bytes(files, files.len() as int)
}

/// The first `k` extensions' UTF-8 bytes, one after another.
pub open spec fn extension_bytes(exts: Seq<String>, k: int) -> Seq<u8>
    decreases k,
{
    if k <= 0 {
        Seq::empty()
    } else {
        extension_bytes(exts, k - 1) + encode_utf8(exts[k - 1]@)
    }
}

/// The first `k` files' path bytes, size and modification time.
pub open spec fn file_bytes(files: Seq<FileMeta>, k: int) -> Seq<u8>
    decreases k,
{
    if k <= 0 {
        Seq::empty()
    } else {
        file_bytes(files, k - 1) + path_key(files[k - 1]) + spec_u64_to_le_bytes(files[k - 1].size)
            + spec_u64_to_le_bytes(files[k - 1].modified)
    }
}

/// The lowercase hexadecimal digit for `v` (0 to 15).
pub open spec fn hex_digit(v: int) -> char {
    if v < 10 {
        (48 + v) as char
    } else {
        (87 + v) as char
    }
}

/// Two lowercase hexadecimal digits per byte, high nibble first.
pub open spec fn hex_digits(bytes: Seq<u8>) -> Seq<char>
    decreases bytes.len(),
{
    if bytes.len() == 0 {
        Seq::empty()
    } else {
        hex_digits(bytes.drop_last()) + seq![
            hex_digit(bytes.last() as int / 16),
            hex_digit(bytes.last() as int % 16),
        ]
    }
}

/// The 32-byte BLAKE3 digest of a message (the `blake3` crate's default
/// hash).
pub uninterp spec fn blake3_digest(msg: Seq<u8>) -> Seq<u8>;

/// Calls `blake3::hash` and then `Hash::to_hex`. Claimed: the text is the
/// digest that `blake3_digest` names, written as `hex_digits` writes it
/// (two lowercase digits per byte, high nibble first, 64 in all), which is
/// how the crate's `to_hex` writes it.
#[verifier::external_body]
fn blake3_hex(msg: &[u8]) -> (s: String)
    ensures
        s@ == hex_digits(blake3_digest(msg@)),
        s@.len() == 64,
{
    blake3::hash(msg).to_hex().to_string()
}

fn append_str(out: &mut Vec<u8>, s: &str)
    ensures
        final(out)@ == old(out)@ + encode_utf8(s@),
{
    out.extend_from_slice(s.as_bytes());
}

/// The bytes that `cache_key_message` describes.
pub fn build_cache_key_message(
    search_path: &str,
    hidden: bool,
    max_depth: usize,
    follow_links: bool,
    extensions: &Vec<String>,
    files: &Vec<FileMeta>,
) -> (msg: Vec<u8>)
    ensures
        msg@ == cache_key_message(search_path@, hidden, max_depth, follow_links, extensions@, files@),
{
    let mut msg: Vec<u8> = Vec::new();
    append_str(&mut msg, search_path);
    msg.push(if hidden { 1u8 } else { 0u8 });
    push_le64(&mut msg, max_depth as u64);
    msg.push(if follow_links { 1u8 } else { 0u8 });
    let ghost head = msg@;
    let mut i: usize = 0;
    while i < extensions.len()
        invariant
            i <= extensions.len(),
            msg@ == head + extension_bytes(extensions@, i as int),
        decreases extensions.len() - i,
    {
        append_str(&mut msg, extensions[i].as_str());
        i += 1;
        assert(msg@ =~= head + extension_bytes(extensions@, i as int));
    }
    let ghost mid = msg@;
    let mut j: usize = 0;
    while j < files.len()
        invariant
            j <= files.len(),
            msg@ == mid + file_bytes(files@, j as int),
        decreases files.len() - j,
    {
        append_str(&mut msg, files[j].path.as_str());
        push_le64(&mut msg, files[j].size);
        push_le64(&mut msg, files[j].modified);
        j += 1;
        assert(msg@ =~= mid + file_bytes(files@, j as int));
    }
    assert(msg@ =~= cache_key_message(search_path@, hidden, max_depth, follow_links, extensions@, files@));
    msg
}

/// The cache key of a search: the files sorted by path (files with equal
/// paths in the order given), and the BLAKE3 digest, in lowercase
/// hexadecimal, of the message that describes the search parameters and the
/// sorted files.
pub fn compute_files_hash(
    search_path: &str,
    hidden: bool,
    max_depth: usize,
    follow_links: bool,
    extensions: &Vec<String>,
    files: Vec<FileMeta>,
) -> (r: (String, Vec<FileMeta>))
    ensures
        sorted_by_path(r.1@),
        r.1@.to_multiset() =~= files@.to_multiset(),
        forall|k: Seq<u8>| #[trigger] r.1@.filter(path_is(k)) == files@.filter(path_is(k)),
        r.0@ == hex_digits(
            blake3_digest(
                cache_key_message(search_path@, hidden, max_depth, follow_links, extensions@, r.1@),
            ),
        ),
        r.0@.len() == 64,
{
    let sorted = sort_by_path(files);
    let msg = build_cache_key_message(search_path, hidden, max_depth, follow_links, extensions, &sorted);
    let hex = blake3_hex(msg.as_slice());
    (hex, sorted)
}

/// No two files share a path.
pub open spec fn distinct_paths(ms: Seq<FileMeta>) -> bool {
    forall|i: int, j: int| 0 <= i < ms.len() && 0 <= j < ms.len() && i != j ==> path_key(ms[i]) != path_key(ms[j])
}

proof fn lemma_sorted_unique(a: Seq<FileMeta>, b: Seq<FileMeta>)
    requires
        sorted_by_path(a),
        sorted_by_path(b),
        a.to_multiset() =~= b.to_multiset(),
        distinct_paths(a),
    ensures
        a == b,
    decreases a.len(),
{
    assert(a.len() == b.len()) by {
        assert(a.len() == a.to_multiset().len());
        assert(b.len() == b.to_multiset().len());
    }
    if a.len() == 0 {
        assert(a =~= b);
    } else {
        assert(b.contains(b[0]));
        assert(a.to_multiset().count(b[0]) > 0);
        assert(a.contains(b[0]));
        let i = choose|i: int| 0 <= i < a.len() && a[i] == b[0];
        assert(a.contains(a[0]));
        assert(b.to_multiset().count(a[0]) > 0);
        assert(b.contains(a[0]));
        let j = choose|j: int| 0 <= j < b.len() && b[j] == a[0];
        // key(a[0]) <= key(a[i]) = key(b[0]) <= key(b[j]) = key(a[0])
        if i != 0 {
            assert(!lex_lt(path_key(a[i]), path_key(a[0])));
            if j != 0 {
                assert(!lex_lt(path_key(b[j]), path_key(b[0])));
            }
            lemma_lex_total(path_key(a[0]), path_key(b[0]));
            if lex_lt(path_key(a[0]), path_key(b[0])) {
                if j != 0 {
                    assert(lex_lt(path_key(b[j]), path_key(b[0])));
                } else {
                    lemma_lex_irreflexive(path_key(a[0]));
                }
            }
            assert(path_key(a[0]) == path_key(a[i]));
            assert(false);
        }
        assert(a[0] == b[0]);
        let a1 = a.drop_first();
        let b1 = b.drop_first();
        assert(a1 =~= a.remove(0));
        assert(b1 =~= b.remove(0));
        assert(a1.to_multiset() =~= b1.to_multiset()) by {
            assert(a.remove(0).to_multiset() == a.to_multiset().remove(a[0]));
            assert(b.remove(0).to_multiset() == b.to_multiset().remove(b[0]));
        }
        assert(sorted_by_path(a1)) by {
            assert forall|x: int, y: int| 0 <= x < y < a1.len() implies !lex_lt(path_key(a1[y]), path_key(a1[x])) by {
                assert(a1[x] == a[x + 1] && a1[y] == a[y + 1]);
            }
        }
        assert(sorted_by_path(b1)) by {
            assert forall|x: int, y: int| 0 <= x < y < b1.len() implies !lex_lt(path_key(b1[y]), path_key(b1[x])) by {
                assert(b1[x] == b[x + 1] && b1[y] == b[y + 1]);
            }
        }
        assert(distinct_paths(a1)) by {
            assert forall|x: int, y: int| 0 <= x < a1.len() && 0 <= y < a1.len() && x != y implies path_key(a1[x]) != path_key(a1[y]) by {
                assert(a1[x] == a[x + 1] && a1[y] == a[y + 1]);
            }
        }
        lemma_sorted_unique(a1, b1);
        assert(a =~= seq![a[0]] + a1);
        assert(b =~= seq![b[0]] + b1);
    }
}

/// The cache key does not depend on the order in which the files were
/// found: two lists of the same files (no path twice), each sorted by path
/// as `compute_files_hash` sorts them, give the same file list and so the
/// same hashed message.
pub proof fn lemma_cache_key_order_independent(
    files1: Seq<FileMeta>,
    files2: Seq<FileMeta>,
    sorted1: Seq<FileMeta>,
    sorted2: Seq<FileMeta>,
    search_path: Seq<char>,
    hidden: bool,
    max_depth: usize,
    follow_links: bool,
    extensions: Seq<String>,
)
    requires
        files1.to_multiset() =~= files2.to_multiset(),
        distinct_paths(files1),
        sorted_by_path(sorted1),
        sorted1.to_multiset() =~= files1.to_multiset(),
        sorted_by_path(sorted2),
        sorted2.to_multiset() =~= files2.to_multiset(),
    ensures
        sorted1 == sorted2,
        cache_key_message(search_path, hidden, max_depth, follow_links, extensions, sorted1)
            == cache_key_message(search_path, hidden, max_depth, follow_links, extensions, sorted2),
{
    assert(distinct_paths(sorted1)) by {
        assert forall|x: int, y: int| 0 <= x < sorted1.len() && 0 <= y < sorted1.len() && x != y implies path_key(sorted1[x]) != path_key(sorted1[y]) by {
            lemma_multiset_positions(sorted1, files1, x, y);
        }
    }
    lemma_sorted_unique(sorted1, sorted2);
}

proof fn lemma_multiset_positions(s: Seq<FileMeta>, f: Seq<FileMeta>, x: int, y: int)
    requires
        s.to_multiset() =~= f.to_multiset(),
        distinct_paths(f),
        0 <= x < s.len(),
        0 <= y < s.len(),
        x != y,
    ensures
        path_key(s[x]) != path_key(s[y]),
{
    if path_key(s[x]) == path_key(s[y]) {
        assert(s.contains(s[x]));
        assert(f.to_multiset().count(s[x]) > 0);
        assert(f.contains(s[x]));
        let fx = choose|i: int| 0 <= i < f.len() && f[i] == s[x];
        assert(s.contains(s[y]));
        assert(f.to_multiset().count(s[y]) > 0);
        assert(f.contains(s[y]));
        let fy = choose|i: int| 0 <= i < f.len() && f[i] == s[y];
        if fx != fy {
            assert(path_key(f[fx]) != path_key(f[fy]));
        } else {
            // The same file twice in `s`, once in `f`.
            assert(s[x] == s[y]);
            let e = s[x];
            assert(f.to_multiset().count(e) <= 1) by {
                lemma_count_at_most_one(f, e);
            }
            assert(s.to_multiset().count(e) >= 2) by {
                lemma_count_two(s, x, y);
            }
        }
    }
}

proof fn lemma_count_at_most_one(f: Seq<FileMeta>, e: FileMeta)
    requires
        distinct_paths(f),
    ensures
        f.to_multiset().count(e) <= 1,
    decreases f.len(),
{
    if f.len() > 0 {
        let rest = f.drop_first();
        assert(distinct_paths(rest)) by {
            assert forall|x: int, y: int| 0 <= x < rest.len() && 0 <= y < rest.len() && x != y implies path_key(rest[x]) != path_key(rest[y]) by {
                assert(rest[x] == f[x + 1] && rest[y] == f[y + 1]);
            }
        }
        lemma_count_at_most_one(rest, e);
        assert(f =~= seq![f[0]] + rest);
        assert(f.remove(0) =~= rest);
        assert(rest.to_multiset() == f.to_multiset().remove(f[0]));
        if f[0] == e {
            assert(!rest.contains(e)) by {
                if rest.contains(e) {
                    let k = choose|k: int| 0 <= k < rest.len() && rest[k] == e;
                    assert(f[k + 1] == e);
                    assert(path_key(f[0]) != path_key(f[k + 1]));
                }
            }
            assert(rest.to_multiset().count(e) == 0);
        }
    }
}

proof fn lemma_count_two(s: Seq<FileMeta>, x: int, y: int)
    requires
        0 <= x < s.len(),
        0 <= y < s.len(),
        x != y,
        s[x] == s[y],
    ensures
        s.to_multiset().count(s[x]) >= 2,
{
    let e = s[x];
    let hi = if x > y { x } else { y };
    let lo = if x > y { y } else { x };
    let s1 = s.remove(hi);
    assert(s1.to_multiset() == s.to_multiset().remove(e));
    assert(s1[lo] == e);
    assert(s1.contains(e));
    assert(s1.to_multiset().count(e) > 0);
}

/// The format version of cache manifests.
pub const CACHE_VERSION: u32 = 1;

/// A cached index may be used when its manifest has the current format
/// version and was written for the same key.
pub fn cache_entry_valid(manifest_version: u32, manifest_hash: &str, hash: &str) -> (r: bool)
    ensures
        r == (manifest_version == CACHE_VERSION && manifest_hash@ == hash@),
{
    manifest_version == CACHE_VERSION && String::from_str(manifest_hash) == String::from_str(hash)
}

} // verus!
