//! Text helpers of the search tool: Unicode lowercasing and whitespace,
//! splitting a query into words, and the words that are query operators
//! rather than search terms.
use vstd::prelude::*;

verus! {

/// What `str::to_lowercase` makes of a text (Unicode lowercase mapping).
pub uninterp spec fn lowercase_chars(s: Seq<char>) -> Seq<char>;

/// Whether a character has the Unicode `White_Space` property (the 25 code
/// points that `char::is_whitespace` accepts).
pub open spec fn unicode_white_space(c: char) -> bool {
    let v = c as u32;
    ||| 0x09 <= v <= 0x0D
    ||| v == 0x20
    ||| v == 0x85
    ||| v == 0xA0
    ||| v == 0x1680
    ||| 0x2000 <= v <= 0x200A
    ||| v == 0x2028
    ||| v == 0x2029
    ||| v == 0x202F
    ||| v == 0x205F
    ||| v == 0x3000
}

/// Calls `str::to_lowercase`. Claimed: the result is the text that
/// `lowercase_chars` names for the argument's characters.
#[verifier::external_body]
pub(crate) fn to_lowercase(s: &str) -> (r: String)
    ensures
        r@ == lowercase_chars(s@),
{
    s.to_lowercase()
}

/// Whether `c` is Unicode whitespace.
fn is_whitespace(c: char) -> (b: bool)
    ensures
        b == unicode_white_space(c),
{
    let v = c as u32;
    (0x09 <= v && v <= 0x0D) || v == 0x20 || v == 0x85 || v == 0xA0 || v == 0x1680 || (0x2000 <= v
        && v <= 0x200A) || v == 0x2028 || v == 0x2029 || v == 0x202F || v == 0x205F || v == 0x3000
}

/// The words of `s[..k]` split at whitespace: the finished words, and the
/// word still being read (empty between words).
pub open spec fn split_state(s: Seq<char>, k: int) -> (Seq<Seq<char>>, Seq<char>)
    decreases k,
{
    if k <= 0 {
        (Seq::empty(), Seq::empty())
    } else {
        let (done, cur) = split_state(s, k - 1);
        if unicode_white_space(s[k - 1]) {
            if cur.len() > 0 {
                (done.push(cur), Seq::empty())
            } else {
                (done, Seq::empty())
            }
        } else {
            (done, cur.push(s[k - 1]))
        }
    }
}

/// The non-empty runs of non-whitespace characters of `s`, in order (what
/// `str::split_whitespace` yields).
pub open spec fn split_whitespace(s: Seq<char>) -> Seq<Seq<char>> {
    let (done, cur) = split_state(s, s.len() as int);
    if cur.len() > 0 {
        done.push(cur)
    } else {
        done
    }
}

/// Words of a query that are operators of the query language, not terms.
pub open spec fn is_query_operator(w: Seq<char>) -> bool {
    w == "AND"@ || w == "OR"@ || w == "NOT"@ || w == "("@ || w == ")"@
}

/// The first `k` words that are not operators.
pub open spec fn keep_terms(words: Seq<Seq<char>>, k: int) -> Seq<Seq<char>>
    decreases k,
{
    if k <= 0 {
        Seq::empty()
    } else if is_query_operator(words[k - 1]) {
        keep_terms(words, k - 1)
    } else {
        keep_terms(words, k - 1).push(words[k - 1])
    }
}

/// The search terms of a query: its whitespace-separated words, operators
/// left out.
pub open spec fn query_terms(q: Seq<char>) -> Seq<Seq<char>> {
    let words = split_whitespace(q);
    keep_terms(words, words.len() as int)
}

/// The characters of each string.
pub open spec fn views(v: Seq<String>) -> Seq<Seq<char>> {
    v.map_values(|t: String| t@)
}

fn is_operator(w: &String) -> (r: bool)
    ensures
        r == is_query_operator(w@),
{
    let ops = ["AND", "OR", "NOT", "(", ")"];
    let mut i: usize = 0;
    while i < 5
        invariant
            i <= 5,
            ops@ == seq!["AND", "OR", "NOT", "(", ")"],
            forall|j: int| 0 <= j < i ==> w@ != (#[trigger] ops@[j])@,
        decreases 5 - i,
    {
        if *w == String::from_str(ops[i]) {
            return true;
        }
        i += 1;
    }
    false
}

/// The whitespace-separated words of a text, in order.
pub fn split_words(s: &str) -> (words: Vec<String>)
    ensures
        views(words@) == split_whitespace(s@),
{
    let n = s.unicode_len();
    let mut words: Vec<String> = Vec::new();
    let mut start: usize = 0;
    let mut i: usize = 0;
    while i < n
        invariant
            n == s@.len(),
            start <= i <= n,
            split_state(s@, i as int) == (views(words@), s@.subrange(start as int, i as int)),
        decreases n - i,
    {
        let c = s.get_char(i);
        if is_whitespace(c) {
            if start < i {
                let w = String::from_str(s.substring_char(start, i));
                words.push(w);
            }
            start = i + 1;
        }
        i += 1;
        assert(views(words@) =~= split_state(s@, i as int).0);
        assert(s@.subrange(start as int, i as int) =~= split_state(s@, i as int).1);
    }
    if start < n {
        let w = String::from_str(s.substring_char(start, n));
        words.push(w);
    }
    assert(views(words@) =~= split_whitespace(s@));
    words
}

/// The search terms of a query: whitespace-separated words other than the
/// operators `AND`, `OR`, `NOT`, `(` and `)`.
pub fn search_terms(query: &str) -> (terms: Vec<String>)
    ensures
        views(terms@) == query_terms(query@),
{
    let words = split_words(query);
    let mut terms: Vec<String> = Vec::new();
    let mut i: usize = 0;
    while i < words.len()
        invariant
            i <= words.len(),
            views(words@) == split_whitespace(query@),
            views(terms@) == keep_terms(views(words@), i as int),
        decreases words.len() - i,
    {
        assert(views(words@)[i as int] == words@[i as int]@);
        if !is_operator(&words[i]) {
            terms.push(String::from_str(words[i].as_str()));
        }
        i += 1;
        assert(views(terms@) =~= keep_terms(views(words@), i as int));
    }
    terms
}

/// The words left out of a query's terms are exactly `AND`, `OR`, `NOT`
/// (upper case only) and the parentheses; every other word, `and` for one,
/// is a search term.
pub proof fn lemma_query_operators(w: Seq<char>)
    ensures
        is_query_operator(w) <==> (w == "AND"@ || w == "OR"@ || w == "NOT"@ || w == "("@ || w == ")"@),
        is_query_operator("AND"@) && is_query_operator("OR"@) && is_query_operator("NOT"@),
        is_query_operator("("@) && is_query_operator(")"@),
{
}

/// Space, tab, line feed, vertical tab, form feed and carriage return are
/// whitespace; no ASCII letter, digit or punctuation is.
pub proof fn lemma_ascii_whitespace(c: char)
    ensures
        c == ' ' || c == '\t' || c == '\n' || c == '\r' || c == '\x0B' || c == '\x0C'
            ==> unicode_white_space(c),
        0x21 <= (c as u32) < 0x7F ==> !unicode_white_space(c),
{
}

} // verus!
