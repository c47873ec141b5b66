use seqsearch::cache_key::{
    build_cache_key_message, bytes_before, cache_entry_valid, compute_files_hash, sort_by_path,
    FileMeta, CACHE_VERSION,
};
use seqsearch::file_text::read_file_content;
use seqsearch::file_filter::{entry_visible, extension_selected, is_binary_file};
use seqsearch::search::{
    compute_line_offsets, context_window, display_limit_reached, find_matches_in_file,
    group_by_depth, match_starts, matching_lines, result_limit, size_unit, slice_contains, SizeUnit,
};
use seqsearch::text::{search_terms, split_words};

#[test]
fn line_offsets_exclude_breaks() {
    assert_eq!(compute_line_offsets(b"ab\ncd\n\nxyz"), vec![(0, 2), (3, 5), (6, 6), (7, 10)]);
    assert_eq!(compute_line_offsets(b"one\n"), vec![(0, 3)]);
    assert_eq!(compute_line_offsets(b""), Vec::<(usize, usize)>::new());
    assert_eq!(compute_line_offsets("é\nü".as_bytes()), vec![(0, 2), (3, 5)]);
}

#[test]
fn substring_search() {
    assert!(slice_contains(b"hello world", 0, 11, b"o w"));
    assert!(!slice_contains(b"hello world", 0, 5, b"o w"));
    assert!(slice_contains(b"abc", 1, 1, b""));
    assert!(!slice_contains(b"abc", 0, 2, b"abcd"));
}

#[test]
fn lines_with_terms() {
    let content = b"fn main() {\n    let x = 1;\n}\nmain again";
    let lines = compute_line_offsets(content);
    let terms = vec![b"main".to_vec(), b"let".to_vec()];
    assert_eq!(matching_lines(content, &lines, &terms), vec![0, 1, 3]);
    assert_eq!(matching_lines(content, &lines, &vec![]), Vec::<usize>::new());
}

#[test]
fn context_lines_are_clipped() {
    assert_eq!(context_window(0, 2, 5), (vec![], vec![1, 2]));
    assert_eq!(context_window(3, 2, 5), (vec![1, 2], vec![4]));
    assert_eq!(context_window(2, 0, 5), (vec![], vec![]));
}

#[test]
fn matches_with_context() {
    let content = "alpha\nBeta gamma\ndelta\nbeta";
    let lines = compute_line_offsets(content.as_bytes());
    let m = find_matches_in_file(content, &lines, "beta", 1, false).unwrap();
    assert_eq!(m.len(), 1);
    assert_eq!(m[0].line_index, 3);
    assert_eq!(m[0].before, vec![2]);
    assert_eq!(m[0].after, Vec::<usize>::new());
    let m = find_matches_in_file(content, &lines, "BETA", 1, true).unwrap();
    assert_eq!(m.iter().map(|x| x.line_index).collect::<Vec<_>>(), vec![1, 3]);
    assert_eq!(m[0].before, vec![0]);
    assert_eq!(m[0].after, vec![2]);
    let m = find_matches_in_file(content, &lines, "AND ( OR )", 1, false).unwrap();
    assert!(m.is_empty());
}

#[test]
fn bad_line_ranges_are_reported() {
    let content = "abc";
    assert!(find_matches_in_file(content, &vec![(0, 9)], "a", 0, false).is_none());
    assert!(find_matches_in_file(content, &vec![(0, 9)], "AND", 0, false).is_some());
    let content = "é";
    assert!(find_matches_in_file(content, &vec![(0, 1)], "x", 0, false).is_none());
}

#[test]
fn query_terms_drop_operators() {
    assert_eq!(split_words("  a\tb\n c  "), vec!["a", "b", "c"]);
    assert_eq!(search_terms("foo AND bar OR ( baz ) NOT and"), vec!["foo", "bar", "baz", "and"]);
    assert_eq!(search_terms("   "), Vec::<String>::new());
    assert_eq!(split_words("x\u{3000}y"), vec!["x", "y"]);
}

#[test]
fn size_units() {
    assert_eq!(size_unit(0), SizeUnit::Bytes);
    assert_eq!(size_unit(1023), SizeUnit::Bytes);
    assert_eq!(size_unit(1024), SizeUnit::Kilobytes);
    assert_eq!(size_unit(1024 * 1024), SizeUnit::Megabytes);
    assert_eq!(size_unit(5 * 1024 * 1024 * 1024), SizeUnit::Gigabytes);
}

#[test]
fn limits() {
    assert!(!display_limit_reached(100, 0));
    assert!(display_limit_reached(3, 3));
    assert!(!display_limit_reached(2, 3));
    assert_eq!(result_limit(0), 10000);
    assert_eq!(result_limit(7), 7);
}

#[test]
fn depth_groups() {
    let groups = group_by_depth(&vec![2, 1, 2, 3, 1]);
    assert_eq!(groups, vec![(1, vec![1, 4]), (2, vec![0, 2]), (3, vec![3])]);
    assert_eq!(group_by_depth(&vec![]), Vec::<(usize, Vec<usize>)>::new());
}

#[test]
fn highlight_positions() {
    assert_eq!(match_starts(b"aaaa", b"aa"), vec![0, 2]);
    assert_eq!(match_starts(b"abcabc", b"c"), vec![2, 5]);
    assert_eq!(match_starts(b"abc", b"x"), Vec::<usize>::new());
}

#[test]
fn walk_filters() {
    assert!(!entry_visible(".git", false));
    assert!(entry_visible(".git", true));
    assert!(entry_visible("src", false));
    assert!(entry_visible("", false));
    let exts = vec!["rs".to_string(), "py".to_string()];
    assert!(extension_selected(Some("rs"), &exts));
    assert!(!extension_selected(Some("RS"), &exts));
    assert!(!extension_selected(None, &exts));
    assert!(extension_selected(None, &vec![]));
    assert!(is_binary_file(Some("PNG"), b"text"));
    assert!(is_binary_file(Some("txt"), b"ab\0cd"));
    assert!(!is_binary_file(Some("txt"), b"plain"));
    assert!(!is_binary_file(None, b""));
}

fn meta(path: &str, size: u64, modified: u64) -> FileMeta {
    FileMeta { path: path.to_string(), size, modified }
}

#[test]
fn files_sorted_by_path() {
    let sorted = sort_by_path(vec![meta("b", 1, 1), meta("a/z", 2, 2), meta("a", 3, 3), meta("a/b", 4, 4)]);
    let paths: Vec<&str> = sorted.iter().map(|m| m.path.as_str()).collect();
    assert_eq!(paths, vec!["a", "a/b", "a/z", "b"]);
    assert!(bytes_before(b"ab", b"b"));
    assert!(bytes_before(b"a", b"ab"));
    assert!(!bytes_before(b"ab", b"ab"));
}

#[test]
fn files_with_equal_paths_keep_their_order() {
    let sorted = sort_by_path(vec![meta("b", 1, 1), meta("a", 2, 2), meta("b", 3, 3), meta("a", 4, 4)]);
    let sizes: Vec<u64> = sorted.iter().map(|m| m.size).collect();
    assert_eq!(sizes, vec![2, 4, 1, 3]);
}

#[test]
fn cache_key_is_blake3_of_message() {
    let exts = vec!["rs".to_string()];
    let files = vec![meta("/p/b.rs", 10, 100), meta("/p/a.rs", 20, 200)];
    let (hash, sorted) = compute_files_hash("/p", false, 3, true, &exts, files);
    assert_eq!(sorted[0].path, "/p/a.rs");
    let mut expected = Vec::new();
    expected.extend_from_slice(b"/p");
    expected.push(0);
    expected.extend_from_slice(&3u64.to_le_bytes());
    expected.push(1);
    expected.extend_from_slice(b"rs");
    expected.extend_from_slice(b"/p/a.rs");
    expected.extend_from_slice(&20u64.to_le_bytes());
    expected.extend_from_slice(&200u64.to_le_bytes());
    expected.extend_from_slice(b"/p/b.rs");
    expected.extend_from_slice(&10u64.to_le_bytes());
    expected.extend_from_slice(&100u64.to_le_bytes());
    assert_eq!(build_cache_key_message("/p", false, 3, true, &exts, &sorted), expected);
    assert_eq!(hash, blake3::hash(&expected).to_hex().to_string());
    assert_eq!(hash.len(), 64);
    let (hash2, _) = compute_files_hash("/p", true, 3, true, &exts, vec![]);
    assert_ne!(hash, hash2);
}

#[test]
fn cache_entries() {
    assert!(cache_entry_valid(CACHE_VERSION, "abc", "abc"));
    assert!(!cache_entry_valid(CACHE_VERSION + 1, "abc", "abc"));
    assert!(!cache_entry_valid(CACHE_VERSION, "abc", "abd"));
}

#[test]
fn cache_key_ignores_walk_order() {
    let exts: Vec<String> = vec![];
    let a = vec![meta("/r/x", 1, 5), meta("/r/a/b", 2, 6), meta("/r/c", 3, 7)];
    let b = vec![meta("/r/c", 3, 7), meta("/r/x", 1, 5), meta("/r/a/b", 2, 6)];
    let (h1, s1) = compute_files_hash("/r", false, 0, false, &exts, a);
    let (h2, s2) = compute_files_hash("/r", false, 0, false, &exts, b);
    assert_eq!(h1, h2);
    let p1: Vec<&str> = s1.iter().map(|m| m.path.as_str()).collect();
    let p2: Vec<&str> = s2.iter().map(|m| m.path.as_str()).collect();
    assert_eq!(p1, p2);
}

#[test]
fn file_text_decoding() {
    assert_eq!(read_file_content("plain é".as_bytes()), "plain é");
    assert_eq!(read_file_content(&[0x63, 0x61, 0x66, 0xE9]), "café");
    assert_eq!(read_file_content(&[0xFF, 0xFE, b'h', 0, b'i', 0]), "hi");
    assert_eq!(read_file_content(b""), "");
}

#[test]
fn words_split_at_unicode_whitespace() {
    let words = split_words("a\u{3000}b\u{2003}\u{85}c\u{200B}d\te");
    assert_eq!(words, vec!["a", "b", "c\u{200B}d", "e"]);
    let reference: Vec<&str> = "a\u{3000}b\u{2003}\u{85}c\u{200B}d\te".split_whitespace().collect();
    assert_eq!(words, reference);
}
