use seqsearch::bwt::{bwt, bwt_str, ibwt, ibwt_str, BwtError, BwtOutput, SENTINEL};
use seqsearch::suffix_array::build_suffix_array;

#[test]
fn suffix_array_simple() {
    let text = b"banana\0";
    let sa = build_suffix_array(text);
    assert_eq!(sa, vec![6, 5, 3, 1, 0, 4, 2]);
}

#[test]
fn suffix_array_single_char() {
    let sa = build_suffix_array(b"a");
    assert_eq!(sa, vec![0]);
}

#[test]
fn suffix_array_repeated_chars() {
    let text = b"aaa\0";
    let sa = build_suffix_array(text);
    assert_eq!(sa, vec![3, 2, 1, 0]);
}

#[test]
fn bwt_banana() {
    let result = bwt(b"banana").unwrap();
    assert_eq!(result.data, b"annb\0aa");
    assert_eq!(result.sentinel_index, 4);
}

#[test]
fn bwt_empty() {
    let result = bwt(b"").unwrap();
    assert_eq!(result.data, b"\0");
    assert_eq!(result.sentinel_index, 0);
}

#[test]
fn bwt_single_char() {
    let result = bwt(b"a").unwrap();
    assert_eq!(result.data, b"a\0");
    assert_eq!(result.sentinel_index, 1);
}

#[test]
fn bwt_rejects_sentinel_in_input() {
    let result = bwt(b"hello\0world");
    assert_eq!(result, Err(BwtError::InputContainsSentinel));
}

#[test]
fn ibwt_banana() {
    let bwt_out = bwt(b"banana").unwrap();
    let recovered = ibwt(&bwt_out).unwrap();
    assert_eq!(recovered, b"banana");
}

#[test]
fn ibwt_empty() {
    let bwt_out = bwt(b"").unwrap();
    let recovered = ibwt(&bwt_out).unwrap();
    assert_eq!(recovered, b"");
}

#[test]
fn ibwt_single_char() {
    let bwt_out = bwt(b"z").unwrap();
    let recovered = ibwt(&bwt_out).unwrap();
    assert_eq!(recovered, b"z");
}

#[test]
fn roundtrip_hello_world() {
    let input = b"Hello, World!";
    let bwt_out = bwt(input).unwrap();
    let recovered = ibwt(&bwt_out).unwrap();
    assert_eq!(recovered, input);
}

#[test]
fn roundtrip_repeated_pattern() {
    let input = b"abracadabra";
    let bwt_out = bwt(input).unwrap();
    let recovered = ibwt(&bwt_out).unwrap();
    assert_eq!(recovered, input);
}

#[test]
fn roundtrip_all_same_chars() {
    let input = b"aaaaaaaaaa";
    let bwt_out = bwt(input).unwrap();
    let recovered = ibwt(&bwt_out).unwrap();
    assert_eq!(recovered, input);
}

#[test]
fn roundtrip_binary_data() {
    let input: Vec<u8> = (1u8..=255).collect();
    let bwt_out = bwt(&input).unwrap();
    let recovered = ibwt(&bwt_out).unwrap();
    assert_eq!(recovered, input);
}

#[test]
fn roundtrip_long_string() {
    let input = "the quick brown fox jumps over the lazy dog".repeat(100);
    let bwt_out = bwt(input.as_bytes()).unwrap();
    let recovered = ibwt(&bwt_out).unwrap();
    assert_eq!(recovered, input.as_bytes());
}

#[test]
fn roundtrip_unicode() {
    let input = "こんにちは世界🌍";
    let bwt_out = bwt_str(input).unwrap();
    let recovered = ibwt_str(&bwt_out).unwrap();
    assert_eq!(recovered, input);
}

#[test]
fn bwt_produces_runs() {
    let input = b"mississippi";
    let bwt_out = bwt(input).unwrap();
    let recovered = ibwt(&bwt_out).unwrap();
    assert_eq!(recovered, input.to_vec());
    let runs = bwt_out.data.windows(2).filter(|w| w[0] != w[1]).count() + 1;
    assert!(runs <= bwt_out.data.len(), "BWT should group similar chars");
}

#[test]
fn ibwt_invalid_sentinel_index() {
    let bad = BwtOutput {
        data: vec![b'a', SENTINEL, b'b'],
        sentinel_index: 99,
    };
    assert_eq!(ibwt(&bad), Err(BwtError::InvalidSentinelIndex));
}

#[test]
fn ibwt_missing_sentinel() {
    let bad = BwtOutput {
        data: vec![b'a', SENTINEL, b'b'],
        sentinel_index: 0,
    };
    assert_eq!(ibwt(&bad), Err(BwtError::MissingSentinel));
}

#[test]
fn error_display() {
    assert_eq!(
        BwtError::InputContainsSentinel.message(),
        "input contains the reserved sentinel byte (0x00)"
    );
    assert_eq!(
        BwtError::InvalidSentinelIndex.message(),
        "sentinel index is out of bounds"
    );
    assert_eq!(
        BwtError::MissingSentinel.message(),
        "expected sentinel byte not found in data"
    );
}

#[test]
fn bwt_mississippi_column() {
    let out = bwt(b"mississippi").unwrap();
    assert_eq!(out.data, b"ipssm\0pissii");
    assert_eq!(out.sentinel_index, 5);
}

#[test]
fn ibwt_of_empty_column_is_an_error() {
    let out = BwtOutput { data: Vec::new(), sentinel_index: 0 };
    assert_eq!(ibwt(&out), Err(BwtError::InvalidSentinelIndex));
}

#[test]
fn roundtrip_short_texts() {
    let texts: Vec<&[u8]> = vec![b"ab", b"ba", b"abab", b"cabbage", b"zyxwvu", b"aab", b"baa"];
    for t in texts {
        let out = bwt(t).unwrap();
        assert_eq!(out.data.len(), t.len() + 1);
        assert_eq!(out.data[out.sentinel_index], 0);
        assert_eq!(ibwt(&out).unwrap(), t.to_vec());
    }
}

#[test]
fn suffix_array_abracadabra() {
    let sa = build_suffix_array(b"abracadabra\0");
    assert_eq!(sa, vec![11, 10, 7, 0, 3, 5, 8, 1, 4, 6, 9, 2]);
}

#[test]
fn suffix_array_with_repeated_lms_substrings() {
    let sa = build_suffix_array(b"bababacaba\0");
    assert_eq!(sa, vec![10, 9, 7, 1, 3, 5, 8, 0, 2, 4, 6]);
}

#[test]
fn bwt_bababacaba_column() {
    let out = bwt(b"bababacaba").unwrap();
    assert_eq!(out.data, b"abcbbba\0aaa");
    assert_eq!(out.sentinel_index, 7);
}

#[test]
fn bwt_str_matches_bwt_of_bytes() {
    let s = "こんにちは世界🌍 banana";
    assert_eq!(bwt_str(s), bwt(s.as_bytes()));
}

/// Segments `[250, 1, a, b]` for the first `pairs` pairs `2 <= a < b <= 248`,
/// the whole sequence written twice: a text with more than 256 distinct
/// LMS substrings.
fn many_lms_names(pairs: usize) -> Vec<u8> {
    let mut once: Vec<u8> = Vec::new();
    let mut made = 0;
    'outer: for a in 2u8..=248 {
        for b in (a + 1)..=248 {
            if made == pairs {
                break 'outer;
            }
            once.extend_from_slice(&[250, 1, a, b]);
            made += 1;
        }
    }
    let mut text = once.clone();
    text.extend_from_slice(&once);
    text
}

fn assert_sorted_suffix_array(text: &[u8], sa: &[usize]) {
    assert_eq!(sa.len(), text.len());
    let mut seen = vec![false; text.len()];
    for &p in sa {
        assert!(p < text.len());
        assert!(!seen[p]);
        seen[p] = true;
    }
    for w in sa.windows(2) {
        assert!(text[w[0]..] < text[w[1]..]);
    }
}

#[test]
fn suffix_array_sorted_with_many_lms_names() {
    for pairs in [256usize, 257] {
        let mut text = many_lms_names(pairs);
        text.push(0);
        let sa = build_suffix_array(&text);
        assert_sorted_suffix_array(&text, &sa);
    }
}

#[test]
fn roundtrip_with_many_lms_names() {
    for pairs in [256usize, 257] {
        let input = many_lms_names(pairs);
        let out = bwt(&input).unwrap();
        assert_eq!(ibwt(&out).unwrap(), input);
    }
}
