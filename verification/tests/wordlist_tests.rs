use w2w::wordlist::build;
use w2w::wordlist::build_output;
use w2w::wordlist::FilterPolicy;

fn lines(output: &[u8]) -> Vec<Vec<u8>> {
    output
        .split(|b| *b == b'\n')
        .filter(|l| !l.is_empty())
        .map(|l| l.to_vec())
        .collect()
}

#[test]
fn test_write_contents_truncates_correctly() {
    let content = b"zzzzz yyyyy xxxxx wwwww vvvvv uuuuu";
    let out = build_output(content, FilterPolicy::LengthOnly, Some(3));
    assert_eq!(out, b"uuuuu\nvvvvv\nwwwww\n".to_vec());
}

#[test]
fn pure_alphanumeric_words_need_the_relaxed_policy() {
    let content = b"cat dog Apple apple APPLE";
    // Under the inherited rule no token qualifies: none carries a symbol.
    let strict = build_output(content, FilterPolicy::RequireSymbol, None);
    assert_eq!(strict, Vec::<u8>::new());
    // Under the relaxed rule the three case variants of "apple" qualify and
    // collapse to the one that sorts first ('A' < 'a' byte-wise).
    let relaxed = build_output(content, FilterPolicy::LengthOnly, None);
    assert_eq!(relaxed, b"APPLE\n".to_vec());
}

#[test]
fn symbol_bearing_tokens_are_normalized() {
    let content = b"wiki-page wiki-page plain (bracketed)";
    let out = build_output(content, FilterPolicy::RequireSymbol, None);
    // "plain" has no symbol; the two "wiki-page" collapse; "(bracketed)"
    // loses its brackets.
    assert_eq!(out, b"bracketed\nwikipage\n".to_vec());
}

#[test]
fn short_tokens_are_dropped_even_with_symbols() {
    let content = b"a-b c:d e,f! abcd- abcde-";
    let out = build_output(content, FilterPolicy::RequireSymbol, None);
    // Only "abcd-" (5 bytes) and "abcde-" (6 bytes) are long enough.
    assert_eq!(out, b"abcd\nabcde\n".to_vec());
}

#[test]
fn tokens_that_normalize_to_nothing_are_dropped() {
    let content = b"!!!!! ----- word! ....1....";
    let out = build_output(content, FilterPolicy::RequireSymbol, None);
    assert_eq!(out, b"1\nword\n".to_vec());
}

#[test]
fn whitespace_runs_and_kinds_all_separate_tokens() {
    let content = b"one!two\tthree-x\n\nfour_y \r\n  five.z";
    let out = build_output(content, FilterPolicy::RequireSymbol, None);
    assert_eq!(out, b"fivez\nfoury\nonetwo\nthreex\n".to_vec());
}

#[test]
fn non_ascii_bytes_count_as_symbols_and_are_stripped() {
    // "h\xc3\xa9llo" is 6 bytes long; the two accent bytes qualify it and
    // are stripped by normalization.
    let content = b"h\xc3\xa9llo";
    let out = build_output(content, FilterPolicy::RequireSymbol, None);
    assert_eq!(out, b"hllo\n".to_vec());
}

#[test]
fn case_insensitive_dedup_keeps_first_of_adjacent_run() {
    let content = b"apple! Apple! APPLE! zebra!";
    let out = build_output(content, FilterPolicy::RequireSymbol, None);
    // Sorted: APPLE, Apple, apple, zebra; the apple run collapses to its
    // first (byte-wise smallest) spelling.
    assert_eq!(out, b"APPLE\nzebra\n".to_vec());
}

#[test]
fn dedup_only_collapses_adjacent_runs() {
    // "AB" and "ab" fold to the same word but "a" sorts between them, so
    // run-collapsing keeps both.
    let content = b"AB!!! a!!!! ab!!!";
    let out = build_output(content, FilterPolicy::RequireSymbol, None);
    assert_eq!(out, b"AB\na\nab\n".to_vec());
}

#[test]
fn output_is_sorted_and_free_of_exact_duplicates() {
    let content = b"delta! echo! alpha! charlie! bravo! alpha! echo!";
    let out = build_output(content, FilterPolicy::RequireSymbol, None);
    let ls = lines(&out);
    assert_eq!(ls.len(), 5);
    for w in ls.windows(2) {
        assert!(w[0] < w[1]);
        assert!(!w[0].eq_ignore_ascii_case(&w[1]));
    }
}

#[test]
fn build_is_deterministic() {
    let content = b"Zeta! zeta! Theta- iota_9 low-er UPPER.CASE mixed,words";
    let a = build_output(content, FilterPolicy::RequireSymbol, Some(4));
    let b = build_output(content, FilterPolicy::RequireSymbol, Some(4));
    assert_eq!(a, b);
    let c = build_output(content, FilterPolicy::LengthOnly, None);
    let d = build_output(content, FilterPolicy::LengthOnly, None);
    assert_eq!(c, d);
}

#[test]
fn max_count_bounds_the_output() {
    let content = b"aaaaa! bbbbb! ccccc! ddddd! eeeee!";
    assert_eq!(build(content, FilterPolicy::RequireSymbol, Some(0)).len(), 0);
    assert_eq!(build(content, FilterPolicy::RequireSymbol, Some(2)).len(), 2);
    assert_eq!(build(content, FilterPolicy::RequireSymbol, Some(5)).len(), 5);
    // A bound above the distinct count changes nothing.
    assert_eq!(build(content, FilterPolicy::RequireSymbol, Some(99)).len(), 5);
    // Without a bound, every distinct word appears.
    assert_eq!(build(content, FilterPolicy::RequireSymbol, None).len(), 5);
}

#[test]
fn truncation_happens_after_sort_and_dedup() {
    // Sorted: Berry, berry, holly; the berry run collapses first, so the
    // bound of two still leaves room for "holly".
    let content = b"berry! Berry! holly!";
    let out = build_output(content, FilterPolicy::RequireSymbol, Some(2));
    assert_eq!(out, b"Berry\nholly\n".to_vec());
}

#[test]
fn empty_content_gives_empty_output() {
    assert_eq!(build_output(b"", FilterPolicy::RequireSymbol, None), Vec::<u8>::new());
    assert_eq!(build_output(b"   \n\t ", FilterPolicy::LengthOnly, Some(3)), Vec::<u8>::new());
}
