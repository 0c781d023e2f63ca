use text_reader::find::{
    find_all_ascii_ci, find_occurrences, first_match_on_or_after, matches_from_positions, search_in_mmap,
    slice_for_line_range, FindState, Match, SearchStep, MAX_MATCHES,
};

fn m(line: u64, col: usize, len: usize) -> Match {
    Match { line, col, len }
}

#[test]
fn search_case_sensitive_reports_line_and_column() {
    let data = b"foo bar\nbaz foo\nfoo";
    let r = search_in_mmap(data, "foo", false);
    assert_eq!(r, vec![m(0, 0, 3), m(1, 4, 3), m(2, 0, 3)]);
}

#[test]
fn search_case_sensitive_is_exact() {
    let data = b"Foo foo FOO";
    assert_eq!(search_in_mmap(data, "foo", false), vec![m(0, 4, 3)]);
}

#[test]
fn search_case_sensitive_reports_overlapping() {
    let data = b"aaaa";
    assert_eq!(search_in_mmap(data, "aa", false), vec![m(0, 0, 2), m(0, 1, 2), m(0, 2, 2)]);
    assert_eq!(search_in_mmap(b"111", "11", false), vec![m(0, 0, 2), m(0, 1, 2)]);
}

#[test]
fn search_case_insensitive_ignores_ascii_case() {
    let data = b"Foo\nfOO foo";
    assert_eq!(search_in_mmap(data, "FOO", true), vec![m(0, 0, 3), m(1, 0, 3), m(1, 4, 3)]);
}

#[test]
fn search_case_insensitive_reports_overlapping() {
    let data = b"aaaa";
    assert_eq!(search_in_mmap(data, "AA", true), vec![m(0, 0, 2), m(0, 1, 2), m(0, 2, 2)]);
}

#[test]
fn search_empty_query_finds_nothing() {
    assert!(search_in_mmap(b"abc", "", false).is_empty());
    assert!(search_in_mmap(b"abc", "", true).is_empty());
}

#[test]
fn search_needle_longer_than_data() {
    assert!(search_in_mmap(b"ab", "abc", false).is_empty());
    assert!(search_in_mmap(b"ab", "abc", true).is_empty());
}

#[test]
fn search_non_ascii_bytes_compare_exactly() {
    let text = "Ünïcode ünïcode";
    let r = search_in_mmap(text.as_bytes(), "ünï", true);
    assert_eq!(r, vec![m(0, 10, 5)]);
}

#[test]
fn search_caps_at_max_matches() {
    let data = vec![b' '; MAX_MATCHES + 10];
    assert_eq!(search_in_mmap(&data, " ", false).len(), MAX_MATCHES);
    assert_eq!(search_in_mmap(&data, " ", true).len(), MAX_MATCHES);
}

#[test]
fn ci_search_respects_limit_and_empty_needle() {
    assert_eq!(find_all_ascii_ci(b"xXxX", b"x", 3), vec![0, 1, 2]);
    assert_eq!(find_all_ascii_ci(b"xXxX", b"x", 0), Vec::<usize>::new());
    assert_eq!(find_all_ascii_ci(b"xXxX", b"", 10), Vec::<usize>::new());
    assert_eq!(find_all_ascii_ci(b"a1b1", b"1B", 10), vec![1]);
}

#[test]
fn positions_to_line_columns() {
    let data = b"ab\n\ncd\nef";
    let r = matches_from_positions(data, &[0, 1, 3, 5, 7, 9], 1);
    assert_eq!(r, vec![m(0, 0, 1), m(0, 1, 1), m(1, 0, 1), m(2, 1, 1), m(3, 0, 1), m(3, 2, 1)]);
}

#[test]
fn line_range_slicing() {
    let ms = vec![m(0, 1, 1), m(2, 0, 1), m(2, 5, 1), m(3, 0, 1), m(7, 2, 1)];
    assert_eq!(slice_for_line_range(&ms, 2, 3), &ms[1..3]);
    assert_eq!(slice_for_line_range(&ms, 0, 8), &ms[..]);
    assert!(slice_for_line_range(&ms, 4, 7).is_empty());
    assert!(slice_for_line_range(&ms, 9, 9).is_empty());
    assert_eq!(first_match_on_or_after(&ms, 3), 3);
    assert_eq!(first_match_on_or_after(&ms, 0), 0);
    assert_eq!(first_match_on_or_after(&ms, 100), 5);
}

#[test]
fn label_text() {
    let mut f = FindState::new(0);
    assert_eq!(f.label(), "No results");
    f.num_matches = 12;
    f.current = 4;
    assert_eq!(f.label(), "5 of 12");
}

#[test]
fn next_and_prev_wrap() {
    let mut f = FindState::new(0);
    assert!(!f.find_next());
    assert!(!f.find_prev());
    assert!(!f.pending_scroll);
    f.num_matches = 3;
    assert!(f.find_prev());
    assert_eq!(f.current, 2);
    assert!(f.pending_scroll);
    assert!(f.find_next());
    assert_eq!(f.current, 0);
    assert!(f.find_next());
    assert!(f.find_next());
    assert_eq!(f.current, 2);
    assert!(f.find_prev());
    assert_eq!(f.current, 1);
}

#[test]
fn next_then_prev_returns() {
    let mut f = FindState::new(0);
    f.num_matches = 5;
    for start in 0..5 {
        f.current = start;
        f.find_next();
        f.find_prev();
        assert_eq!(f.current, start);
        f.find_prev();
        f.find_next();
        assert_eq!(f.current, start);
    }
}

#[test]
fn begin_search_generations() {
    let mut f = FindState::new(3);
    match f.begin_search("abc".to_string()) {
        SearchStep::Start { generation, case_insensitive } => {
            assert_eq!(generation, 1);
            assert!(case_insensitive);
        }
        _ => panic!("expected a search"),
    }
    assert!(matches!(f.begin_search("abc".to_string()), SearchStep::Idle));
    assert_eq!(f.search_gen, 1);
    // A stale result is refused, the current one accepted.
    assert!(!f.finish_search(0, 9));
    assert_eq!(f.num_matches, 0);
    assert!(f.finish_search(1, 9));
    assert_eq!(f.num_matches, 9);
    assert_eq!(f.current, 0);
    assert!(f.pending_scroll);
    assert!(matches!(f.begin_search(String::new()), SearchStep::Cleared));
    assert_eq!(f.num_matches, 0);
    assert_eq!(f.search_gen, 2);
    // Results of the search before the clear are refused.
    assert!(!f.finish_search(1, 9));
}

#[test]
fn toggle_case_forces_new_search() {
    let mut f = FindState::new(0);
    f.begin_search("x".to_string());
    f.toggle_case();
    assert!(f.case_sensitive);
    assert_eq!(f.last_query, "");
    match f.begin_search("x".to_string()) {
        SearchStep::Start { generation, case_insensitive } => {
            assert_eq!(generation, 2);
            assert!(!case_insensitive);
        }
        _ => panic!("expected a search"),
    }
}

#[test]
fn search_matches_point_back_at_occurrences() {
    let data = b"alpha beta\ngamma beta beta\n\nbeta";
    let mut starts = vec![0usize];
    for (i, b) in data.iter().enumerate() {
        if *b == b'\n' {
            starts.push(i + 1);
        }
    }
    for ci in [false, true] {
        let r = search_in_mmap(data, "beta", ci);
        assert_eq!(r.len(), 4);
        for w in r.windows(2) {
            assert!((w[0].line, w[0].col) < (w[1].line, w[1].col));
        }
        for mm in &r {
            let p = starts[mm.line as usize] + mm.col;
            assert_eq!(&data[p..p + mm.len], b"beta");
        }
    }
}

#[test]
fn occurrences_are_capped_by_the_limit() {
    assert_eq!(find_occurrences(b"abababab", b"ab", 10), vec![0, 2, 4, 6]);
    assert_eq!(find_occurrences(b"abababab", b"ab", 2), vec![0, 2]);
    assert_eq!(find_occurrences(b"aaa", b"aa", 10), vec![0, 1]);
    assert_eq!(find_occurrences(b"aaaa", b"aa", 2), vec![0, 1]);
    assert!(find_occurrences(b"ab", b"abc", 10).is_empty());
    assert!(find_occurrences(b"ab", b"", 10).is_empty());
}

#[test]
fn case_insensitive_search_ignores_case_of_data_and_query() {
    let a = search_in_mmap(b"Foo\nbar FOO fOo", "fOo", true);
    let b = search_in_mmap(b"fOO\nBAR foo FOO", "FOO", true);
    assert_eq!(a, b);
    assert_eq!(a, vec![m(0, 0, 3), m(1, 4, 3), m(1, 8, 3)]);
}
