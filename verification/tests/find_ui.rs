use text_reader::find::Match;
use text_reader::find_ui::{line_segments, Segment, SegmentKind};

fn seg(start: usize, end: usize, kind: SegmentKind) -> Segment {
    Segment { start, end, kind }
}

fn m(col: usize, len: usize) -> Match {
    Match { line: 0, col, len }
}

#[test]
fn segments_without_matches() {
    assert_eq!(line_segments(b"hello", &[], 0, None), vec![seg(0, 5, SegmentKind::Plain)]);
    assert!(line_segments(b"", &[], 0, None).is_empty());
}

#[test]
fn segments_split_around_matches() {
    let line = b"foo bar foo";
    let r = line_segments(line, &[m(0, 3), m(8, 3)], 10, Some(11));
    assert_eq!(
        r,
        vec![
            seg(0, 3, SegmentKind::Match),
            seg(3, 8, SegmentKind::Plain),
            seg(8, 11, SegmentKind::Active),
        ]
    );
}

#[test]
fn segments_skip_overlapping_and_clip() {
    let line = b"aaaa";
    let r = line_segments(line, &[m(0, 2), m(1, 2), m(2, 5)], 0, Some(0));
    assert_eq!(
        r,
        vec![seg(0, 2, SegmentKind::Active), seg(2, 4, SegmentKind::Match)]
    );
}

#[test]
fn segments_stop_at_match_past_end() {
    let line = b"abc";
    let r = line_segments(line, &[m(5, 1), m(0, 1)], 0, None);
    assert_eq!(r, vec![seg(0, 3, SegmentKind::Plain)]);
}

#[test]
fn segments_skip_non_char_boundaries() {
    let line = "é!".as_bytes(); // 0xC3 0xA9 '!'
    let r = line_segments(line, &[m(1, 1), m(2, 1)], 0, None);
    assert_eq!(r, vec![seg(0, 2, SegmentKind::Plain), seg(2, 3, SegmentKind::Match)]);
}

#[test]
fn segments_rebuild_the_line() {
    let text = "one two three two";
    let r = line_segments(text.as_bytes(), &[m(4, 3), m(14, 3)], 0, None);
    let rebuilt: String = r.iter().map(|s| &text[s.start..s.end]).collect();
    assert_eq!(rebuilt, text);
}

#[test]
fn eligible_matches_each_get_a_span() {
    let line = b"ab cd ef";
    let r = line_segments(line, &[m(0, 2), m(3, 2), m(6, 5)], 4, Some(5));
    assert_eq!(
        r,
        vec![
            seg(0, 2, SegmentKind::Match),
            seg(2, 3, SegmentKind::Plain),
            seg(3, 5, SegmentKind::Active),
            seg(5, 6, SegmentKind::Plain),
            seg(6, 8, SegmentKind::Match),
        ]
    );
}

#[test]
fn at_most_one_span_is_active() {
    let line = b"xxxxxx";
    for active in 0..4 {
        let r = line_segments(line, &[m(0, 1), m(2, 1), m(4, 1)], 0, Some(active));
        let n = r.iter().filter(|s| s.kind == SegmentKind::Active).count();
        assert_eq!(n, if active < 3 { 1 } else { 0 });
    }
}
