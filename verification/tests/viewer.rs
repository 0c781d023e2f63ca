use text_reader::viewer::{
    build_sparse_index, get_line_ranges, get_lines, IndexBuilder, SparseIndex, MAX_LINE_BYTES,
    SPARSE_STRIDE,
};

fn numbered_lines(n: usize) -> Vec<u8> {
    let mut data = Vec::new();
    for i in 0..n {
        data.extend_from_slice(format!("line {i}\n").as_bytes());
    }
    data
}

#[test]
fn new_index_has_line_zero() {
    let idx = SparseIndex::new();
    assert_eq!(idx.entries, vec![0]);
    assert_eq!(idx.total_lines, 1);
    assert!(!idx.complete);
}

#[test]
fn lookup_picks_nearest_entry_at_or_before() {
    let idx = SparseIndex { entries: vec![0, 500, 900], total_lines: 25_000, complete: true };
    assert_eq!(idx.lookup(0), (0, 0));
    assert_eq!(idx.lookup(9_999), (0, 0));
    assert_eq!(idx.lookup(10_000), (10_000, 500));
    assert_eq!(idx.lookup(19_999), (10_000, 500));
    assert_eq!(idx.lookup(20_000), (20_000, 900));
    assert_eq!(idx.lookup(1_000_000), (20_000, 900));
}

#[test]
fn lookup_on_empty_entries() {
    let idx = SparseIndex { entries: vec![], total_lines: 0, complete: false };
    assert_eq!(idx.lookup(42), (0, 0));
}

#[test]
fn build_index_small_file() {
    let data = b"a\nbb\nccc";
    let mut idx = SparseIndex::new();
    build_sparse_index(data, &mut idx);
    assert_eq!(idx.entries, vec![0]);
    assert_eq!(idx.total_lines, 3);
    assert!(idx.complete);
}

#[test]
fn build_index_empty_file() {
    let mut idx = SparseIndex::new();
    build_sparse_index(b"", &mut idx);
    assert_eq!(idx.entries, vec![0]);
    assert_eq!(idx.total_lines, 1);
    assert!(idx.complete);
}

#[test]
fn build_index_records_every_stride() {
    let n = 2 * SPARSE_STRIDE as usize + 5;
    let data = numbered_lines(n);
    let mut idx = SparseIndex::new();
    build_sparse_index(&data, &mut idx);
    assert_eq!(idx.total_lines, n as u64 + 1);
    assert_eq!(idx.entries.len(), 3);
    // Entry i is the start of line i * stride.
    let mut starts = vec![0usize];
    for (i, b) in data.iter().enumerate() {
        if *b == b'\n' {
            starts.push(i + 1);
        }
    }
    for (i, e) in idx.entries.iter().enumerate() {
        assert_eq!(*e as usize, starts[i * SPARSE_STRIDE as usize]);
    }
}

#[test]
fn builder_steps_publish_progress() {
    let data = numbered_lines(3);
    let mut idx = SparseIndex::new();
    let mut b = IndexBuilder::new();
    assert!(b.scan_next_chunk(&data));
    assert_eq!(b.scanned, data.len());
    assert_eq!(b.line_count, 3);
    b.publish(&mut idx);
    assert_eq!(idx.total_lines, 4);
    assert!(!idx.complete);
    assert!(!b.scan_next_chunk(&data));
    b.finish(&mut idx);
    assert!(idx.complete);
    assert_eq!(idx.entries, vec![0]);
}

#[test]
fn get_lines_reads_from_start_line() {
    let data = b"zero\r\none\ntwo\n";
    let mut idx = SparseIndex::new();
    build_sparse_index(data, &mut idx);
    assert_eq!(get_lines(data, &idx, 0, 2), vec!["zero".to_string(), "one".to_string()]);
    assert_eq!(
        get_lines(data, &idx, 1, 10),
        vec!["one".to_string(), "two".to_string(), String::new()]
    );
    assert_eq!(get_lines(data, &idx, 2, 1), vec!["two".to_string()]);
    // Line 3 starts at the end of the buffer: it is the empty last line.
    assert_eq!(get_lines(data, &idx, 3, 1), vec![String::new()]);
    assert_eq!(get_lines(data, &idx, 2, 5), vec!["two".to_string(), String::new()]);
    assert!(get_lines(data, &idx, 4, 1).is_empty());
    assert!(get_lines(data, &idx, 7, 1).is_empty());
    assert!(get_lines(data, &idx, 0, 0).is_empty());
}

#[test]
fn get_lines_last_line_without_newline() {
    let data = b"a\nb";
    let idx = SparseIndex::new();
    assert_eq!(get_lines(data, &idx, 1, 5), vec!["b".to_string()]);
    assert_eq!(get_line_ranges(data, &idx, 0, 5), vec![(0, 1), (2, 3)]);
}

#[test]
fn get_lines_truncates_long_lines() {
    let mut data = vec![b'x'; MAX_LINE_BYTES + 10];
    data.push(b'\n');
    data.extend_from_slice(b"short");
    let idx = SparseIndex::new();
    let lines = get_lines(&data, &idx, 0, 2);
    assert_eq!(lines.len(), 2);
    assert_eq!(lines[0].len(), MAX_LINE_BYTES);
    assert_eq!(lines[1], "short");
}

#[test]
fn get_lines_replaces_invalid_utf8() {
    let data = [b'a', 0xff, b'b', b'\n'];
    let idx = SparseIndex::new();
    assert_eq!(get_lines(&data, &idx, 0, 1), vec!["a\u{fffd}b".to_string()]);
}

#[test]
fn get_lines_through_sparse_entry_matches_scan_from_top() {
    let n = SPARSE_STRIDE as usize + 20;
    let data = numbered_lines(n);
    let mut idx = SparseIndex::new();
    build_sparse_index(&data, &mut idx);
    let top = SparseIndex::new();
    let start = SPARSE_STRIDE + 3;
    let via_index = get_lines(&data, &idx, start, 4);
    let via_top = get_lines(&data, &top, start, 4);
    assert_eq!(via_index, via_top);
    assert_eq!(via_index[0], format!("line {}", start));
    assert_eq!(via_index[3], format!("line {}", start + 3));
}

#[test]
fn get_lines_counts_every_line_of_the_index() {
    let data = b"a\n";
    let mut idx = SparseIndex::new();
    build_sparse_index(data, &mut idx);
    assert_eq!(idx.total_lines, 2);
    assert_eq!(get_lines(data, &idx, 1, 1), vec![String::new()]);
    assert_eq!(get_lines(data, &idx, 0, 2), vec!["a".to_string(), String::new()]);
    assert_eq!(get_line_ranges(data, &idx, 0, 2), vec![(0, 1), (2, 2)]);
}

#[test]
fn get_lines_empty_file_has_one_empty_line() {
    let mut idx = SparseIndex::new();
    build_sparse_index(b"", &mut idx);
    assert_eq!(idx.total_lines, 1);
    assert_eq!(get_lines(b"", &idx, 0, 1), vec![String::new()]);
    assert!(get_lines(b"", &idx, 1, 1).is_empty());
}

#[test]
fn get_lines_review_example() {
    let data = b"one\r\ntwo\n\nfour";
    let idx = SparseIndex::new();
    assert_eq!(
        get_lines(data, &idx, 1, 10),
        vec!["two".to_string(), String::new(), "four".to_string()]
    );
}

#[test]
fn partial_fresh_and_finished_indexes_agree() {
    let stride = SPARSE_STRIDE as usize;
    let data = numbered_lines(2 * stride + 5);
    let mut full = SparseIndex::new();
    build_sparse_index(&data, &mut full);
    let line_stride_start: usize = (0..stride).map(|i| format!("line {i}\n").len()).sum();
    let partial = SparseIndex {
        entries: vec![0, line_stride_start as u64],
        total_lines: SPARSE_STRIDE + 1,
        complete: false,
    };
    let fresh = SparseIndex::new();
    for start in [0, SPARSE_STRIDE - 1, SPARSE_STRIDE, 2 * SPARSE_STRIDE + 1] {
        let a = get_lines(&data, &full, start, 3);
        assert_eq!(a, get_lines(&data, &partial, start, 3));
        assert_eq!(a, get_lines(&data, &fresh, start, 3));
        assert_eq!(a[0], format!("line {start}"));
    }
}

#[test]
fn published_index_is_well_formed() {
    let stride = SPARSE_STRIDE as usize;
    let data = numbered_lines(2 * stride + 5);
    let mut idx = SparseIndex::new();
    let mut b = IndexBuilder::new();
    assert!(b.scan_next_chunk(&data));
    b.publish(&mut idx);
    assert_eq!(idx.entries[0], 0);
    assert!(idx.entries.windows(2).all(|w| w[0] < w[1]));
    assert_eq!(idx.entries.len() as u64, 1 + (idx.total_lines - 1) / SPARSE_STRIDE);
    assert_eq!(idx.total_lines, 2 * SPARSE_STRIDE + 6);
}
