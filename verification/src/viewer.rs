//! Sparse line index over a byte buffer and line fetching through it.

use vstd::prelude::*;
use vstd::utf8::{decode_utf8, valid_utf8};

use crate::lines::{
    is_line_start, lemma_line_of_bound, lemma_line_of_monotone, lemma_line_of_no_nl, lemma_line_of_step,
    lemma_line_start_sound, lemma_line_start_unique, lemma_next_nl, line_of, line_start, next_nl,
    nl_count, NL,
};
use crate::scan::{
    byte_positions, lemma_byte_positions, memchr_iter, memchr_next, memchr_pending, next_newline,
};

verus! {

/// One sparse index entry every `SPARSE_STRIDE` lines.
pub const SPARSE_STRIDE: u64 = 10_000;

/// Bytes scanned between two publications of indexing progress.
pub const INDEX_CHUNK: usize = 64 * 1024 * 1024;

/// Maximum bytes kept per line for display (longer lines are truncated).
pub const MAX_LINE_BYTES: usize = 4 * 1024;

/// The carriage-return byte.
pub const CR: u8 = 13;

/// `end` moved back over the carriage returns that end `data[start..end]`.
pub open spec fn trim_cr(data: Seq<u8>, start: int, end: int) -> int
    decreases end - start,
{
    if end > start && data[end - 1] == CR {
        trim_cr(data, start, end - 1)
    } else {
        end
    }
}

/// Moving back over carriage returns stops at the first byte from the end
/// that is not one, or at `start`.
proof fn lemma_trim_cr(data: Seq<u8>, start: int, end: int)
    requires
        0 <= start <= end <= data.len(),
    ensures
        start <= trim_cr(data, start, end) <= end,
        forall|k: int| trim_cr(data, start, end) <= k < end ==> data[k] == CR,
        trim_cr(data, start, end) == start || data[trim_cr(data, start, end) - 1] != CR,
    decreases end - start,
{
    if end > start && data[end - 1] == CR {
        lemma_trim_cr(data, start, end - 1);
    }
}

/// From offset `pos`, move past `k` newlines. `None` when a newline is
/// missing.
pub open spec fn skip_lines(data: Seq<u8>, pos: int, k: nat) -> Option<int>
    decreases k,
{
    if k == 0 {
        Some(pos)
    } else {
        let q = next_nl(data, pos);
        if q >= data.len() {
            None
        } else {
            skip_lines(data, q + 1, (k - 1) as nat)
        }
    }
}

/// Byte range shown for the line that starts at `pos`: up to its newline,
/// cut at `MAX_LINE_BYTES`, without trailing carriage returns.
pub open spec fn line_range(data: Seq<u8>, pos: int) -> (int, int) {
    let nl = next_nl(data, pos);
    let cut = if nl - pos <= MAX_LINE_BYTES {
        nl
    } else {
        pos + MAX_LINE_BYTES
    };
    (pos, trim_cr(data, pos, cut))
}

/// The ranges of up to `count` consecutive lines, the first starting at
/// `pos`; stops past the end of the buffer. A line starting at the very end
/// (the empty line after a final newline, or the one line of an empty
/// buffer) is included as an empty range.
pub open spec fn collect_lines(data: Seq<u8>, pos: int, count: nat) -> Seq<(int, int)>
    decreases count,
{
    if count == 0 || pos > data.len() {
        seq![]
    } else {
        seq![line_range(data, pos)] + collect_lines(data, next_nl(data, pos) + 1, (count - 1) as nat)
    }
}

/// The ranges of up to `count` lines, starting `skip` lines after the line
/// that starts at `pos`.
pub open spec fn lines_from(data: Seq<u8>, pos: int, skip: nat, count: nat) -> Seq<(int, int)> {
    match skip_lines(data, pos, skip) {
        Some(p) => collect_lines(data, p, count),
        None => seq![],
    }
}

/// Sparse byte-offset index over newline positions.
///
/// `entries[i]` is the byte offset of the first byte of line
/// `i * SPARSE_STRIDE`. Built incrementally; `total_lines` and `complete`
/// reflect how far indexing has progressed.
pub struct SparseIndex {
    pub entries: Vec<u64>,
    pub total_lines: u64,
    pub complete: bool,
}

/// Entry `i` of an index is where line `i * SPARSE_STRIDE` starts.
pub open spec fn entries_are_line_starts(data: Seq<u8>, entries: Seq<u64>) -> bool {
    forall|i: int|
        #![trigger entries[i]]
        0 <= i < entries.len() ==> is_line_start(
            data,
            (i * SPARSE_STRIDE) as nat,
            entries[i] as int,
        )
}

impl SparseIndex {
    /// The index as it stands after the first `upto` bytes of `data` have been
    /// scanned: one entry for each indexed line up to there, and the line
    /// count of that prefix plus the line that follows it.
    pub open spec fn indexes_prefix(&self, data: Seq<u8>, upto: int) -> bool {
        &&& 0 <= upto <= data.len()
        &&& self.entries@.len() == line_of(data, upto) / (SPARSE_STRIDE as nat) + 1
        &&& entries_are_line_starts(data, self.entries@)
        &&& self.total_lines == line_of(data, upto) + 1
    }

    /// The finished index of `data`.
    pub open spec fn indexes(&self, data: Seq<u8>) -> bool {
        &&& self.complete
        &&& self.indexes_prefix(data, data.len() as int)
    }

    /// What `lookup` returns: the entry `i = min(target / SPARSE_STRIDE,
    /// entries.len() - 1)` as `(i * SPARSE_STRIDE, entries[i])`, or `(0, 0)`
    /// for an index without entries.
    pub open spec fn spec_lookup(&self, target: u64) -> (u64, u64) {
        if self.entries@.len() == 0 {
            (0, 0)
        } else {
            let i = if target / SPARSE_STRIDE < self.entries@.len() - 1 {
                (target / SPARSE_STRIDE) as int
            } else {
                self.entries@.len() - 1
            };
            ((i * SPARSE_STRIDE) as u64, self.entries@[i])
        }
    }

    /// An empty index: line 0 always starts at byte 0.
    pub fn new() -> (r: Self)
        ensures
            r.entries@ == seq![0u64],
            r.total_lines == 1,
            !r.complete,
    {
        SparseIndex { entries: vec![0], total_lines: 1, complete: false }
    }

    /// Nearest indexed line at or before `target`.
    /// Returns `(entry_line_number, byte_offset)`.
    pub fn lookup(&self, target: u64) -> (r: (u64, u64))
        ensures
            r == self.spec_lookup(target),
            r.0 <= target,
    {
        if self.entries.len() == 0 {
            return (0, 0);
        }
        let q = target / SPARSE_STRIDE;
        let last = self.entries.len() - 1;
        let i: usize = if q < last as u64 {
            q as usize
        } else {
            last
        };
        assert(i * SPARSE_STRIDE <= target) by (nonlinear_arith)
            requires
                i <= target / SPARSE_STRIDE,
        ;
        (i as u64 * SPARSE_STRIDE, self.entries[i])
    }
}

/// Byte ranges as pairs of mathematical integers.
pub open spec fn int_ranges(v: Seq<(usize, usize)>) -> Seq<(int, int)> {
    v.map_values(|r: (usize, usize)| (r.0 as int, r.1 as int))
}

/// Byte ranges of `count` consecutive lines starting at zero-based line
/// `start`, each cut to `MAX_LINE_BYTES` and stripped of trailing carriage
/// returns.
///
/// Uses the sparse index to seek close to `start`, then scans forward
/// linearly. Returns fewer ranges when the buffer has fewer lines: with a
/// valid index, exactly `count` whenever `start + count` is at most the
/// number of lines (`lemma_lines_count`).
pub fn get_line_ranges(data: &[u8], index: &SparseIndex, start: u64, count: usize) -> (r: Vec<(usize, usize)>)
    requires
        count > 0 ==> index.spec_lookup(start).1 <= data@.len(),
        data@.len() < usize::MAX,
    ensures
        int_ranges(r@) == lines_from(
            data@,
            index.spec_lookup(start).1 as int,
            (start - index.spec_lookup(start).0) as nat,
            count as nat,
        ),
        forall|k: int| #![trigger r@[k]] 0 <= k < r@.len() ==> r@[k].0 <= r@[k].1 <= data@.len(),
{
    if count == 0 {
        return Vec::new();
    }
    let (entry_line, byte_offset) = index.lookup(start);
    let ghost target = lines_from(data@, byte_offset as int, (start - entry_line) as nat, count as nat);
    let len = data.len();
    let mut pos = byte_offset as usize;
    let mut cur = entry_line;

    // Scan forward from the nearest index entry to the requested start line.
    while cur < start
        invariant
            entry_line <= cur <= start,
            pos <= len == data@.len() < usize::MAX,
            count > 0,
            target == lines_from(data@, pos as int, (start - cur) as nat, count as nat),
            target == lines_from(
                data@,
                index.spec_lookup(start).1 as int,
                (start - index.spec_lookup(start).0) as nat,
                count as nat,
            ),
        decreases start - cur,
    {
        let nl = next_newline(data, pos);
        let ghost k = (start - cur) as nat;
        assert(skip_lines(data@, pos as int, k) == if nl >= len {
            None
        } else {
            skip_lines(data@, nl + 1, (k - 1) as nat)
        });
        if nl >= len {
            let r: Vec<(usize, usize)> = Vec::new();
            assert(int_ranges(r@) =~= target);
            return r;
        }
        pos = nl + 1;
        cur = cur + 1;
    }

    // Collect `count` lines sequentially (single forward scan).
    let ghost first = pos as int;
    let mut lines: Vec<(usize, usize)> = Vec::new();
    let mut i: usize = 0;
    while i < count
        invariant
            0 <= i <= count,
            pos <= len + 1,
            len == data@.len() < usize::MAX,
            target == collect_lines(data@, first, count as nat),
            forall|k: int|
                #![trigger lines@[k]]
                0 <= k < lines@.len() ==> lines@[k].0 <= lines@[k].1 <= data@.len(),
            target == int_ranges(lines@) + collect_lines(
                data@,
                pos as int,
                (count - i) as nat,
            ),
        ensures
            i == count || pos > len,
        decreases count - i,
    {
        if pos > len {
            break;
        }
        let nl = next_newline(data, pos);
        proof {
            lemma_next_nl(data@, pos as int);
        }
        let cut = if nl - pos <= MAX_LINE_BYTES {
            nl
        } else {
            pos + MAX_LINE_BYTES
        };
        let mut end = cut;
        while end > pos && data[end - 1] == CR
            invariant
                pos <= end <= cut <= len == data@.len(),
                trim_cr(data@, pos as int, end as int) == trim_cr(data@, pos as int, cut as int),
            decreases end,
        {
            end = end - 1;
        }
        let ghost before = lines@;
        lines.push((pos, end));
        proof {
            assert(int_ranges(lines@) =~= int_ranges(before).push((pos as int, end as int)));
        }
        pos = nl + 1;
        i = i + 1;
    }
    proof {
        assert(collect_lines(data@, pos as int, (count - i) as nat) =~= seq![]);
        assert(int_ranges(lines@) =~= target);
    }
    lines
}

/// Reading from where line `e` starts and skipping `k` lines gives the same
/// ranges as reading from the top of the buffer and skipping `e + k` lines.
pub proof fn lemma_lines_from_line_start(data: Seq<u8>, e: nat, k: nat, count: nat)
    ensures
        lines_from(data, line_start(data, e), k, count) == lines_from(data, 0, e + k, count),
    decreases e,
{
    if e > 0 {
        let prev = line_start(data, (e - 1) as nat);
        lemma_lines_from_line_start(data, (e - 1) as nat, k + 1, count);
        lemma_line_start_sound(data, (e - 1) as nat);
        lemma_next_nl(data, prev);
        let q = next_nl(data, prev);
        assert(skip_lines(data, prev, k + 1) == if q >= data.len() {
            None
        } else {
            skip_lines(data, q + 1, k)
        });
        if q >= data.len() {
            if k > 0 {
                lemma_next_nl(data, q + 1);
                assert(skip_lines(data, q + 1, k) == if next_nl(data, q + 1) >= data.len() {
                    None
                } else {
                    skip_lines(data, next_nl(data, q + 1) + 1, (k - 1) as nat)
                });
            }
        }
    }
}

/// Once walking from the top goes past the end of the buffer, later lines
/// start past it too.
proof fn lemma_line_start_past_end(data: Seq<u8>, e: nat, j: nat)
    requires
        line_start(data, e) > data.len(),
    ensures
        line_start(data, e + j) > data.len(),
    decreases j,
{
    if j > 0 {
        lemma_line_start_past_end(data, e, (j - 1) as nat);
        assert(line_start(data, e + j) == next_nl(data, line_start(data, (e + j - 1) as nat)) + 1);
    }
}

/// Skipping `k` lines from where line `e` starts lands where line `e + k`
/// starts, or fails when that line starts past the end.
proof fn lemma_skip_lands_on_line_start(data: Seq<u8>, e: nat, k: nat)
    ensures
        skip_lines(data, line_start(data, e), k) matches Some(p) ==> p == line_start(data, e + k),
        skip_lines(data, line_start(data, e), k) is None ==> line_start(data, e + k) > data.len(),
    decreases k,
{
    if k > 0 {
        let q = next_nl(data, line_start(data, e));
        assert(line_start(data, e + 1) == q + 1);
        if q >= data.len() {
            lemma_line_start_past_end(data, e + 1, (k - 1) as nat);
        } else {
            lemma_skip_lands_on_line_start(data, e + 1, (k - 1) as nat);
        }
    }
}

/// Collecting from where line `e` starts yields the ranges of lines `e`,
/// `e + 1`, ..., as long as they start inside the buffer or at its end.
proof fn lemma_collect_is_lines(data: Seq<u8>, e: nat, count: nat)
    ensures
        ({
            let r = collect_lines(data, line_start(data, e), count);
            &&& r.len() <= count
            &&& forall|k: int| 0 <= k < r.len() ==> #[trigger] r[k] == line_range(data, line_start(data, (e + k) as nat))
            &&& forall|k: int| 0 <= k < count ==> (k < r.len() <==> #[trigger] line_start(data, (e + k) as nat) <= data.len())
        }),
    decreases count,
{
    let r = collect_lines(data, line_start(data, e), count);
    if count > 0 {
        if line_start(data, e) > data.len() {
            assert forall|k: int| 0 <= k < count implies !(#[trigger] line_start(data, (e + k) as nat) <= data.len()) by {
                lemma_line_start_past_end(data, e, k as nat);
            }
        } else {
            lemma_collect_is_lines(data, e + 1, (count - 1) as nat);
            let rest = collect_lines(data, line_start(data, e + 1), (count - 1) as nat);
            assert(line_start(data, e + 1) == next_nl(data, line_start(data, e)) + 1);
            assert(r == seq![line_range(data, line_start(data, e))] + rest);
            assert forall|k: int| 0 <= k < r.len() implies #[trigger] r[k] == line_range(data, line_start(data, (e + k) as nat)) by {
                if k > 0 {
                    assert(r[k] == rest[k - 1]);
                    assert((e + 1 + (k - 1)) as nat == (e + k) as nat);
                }
            }
            assert forall|k: int| 0 <= k < count implies (k < r.len() <==> #[trigger] line_start(data, (e + k) as nat) <= data.len()) by {
                if k > 0 {
                    assert((e + 1 + (k - 1)) as nat == (e + k) as nat);
                }
            }
        }
    }
}

/// Law: the range shown for the line starting at `pos` begins at `pos` and
/// ends at or before its cut point (its newline or the end of the buffer,
/// or `pos + MAX_LINE_BYTES` when that comes first); only carriage returns
/// are dropped between the end and the cut point, and the range does not
/// end in one. Every other byte, spaces and tabs included, is kept.
pub proof fn lemma_line_range_drops_only_cr(data: Seq<u8>, pos: int)
    requires
        0 <= pos <= data.len(),
    ensures
        ({
            let nl = next_nl(data, pos);
            let cut = if nl - pos <= MAX_LINE_BYTES {
                nl
            } else {
                pos + MAX_LINE_BYTES
            };
            let (s, e) = line_range(data, pos);
            &&& pos <= nl <= data.len()
            &&& forall|k: int| pos <= k < nl ==> data[k] != NL
            &&& nl < data.len() ==> data[nl] == NL
            &&& s == pos
            &&& pos <= e <= cut <= data.len()
            &&& forall|k: int| e <= k < cut ==> data[k] == CR
            &&& e == s || data[e - 1] != CR
        }),
{
    lemma_next_nl(data, pos);
    let nl = next_nl(data, pos);
    let cut = if nl - pos <= MAX_LINE_BYTES {
        nl
    } else {
        pos + MAX_LINE_BYTES
    };
    lemma_trim_cr(data, pos, cut);
}

/// Law: every range fetched through an index of a scanned prefix starts at
/// a line start and keeps all of that line up to its cut point but the
/// carriage returns that end it: the bytes dropped are all carriage
/// returns, and the range does not end in one.
pub proof fn lemma_fetched_ranges_drop_only_cr(
    index: SparseIndex,
    data: Seq<u8>,
    upto: int,
    start: u64,
    count: nat,
)
    requires
        index.indexes_prefix(data, upto),
    ensures
        ({
            let r = lines_from(
                data,
                index.spec_lookup(start).1 as int,
                (start - index.spec_lookup(start).0) as nat,
                count,
            );
            forall|k: int|
                #![trigger r[k]]
                0 <= k < r.len() ==> {
                    let (s, e) = r[k];
                    let nl = next_nl(data, s);
                    let cut = if nl - s <= MAX_LINE_BYTES {
                        nl
                    } else {
                        s + MAX_LINE_BYTES
                    };
                    &&& s == line_start(data, (start + k) as nat)
                    &&& s <= e <= cut <= data.len()
                    &&& forall|j: int| e <= j < cut ==> data[j] == CR
                    &&& e == s || data[e - 1] != CR
                }
        }),
{
    lemma_lines_index_independent(index, data, upto, start, count);
    lemma_lines_are_consecutive(data, start as nat, count);
    let r = lines_from(data, 0, start as nat, count);
    assert forall|k: int|
        #![trigger r[k]]
        0 <= k < r.len() implies {
        let (s, e) = r[k];
        let nl = next_nl(data, s);
        let cut = if nl - s <= MAX_LINE_BYTES {
            nl
        } else {
            s + MAX_LINE_BYTES
        };
        &&& s == line_start(data, (start + k) as nat)
        &&& s <= e <= cut <= data.len()
        &&& forall|j: int| e <= j < cut ==> data[j] == CR
        &&& e == s || data[e - 1] != CR
    } by {
        let pos = line_start(data, (start + k) as nat);
        lemma_line_start_sound(data, (start + k) as nat);
        assert(pos <= data.len());
        lemma_line_range_drops_only_cr(data, pos);
    }
}

/// Law: the lines read from the top of the buffer, starting at line
/// `start`, are lines `start`, `start + 1`, ...: the `k`-th range is that of
/// the line starting at `line_start(start + k)`, and there are as many as
/// there are lines among the `count` asked for that start inside the buffer
/// or at its end.
pub proof fn lemma_lines_are_consecutive(data: Seq<u8>, start: nat, count: nat)
    ensures
        ({
            let r = lines_from(data, 0, start, count);
            &&& r.len() <= count
            &&& forall|k: int| 0 <= k < r.len() ==> #[trigger] r[k] == line_range(data, line_start(data, (start + k) as nat))
            &&& forall|k: int| 0 <= k < count ==> (k < r.len() <==> #[trigger] line_start(data, (start + k) as nat) <= data.len())
        }),
{
    assert(line_start(data, 0) == 0);
    lemma_skip_lands_on_line_start(data, 0, start);
    match skip_lines(data, 0, start) {
        Some(p) => {
            lemma_collect_is_lines(data, start, count);
        },
        None => {
            assert forall|k: int| 0 <= k < count implies !(#[trigger] line_start(data, (start + k) as nat) <= data.len()) by {
                lemma_line_start_past_end(data, start, k as nat);
            }
        },
    }
}

/// Law: the lines fetched through an index that holds valid entries for a
/// scanned prefix (complete or still being built) are the lines read from
/// the top of the buffer; the entry used is a true line start, so it never
/// lies past the end of the buffer.
pub proof fn lemma_lines_index_independent(
    index: SparseIndex,
    data: Seq<u8>,
    upto: int,
    start: u64,
    count: nat,
)
    requires
        index.indexes_prefix(data, upto),
    ensures
        is_line_start(data, index.spec_lookup(start).0 as nat, index.spec_lookup(start).1 as int),
        index.spec_lookup(start).1 <= data.len(),
        lines_from(
            data,
            index.spec_lookup(start).1 as int,
            (start - index.spec_lookup(start).0) as nat,
            count,
        ) == lines_from(data, 0, start as nat, count),
{
    let i = if start / SPARSE_STRIDE < index.entries@.len() - 1 {
        (start / SPARSE_STRIDE) as int
    } else {
        index.entries@.len() - 1
    };
    assert(i * SPARSE_STRIDE <= start) by (nonlinear_arith)
        requires
            i <= start / SPARSE_STRIDE,
            0 <= i,
    ;
    let e = (i * SPARSE_STRIDE) as nat;
    assert(is_line_start(data, e, index.entries@[i] as int));
    lemma_line_start_unique(data, e, index.entries@[i] as int);
    lemma_lines_from_line_start(data, e, (start - e) as nat, count);
}

/// Law: an index of a scanned prefix (in particular the finished index)
/// lets every line it counts be fetched: when `start + count` is at most
/// `total_lines`, exactly `count` lines come back, including the empty line
/// after a final newline and the one line of an empty buffer.
pub proof fn lemma_lines_count(index: SparseIndex, data: Seq<u8>, upto: int, start: u64, count: nat)
    requires
        index.indexes_prefix(data, upto),
        start + count <= index.total_lines,
    ensures
        lines_from(
            data,
            index.spec_lookup(start).1 as int,
            (start - index.spec_lookup(start).0) as nat,
            count,
        ).len() == count,
{
    lemma_lines_index_independent(index, data, upto, start, count);
    lemma_lines_are_consecutive(data, start as nat, count);
    let r = lines_from(data, 0, start as nat, count);
    assert(data.take(data.len() as int) =~= data);
    lemma_line_of_monotone(data, upto, data.len() as int);
    if r.len() < count {
        let k = r.len() as int;
        lemma_line_start_sound(data, (start + k) as nat);
        assert(line_start(data, (start + k) as nat) <= data.len());
    }
}

/// Law: any two indexes of scanned prefixes of the same buffer (a fresh
/// index, one still being built, the finished one) give the same lines for
/// every request.
pub proof fn lemma_indexes_agree(
    index1: SparseIndex,
    index2: SparseIndex,
    data: Seq<u8>,
    upto1: int,
    upto2: int,
    start: u64,
    count: nat,
)
    requires
        index1.indexes_prefix(data, upto1),
        index2.indexes_prefix(data, upto2),
    ensures
        lines_from(
            data,
            index1.spec_lookup(start).1 as int,
            (start - index1.spec_lookup(start).0) as nat,
            count,
        ) == lines_from(
            data,
            index2.spec_lookup(start).1 as int,
            (start - index2.spec_lookup(start).0) as nat,
            count,
        ),
{
    lemma_lines_index_independent(index1, data, upto1, start, count);
    lemma_lines_index_independent(index2, data, upto2, start, count);
}

/// Line starts grow with the line number.
proof fn lemma_line_starts_increase(data: Seq<u8>, a: nat, x: int, b: nat, y: int)
    requires
        is_line_start(data, a, x),
        is_line_start(data, b, y),
        a < b,
    ensures
        x < y,
{
    if y <= x {
        lemma_line_of_monotone(data, y, x);
    }
}

/// Law: every state of an index that covers a scanned prefix (each state
/// published while indexing runs, and the finished one) starts with line 0
/// at offset 0, has strictly increasing entries, one entry per
/// `SPARSE_STRIDE` lines counted, and counts between 1 and the buffer's
/// newlines plus one lines; the finished index counts exactly newlines plus
/// one.
pub proof fn lemma_index_shape(index: SparseIndex, data: Seq<u8>, upto: int)
    requires
        index.indexes_prefix(data, upto),
    ensures
        index.entries@[0] == 0,
        forall|i: int, j: int|
            0 <= i < j < index.entries@.len() ==> index.entries@[i] < index.entries@[j],
        index.entries@.len() == 1 + (index.total_lines - 1) / (SPARSE_STRIDE as int),
        1 <= index.total_lines <= nl_count(data) + 1,
        index.complete && upto == data.len() ==> index.total_lines == nl_count(data) + 1,
{
    assert(data.take(data.len() as int) =~= data);
    lemma_line_of_monotone(data, upto, data.len() as int);
    assert(is_line_start(data, 0, index.entries@[0] as int));
    assert forall|i: int, j: int| 0 <= i < j < index.entries@.len() implies index.entries@[i]
        < index.entries@[j] by {
        assert(is_line_start(data, (i * SPARSE_STRIDE) as nat, index.entries@[i] as int));
        assert(is_line_start(data, (j * SPARSE_STRIDE) as nat, index.entries@[j] as int));
        assert(i * SPARSE_STRIDE < j * SPARSE_STRIDE) by (nonlinear_arith)
            requires
                i < j,
        ;
        lemma_line_starts_increase(
            data,
            (i * SPARSE_STRIDE) as nat,
            index.entries@[i] as int,
            (j * SPARSE_STRIDE) as nat,
            index.entries@[j] as int,
        );
    }
}

/// Law: as indexing scans further, the line count an index reports never
/// decreases.
pub proof fn lemma_total_lines_grow(
    earlier: SparseIndex,
    later: SparseIndex,
    data: Seq<u8>,
    upto1: int,
    upto2: int,
)
    requires
        earlier.indexes_prefix(data, upto1),
        later.indexes_prefix(data, upto2),
        upto1 <= upto2,
    ensures
        earlier.total_lines <= later.total_lines,
{
    lemma_line_of_monotone(data, upto1, upto2);
}

/// Names what `String::from_utf8_lossy` makes of a byte sequence.
pub uninterp spec fn utf8_lossy(bytes: Seq<u8>) -> Seq<char>;

/// Calls `String::from_utf8_lossy`, which decodes `bytes` as UTF-8 and puts
/// U+FFFD in place of each invalid sequence. Stated: the result is the named
/// decoding of the bytes, and valid UTF-8 decodes as itself. The replacement
/// rules for invalid input are left unsaid.
#[verifier::external_body]
fn decode_utf8_lossy(bytes: &[u8]) -> (s: String)
    ensures
        s@ == utf8_lossy(bytes@),
        valid_utf8(bytes@) ==> s@ == decode_utf8(bytes@),
{
    String::from_utf8_lossy(bytes).into_owned()
}

/// Fetch `count` consecutive lines starting at zero-based line `start`:
/// each line's bytes as given by `get_line_ranges`, decoded as UTF-8 with
/// invalid sequences replaced.
pub fn get_lines(data: &[u8], index: &SparseIndex, start: u64, count: usize) -> (r: Vec<String>)
    requires
        count > 0 ==> index.spec_lookup(start).1 <= data@.len(),
        data@.len() < usize::MAX,
    ensures
        ({
            let s = lines_from(
                data@,
                index.spec_lookup(start).1 as int,
                (start - index.spec_lookup(start).0) as nat,
                count as nat,
            );
            &&& r@.len() == s.len()
            &&& forall|i: int|
                #![trigger r@[i]]
                0 <= i < r@.len() ==> r@[i]@ == utf8_lossy(data@.subrange(s[i].0, s[i].1))
            &&& forall|i: int|
                #![trigger r@[i]]
                0 <= i < r@.len() && valid_utf8(data@.subrange(s[i].0, s[i].1)) ==> r@[i]@
                    == decode_utf8(data@.subrange(s[i].0, s[i].1))
        }),
{
    let ranges = get_line_ranges(data, index, start, count);
    let ghost s = int_ranges(ranges@);
    let mut lines: Vec<String> = Vec::new();
    let mut i: usize = 0;
    while i < ranges.len()
        invariant
            0 <= i <= ranges@.len(),
            s == int_ranges(ranges@),
            forall|k: int|
                #![trigger ranges@[k]]
                0 <= k < ranges@.len() ==> ranges@[k].0 <= ranges@[k].1 <= data@.len(),
            lines@.len() == i,
            forall|k: int|
                #![trigger lines@[k]]
                0 <= k < i ==> lines@[k]@ == utf8_lossy(data@.subrange(s[k].0, s[k].1)),
            forall|k: int|
                #![trigger lines@[k]]
                0 <= k < i && valid_utf8(data@.subrange(s[k].0, s[k].1)) ==> lines@[k]@
                    == decode_utf8(data@.subrange(s[k].0, s[k].1)),
        decreases ranges@.len() - i,
    {
        let (a, b) = ranges[i];
        let text = decode_utf8_lossy(vstd::slice::slice_subrange(data, a, b));
        lines.push(text);
        i = i + 1;
    }
    lines
}

/// Incremental builder of a `SparseIndex`: scans the buffer chunk by chunk
/// and holds the entries found since the last publication.
pub struct IndexBuilder {
    /// Newlines seen in `data[..scanned]`.
    pub line_count: u64,
    /// Entries found but not yet handed to the index.
    pub pending: Vec<u64>,
    /// Bytes scanned so far.
    pub scanned: usize,
    /// Entries already handed to the index.
    pub published: Ghost<nat>,
}

impl IndexBuilder {
    /// State reached after scanning `data[..scanned]`: the newline count, and
    /// pending entries for lines `(published + j + 1) * SPARSE_STRIDE`.
    pub open spec fn wf(&self, data: Seq<u8>) -> bool {
        &&& self.scanned <= data.len()
        &&& self.line_count == line_of(data, self.scanned as int)
        &&& self.published@ + self.pending@.len() == self.line_count / SPARSE_STRIDE
        &&& forall|j: int|
            #![trigger self.pending@[j]]
            0 <= j < self.pending@.len() ==> is_line_start(
                data,
                ((self.published@ + j + 1) * SPARSE_STRIDE) as nat,
                self.pending@[j] as int,
            )
    }

    /// Nothing scanned yet.
    pub fn new() -> (r: Self)
        ensures
            r.line_count == 0,
            r.pending@.len() == 0,
            r.scanned == 0,
            r.published@ == 0,
    {
        IndexBuilder { line_count: 0, pending: Vec::new(), scanned: 0, published: Ghost(0) }
    }

    /// Scans the next chunk of at most `INDEX_CHUNK` bytes, counting its
    /// newlines and recording the start of every `SPARSE_STRIDE`-th line.
    /// Returns `false`, changing nothing, once the whole buffer is scanned.
    pub fn scan_next_chunk(&mut self, data: &[u8]) -> (more: bool)
        requires
            old(self).wf(data@),
            data@.len() < u64::MAX,
        ensures
            final(self).wf(data@),
            final(self).published == old(self).published,
            more == (old(self).scanned < data@.len()),
            more ==> final(self).scanned == if data@.len() - old(self).scanned <= INDEX_CHUNK {
                data@.len() as int
            } else {
                old(self).scanned + INDEX_CHUNK
            },
            more ==> old(self).pending@.is_prefix_of(final(self).pending@),
            !more ==> *final(self) == *old(self),
    {
        let len = data.len();
        let chunk_start = self.scanned;
        if chunk_start >= len {
            return false;
        }
        let chunk_end = if len - chunk_start <= INDEX_CHUNK {
            len
        } else {
            chunk_start + INDEX_CHUNK
        };
        let chunk = vstd::slice::slice_subrange(data, chunk_start, chunk_end);
        let mut newlines = memchr_iter(NL, chunk);
        let ghost positions = byte_positions(chunk@, NL, 0);
        proof {
            lemma_byte_positions(chunk@, NL, 0);
        }
        let ghost old_pending = self.pending@;
        let ghost mut seen: int = chunk_start as int;
        let ghost mut k: int = 0;
        loop
            invariant
                0 <= k <= positions.len(),
                memchr_pending(newlines) == positions.skip(k),
                chunk@ == data@.subrange(chunk_start as int, chunk_end as int),
                chunk_start < chunk_end <= data@.len() < u64::MAX,
                chunk_start <= seen <= chunk_end,
                k == 0 ==> seen == chunk_start,
                k > 0 ==> seen == chunk_start + positions[k - 1] + 1,
                forall|i: int| 0 <= i < positions.len() ==> positions[i] < chunk@.len() && chunk@[positions[i] as int] == NL,
                forall|i: int, j: int| 0 <= i < j < positions.len() ==> positions[i] < positions[j],
                forall|p: int|
                    0 <= p < chunk@.len() && chunk@[p] == NL ==> exists|i: int|
                        0 <= i < positions.len() && positions[i] == p,
                self.line_count == line_of(data@, seen),
                self.published@ + self.pending@.len() == self.line_count / SPARSE_STRIDE,
                self.published == old(self).published,
                self.scanned == chunk_start,
                old_pending.is_prefix_of(self.pending@),
                forall|j: int|
                    #![trigger self.pending@[j]]
                    0 <= j < self.pending@.len() ==> is_line_start(
                        data@,
                        ((self.published@ + j + 1) * SPARSE_STRIDE) as nat,
                        self.pending@[j] as int,
                    ),
            ensures
                k == positions.len(),
                chunk@ == data@.subrange(chunk_start as int, chunk_end as int),
                chunk_start <= seen <= chunk_end,
                k == 0 ==> seen == chunk_start,
                k > 0 ==> seen == chunk_start + positions[k - 1] + 1,
                self.line_count == line_of(data@, seen),
                self.published@ + self.pending@.len() == self.line_count / SPARSE_STRIDE,
                self.published == old(self).published,
                self.scanned == chunk_start,
                old_pending.is_prefix_of(self.pending@),
                forall|j: int|
                    #![trigger self.pending@[j]]
                    0 <= j < self.pending@.len() ==> is_line_start(
                        data@,
                        ((self.published@ + j + 1) * SPARSE_STRIDE) as nat,
                        self.pending@[j] as int,
                    ),
            decreases positions.len() - k,
        {
            let off = match memchr_next(&mut newlines) {
                Some(off) => off,
                None => {
                    assert(positions.skip(k).len() == 0);
                    break;
                },
            };
            assert(off == positions[k]);
            let q = chunk_start + off;
            proof {
                assert forall|i: int| seen <= i < q implies data@[i] != NL by {
                    if data@[i] == NL {
                        assert(chunk@[i - chunk_start] == NL);
                        let j = choose|j: int| 0 <= j < positions.len() && positions[j] == i - chunk_start;
                        if j < k {
                            if j < k - 1 {
                                assert(positions[j] < positions[k - 1]);
                            }
                        } else if j > k {
                            assert(positions[k] < positions[j]);
                        }
                    }
                }
                lemma_line_of_no_nl(data@, seen, q as int);
                lemma_line_of_step(data@, q as int);
                lemma_line_of_bound(data@, q as int);
                seen = q + 1;
            }
            let ghost prev_pending = self.pending@;
            self.line_count = self.line_count + 1;
            if self.line_count % SPARSE_STRIDE == 0 {
                self.pending.push((q + 1) as u64);
                proof {
                    assert(prev_pending.is_prefix_of(self.pending@));
                    assert(self.pending@.len() == prev_pending.len() + 1);
                }
            }
            proof {
                k = k + 1;
                assert(memchr_pending(newlines) =~= positions.skip(k));
            }
        }
        proof {
            assert forall|i: int| seen <= i < chunk_end implies data@[i] != NL by {
                if data@[i] == NL {
                    assert(chunk@[i - chunk_start] == NL);
                    let j = choose|j: int| 0 <= j < positions.len() && positions[j] == i - chunk_start;
                    if j < k - 1 {
                        assert(positions[j] < positions[k - 1]);
                    }
                }
            }
            lemma_line_of_no_nl(data@, seen, chunk_end as int);
        }
        self.scanned = chunk_end;
        true
    }

    /// Hands the pending entries to `index` and updates its line count to
    /// the lines seen so far plus the one after the last newline.
    pub fn publish(&mut self, index: &mut SparseIndex)
        requires
            old(self).line_count < u64::MAX,
        ensures
            final(index).entries@ == old(index).entries@ + old(self).pending@,
            final(index).total_lines == old(self).line_count + 1,
            final(index).complete == old(index).complete,
            final(self).pending@.len() == 0,
            final(self).published@ == old(self).published@ + old(self).pending@.len(),
            final(self).line_count == old(self).line_count,
            final(self).scanned == old(self).scanned,
    {
        let ghost count = self.pending@.len();
        index.entries.append(&mut self.pending);
        index.total_lines = self.line_count + 1;
        self.published = Ghost(self.published@ + count);
    }

    /// Publishes what is left and marks the index complete.
    pub fn finish(&mut self, index: &mut SparseIndex)
        requires
            old(self).line_count < u64::MAX,
        ensures
            final(index).entries@ == old(index).entries@ + old(self).pending@,
            final(index).total_lines == old(self).line_count + 1,
            final(index).complete,
            final(self).pending@.len() == 0,
            final(self).published@ == old(self).published@ + old(self).pending@.len(),
            final(self).line_count == old(self).line_count,
            final(self).scanned == old(self).scanned,
    {
        self.publish(index);
        index.complete = true;
    }
}

/// Law: while indexing runs, every publication leaves an index of the
/// prefix scanned so far. An index holding line 0 and the entries published
/// by a builder, after `publish`, indexes `data[..scanned]`; lines read
/// through it are then those read from the top of the buffer
/// (`lemma_lines_index_independent`).
pub proof fn lemma_publish_indexes_prefix(
    before: SparseIndex,
    builder: IndexBuilder,
    after: SparseIndex,
    data: Seq<u8>,
)
    requires
        builder.wf(data),
        before.entries@.len() == builder.published@ + 1,
        entries_are_line_starts(data, before.entries@),
        after.entries@ == before.entries@ + builder.pending@,
        after.total_lines == builder.line_count + 1,
    ensures
        after.indexes_prefix(data, builder.scanned as int),
{
    assert forall|i: int|
        #![trigger after.entries@[i]]
        0 <= i < after.entries@.len() implies is_line_start(
        data,
        (i * SPARSE_STRIDE) as nat,
        after.entries@[i] as int,
    ) by {
        if i < before.entries@.len() {
            assert(after.entries@[i] == before.entries@[i]);
        } else {
            let j = i - before.entries@.len();
            assert(after.entries@[i] == builder.pending@[j]);
            assert(((builder.published@ + j + 1) * SPARSE_STRIDE) as nat == (i * SPARSE_STRIDE) as nat);
        }
    }
}

/// Law: every state an index takes while indexing runs is well formed. An
/// index holding line 0 and the entries published by a builder, after
/// `publish` (or `finish`), starts with line 0 at offset 0, has strictly
/// increasing entries, one entry per `SPARSE_STRIDE` lines counted, and
/// counts between 1 and the buffer's newlines plus one lines; once the
/// whole buffer is scanned it counts exactly newlines plus one.
pub proof fn lemma_published_index_shape(
    before: SparseIndex,
    builder: IndexBuilder,
    after: SparseIndex,
    data: Seq<u8>,
)
    requires
        builder.wf(data),
        before.entries@.len() == builder.published@ + 1,
        entries_are_line_starts(data, before.entries@),
        after.entries@ == before.entries@ + builder.pending@,
        after.total_lines == builder.line_count + 1,
    ensures
        after.entries@[0] == 0,
        forall|i: int, j: int|
            0 <= i < j < after.entries@.len() ==> after.entries@[i] < after.entries@[j],
        after.entries@.len() == 1 + (after.total_lines - 1) / (SPARSE_STRIDE as int),
        1 <= after.total_lines <= nl_count(data) + 1,
        builder.scanned == data.len() ==> after.total_lines == nl_count(data) + 1,
{
    lemma_publish_indexes_prefix(before, builder, after, data);
    lemma_index_shape(after, data, builder.scanned as int);
    assert(data.take(data.len() as int) =~= data);
}

/// Builds the sparse line index of `data` into `index`, publishing the
/// entries found and the line count reached after every chunk, and marks it
/// complete at the end. The entries found are appended to those `index`
/// already holds; a fresh index (`SparseIndex::new()`) ends up indexing
/// `data` (the last clause of the contract).
pub fn build_sparse_index(data: &[u8], index: &mut SparseIndex)
    requires
        data@.len() < u64::MAX,
    ensures
        final(index).complete,
        final(index).total_lines == nl_count(data@) + 1,
        final(index).entries@.len() == old(index).entries@.len() + nl_count(data@) / (
        SPARSE_STRIDE as nat),
        final(index).entries@.take(old(index).entries@.len() as int) == old(index).entries@,
        forall|j: int|
            #![trigger final(index).entries@[j]]
            old(index).entries@.len() <= j < final(index).entries@.len() ==> is_line_start(
                data@,
                ((j - old(index).entries@.len() + 1) * SPARSE_STRIDE) as nat,
                final(index).entries@[j] as int,
            ),
        old(index).entries@ == seq![0u64] ==> final(index).indexes(data@),
{
    let ghost base = index.entries@;
    let mut builder = IndexBuilder::new();
    while builder.scan_next_chunk(data)
        invariant
            builder.wf(data@),
            data@.len() < u64::MAX,
            builder.pending@.len() == 0,
            index.entries@.len() == base.len() + builder.published@,
            index.entries@.take(base.len() as int) == base,
            forall|j: int|
                #![trigger index.entries@[j]]
                base.len() <= j < index.entries@.len() ==> is_line_start(
                    data@,
                    ((j - base.len() + 1) * SPARSE_STRIDE) as nat,
                    index.entries@[j] as int,
                ),
        decreases data@.len() - builder.scanned,
    {
        proof {
            lemma_line_of_bound(data@, builder.scanned as int);
        }
        let ghost before = index.entries@;
        let ghost pend = builder.pending@;
        let ghost publ = builder.published@;
        builder.publish(index);
        proof {
            assert forall|j: int|
                #![trigger index.entries@[j]]
                base.len() <= j < index.entries@.len() implies is_line_start(
                data@,
                ((j - base.len() + 1) * SPARSE_STRIDE) as nat,
                index.entries@[j] as int,
            ) by {
                if j >= before.len() {
                    assert(index.entries@[j] == pend[j - before.len()]);
                } else {
                    assert(index.entries@[j] == before[j]);
                }
            }
            assert(index.entries@.take(base.len() as int) =~= base) by {
                assert(index.entries@.take(before.len() as int) =~= before);
            }
        }
    }
    proof {
        lemma_line_of_bound(data@, builder.scanned as int);
        assert(data@.take(data@.len() as int) =~= data@);
    }
    builder.finish(index);
    proof {
        if base == seq![0u64] {
            assert(index.entries@[0] == 0) by {
                assert(index.entries@.take(1)[0] == base[0]);
            }
            assert(data@.take(data@.len() as int) =~= data@);
            assert forall|i: int|
                #![trigger index.entries@[i]]
                0 <= i < index.entries@.len() implies is_line_start(
                data@,
                (i * SPARSE_STRIDE) as nat,
                index.entries@[i] as int,
            ) by {
                if i > 0 {
                    assert(((i - base.len() + 1) * SPARSE_STRIDE) as nat == (i * SPARSE_STRIDE) as nat);
                }
            }
        }
    }
}

} // verus!
