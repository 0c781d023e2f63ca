//! Mathematical model of a byte buffer split into lines.
//!
//! Line `0` starts at offset `0`; line `k + 1` starts right after the `k`-th
//! newline byte. A buffer with `n` newline bytes has `n + 1` lines (the last
//! one possibly empty).

use vstd::prelude::*;

verus! {

/// The newline byte.
pub const NL: u8 = 10;

/// Number of newline bytes in `s`.
pub open spec fn nl_count(s: Seq<u8>) -> nat
    decreases s.len(),
{
    if s.len() == 0 {
        0
    } else {
        nl_count(s.drop_last()) + if s.last() == NL { 1nat } else { 0nat }
    }
}

/// Number of newline bytes strictly before offset `p` of `data`.
pub open spec fn line_of(data: Seq<u8>, p: int) -> nat {
    nl_count(data.take(p))
}

/// Offset of the first newline at or after `p`, or `data.len()` if none.
pub open spec fn next_nl(data: Seq<u8>, p: int) -> int
    decreases data.len() - p,
{
    if p >= data.len() {
        data.len() as int
    } else if p >= 0 && data[p] == NL {
        p
    } else {
        next_nl(data, p + 1)
    }
}

/// Offset at which line `k` starts, found by walking newline to newline from
/// the top. When the buffer has fewer than `k + 1` lines the value is past
/// `data.len()`.
pub open spec fn line_start(data: Seq<u8>, k: nat) -> int
    decreases k,
{
    if k == 0 {
        0
    } else {
        next_nl(data, line_start(data, (k - 1) as nat)) + 1
    }
}

/// `off` is where line `k` starts: offset `0` for line `0`, otherwise an
/// offset just past a newline with exactly `k` newlines before it.
pub open spec fn is_line_start(data: Seq<u8>, k: nat, off: int) -> bool {
    if k == 0 {
        off == 0
    } else {
        &&& 0 < off <= data.len()
        &&& data[off - 1] == NL
        &&& line_of(data, off) == k
    }
}

/// Counting one more byte.
pub proof fn lemma_line_of_step(data: Seq<u8>, p: int)
    requires
        0 <= p < data.len(),
    ensures
        line_of(data, p + 1) == line_of(data, p) + if data[p] == NL { 1nat } else { 0nat },
{
    assert(data.take(p + 1).drop_last() =~= data.take(p));
}

/// No newline in `[a, b)` leaves the count unchanged.
pub proof fn lemma_line_of_no_nl(data: Seq<u8>, a: int, b: int)
    requires
        0 <= a <= b <= data.len(),
        forall|i: int| a <= i < b ==> data[i] != NL,
    ensures
        line_of(data, b) == line_of(data, a),
    decreases b - a,
{
    if b > a {
        lemma_line_of_no_nl(data, a, b - 1);
        lemma_line_of_step(data, b - 1);
    }
}

/// The count never decreases along the buffer.
pub proof fn lemma_line_of_monotone(data: Seq<u8>, a: int, b: int)
    requires
        0 <= a <= b <= data.len(),
    ensures
        line_of(data, a) <= line_of(data, b),
    decreases b - a,
{
    if b > a {
        lemma_line_of_monotone(data, a, b - 1);
        lemma_line_of_step(data, b - 1);
    }
}

/// There are never more newlines than bytes.
pub proof fn lemma_line_of_bound(data: Seq<u8>, p: int)
    requires
        0 <= p <= data.len(),
    ensures
        line_of(data, p) <= p,
    decreases p,
{
    if p > 0 {
        lemma_line_of_bound(data, p - 1);
        lemma_line_of_step(data, p - 1);
    }
}

/// A newline in `[a, b)` makes the count grow.
pub proof fn lemma_line_of_strict(data: Seq<u8>, a: int, q: int, b: int)
    requires
        0 <= a <= q < b <= data.len(),
        data[q] == NL,
    ensures
        line_of(data, a) < line_of(data, b),
{
    lemma_line_of_monotone(data, a, q);
    lemma_line_of_step(data, q);
    lemma_line_of_monotone(data, q + 1, b);
}

/// What `next_nl` finds.
pub proof fn lemma_next_nl(data: Seq<u8>, p: int)
    requires
        0 <= p,
    ensures
        p <= next_nl(data, p) || p > data.len(),
        next_nl(data, p) <= data.len(),
        next_nl(data, p) < data.len() ==> data[next_nl(data, p)] == NL,
        forall|i: int| p <= i < next_nl(data, p) ==> data[i] != NL,
        p <= data.len() ==> line_of(data, next_nl(data, p)) == line_of(data, p),
    decreases data.len() - p,
{
    if p < data.len() && data[p] != NL {
        lemma_next_nl(data, p + 1);
        lemma_line_of_step(data, p);
    }
}

/// `next_nl` from `a` is the first newline `b` when `[a, b)` holds none.
pub proof fn lemma_next_nl_is(data: Seq<u8>, a: int, b: int)
    requires
        0 <= a <= b <= data.len(),
        forall|i: int| a <= i < b ==> data[i] != NL,
        b == data.len() || data[b] == NL,
    ensures
        next_nl(data, a) == b,
    decreases b - a,
{
    if a < b {
        lemma_next_nl_is(data, a + 1, b);
    }
}

/// Walking from the top reaches a true line start whenever it stays inside
/// the buffer.
pub proof fn lemma_line_start_sound(data: Seq<u8>, k: nat)
    ensures
        line_start(data, k) >= 0,
        line_start(data, k) <= data.len() ==> is_line_start(data, k, line_start(data, k)),
        line_start(data, k) > data.len() ==> nl_count(data) < k,
    decreases k,
{
    assert(data.take(data.len() as int) =~= data);
    if k > 0 {
        let prev = line_start(data, (k - 1) as nat);
        lemma_line_start_sound(data, (k - 1) as nat);
        lemma_next_nl(data, prev);
        if prev <= data.len() {
            let q = next_nl(data, prev);
            if q < data.len() {
                lemma_line_of_step(data, q);
            }
        }
    }
}

/// A line start is unique: any offset that starts line `k` is the one found
/// by walking from the top.
pub proof fn lemma_line_start_unique(data: Seq<u8>, k: nat, off: int)
    requires
        is_line_start(data, k, off),
    ensures
        line_start(data, k) == off,
{
    assert(data.take(data.len() as int) =~= data);
    lemma_line_start_sound(data, k);
    if k > 0 {
        lemma_line_of_monotone(data, off, data.len() as int);
        let s = line_start(data, k);
        if s < off {
            lemma_line_of_strict(data, s, off - 1, off);
        } else if off < s {
            lemma_line_of_strict(data, off, s - 1, s);
        }
    }
}

/// The line holding offset `p` starts at or before `p`, with no newline in
/// between.
pub proof fn lemma_line_start_before(data: Seq<u8>, p: int)
    requires
        0 <= p <= data.len(),
    ensures
        0 <= line_start(data, line_of(data, p)) <= p,
        forall|i: int| line_start(data, line_of(data, p)) <= i < p ==> data[i] != NL,
{
    let k = line_of(data, p);
    assert(data.take(data.len() as int) =~= data);
    lemma_line_of_monotone(data, p, data.len() as int);
    lemma_line_start_sound(data, k);
    let s = line_start(data, k);
    assert(data.take(0) =~= Seq::<u8>::empty());
    if s > p {
        lemma_line_of_strict(data, p, s - 1, s);
    }
    assert forall|i: int| s <= i < p implies data[i] != NL by {
        if data[i] == NL {
            lemma_line_of_monotone(data, s, i);
            lemma_line_of_strict(data, i, i, p);
        }
    }
}

/// `a` and `b` have the same length and newlines at the same offsets.
pub open spec fn same_newlines(a: Seq<u8>, b: Seq<u8>) -> bool {
    &&& a.len() == b.len()
    &&& forall|i: int| 0 <= i < a.len() ==> (#[trigger] a[i] == NL) == (b[i] == NL)
}

/// Buffers with newlines at the same offsets hold as many newlines.
pub proof fn lemma_nl_count_same(a: Seq<u8>, b: Seq<u8>)
    requires
        same_newlines(a, b),
    ensures
        nl_count(a) == nl_count(b),
    decreases a.len(),
{
    if a.len() > 0 {
        let n = a.len() - 1;
        assert(a[n] == NL <==> b[n] == NL);
        lemma_nl_count_same(a.drop_last(), b.drop_last());
    }
}

/// Buffers with newlines at the same offsets split into the same lines: the
/// same line holds each offset, and each line starts at the same offset.
pub proof fn lemma_lines_same(a: Seq<u8>, b: Seq<u8>)
    requires
        same_newlines(a, b),
    ensures
        forall|p: int| 0 <= p <= a.len() ==> #[trigger] line_of(a, p) == line_of(b, p),
        forall|p: int| #[trigger] next_nl(a, p) == next_nl(b, p),
        forall|k: nat| #[trigger] line_start(a, k) == line_start(b, k),
{
    assert forall|p: int| 0 <= p <= a.len() implies #[trigger] line_of(a, p) == line_of(b, p) by {
        lemma_nl_count_same(a.take(p), b.take(p));
    }
    assert forall|p: int| #[trigger] next_nl(a, p) == next_nl(b, p) by {
        lemma_next_nl_same(a, b, p);
    }
    assert forall|k: nat| #[trigger] line_start(a, k) == line_start(b, k) by {
        lemma_line_start_same(a, b, k);
    }
}

proof fn lemma_next_nl_same(a: Seq<u8>, b: Seq<u8>, p: int)
    requires
        same_newlines(a, b),
    ensures
        next_nl(a, p) == next_nl(b, p),
    decreases a.len() - p,
{
    if p < a.len() {
        if p >= 0 {
            assert(a[p] == NL <==> b[p] == NL);
        }
        lemma_next_nl_same(a, b, p + 1);
    }
}

proof fn lemma_line_start_same(a: Seq<u8>, b: Seq<u8>, k: nat)
    requires
        same_newlines(a, b),
    ensures
        line_start(a, k) == line_start(b, k),
    decreases k,
{
    if k > 0 {
        lemma_line_start_same(a, b, (k - 1) as nat);
        lemma_next_nl_same(a, b, line_start(a, (k - 1) as nat));
    }
}

} // verus!
