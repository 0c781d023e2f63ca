//! Substring search over a byte buffer, reported as line/column positions.

use vstd::prelude::*;

use crate::lines::{
    lemma_line_of_bound, lemma_line_of_monotone, lemma_lines_same, lemma_line_of_no_nl, lemma_line_start_before, lemma_line_of_step, lemma_next_nl_is, line_of,
    line_start, NL,
};
use crate::scan::{find_byte, find_either_byte};
use crate::util::{decimal, push_decimal};
use vstd::string::{StringExecFns, StringSliceAdditionalSpecFns};

verus! {

/// Hard cap on matches to keep rendering responsive on pathological queries
/// (e.g. searching for " " in a multi-GB log file).
pub const MAX_MATCHES: usize = 200_000;

/// A single match's position. Matches are kept sorted ascending by
/// `(line, col)`.
#[derive(Clone, Copy, Debug, PartialEq, Eq, Structural)]
pub struct Match {
    /// 0-based line number (same numbering as `SparseIndex`).
    pub line: u64,
    /// Byte offset within the line (from the first byte of the line).
    pub col: usize,
    /// Match length in bytes.
    pub len: usize,
}

/// The match of `len` bytes found at offset `p` of `data`: its line is the
/// number of newlines before `p`, its column the distance from the start of
/// that line.
pub open spec fn match_at(data: Seq<u8>, p: int, len: nat) -> Match {
    Match {
        line: line_of(data, p) as u64,
        col: (p - line_start(data, line_of(data, p))) as usize,
        len: len as usize,
    }
}

/// `needle` occurs in `hay` at offset `p`.
pub open spec fn occurs_at(hay: Seq<u8>, needle: Seq<u8>, p: int) -> bool {
    &&& 0 <= p
    &&& p + needle.len() <= hay.len()
    &&& hay.subrange(p, p + needle.len()) == needle
}

/// Every occurrence of `needle` at or after `from`, overlapping ones
/// included, in increasing order.
pub open spec fn occurrences_from(hay: Seq<u8>, needle: Seq<u8>, from: int) -> Seq<int>
    decreases hay.len() + 1 - from,
{
    if from < 0 || from + needle.len() > hay.len() {
        seq![]
    } else if occurs_at(hay, needle, from) {
        seq![from] + occurrences_from(hay, needle, from + 1)
    } else {
        occurrences_from(hay, needle, from + 1)
    }
}

/// ASCII lowercase of a byte; other bytes are unchanged.
pub open spec fn lower(b: u8) -> u8 {
    if 65 <= b <= 90 {
        (b + 32) as u8
    } else {
        b
    }
}

/// ASCII uppercase of a byte; other bytes are unchanged.
pub open spec fn upper(b: u8) -> u8 {
    if 97 <= b <= 122 {
        (b - 32) as u8
    } else {
        b
    }
}

/// Two bytes are equal when ASCII letters are compared without case, as
/// `u8::eq_ignore_ascii_case` decides: the same byte, or the upper- and
/// lowercase forms of one letter (`b'A'..=b'Z'` and `b'a'..=b'z'`, 32 apart).
pub open spec fn same_ignoring_ascii_case(a: u8, b: u8) -> bool {
    ||| a == b
    ||| 65 <= a <= 90 && b == a + 32
    ||| 65 <= b <= 90 && a == b + 32
}

/// `needle` occurs at `p` when ASCII letters are compared without case.
pub open spec fn ci_occurs_at(hay: Seq<u8>, needle: Seq<u8>, p: int) -> bool {
    &&& 0 <= p
    &&& p + needle.len() <= hay.len()
    &&& forall|i: int| 0 <= i < needle.len() ==> #[trigger] lower(hay[p + i]) == lower(needle[i])
}

/// Law: the folds used by the search are ASCII case mapping: `lower` sends
/// each of `b'A'..=b'Z'` 32 up to its lowercase letter, `upper` each of
/// `b'a'..=b'z'` 32 down to its uppercase letter, and every other byte is
/// left as it is.
pub proof fn lemma_ascii_folds()
    ensures
        forall|b: u8| 65 <= b <= 90 ==> #[trigger] lower(b) == b + 32,
        forall|b: u8| !(65 <= b <= 90) ==> #[trigger] lower(b) == b,
        forall|b: u8| 97 <= b <= 122 ==> #[trigger] upper(b) == b - 32,
        forall|b: u8| !(97 <= b <= 122) ==> #[trigger] upper(b) == b,
{
}

/// Law: a case-insensitive occurrence at `p` is a window of `hay` of the
/// needle's length, each byte of which equals the needle's byte when ASCII
/// letters are compared without case.
pub proof fn lemma_ci_occurs_at_ignores_case(hay: Seq<u8>, needle: Seq<u8>, p: int)
    ensures
        ci_occurs_at(hay, needle, p) <==> {
            &&& 0 <= p
            &&& p + needle.len() <= hay.len()
            &&& forall|i: int|
                0 <= i < needle.len() ==> #[trigger] same_ignoring_ascii_case(hay[p + i], needle[i])
        },
{
    assert forall|a: u8, b: u8| #[trigger] same_ignoring_ascii_case(a, b) <==> lower(a) == lower(b) by {
    }
    if 0 <= p && p + needle.len() <= hay.len() {
        if ci_occurs_at(hay, needle, p) {
            assert forall|i: int| 0 <= i < needle.len() implies #[trigger] same_ignoring_ascii_case(
                hay[p + i],
                needle[i],
            ) by {
                assert(lower(hay[p + i]) == lower(needle[i]));
            }
        }
        if forall|i: int|
            0 <= i < needle.len() ==> #[trigger] same_ignoring_ascii_case(hay[p + i], needle[i]) {
            assert forall|i: int| 0 <= i < needle.len() implies #[trigger] lower(hay[p + i]) == lower(
                needle[i],
            ) by {
                assert(same_ignoring_ascii_case(hay[p + i], needle[i]));
            }
        }
    }
}

/// Every case-insensitive occurrence at or after `from`, overlapping ones
/// included, in increasing order.
pub open spec fn ci_occurrences_from(hay: Seq<u8>, needle: Seq<u8>, from: int) -> Seq<int>
    decreases hay.len() + 1 - from,
{
    if from < 0 || from + needle.len() > hay.len() {
        seq![]
    } else if ci_occurs_at(hay, needle, from) {
        seq![from] + ci_occurrences_from(hay, needle, from + 1)
    } else {
        ci_occurrences_from(hay, needle, from + 1)
    }
}

/// Offsets as mathematical integers.
pub open spec fn int_offsets(v: Seq<usize>) -> Seq<int> {
    v.map_values(|x: usize| x as int)
}

/// The first `limit` elements of `s` (all of them when there are fewer).
pub open spec fn first_n(s: Seq<int>, limit: int) -> Seq<int> {
    if s.len() <= limit {
        s
    } else {
        s.take(limit)
    }
}

/// Calls `memchr::memmem::find`, which returns the offset of the first
/// occurrence of `needle` in `haystack`, or `None` when there is none. An
/// empty needle occurs at offset 0.
#[verifier::external_body]
fn memmem_find(haystack: &[u8], needle: &[u8]) -> (r: Option<usize>)
    ensures
        match r {
            Some(i) => {
                &&& occurs_at(haystack@, needle@, i as int)
                &&& forall|j: int| 0 <= j < i ==> !occurs_at(haystack@, needle@, j)
            },
            None => forall|j: int| !occurs_at(haystack@, needle@, j),
        },
{
    memchr::memmem::find(haystack, needle)
}

/// Skipping offsets at which the needle does not occur.
proof fn lemma_skip(hay: Seq<u8>, needle: Seq<u8>, a: int, b: int)
    requires
        0 <= a <= b,
        forall|p: int| a <= p < b ==> !occurs_at(hay, needle, p),
    ensures
        occurrences_from(hay, needle, a) == occurrences_from(hay, needle, b),
    decreases b - a,
{
    if a < b {
        lemma_skip(hay, needle, a + 1, b);
        if a + needle.len() > hay.len() {
            lemma_tail_empty(hay, needle, a);
            lemma_tail_empty(hay, needle, b);
        }
    }
}

/// Past the last place the needle fits there is nothing to find.
proof fn lemma_tail_empty(hay: Seq<u8>, needle: Seq<u8>, b: int)
    requires
        b + needle.len() > hay.len(),
    ensures
        occurrences_from(hay, needle, b) == Seq::<int>::empty(),
{
}

/// An occurrence in the tail of `hay` that starts at `start` is an
/// occurrence in `hay`, shifted by `start`, and the other way round.
proof fn lemma_occurs_shift(hay: Seq<u8>, needle: Seq<u8>, start: int, q: int)
    requires
        0 <= start <= hay.len(),
        0 <= q,
    ensures
        occurs_at(hay.subrange(start, hay.len() as int), needle, q) == occurs_at(
            hay,
            needle,
            start + q,
        ),
{
    let rem = hay.subrange(start, hay.len() as int);
    if q + needle.len() <= rem.len() {
        assert(rem.subrange(q, q + needle.len()) =~= hay.subrange(
            start + q,
            start + q + needle.len(),
        ));
    }
}

/// The first `limit` offsets at which `needle` occurs in `haystack`,
/// overlapping occurrences included, in increasing order. An empty needle
/// finds nothing.
pub fn find_occurrences(haystack: &[u8], needle: &[u8], limit: usize) -> (r: Vec<usize>)
    ensures
        needle@.len() == 0 ==> r@.len() == 0,
        needle@.len() > 0 ==> int_offsets(r@) == first_n(
            occurrences_from(haystack@, needle@, 0),
            limit as int,
        ),
{
    let mut out: Vec<usize> = Vec::new();
    let hlen = haystack.len();
    let nlen = needle.len();
    if nlen == 0 || hlen < nlen {
        proof {
            if nlen > 0 {
                lemma_tail_empty(haystack@, needle@, 0);
                assert(int_offsets(out@) =~= seq![]);
            }
        }
        return out;
    }
    let mut start: usize = 0;
    let ghost all = occurrences_from(haystack@, needle@, 0);
    while nlen <= hlen - start && out.len() < limit
        invariant
            hlen == haystack@.len(),
            nlen == needle@.len() > 0,
            nlen <= hlen,
            start <= hlen,
            out@.len() <= limit,
            all == occurrences_from(haystack@, needle@, 0),
            all == int_offsets(out@) + occurrences_from(haystack@, needle@, start as int),
        ensures
            all == int_offsets(out@) + occurrences_from(haystack@, needle@, start as int),
            out@.len() <= limit,
            out@.len() == limit || occurrences_from(haystack@, needle@, start as int)
                =~= Seq::<int>::empty(),
        decreases hlen - start,
    {
        let rem = vstd::slice::slice_subrange(haystack, start, hlen);
        assert(rem@ == haystack@.subrange(start as int, haystack@.len() as int));
        match memmem_find(rem, needle) {
            Some(o) => {
                let pos = start + o;
                proof {
                    lemma_occurs_shift(haystack@, needle@, start as int, o as int);
                    assert forall|p: int| start <= p < pos implies !occurs_at(
                        haystack@,
                        needle@,
                        p,
                    ) by {
                        lemma_occurs_shift(haystack@, needle@, start as int, p - start);
                    }
                    lemma_skip(haystack@, needle@, start as int, pos as int);
                }
                let ghost before = out@;
                out.push(pos);
                proof {
                    assert(int_offsets(out@) =~= int_offsets(before).push(pos as int));
                    assert(occurrences_from(haystack@, needle@, pos as int) == seq![pos as int]
                        + occurrences_from(haystack@, needle@, pos + 1));
                }
                start = pos + 1;
            },
            None => {
                proof {
                    assert forall|p: int| start <= p < hlen implies !occurs_at(
                        haystack@,
                        needle@,
                        p,
                    ) by {
                        lemma_occurs_shift(haystack@, needle@, start as int, p - start);
                    }
                    lemma_skip(haystack@, needle@, start as int, hlen as int);
                    lemma_tail_empty(haystack@, needle@, hlen as int);
                }
                break;
            },
        }
    }
    proof {
        if start + nlen > hlen {
            lemma_tail_empty(haystack@, needle@, start as int);
        }
        if out@.len() == limit {
            assert(all.take(limit as int) =~= int_offsets(out@));
        } else {
            assert(int_offsets(out@) =~= all);
        }
    }
    out
}

/// ASCII lowercase of a byte.
fn ascii_lower(b: u8) -> (r: u8)
    ensures
        r == lower(b),
{
    if 65 <= b && b <= 90 {
        b + 32
    } else {
        b
    }
}

/// ASCII uppercase of a byte.
fn ascii_upper(b: u8) -> (r: u8)
    ensures
        r == upper(b),
{
    if 97 <= b && b <= 122 {
        b - 32
    } else {
        b
    }
}

/// A byte equal to `c` up to ASCII case is `lower(c)` or `upper(c)`.
proof fn lemma_case_variants(x: u8, c: u8)
    requires
        lower(x) == lower(c),
    ensures
        x == lower(c) || x == upper(c),
{
}

/// Skipping offsets that hold no case-insensitive occurrence.
proof fn lemma_ci_skip(hay: Seq<u8>, needle: Seq<u8>, a: int, b: int)
    requires
        0 <= a <= b,
        forall|p: int| a <= p < b ==> !ci_occurs_at(hay, needle, p),
    ensures
        ci_occurrences_from(hay, needle, a) == ci_occurrences_from(hay, needle, b),
    decreases b - a,
{
    if a < b {
        lemma_ci_skip(hay, needle, a + 1, b);
        if a + needle.len() > hay.len() {
            lemma_ci_tail_empty(hay, needle, a);
            lemma_ci_tail_empty(hay, needle, b);
        }
    }
}

/// Past the last place the needle fits there is nothing to find.
proof fn lemma_ci_tail_empty(hay: Seq<u8>, needle: Seq<u8>, b: int)
    requires
        b + needle.len() > hay.len(),
    ensures
        ci_occurrences_from(hay, needle, b) == Seq::<int>::empty(),
{
}

/// ASCII-only case-insensitive substring search: the first `max_matches`
/// offsets at which `needle` occurs in `haystack` when ASCII letters are
/// compared without case, overlapping occurrences included. Non-ASCII bytes
/// compare byte-exact. An empty needle finds nothing.
pub fn find_all_ascii_ci(haystack: &[u8], needle: &[u8], max_matches: usize) -> (r: Vec<usize>)
    ensures
        needle@.len() == 0 ==> r@.len() == 0,
        needle@.len() > 0 ==> int_offsets(r@) == first_n(
            ci_occurrences_from(haystack@, needle@, 0),
            max_matches as int,
        ),
{
    let mut out: Vec<usize> = Vec::new();
    let hlen = haystack.len();
    let nlen = needle.len();
    if nlen == 0 || hlen < nlen {
        proof {
            if nlen > 0 {
                lemma_ci_tail_empty(haystack@, needle@, 0);
                assert(int_offsets(out@) =~= seq![]);
            }
        }
        return out;
    }
    let first_lo = ascii_lower(needle[0]);
    let first_up = ascii_upper(needle[0]);
    let mut start: usize = 0;
    let ghost all = ci_occurrences_from(haystack@, needle@, 0);
    while nlen <= hlen - start && out.len() < max_matches
        invariant
            hlen == haystack@.len(),
            nlen == needle@.len() > 0,
            nlen <= hlen,
            start <= hlen,
            first_lo == lower(needle@[0]),
            first_up == upper(needle@[0]),
            out@.len() <= max_matches,
            all == ci_occurrences_from(haystack@, needle@, 0),
            all == int_offsets(out@) + ci_occurrences_from(haystack@, needle@, start as int),
        ensures
            all == int_offsets(out@) + ci_occurrences_from(haystack@, needle@, start as int),
            out@.len() <= max_matches,
            out@.len() == max_matches || ci_occurrences_from(haystack@, needle@, start as int)
                =~= Seq::<int>::empty(),
        decreases hlen - start,
    {
        let rem = vstd::slice::slice_subrange(haystack, start, hlen);
        let found = if first_lo == first_up {
            find_byte(first_lo, rem)
        } else {
            find_either_byte(first_lo, first_up, rem)
        };
        match found {
            Some(o) => {
                let pos = start + o;
                proof {
                    assert forall|p: int| start <= p < pos implies !ci_occurs_at(
                        haystack@,
                        needle@,
                        p,
                    ) by {
                        assert(rem@[p - start] == haystack@[p]);
                        if ci_occurs_at(haystack@, needle@, p) {
                            assert(lower(haystack@[p + 0]) == lower(needle@[0]));
                            lemma_case_variants(haystack@[p], needle@[0]);
                        }
                    }
                    lemma_ci_skip(haystack@, needle@, start as int, pos as int);
                }
                if nlen > hlen - pos {
                    proof {
                        lemma_ci_tail_empty(haystack@, needle@, pos as int);
                    }
                    break;
                }
                let mut i: usize = 0;
                let mut same = true;
                while i < nlen
                    invariant
                        0 <= i <= nlen == needle@.len(),
                        pos + nlen <= hlen == haystack@.len(),
                        same == forall|j: int|
                            0 <= j < i ==> #[trigger] lower(haystack@[pos + j]) == lower(needle@[j]),
                    decreases nlen - i,
                {
                    let a = ascii_lower(haystack[pos + i]);
                    let b = ascii_lower(needle[i]);
                    proof {
                        if same && a == b {
                            assert forall|j: int|
                                0 <= j < i + 1 implies #[trigger] lower(haystack@[pos + j]) == lower(
                                needle@[j],
                            ) by {}
                        }
                    }
                    same = same && a == b;
                    i = i + 1;
                }
                let ghost before = out@;
                if same {
                    out.push(pos);
                }
                proof {
                    assert(ci_occurs_at(haystack@, needle@, pos as int) == same);
                    if same {
                        assert(int_offsets(out@) =~= int_offsets(before).push(pos as int));
                    }
                    assert(ci_occurrences_from(haystack@, needle@, pos as int) == if same {
                        seq![pos as int] + ci_occurrences_from(haystack@, needle@, pos + 1)
                    } else {
                        ci_occurrences_from(haystack@, needle@, pos + 1)
                    });
                }
                start = pos + 1;
            },
            None => {
                proof {
                    assert forall|p: int| start <= p < hlen implies !ci_occurs_at(
                        haystack@,
                        needle@,
                        p,
                    ) by {
                        assert(rem@[p - start] == haystack@[p]);
                        if ci_occurs_at(haystack@, needle@, p) {
                            assert(lower(haystack@[p + 0]) == lower(needle@[0]));
                            lemma_case_variants(haystack@[p], needle@[0]);
                        }
                    }
                    lemma_ci_skip(haystack@, needle@, start as int, hlen as int);
                    lemma_ci_tail_empty(haystack@, needle@, hlen as int);
                }
                break;
            },
        }
    }
    proof {
        if start + nlen > hlen {
            lemma_ci_tail_empty(haystack@, needle@, start as int);
        }
        if out@.len() == max_matches {
            assert(all.take(max_matches as int) =~= int_offsets(out@));
        } else {
            assert(int_offsets(out@) =~= all);
        }
    }
    out
}

/// The occurrences are occurrences, at or after `from`, in strictly
/// increasing order.
pub proof fn lemma_occurrences_sorted(hay: Seq<u8>, needle: Seq<u8>, from: int)
    ensures
        forall|i: int|
            #![trigger occurrences_from(hay, needle, from)[i]]
            0 <= i < occurrences_from(hay, needle, from).len() ==> from <= occurrences_from(
                hay,
                needle,
                from,
            )[i] && occurs_at(hay, needle, occurrences_from(hay, needle, from)[i]),
        forall|i: int, j: int|
            0 <= i < j < occurrences_from(hay, needle, from).len() ==> occurrences_from(
                hay,
                needle,
                from,
            )[i] < occurrences_from(hay, needle, from)[j],
    decreases hay.len() + 1 - from,
{
    if from < 0 || from + needle.len() > hay.len() {
    } else if occurs_at(hay, needle, from) {
        let next = from + 1;
        lemma_occurrences_sorted(hay, needle, next);
        let rest = occurrences_from(hay, needle, next);
        let all = occurrences_from(hay, needle, from);
        assert(all == seq![from] + rest);
        assert forall|i: int| 0 <= i < all.len() implies from <= #[trigger] all[i] && occurs_at(
            hay,
            needle,
            all[i],
        ) by {
            if i > 0 {
                assert(all[i] == rest[i - 1]);
            }
        }
        assert forall|i: int, j: int| 0 <= i < j < all.len() implies all[i] < all[j] by {
            assert(all[j] == rest[j - 1]);
            if i > 0 {
                assert(all[i] == rest[i - 1]);
            }
        }
    } else {
        lemma_occurrences_sorted(hay, needle, from + 1);
        assert(occurrences_from(hay, needle, from) == occurrences_from(hay, needle, from + 1));
    }
}

/// The case-insensitive occurrences are occurrences, at or after `from`, in
/// strictly increasing order.
pub proof fn lemma_ci_occurrences_sorted(hay: Seq<u8>, needle: Seq<u8>, from: int)
    ensures
        forall|i: int|
            #![trigger ci_occurrences_from(hay, needle, from)[i]]
            0 <= i < ci_occurrences_from(hay, needle, from).len() ==> from <= ci_occurrences_from(
                hay,
                needle,
                from,
            )[i] && ci_occurs_at(hay, needle, ci_occurrences_from(hay, needle, from)[i]),
        forall|i: int, j: int|
            0 <= i < j < ci_occurrences_from(hay, needle, from).len() ==> ci_occurrences_from(
                hay,
                needle,
                from,
            )[i] < ci_occurrences_from(hay, needle, from)[j],
    decreases hay.len() + 1 - from,
{
    if from < 0 || from + needle.len() > hay.len() {
    } else if ci_occurs_at(hay, needle, from) {
        lemma_ci_occurrences_sorted(hay, needle, from + 1);
        let rest = ci_occurrences_from(hay, needle, from + 1);
        let all = ci_occurrences_from(hay, needle, from);
        assert(all == seq![from] + rest);
        assert forall|i: int| 0 <= i < all.len() implies from <= #[trigger] all[i]
            && ci_occurs_at(hay, needle, all[i]) by {
            if i > 0 {
                assert(all[i] == rest[i - 1]);
            }
        }
        assert forall|i: int, j: int| 0 <= i < j < all.len() implies all[i] < all[j] by {
            assert(all[j] == rest[j - 1]);
            if i > 0 {
                assert(all[i] == rest[i - 1]);
            }
        }
    } else {
        lemma_ci_occurrences_sorted(hay, needle, from + 1);
        assert(ci_occurrences_from(hay, needle, from) == ci_occurrences_from(hay, needle, from + 1));
    }
}

/// Every offset `search_in_mmap` reports is an occurrence of the needle
/// (exact, or without ASCII case), they are strictly increasing, and there
/// are at most `MAX_MATCHES` of them.
pub proof fn lemma_positions_sorted(data: Seq<u8>, needle: Seq<u8>, case_insensitive: bool)
    ensures
        search_positions(data, needle, case_insensitive).len() <= MAX_MATCHES,
        forall|i: int|
            #![trigger search_positions(data, needle, case_insensitive)[i]]
            0 <= i < search_positions(data, needle, case_insensitive).len() ==> {
                let p = search_positions(data, needle, case_insensitive)[i];
                &&& 0 <= p
                &&& p + needle.len() <= data.len()
                &&& case_insensitive ==> ci_occurs_at(data, needle, p)
                &&& !case_insensitive ==> occurs_at(data, needle, p)
            },
        forall|i: int, j: int|
            0 <= i < j < search_positions(data, needle, case_insensitive).len() ==> search_positions(
                data,
                needle,
                case_insensitive,
            )[i] < search_positions(data, needle, case_insensitive)[j],
{
    let ps = search_positions(data, needle, case_insensitive);
    if case_insensitive {
        let all = ci_occurrences_from(data, needle, 0);
        lemma_ci_occurrences_sorted(data, needle, 0);
        assert forall|i: int| 0 <= i < ps.len() implies #[trigger] ps[i] == all[i] by {}
    } else {
        let all = occurrences_from(data, needle, 0);
        lemma_occurrences_sorted(data, needle, 0);
        assert forall|i: int| 0 <= i < ps.len() implies #[trigger] ps[i] == all[i] by {}
    }
}

/// Law: every match `search_in_mmap` reports points back at an occurrence
/// of the needle (its line's start plus its column is the occurrence's
/// offset), and the matches are sorted strictly ascending by
/// `(line, col)`.
pub proof fn lemma_search_matches(data: Seq<u8>, needle: Seq<u8>, case_insensitive: bool)
    requires
        data.len() < u64::MAX,
        data.len() <= usize::MAX,
    ensures
        ({
            let ps = search_positions(data, needle, case_insensitive);
            &&& forall|i: int|
                #![trigger ps[i]]
                0 <= i < ps.len() ==> {
                    let m = match_at(data, ps[i], needle.len());
                    &&& line_start(data, m.line as nat) + m.col == ps[i]
                    &&& case_insensitive ==> ci_occurs_at(data, needle, ps[i])
                    &&& !case_insensitive ==> occurs_at(data, needle, ps[i])
                }
            &&& forall|i: int, j: int|
                #![trigger ps[i], ps[j]]
                0 <= i < j < ps.len() ==> {
                    let a = match_at(data, ps[i], needle.len());
                    let b = match_at(data, ps[j], needle.len());
                    a.line < b.line || (a.line == b.line && a.col < b.col)
                }
        }),
{
    let ps = search_positions(data, needle, case_insensitive);
    lemma_positions_sorted(data, needle, case_insensitive);
    assert forall|i: int| 0 <= i < ps.len() implies {
        let m = match_at(data, #[trigger] ps[i], needle.len());
        line_start(data, m.line as nat) + m.col == ps[i]
    } by {
        lemma_line_start_before(data, ps[i]);
        lemma_line_of_bound(data, ps[i]);
    }
    assert forall|i: int, j: int| #![trigger ps[i], ps[j]] 0 <= i < j < ps.len() implies {
        let a = match_at(data, ps[i], needle.len());
        let b = match_at(data, ps[j], needle.len());
        a.line < b.line || (a.line == b.line && a.col < b.col)
    } by {
        assert(ps[i] < ps[j]);
        lemma_line_start_before(data, ps[i]);
        lemma_line_start_before(data, ps[j]);
        lemma_line_of_bound(data, ps[i]);
        lemma_line_of_bound(data, ps[j]);
        lemma_line_of_monotone(data, ps[i], ps[j]);
    }
}

/// Turns sorted byte offsets into line/column matches of length
/// `needle_len`, accumulating line numbers in a single forward pass over the
/// newlines that precede each offset.
pub fn matches_from_positions(data: &[u8], positions: &[usize], needle_len: usize) -> (r: Vec<Match>)
    requires
        forall|i: int| 0 <= i < positions@.len() ==> positions@[i] <= data@.len(),
        forall|i: int, j: int| 0 <= i <= j < positions@.len() ==> positions@[i] <= positions@[j],
        data@.len() < u64::MAX,
    ensures
        r@.len() == positions@.len(),
        forall|i: int|
            #![trigger r@[i]]
            0 <= i < r@.len() ==> r@[i] == match_at(data@, positions@[i] as int, needle_len as nat),
        forall|i: int|
            #![trigger r@[i]]
            0 <= i < r@.len() ==> line_start(data@, r@[i].line as nat) + r@[i].col == positions@[i],
{
    let mut out: Vec<Match> = Vec::new();
    let mut line: u64 = 0;
    let mut line_begin: usize = 0;
    let mut scan: usize = 0;
    let mut k: usize = 0;
    while k < positions.len()
        invariant
            0 <= k <= positions@.len(),
            forall|i: int| 0 <= i < positions@.len() ==> positions@[i] <= data@.len(),
            forall|i: int, j: int| 0 <= i <= j < positions@.len() ==> positions@[i] <= positions@[j],
            data@.len() < u64::MAX,
            k > 0 ==> scan == positions@[k - 1],
            k == 0 ==> scan == 0,
            line_begin <= scan <= data@.len(),
            line == line_of(data@, scan as int),
            line_begin == line_start(data@, line as nat),
            forall|i: int| line_begin <= i < scan ==> data@[i] != NL,
            out@.len() == k,
            forall|i: int|
                #![trigger out@[i]]
                0 <= i < k ==> out@[i] == match_at(data@, positions@[i] as int, needle_len as nat),
            forall|i: int|
                #![trigger out@[i]]
                0 <= i < k ==> line_start(data@, out@[i].line as nat) + out@[i].col == positions@[i],
        decreases positions@.len() - k,
    {
        let pos = positions[k];
        while scan < pos
            invariant
                line_begin <= scan <= pos <= data@.len() < u64::MAX,
                line == line_of(data@, scan as int),
                line_begin == line_start(data@, line as nat),
                forall|i: int| line_begin <= i < scan ==> data@[i] != NL,
            decreases pos - scan,
        {
            let rest = vstd::slice::slice_subrange(data, scan, pos);
            match find_byte(NL, rest) {
                Some(off) => {
                    proof {
                        let q = scan + off;
                        assert forall|i: int| line_begin <= i < q implies data@[i] != NL by {
                            if i >= scan {
                                assert(rest@[i - scan] == data@[i]);
                            }
                        }
                        assert(rest@[off as int] == data@[q]);
                        lemma_next_nl_is(data@, line_begin as int, q);
                        lemma_line_of_no_nl(data@, scan as int, q);
                        lemma_line_of_step(data@, q);
                        lemma_line_of_bound(data@, q + 1);
                    }
                    line = line + 1;
                    line_begin = scan + off + 1;
                    scan = line_begin;
                },
                None => {
                    proof {
                        assert forall|i: int| scan <= i < pos implies data@[i] != NL by {
                            assert(rest@[i - scan] == data@[i]);
                        }
                        lemma_line_of_no_nl(data@, scan as int, pos as int);
                    }
                    scan = pos;
                },
            }
        }
        let m = Match { line, col: pos - line_begin, len: needle_len };
        out.push(m);
        k = k + 1;
    }
    out
}

/// The offsets `search_in_mmap` reports for a non-empty needle: the first
/// `MAX_MATCHES` occurrences, overlapping ones included, compared byte for
/// byte or, with `case_insensitive`, with ASCII letters compared without
/// case.
pub open spec fn search_positions(data: Seq<u8>, needle: Seq<u8>, case_insensitive: bool) -> Seq<int> {
    if case_insensitive {
        first_n(ci_occurrences_from(data, needle, 0), MAX_MATCHES as int)
    } else {
        first_n(occurrences_from(data, needle, 0), MAX_MATCHES as int)
    }
}

/// The matches `search_in_mmap` reports for a non-empty needle, one per
/// offset of `search_positions`.
pub open spec fn search_matches(data: Seq<u8>, needle: Seq<u8>, case_insensitive: bool) -> Seq<
    Match,
> {
    search_positions(data, needle, case_insensitive).map_values(
        |p: int| match_at(data, p, needle.len()),
    )
}

/// `a` and `b` have the same length and agree byte by byte up to the case of
/// ASCII letters.
pub open spec fn same_up_to_case(a: Seq<u8>, b: Seq<u8>) -> bool {
    &&& a.len() == b.len()
    &&& forall|i: int| 0 <= i < a.len() ==> #[trigger] lower(a[i]) == lower(b[i])
}

/// Case-insensitive occurrences do not see the case of ASCII letters.
proof fn lemma_ci_occurrences_same(h1: Seq<u8>, h2: Seq<u8>, n1: Seq<u8>, n2: Seq<u8>, from: int)
    requires
        same_up_to_case(h1, h2),
        same_up_to_case(n1, n2),
    ensures
        ci_occurrences_from(h1, n1, from) == ci_occurrences_from(h2, n2, from),
    decreases h1.len() + 1 - from,
{
    if !(from < 0 || from + n1.len() > h1.len()) {
        if ci_occurs_at(h1, n1, from) {
            assert forall|i: int| 0 <= i < n2.len() implies #[trigger] lower(h2[from + i]) == lower(
                n2[i],
            ) by {
                assert(lower(h1[from + i]) == lower(n1[i]));
            }
        }
        if ci_occurs_at(h2, n2, from) {
            assert forall|i: int| 0 <= i < n1.len() implies #[trigger] lower(h1[from + i]) == lower(
                n1[i],
            ) by {
                assert(lower(h2[from + i]) == lower(n2[i]));
            }
        }
        lemma_ci_occurrences_same(h1, h2, n1, n2, from + 1);
    }
}

/// Changing the case of ASCII letters, in the data or in the query, leaves
/// a case-insensitive search unchanged: the same matches, at the same lines
/// and columns.
pub proof fn lemma_search_ignores_ascii_case(d1: Seq<u8>, d2: Seq<u8>, q1: Seq<u8>, q2: Seq<u8>)
    requires
        same_up_to_case(d1, d2),
        same_up_to_case(q1, q2),
    ensures
        search_matches(d1, q1, true) == search_matches(d2, q2, true),
{
    lemma_ci_occurrences_same(d1, d2, q1, q2, 0);
    assert forall|i: int| 0 <= i < d1.len() implies (#[trigger] d1[i] == NL) == (d2[i] == NL) by {
        assert(lower(d1[i]) == lower(d2[i]));
    }
    lemma_lines_same(d1, d2);
    lemma_ci_occurrences_sorted(d1, q1, 0);
    let all = ci_occurrences_from(d1, q1, 0);
    let ps = search_positions(d1, q1, true);
    assert forall|i: int| 0 <= i < ps.len() implies 0 <= #[trigger] ps[i] <= d1.len() by {
        assert(ps[i] == all[i]);
    }
    assert(search_matches(d1, q1, true) =~= search_matches(d2, q2, true));
}

/// Search `data` for occurrences of `query`, returning `(line, col, len)`
/// triples sorted by position, for every occurrence, overlapping ones
/// included. With `case_insensitive`, ASCII letters compare without case.
/// At most `MAX_MATCHES` are returned; an empty query finds nothing.
pub fn search_in_mmap(data: &[u8], query: &str, case_insensitive: bool) -> (r: Vec<Match>)
    requires
        data@.len() < u64::MAX,
    ensures
        query.spec_bytes().len() == 0 ==> r@.len() == 0,
        query.spec_bytes().len() > 0 ==> r@ == search_matches(
            data@,
            query.spec_bytes(),
            case_insensitive,
        ),
        query.spec_bytes().len() > 0 ==> {
            let ps = search_positions(data@, query.spec_bytes(), case_insensitive);
            &&& r@.len() == ps.len()
            &&& forall|i: int|
                #![trigger r@[i]]
                0 <= i < r@.len() ==> r@[i] == match_at(data@, ps[i], query.spec_bytes().len())
        },
        sorted_by_line(r@),
        r@.len() <= MAX_MATCHES,
{
    let needle = query.as_bytes();
    if needle.len() == 0 {
        return Vec::new();
    }
    if needle.len() > data.len() {
        proof {
            lemma_ci_tail_empty(data@, needle@, 0);
        }
        assert(occurrences_from(data@, needle@, 0) =~= Seq::<int>::empty());
        return Vec::new();
    }
    let positions = if case_insensitive {
        find_all_ascii_ci(data, needle, MAX_MATCHES)
    } else {
        find_occurrences(data, needle, MAX_MATCHES)
    };
    proof {
        let ps = search_positions(data@, needle@, case_insensitive);
        assert(int_offsets(positions@) == ps);
        lemma_positions_sorted(data@, needle@, case_insensitive);
        assert forall|i: int| 0 <= i < positions@.len() implies positions@[i] <= data@.len() by {
            assert(int_offsets(positions@)[i] == positions@[i]);
        }
        assert forall|i: int, j: int| 0 <= i <= j < positions@.len() implies positions@[i]
            <= positions@[j] by {
            assert(int_offsets(positions@)[i] == positions@[i]);
            assert(int_offsets(positions@)[j] == positions@[j]);
        }
    }
    let r = matches_from_positions(data, positions.as_slice(), needle.len());
    proof {
        assert forall|i: int| 0 <= i < r@.len() implies r@[i] == match_at(
            data@,
            search_positions(data@, needle@, case_insensitive)[i],
            needle@.len(),
        ) by {
            assert(int_offsets(positions@)[i] == positions@[i]);
        }
        lemma_search_matches(data@, needle@, case_insensitive);
        let ps = search_positions(data@, needle@, case_insensitive);
        assert forall|i: int, j: int| 0 <= i <= j < r@.len() implies r@[i].line <= r@[j].line by {
            if i < j {
                assert(ps[i] == ps[i] && ps[j] == ps[j]);
            }
        }
        assert(r@ =~= search_matches(data@, needle@, case_insensitive));
    }
    r
}

/// Matches sorted ascending by line.
pub open spec fn sorted_by_line(ms: Seq<Match>) -> bool {
    forall|i: int, j: int| 0 <= i <= j < ms.len() ==> ms[i].line <= ms[j].line
}

/// Length of the leading run of matches whose line is below `line`.
pub open spec fn count_below(ms: Seq<Match>, line: u64) -> int
    decreases ms.len(),
{
    if ms.len() > 0 && ms[0].line < line {
        1 + count_below(ms.drop_first(), line)
    } else {
        0
    }
}

/// In a sorted sequence the leading run below `line` ends at the first
/// match on or after `line`.
proof fn lemma_count_below(ms: Seq<Match>, line: u64, r: int)
    requires
        0 <= r <= ms.len(),
        forall|i: int| 0 <= i < r ==> ms[i].line < line,
        forall|i: int| r <= i < ms.len() ==> ms[i].line >= line,
    ensures
        count_below(ms, line) == r,
    decreases r,
{
    if r > 0 {
        lemma_count_below(ms.drop_first(), line, r - 1);
    }
}

/// Law: in sorted matches, the index range `[count_below(start),
/// count_below(end))` holds exactly the matches on lines
/// `start_line..end_line`.
pub proof fn lemma_line_range_exact(ms: Seq<Match>, start_line: u64, end_line: u64, i: int)
    requires
        sorted_by_line(ms),
        start_line <= end_line,
        0 <= i < ms.len(),
    ensures
        0 <= count_below(ms, start_line) <= count_below(ms, end_line) <= ms.len(),
        (count_below(ms, start_line) <= i < count_below(ms, end_line)) <==> (start_line
            <= ms[i].line < end_line),
{
    lemma_count_below_split(ms, start_line);
    lemma_count_below_split(ms, end_line);
    let ce = count_below(ms, end_line);
    if count_below(ms, start_line) > ce {
        assert(ms[ce].line >= end_line);
    }
}

/// In sorted matches, those before `count_below(ms, line)` lie below `line`
/// and the others do not.
pub proof fn lemma_count_below_split(ms: Seq<Match>, line: u64)
    requires
        sorted_by_line(ms),
    ensures
        0 <= count_below(ms, line) <= ms.len(),
        forall|i: int| 0 <= i < count_below(ms, line) ==> ms[i].line < line,
        forall|i: int| count_below(ms, line) <= i < ms.len() ==> ms[i].line >= line,
    decreases ms.len(),
{
    if ms.len() > 0 && ms[0].line < line {
        let rest = ms.drop_first();
        assert(sorted_by_line(rest)) by {
            assert forall|i: int, j: int| 0 <= i <= j < rest.len() implies rest[i].line
                <= rest[j].line by {
                assert(rest[i] == ms[i + 1] && rest[j] == ms[j + 1]);
            }
        }
        lemma_count_below_split(rest, line);
        assert forall|i: int| 0 <= i < count_below(ms, line) implies ms[i].line < line by {
            if i > 0 {
                assert(ms[i] == rest[i - 1]);
            }
        }
        assert forall|i: int| count_below(ms, line) <= i < ms.len() implies ms[i].line >= line by {
            assert(ms[i] == rest[i - 1]);
        }
    } else if ms.len() > 0 {
        assert forall|i: int| 0 <= i < ms.len() implies ms[i].line >= line by {
            assert(ms[0].line <= ms[i].line);
        }
    }
}

/// Index of the first match whose line is at least `line`, by binary
/// search over matches sorted by line.
pub fn first_match_on_or_after(matches: &[Match], line: u64) -> (r: usize)
    requires
        sorted_by_line(matches@),
    ensures
        r == count_below(matches@, line),
{
    let mut lo: usize = 0;
    let mut hi: usize = matches.len();
    while lo < hi
        invariant
            0 <= lo <= hi <= matches@.len(),
            sorted_by_line(matches@),
            forall|i: int| 0 <= i < lo ==> matches@[i].line < line,
            forall|i: int| hi <= i < matches@.len() ==> matches@[i].line >= line,
        decreases hi - lo,
    {
        let mid = lo + (hi - lo) / 2;
        if matches[mid].line < line {
            lo = mid + 1;
        } else {
            hi = mid;
        }
    }
    proof {
        lemma_count_below(matches@, line, lo as int);
    }
    lo
}

/// Find the slice of `matches` whose `line` falls in `[start_line,
/// end_line)`. Matches are sorted ascending by `(line, col)`, so this is two
/// binary searches.
pub fn slice_for_line_range(matches: &[Match], start_line: u64, end_line: u64) -> (r: &[Match])
    requires
        sorted_by_line(matches@),
        start_line <= end_line,
    ensures
        r@ == matches@.subrange(count_below(matches@, start_line), count_below(matches@, end_line)),
{
    let lo = first_match_on_or_after(matches, start_line);
    let hi = first_match_on_or_after(matches, end_line);
    proof {
        lemma_count_below_split(matches@, start_line);
        lemma_count_below_split(matches@, end_line);
        if lo > hi {
            assert(matches@[hi as int].line >= end_line);
        }
    }
    vstd::slice::slice_subrange(matches, lo, hi)
}

/// Active match after moving forward: wraps from the last match to the
/// first.
pub open spec fn next_index(current: int, n: int) -> int {
    (current + 1) % n
}

/// Active match after moving backward: wraps from the first match to the
/// last.
pub open spec fn prev_index(current: int, n: int) -> int {
    if current == 0 {
        n - 1
    } else {
        current - 1
    }
}

/// What a new query asks of the caller.
pub enum SearchStep {
    /// Nothing to do (the query is the same as last time, or no search applies).
    Idle,
    /// Empty query: the stored matches are to be dropped.
    Cleared,
    /// Run a search; its results carry `generation` back to `finish_search`.
    Start { generation: u64, case_insensitive: bool },
}

/// State of the find bar, bound to the tab that was active when it opened.
/// The matches themselves are stored by the caller next to the file they
/// were found in; this holds their count.
pub struct FindState {
    pub case_sensitive: bool,
    /// Number of matches of the last completed search.
    pub num_matches: usize,
    /// Index into the matches of the currently "active" highlight.
    pub current: usize,
    /// Tab this find is bound to; closed automatically if the tab changes/closes.
    pub tab_index: usize,
    /// Last query string that produced the matches, used to avoid duplicate searches.
    pub last_query: String,
    /// Incremented on each search; results of older searches are refused.
    pub search_gen: u64,
    /// Set when the active match has just changed, so the content view can
    /// scroll it into view exactly once per navigation.
    pub pending_scroll: bool,
}

impl FindState {
    /// The active match lies among the matches (or is 0 when there are none).
    pub open spec fn wf(&self) -> bool {
        if self.num_matches == 0 {
            self.current == 0
        } else {
            self.current < self.num_matches
        }
    }

    /// A fresh find bar for tab `tab_index`: case-insensitive, no matches.
    pub fn new(tab_index: usize) -> (r: Self)
        ensures
            r.wf(),
            !r.case_sensitive,
            r.num_matches == 0,
            r.current == 0,
            r.tab_index == tab_index,
            r.last_query@ == Seq::<char>::empty(),
            r.search_gen == 0,
            !r.pending_scroll,
    {
        FindState {
            case_sensitive: false,
            num_matches: 0,
            current: 0,
            tab_index,
            last_query: String::new(),
            search_gen: 0,
            pending_scroll: false,
        }
    }

    /// Number of matches of the last completed search.
    pub fn match_count(&self) -> (r: usize)
        ensures
            r == self.num_matches,
    {
        self.num_matches
    }

    /// "No results", or "<active> of <count>" counting from 1.
    pub fn label(&self) -> (r: String)
        requires
            self.num_matches == 0 || self.current < usize::MAX,
        ensures
            self.num_matches == 0 ==> r@ == "No results"@,
            self.num_matches > 0 ==> r@ == decimal((self.current + 1) as nat) + " of "@ + decimal(
                self.num_matches as nat,
            ),
    {
        let n = self.match_count();
        if n == 0 {
            String::from_str("No results")
        } else {
            let mut out = String::new();
            push_decimal(&mut out, (self.current + 1) as u64);
            out.append(" of ");
            push_decimal(&mut out, n as u64);
            out
        }
    }

    /// Moves the active match forward, wrapping around. Nothing happens
    /// without matches.
    pub fn find_next(&mut self) -> (moved: bool)
        requires
            old(self).num_matches == 0 || old(self).current < usize::MAX,
        ensures
            moved == (old(self).num_matches > 0),
            moved ==> final(self).current == next_index(old(self).current as int, old(self).num_matches as int),
            moved ==> final(self).pending_scroll,
            !moved ==> *final(self) == *old(self),
            final(self).num_matches == old(self).num_matches,
            final(self).tab_index == old(self).tab_index,
            final(self).search_gen == old(self).search_gen,
            final(self).case_sensitive == old(self).case_sensitive,
            final(self).last_query == old(self).last_query,
            old(self).wf() ==> final(self).wf(),
    {
        let n = self.match_count();
        if n == 0 {
            return false;
        }
        self.current = (self.current + 1) % n;
        self.pending_scroll = true;
        true
    }

    /// Moves the active match backward, wrapping around. Nothing happens
    /// without matches.
    pub fn find_prev(&mut self) -> (moved: bool)
        ensures
            moved == (old(self).num_matches > 0),
            moved ==> final(self).current == prev_index(old(self).current as int, old(self).num_matches as int),
            moved ==> final(self).pending_scroll,
            !moved ==> *final(self) == *old(self),
            final(self).num_matches == old(self).num_matches,
            final(self).tab_index == old(self).tab_index,
            final(self).search_gen == old(self).search_gen,
            final(self).case_sensitive == old(self).case_sensitive,
            final(self).last_query == old(self).last_query,
            old(self).wf() ==> final(self).wf(),
    {
        let n = self.match_count();
        if n == 0 {
            return false;
        }
        self.current = if self.current == 0 {
            n - 1
        } else {
            self.current - 1
        };
        self.pending_scroll = true;
        true
    }

    /// Records a new query. The same query as last time asks for nothing;
    /// an empty one drops the matches; any other starts a search of a new
    /// generation, case-insensitive unless the bar is case-sensitive.
    pub fn begin_search(&mut self, query: String) -> (step: SearchStep)
        requires
            query@ != old(self).last_query@ ==> old(self).search_gen < u64::MAX,
        ensures
            query@ == old(self).last_query@ ==> step is Idle && *final(self) == *old(self),
            query@ != old(self).last_query@ ==> {
                &&& final(self).last_query@ == query@
                &&& final(self).search_gen == old(self).search_gen + 1
                &&& final(self).case_sensitive == old(self).case_sensitive
                &&& final(self).tab_index == old(self).tab_index
                &&& final(self).pending_scroll == old(self).pending_scroll
                &&& query@.len() == 0 ==> {
                    &&& step is Cleared
                    &&& final(self).num_matches == 0
                    &&& final(self).current == 0
                }
                &&& query@.len() > 0 ==> {
                    &&& step == (SearchStep::Start {
                        generation: final(self).search_gen,
                        case_insensitive: !old(self).case_sensitive,
                    })
                    &&& final(self).num_matches == old(self).num_matches
                    &&& final(self).current == old(self).current
                }
            },
            old(self).wf() ==> final(self).wf(),
    {
        if query == self.last_query {
            return SearchStep::Idle;
        }
        let empty = query.as_str().is_empty();
        self.last_query = query;
        self.search_gen = self.search_gen + 1;
        if empty {
            self.num_matches = 0;
            self.current = 0;
            return SearchStep::Cleared;
        }
        SearchStep::Start { generation: self.search_gen, case_insensitive: !self.case_sensitive }
    }

    /// Takes the results of search `generation`: they are kept only when no
    /// newer search has started, and then the first match becomes active.
    pub fn finish_search(&mut self, generation: u64, count: usize) -> (applied: bool)
        ensures
            applied == (generation == old(self).search_gen),
            applied ==> {
                &&& final(self).num_matches == count
                &&& final(self).current == 0
                &&& final(self).pending_scroll
                &&& final(self).search_gen == old(self).search_gen
                &&& final(self).last_query == old(self).last_query
                &&& final(self).case_sensitive == old(self).case_sensitive
                &&& final(self).tab_index == old(self).tab_index
                &&& final(self).wf()
            },
            !applied ==> *final(self) == *old(self),
    {
        if generation != self.search_gen {
            return false;
        }
        self.num_matches = count;
        self.current = 0;
        self.pending_scroll = true;
        true
    }

    /// Flips case sensitivity and forgets the last query, so that the next
    /// query starts a new search.
    pub fn toggle_case(&mut self)
        ensures
            final(self).case_sensitive == !old(self).case_sensitive,
            final(self).last_query@ == Seq::<char>::empty(),
            final(self).num_matches == old(self).num_matches,
            final(self).current == old(self).current,
            final(self).tab_index == old(self).tab_index,
            final(self).search_gen == old(self).search_gen,
            final(self).pending_scroll == old(self).pending_scroll,
    {
        self.case_sensitive = !self.case_sensitive;
        self.last_query = String::new();
    }
}

/// Law: with at least one match, moving forward then backward (or backward
/// then forward) returns to the same active match, and both moves stay
/// among the matches.
pub proof fn lemma_next_prev_inverse(current: int, n: int)
    requires
        0 <= current < n,
    ensures
        0 <= next_index(current, n) < n,
        0 <= prev_index(current, n) < n,
        prev_index(next_index(current, n), n) == current,
        next_index(prev_index(current, n), n) == current,
{
    if current + 1 < n {
        vstd::arithmetic::div_mod::lemma_small_mod((current + 1) as nat, n as nat);
    } else {
        vstd::arithmetic::div_mod::lemma_mod_self_0(n);
    }
    if current > 0 {
        vstd::arithmetic::div_mod::lemma_small_mod(current as nat, n as nat);
    } else {
        vstd::arithmetic::div_mod::lemma_mod_self_0(n);
    }
}

} // verus!
