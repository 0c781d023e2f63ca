//! Splitting a displayed line into plain and highlighted spans.

use vstd::prelude::*;

use crate::find::Match;

verus! {

/// How a span of a line is painted.
#[derive(Clone, Copy, Debug, PartialEq, Eq, Structural)]
pub enum SegmentKind {
    Plain,
    Match,
    Active,
}

/// The bytes `start..end` of a line, painted as `kind`.
#[derive(Clone, Copy, Debug, PartialEq, Eq, Structural)]
pub struct Segment {
    pub start: usize,
    pub end: usize,
    pub kind: SegmentKind,
}

/// `i` is a UTF-8 character boundary of `bytes` as `str::is_char_boundary`
/// decides it: the two ends, or an offset whose byte is not a continuation
/// byte.
pub open spec fn on_char_boundary(bytes: Seq<u8>, i: int) -> bool {
    i == 0 || i == bytes.len() || (0 < i < bytes.len() && (bytes[i] < 0x80 || bytes[i] >= 0xC0))
}

/// Law: the two ends of a line are character boundaries, and an offset
/// inside it is one exactly when its byte is not a UTF-8 continuation byte
/// (`byte & 0xC0 != 0x80`): ASCII bytes and the lead bytes of multi-byte
/// characters start characters.
pub proof fn lemma_char_boundary_is_not_continuation(bytes: Seq<u8>)
    ensures
        on_char_boundary(bytes, 0),
        on_char_boundary(bytes, bytes.len() as int),
        forall|i: int|
            0 < i < bytes.len() ==> (on_char_boundary(bytes, i) <==> (#[trigger] bytes[i] & 0xC0)
                != 0x80),
{
    assert forall|b: u8| (b < 0x80 || b >= 0xC0) <==> (b & 0xC0) != 0x80 by {
        assert((b < 0x80 || b >= 0xC0) <==> (b & 0xC0) != 0x80) by (bit_vector);
    }
    assert forall|i: int| 0 < i < bytes.len() implies (on_char_boundary(bytes, i) <==> (
    #[trigger] bytes[i] & 0xC0) != 0x80) by {
        let b = bytes[i];
        assert((b < 0x80 || b >= 0xC0) <==> (b & 0xC0) != 0x80);
    }
}

/// The span `start..end` painted as `kind`.
pub open spec fn segment(start: int, end: int, kind: SegmentKind) -> Segment {
    Segment { start: start as usize, end: end as usize, kind }
}

/// Walking state: how far the line is covered, the spans so far, and
/// whether a match past the end of the line has stopped the walk.
pub struct SegState {
    pub cursor: int,
    pub segs: Seq<Segment>,
    pub stopped: bool,
}

/// One match of the walk. A match starting at or past the end of the line
/// stops it; one whose ends are not character boundaries, or that starts
/// inside what is already covered, is skipped; otherwise the gap before it
/// is emitted plain and the match itself highlighted (as active when its
/// overall index `base_ix + k` is `active_ix`), cut at the end of the line.
pub open spec fn seg_step(
    line: Seq<u8>,
    m: Match,
    k: int,
    base_ix: int,
    active_ix: Option<usize>,
    st: SegState,
) -> SegState {
    let start = m.col as int;
    let end = if m.col + m.len <= line.len() {
        m.col + m.len
    } else {
        line.len() as int
    };
    if st.stopped {
        st
    } else if start >= line.len() {
        SegState { stopped: true, ..st }
    } else if !on_char_boundary(line, start) || !on_char_boundary(line, end) {
        st
    } else if start < st.cursor {
        st
    } else {
        let gap = if start > st.cursor {
            st.segs.push(segment(st.cursor, start, SegmentKind::Plain))
        } else {
            st.segs
        };
        let kind = if active_ix == Some((base_ix + k) as usize) {
            SegmentKind::Active
        } else {
            SegmentKind::Match
        };
        SegState { cursor: end, segs: gap.push(segment(start, end, kind)), stopped: false }
    }
}

/// The walk over the first `k` matches.
pub open spec fn seg_walk(
    line: Seq<u8>,
    ms: Seq<Match>,
    base_ix: int,
    active_ix: Option<usize>,
    k: int,
) -> SegState
    decreases k,
{
    if k <= 0 {
        SegState { cursor: 0, segs: seq![], stopped: false }
    } else {
        seg_step(line, ms[k - 1], k - 1, base_ix, active_ix, seg_walk(line, ms, base_ix, active_ix, k - 1))
    }
}

/// All spans of the line: the walk over every match, then the rest of the
/// line plain.
pub open spec fn spec_line_segments(
    line: Seq<u8>,
    ms: Seq<Match>,
    base_ix: int,
    active_ix: Option<usize>,
) -> Seq<Segment> {
    let st = seg_walk(line, ms, base_ix, active_ix, ms.len() as int);
    if st.cursor < line.len() {
        st.segs.push(segment(st.cursor, line.len() as int, SegmentKind::Plain))
    } else {
        st.segs
    }
}

/// The spans cover `[0, upto)` in order, end to end, each from one
/// character boundary to another.
pub open spec fn tiles(line: Seq<u8>, segs: Seq<Segment>, upto: int) -> bool {
    &&& segs.len() == 0 ==> upto == 0
    &&& segs.len() > 0 ==> segs[0].start == 0 && segs[segs.len() - 1].end == upto
    &&& forall|i: int| 0 <= i < segs.len() - 1 ==> #[trigger] segs[i].end == segs[i + 1].start
    &&& forall|i: int|
        0 <= i < segs.len() ==> #[trigger] segs[i].start <= segs[i].end <= line.len()
            && on_char_boundary(line, segs[i].start as int) && on_char_boundary(
            line,
            segs[i].end as int,
        )
}

/// Whether offset `i` of `line` is a character boundary.
fn is_char_boundary(line: &[u8], i: usize) -> (r: bool)
    ensures
        r == on_char_boundary(line@, i as int),
{
    if i == 0 {
        true
    } else if i >= line.len() {
        i == line.len()
    } else {
        line[i] < 0x80 || line[i] >= 0xC0
    }
}

/// Split `line` by the matches falling on it into a flat row of spans, where
/// matches are highlighted (as active for the match whose overall index,
/// `base_ix` plus its position in `matches_on_line`, is `active_ix`). Byte
/// offsets that don't land on UTF-8 boundaries or are past the truncated line
/// length are skipped.
pub fn line_segments(
    line: &[u8],
    matches_on_line: &[Match],
    base_ix: usize,
    active_ix: Option<usize>,
) -> (r: Vec<Segment>)
    requires
        base_ix + matches_on_line@.len() <= usize::MAX,
        forall|i: int|
            0 <= i < matches_on_line@.len() ==> #[trigger] matches_on_line@[i].col
                + matches_on_line@[i].len <= usize::MAX,
    ensures
        r@ == spec_line_segments(line@, matches_on_line@, base_ix as int, active_ix),
{
    let bytes_len = line.len();
    let mut segs: Vec<Segment> = Vec::new();
    let mut cursor: usize = 0;
    let mut k: usize = 0;
    while k < matches_on_line.len()
        invariant
            0 <= k <= matches_on_line@.len(),
            base_ix + matches_on_line@.len() <= usize::MAX,
            forall|i: int|
                0 <= i < matches_on_line@.len() ==> #[trigger] matches_on_line@[i].col
                    + matches_on_line@[i].len <= usize::MAX,
            bytes_len == line@.len(),
            cursor <= bytes_len,
            ({
                let st = seg_walk(line@, matches_on_line@, base_ix as int, active_ix, k as int);
                &&& !st.stopped
                &&& st.cursor == cursor
                &&& st.segs == segs@
            }),
        ensures
            ({
                let st = seg_walk(
                    line@,
                    matches_on_line@,
                    base_ix as int,
                    active_ix,
                    matches_on_line@.len() as int,
                );
                &&& st.cursor == cursor
                &&& st.segs == segs@
            }),
            cursor <= bytes_len,
        decreases matches_on_line@.len() - k,
    {
        let m = matches_on_line[k];
        let start = m.col;
        let end = m.col + m.len;
        if start >= bytes_len {
            proof {
                lemma_walk_stays_stopped(
                    line@,
                    matches_on_line@,
                    base_ix as int,
                    active_ix,
                    k + 1,
                    matches_on_line@.len() as int,
                );
            }
            break;
        }
        let end = if end <= bytes_len {
            end
        } else {
            bytes_len
        };
        if !is_char_boundary(line, start) || !is_char_boundary(line, end) {
            k = k + 1;
            continue;
        }
        if start > cursor {
            segs.push(Segment { start: cursor, end: start, kind: SegmentKind::Plain });
        } else if start < cursor {
            k = k + 1;
            continue;
        }
        let is_active = match active_ix {
            Some(a) => a == base_ix + k,
            None => false,
        };
        let kind = if is_active {
            SegmentKind::Active
        } else {
            SegmentKind::Match
        };
        segs.push(Segment { start, end, kind });
        cursor = end;
        k = k + 1;
    }
    if cursor < bytes_len {
        segs.push(Segment { start: cursor, end: bytes_len, kind: SegmentKind::Plain });
    }
    segs
}

/// The walk covers the line from its start up to its cursor, end to end.
proof fn lemma_walk_tiles(line: Seq<u8>, ms: Seq<Match>, base_ix: int, active_ix: Option<usize>, k: int)
    requires
        0 <= k <= ms.len(),
        line.len() <= usize::MAX,
    ensures
        ({
            let st = seg_walk(line, ms, base_ix, active_ix, k);
            &&& 0 <= st.cursor <= line.len()
            &&& on_char_boundary(line, st.cursor)
            &&& tiles(line, st.segs, st.cursor)
        }),
    decreases k,
{
    if k > 0 {
        lemma_walk_tiles(line, ms, base_ix, active_ix, k - 1);
        let st = seg_walk(line, ms, base_ix, active_ix, k - 1);
        let next = seg_walk(line, ms, base_ix, active_ix, k);
        let m = ms[k - 1];
        let start = m.col as int;
        let end = if m.col + m.len <= line.len() {
            m.col + m.len
        } else {
            line.len() as int
        };
        if !st.stopped && start < line.len() && on_char_boundary(line, start) && on_char_boundary(
            line,
            end,
        ) && start >= st.cursor {
            let gap = if start > st.cursor {
                st.segs.push(segment(st.cursor, start, SegmentKind::Plain))
            } else {
                st.segs
            };
            assert(tiles(line, gap, start)) by {
                if start > st.cursor {
                    assert forall|i: int| 0 <= i < gap.len() - 1 implies #[trigger] gap[i].end
                        == gap[i + 1].start by {
                        if i < st.segs.len() - 1 {
                            assert(gap[i] == st.segs[i] && gap[i + 1] == st.segs[i + 1]);
                        }
                    }
                    assert forall|i: int| 0 <= i < gap.len() implies #[trigger] gap[i].start
                        <= gap[i].end <= line.len() && on_char_boundary(line, gap[i].start as int)
                        && on_char_boundary(line, gap[i].end as int) by {
                        if i < st.segs.len() {
                            assert(gap[i] == st.segs[i]);
                        }
                    }
                }
            }
            let segs = next.segs;
            assert(segs == gap.push(segs[segs.len() - 1]));
            assert forall|i: int| 0 <= i < segs.len() - 1 implies #[trigger] segs[i].end
                == segs[i + 1].start by {
                if i < gap.len() - 1 {
                    assert(segs[i] == gap[i] && segs[i + 1] == gap[i + 1]);
                }
            }
            assert forall|i: int| 0 <= i < segs.len() implies #[trigger] segs[i].start
                <= segs[i].end <= line.len() && on_char_boundary(line, segs[i].start as int)
                && on_char_boundary(line, segs[i].end as int) by {
                if i < gap.len() {
                    assert(segs[i] == gap[i]);
                }
            }
        }
    }
}

/// Law: the spans of a line cover it exactly, in order and end to end, and
/// every span boundary is a character boundary, so the spans can be cut out
/// of the line's text; put together they give the line back.
pub proof fn lemma_line_segments_tile(
    line: Seq<u8>,
    ms: Seq<Match>,
    base_ix: int,
    active_ix: Option<usize>,
)
    requires
        line.len() <= usize::MAX,
    ensures
        tiles(line, spec_line_segments(line, ms, base_ix, active_ix), line.len() as int),
{
    lemma_walk_tiles(line, ms, base_ix, active_ix, ms.len() as int);
    let st = seg_walk(line, ms, base_ix, active_ix, ms.len() as int);
    if st.cursor < line.len() {
        let segs = spec_line_segments(line, ms, base_ix, active_ix);
        assert forall|i: int| 0 <= i < segs.len() - 1 implies #[trigger] segs[i].end
            == segs[i + 1].start by {
            if i < st.segs.len() - 1 {
                assert(segs[i] == st.segs[i] && segs[i + 1] == st.segs[i + 1]);
            }
        }
        assert forall|i: int| 0 <= i < segs.len() implies #[trigger] segs[i].start <= segs[i].end
            <= line.len() && on_char_boundary(line, segs[i].start as int) && on_char_boundary(
            line,
            segs[i].end as int,
        ) by {
            if i < st.segs.len() {
                assert(segs[i] == st.segs[i]);
            }
        }
    }
}

/// End of match `m` cut at the end of the line.
pub open spec fn clipped_end(line: Seq<u8>, m: Match) -> int {
    if m.col + m.len <= line.len() {
        m.col + m.len
    } else {
        line.len() as int
    }
}

/// `src[i]` names, for each highlighted span `i`, the match it paints: the
/// span runs from the match's column to its clipped end, it is the active
/// one exactly when the match's overall index is `active_ix`, and distinct
/// highlighted spans come from distinct matches taken in input order.
pub open spec fn highlights_from(
    line: Seq<u8>,
    segs: Seq<Segment>,
    ms: Seq<Match>,
    base_ix: int,
    active_ix: Option<usize>,
    src: Seq<int>,
    bound: int,
) -> bool {
    &&& src.len() == segs.len()
    &&& forall|i: int|
        #![trigger segs[i]]
        0 <= i < segs.len() && segs[i].kind != SegmentKind::Plain ==> {
            &&& 0 <= src[i] < bound
            &&& segs[i].start == ms[src[i]].col
            &&& segs[i].end == clipped_end(line, ms[src[i]])
            &&& (segs[i].kind == SegmentKind::Active <==> active_ix == Some(
                (base_ix + src[i]) as usize,
            ))
        }
    &&& forall|i: int, j: int|
        #![trigger segs[i], segs[j]]
        0 <= i < j < segs.len() && segs[i].kind != SegmentKind::Plain && segs[j].kind
            != SegmentKind::Plain ==> src[i] < src[j]
}

/// The highlighted spans of the walk over the first `k` matches come from
/// distinct matches among them, in order.
proof fn lemma_walk_sources(
    line: Seq<u8>,
    ms: Seq<Match>,
    base_ix: int,
    active_ix: Option<usize>,
    k: int,
) -> (src: Seq<int>)
    requires
        0 <= k <= ms.len(),
        line.len() <= usize::MAX,
        forall|i: int| 0 <= i < ms.len() ==> #[trigger] ms[i].col + ms[i].len <= usize::MAX,
    ensures
        highlights_from(line, seg_walk(line, ms, base_ix, active_ix, k).segs, ms, base_ix, active_ix, src, k),
    decreases k,
{
    if k == 0 {
        Seq::<int>::empty()
    } else {
        let prev = lemma_walk_sources(line, ms, base_ix, active_ix, k - 1);
        let st = seg_walk(line, ms, base_ix, active_ix, k - 1);
        let next = seg_walk(line, ms, base_ix, active_ix, k);
        lemma_walk_tiles(line, ms, base_ix, active_ix, k - 1);
        let m = ms[k - 1];
        let start = m.col as int;
        let end = clipped_end(line, m);
        if !st.stopped && start < line.len() && on_char_boundary(line, start) && on_char_boundary(
            line,
            end,
        ) && start >= st.cursor {
            let gap_src = if start > st.cursor {
                prev.push(-1)
            } else {
                prev
            };
            let src = gap_src.push(k - 1);
            let segs = next.segs;
            let gap_len = gap_src.len();
            assert forall|i: int|
                #![trigger segs[i]]
                0 <= i < segs.len() && segs[i].kind != SegmentKind::Plain implies {
                &&& 0 <= src[i] < k
                &&& segs[i].start == ms[src[i]].col
                &&& segs[i].end == clipped_end(line, ms[src[i]])
                &&& (segs[i].kind == SegmentKind::Active <==> active_ix == Some(
                    (base_ix + src[i]) as usize,
                ))
            } by {
                if i < st.segs.len() {
                    assert(segs[i] == st.segs[i]);
                    assert(src[i] == prev[i]);
                }
            }
            assert forall|i: int, j: int|
                #![trigger segs[i], segs[j]]
                0 <= i < j < segs.len() && segs[i].kind != SegmentKind::Plain && segs[j].kind
                    != SegmentKind::Plain implies src[i] < src[j] by {
                if j < st.segs.len() {
                    assert(segs[i] == st.segs[i] && segs[j] == st.segs[j]);
                    assert(src[i] == prev[i] && src[j] == prev[j]);
                } else if i < st.segs.len() {
                    assert(segs[i] == st.segs[i]);
                    assert(src[i] == prev[i]);
                }
            }
            src
        } else {
            prev
        }
    }
}

/// Law: every highlighted span of a line is the span of one of its
/// matches, from the match's column to its end cut at the end of the line;
/// it is painted active exactly for the match whose overall index is
/// `active_ix`; and distinct highlighted spans come from distinct matches,
/// in the order the matches are given.
pub proof fn lemma_highlights_come_from_matches(
    line: Seq<u8>,
    ms: Seq<Match>,
    base_ix: int,
    active_ix: Option<usize>,
) -> (src: Seq<int>)
    requires
        line.len() <= usize::MAX,
        forall|i: int| 0 <= i < ms.len() ==> #[trigger] ms[i].col + ms[i].len <= usize::MAX,
    ensures
        highlights_from(
            line,
            spec_line_segments(line, ms, base_ix, active_ix),
            ms,
            base_ix,
            active_ix,
            src,
            ms.len() as int,
        ),
{
    let prev = lemma_walk_sources(line, ms, base_ix, active_ix, ms.len() as int);
    let st = seg_walk(line, ms, base_ix, active_ix, ms.len() as int);
    let segs = spec_line_segments(line, ms, base_ix, active_ix);
    if st.cursor < line.len() {
        let src = prev.push(-1);
        assert forall|i: int|
            #![trigger segs[i]]
            0 <= i < segs.len() && segs[i].kind != SegmentKind::Plain implies {
            &&& 0 <= src[i] < ms.len()
            &&& segs[i].start == ms[src[i]].col
            &&& segs[i].end == clipped_end(line, ms[src[i]])
            &&& (segs[i].kind == SegmentKind::Active <==> active_ix == Some(
                (base_ix + src[i]) as usize,
            ))
        } by {
            if i < st.segs.len() {
                assert(segs[i] == st.segs[i]);
                assert(src[i] == prev[i]);
            }
        }
        assert forall|i: int, j: int|
            #![trigger segs[i], segs[j]]
            0 <= i < j < segs.len() && segs[i].kind != SegmentKind::Plain && segs[j].kind
                != SegmentKind::Plain implies src[i] < src[j] by {
            if j < st.segs.len() {
                assert(segs[i] == st.segs[i] && segs[j] == st.segs[j]);
                assert(src[i] == prev[i] && src[j] == prev[j]);
            }
        }
        src
    } else {
        prev
    }
}

/// How the match with position `k` among a line's matches is highlighted:
/// as active when its overall index `base_ix + k` is `active_ix`.
pub open spec fn highlight_kind(base_ix: int, active_ix: Option<usize>, k: int) -> SegmentKind {
    if active_ix == Some((base_ix + k) as usize) {
        SegmentKind::Active
    } else {
        SegmentKind::Match
    }
}

/// Every match starts inside the line, both of its (clipped) ends are
/// character boundaries, and each one ends at or before the next begins.
pub open spec fn all_eligible(line: Seq<u8>, ms: Seq<Match>) -> bool {
    &&& forall|k: int|
        #![trigger ms[k]]
        0 <= k < ms.len() ==> {
            &&& ms[k].col < line.len()
            &&& on_char_boundary(line, ms[k].col as int)
            &&& on_char_boundary(line, clipped_end(line, ms[k]))
        }
    &&& forall|i: int, j: int|
        #![trigger ms[i], ms[j]]
        0 <= i < j < ms.len() ==> clipped_end(line, ms[i]) <= ms[j].col
}

/// Over eligible matches the walk never stops or skips: after `k` matches
/// the cursor sits at the end of the last one, and each has its span.
proof fn lemma_walk_eligible(
    line: Seq<u8>,
    ms: Seq<Match>,
    base_ix: int,
    active_ix: Option<usize>,
    k: int,
)
    requires
        all_eligible(line, ms),
        0 <= k <= ms.len(),
    ensures
        ({
            let st = seg_walk(line, ms, base_ix, active_ix, k);
            &&& !st.stopped
            &&& st.cursor == if k == 0 {
                0
            } else {
                clipped_end(line, ms[k - 1])
            }
            &&& forall|j: int|
                #![trigger ms[j]]
                0 <= j < k ==> exists|i: int|
                    0 <= i < st.segs.len() && #[trigger] st.segs[i] == segment(
                        ms[j].col as int,
                        clipped_end(line, ms[j]),
                        highlight_kind(base_ix, active_ix, j),
                    )
        }),
    decreases k,
{
    if k > 0 {
        lemma_walk_eligible(line, ms, base_ix, active_ix, k - 1);
        let st = seg_walk(line, ms, base_ix, active_ix, k - 1);
        let next = seg_walk(line, ms, base_ix, active_ix, k);
        let m = ms[k - 1];
        assert(m == ms[k - 1]);
        if k > 1 {
            assert(clipped_end(line, ms[k - 2]) <= ms[k - 1].col);
        }
        let last = next.segs.len() - 1;
        assert(next.segs[last] == segment(
            m.col as int,
            clipped_end(line, m),
            highlight_kind(base_ix, active_ix, k - 1),
        ));
        assert forall|j: int|
            #![trigger ms[j]]
            0 <= j < k implies exists|i: int|
                0 <= i < next.segs.len() && #[trigger] next.segs[i] == segment(
                    ms[j].col as int,
                    clipped_end(line, ms[j]),
                    highlight_kind(base_ix, active_ix, j),
                ) by {
            if j < k - 1 {
                let i = choose|i: int|
                    0 <= i < st.segs.len() && #[trigger] st.segs[i] == segment(
                        ms[j].col as int,
                        clipped_end(line, ms[j]),
                        highlight_kind(base_ix, active_ix, j),
                    );
                assert(next.segs[i] == st.segs[i]);
            } else {
                assert(next.segs[last] == segment(
                    ms[j].col as int,
                    clipped_end(line, ms[j]),
                    highlight_kind(base_ix, active_ix, j),
                ));
            }
        }
    }
}

/// Law: when every match of a line is eligible (starts inside the line,
/// ends on character boundaries, and does not overlap the next), each match
/// gets a span of its own, from its column to its end cut at the end of
/// the line, painted active exactly when its overall index is `active_ix`.
pub proof fn lemma_every_eligible_match_highlighted(
    line: Seq<u8>,
    ms: Seq<Match>,
    base_ix: int,
    active_ix: Option<usize>,
)
    requires
        all_eligible(line, ms),
    ensures
        forall|k: int|
            #![trigger ms[k]]
            0 <= k < ms.len() ==> exists|i: int|
                0 <= i < spec_line_segments(line, ms, base_ix, active_ix).len()
                    && #[trigger] spec_line_segments(line, ms, base_ix, active_ix)[i] == segment(
                    ms[k].col as int,
                    clipped_end(line, ms[k]),
                    highlight_kind(base_ix, active_ix, k),
                ),
{
    lemma_walk_eligible(line, ms, base_ix, active_ix, ms.len() as int);
    let st = seg_walk(line, ms, base_ix, active_ix, ms.len() as int);
    let segs = spec_line_segments(line, ms, base_ix, active_ix);
    assert forall|k: int|
        #![trigger ms[k]]
        0 <= k < ms.len() implies exists|i: int|
            0 <= i < segs.len() && #[trigger] segs[i] == segment(
                ms[k].col as int,
                clipped_end(line, ms[k]),
                highlight_kind(base_ix, active_ix, k),
            ) by {
        let i = choose|i: int|
            0 <= i < st.segs.len() && #[trigger] st.segs[i] == segment(
                ms[k].col as int,
                clipped_end(line, ms[k]),
                highlight_kind(base_ix, active_ix, k),
            );
        assert(segs[i] == st.segs[i]);
    }
}

/// Law: at most one span of a line is painted active.
pub proof fn lemma_at_most_one_active(
    line: Seq<u8>,
    ms: Seq<Match>,
    base_ix: int,
    active_ix: Option<usize>,
)
    requires
        line.len() <= usize::MAX,
        forall|i: int| 0 <= i < ms.len() ==> #[trigger] ms[i].col + ms[i].len <= usize::MAX,
        0 <= base_ix,
        base_ix + ms.len() <= usize::MAX,
    ensures
        forall|i: int, j: int|
            0 <= i < spec_line_segments(line, ms, base_ix, active_ix).len() && 0 <= j
                < spec_line_segments(line, ms, base_ix, active_ix).len() && (
            #[trigger] spec_line_segments(line, ms, base_ix, active_ix)[i]).kind
                == SegmentKind::Active && (#[trigger] spec_line_segments(
                line,
                ms,
                base_ix,
                active_ix,
            )[j]).kind == SegmentKind::Active ==> i == j,
{
    let src = lemma_highlights_come_from_matches(line, ms, base_ix, active_ix);
    let segs = spec_line_segments(line, ms, base_ix, active_ix);
    assert forall|i: int, j: int|
        0 <= i < segs.len() && 0 <= j < segs.len() && (#[trigger] segs[i]).kind
            == SegmentKind::Active && (#[trigger] segs[j]).kind == SegmentKind::Active implies i
        == j by {
        if i < j {
            assert(src[i] < src[j]);
        } else if j < i {
            assert(src[j] < src[i]);
        }
    }
}

/// Once stopped, the walk stays where it stopped.
proof fn lemma_walk_stays_stopped(
    line: Seq<u8>,
    ms: Seq<Match>,
    base_ix: int,
    active_ix: Option<usize>,
    k: int,
    n: int,
)
    requires
        0 <= k <= n,
        seg_walk(line, ms, base_ix, active_ix, k).stopped,
    ensures
        seg_walk(line, ms, base_ix, active_ix, n) == seg_walk(line, ms, base_ix, active_ix, k),
    decreases n - k,
{
    if k < n {
        lemma_walk_stays_stopped(line, ms, base_ix, active_ix, k, n - 1);
    }
}

} // verus!
