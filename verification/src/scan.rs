//! Byte searches delegated to the `memchr` crate.

use vstd::prelude::*;

use crate::lines::{lemma_next_nl_is, next_nl, NL};

verus! {

/// Calls `memchr::memchr`, which returns the index of the first occurrence of
/// `needle` in `haystack`, or `None` when the byte does not occur.
#[verifier::external_body]
pub(crate) fn find_byte(needle: u8, haystack: &[u8]) -> (r: Option<usize>)
    ensures
        match r {
            Some(i) => {
                &&& i < haystack@.len()
                &&& haystack@[i as int] == needle
                &&& forall|j: int| 0 <= j < i ==> haystack@[j] != needle
            },
            None => forall|j: int| 0 <= j < haystack@.len() ==> haystack@[j] != needle,
        },
{
    memchr::memchr(needle, haystack)
}

/// Calls `memchr::memchr2`, which returns the index of the first byte of
/// `haystack` equal to `needle1` or `needle2`, or `None` when neither occurs.
#[verifier::external_body]
pub(crate) fn find_either_byte(needle1: u8, needle2: u8, haystack: &[u8]) -> (r: Option<usize>)
    ensures
        match r {
            Some(i) => {
                &&& i < haystack@.len()
                &&& (haystack@[i as int] == needle1 || haystack@[i as int] == needle2)
                &&& forall|j: int|
                    0 <= j < i ==> haystack@[j] != needle1 && haystack@[j] != needle2
            },
            None => forall|j: int|
                0 <= j < haystack@.len() ==> haystack@[j] != needle1 && haystack@[j] != needle2,
        },
{
    memchr::memchr2(needle1, needle2, haystack)
}

/// Offsets of `haystack` at or after `from` that hold `needle`, in
/// increasing order.
pub open spec fn byte_positions(haystack: Seq<u8>, needle: u8, from: int) -> Seq<usize>
    decreases haystack.len() - from,
{
    if from < 0 || from >= haystack.len() {
        seq![]
    } else if haystack[from] == needle {
        seq![from as usize] + byte_positions(haystack, needle, from + 1)
    } else {
        byte_positions(haystack, needle, from + 1)
    }
}

/// `byte_positions` lists exactly the offsets holding the byte, in strictly
/// increasing order.
pub proof fn lemma_byte_positions(haystack: Seq<u8>, needle: u8, from: int)
    requires
        0 <= from,
        haystack.len() <= usize::MAX,
    ensures
        ({
            let ps = byte_positions(haystack, needle, from);
            &&& forall|i: int|
                0 <= i < ps.len() ==> from <= #[trigger] ps[i] < haystack.len() && haystack[ps[i] as int]
                    == needle
            &&& forall|i: int, j: int| 0 <= i < j < ps.len() ==> ps[i] < ps[j]
            &&& forall|p: int|
                from <= p < haystack.len() && haystack[p] == needle ==> exists|i: int|
                    0 <= i < ps.len() && ps[i] == p
        }),
    decreases haystack.len() - from,
{
    if from < haystack.len() {
        lemma_byte_positions(haystack, needle, from + 1);
        let rest = byte_positions(haystack, needle, from + 1);
        let ps = byte_positions(haystack, needle, from);
        if haystack[from] == needle {
            assert(ps == seq![from as usize] + rest);
            assert forall|i: int| 0 <= i < ps.len() implies from <= #[trigger] ps[i] < haystack.len()
                && haystack[ps[i] as int] == needle by {
                if i > 0 {
                    assert(ps[i] == rest[i - 1]);
                }
            }
            assert forall|i: int, j: int| 0 <= i < j < ps.len() implies ps[i] < ps[j] by {
                assert(ps[j] == rest[j - 1]);
                if i > 0 {
                    assert(ps[i] == rest[i - 1]);
                }
            }
            assert forall|p: int| from <= p < haystack.len() && haystack[p] == needle implies exists|
                i: int,
            | 0 <= i < ps.len() && ps[i] == p by {
                if p == from {
                    assert(ps[0] == p);
                } else {
                    let j = choose|j: int| 0 <= j < rest.len() && rest[j] == p;
                    assert(ps[j + 1] == p);
                }
            }
        } else {
            assert(ps == rest);
        }
    }
}

/// The iterator type of `memchr::memchr_iter`.
#[verifier::external_type_specification]
#[verifier::external_body]
pub struct ExMemchr<'h>(memchr::Memchr<'h>);

/// Names the offsets a `memchr::Memchr` iterator has yet to yield.
pub uninterp spec fn memchr_pending(it: memchr::Memchr<'_>) -> Seq<usize>;

/// Calls `memchr::memchr_iter`, an iterator over every offset of
/// `haystack` that holds `needle`, in increasing order.
#[verifier::external_body]
pub(crate) fn memchr_iter<'h>(needle: u8, haystack: &'h [u8]) -> (it: memchr::Memchr<'h>)
    ensures
        memchr_pending(it) == byte_positions(haystack@, needle, 0),
{
    memchr::memchr_iter(needle, haystack)
}

/// Calls `Iterator::next` on a `memchr::Memchr`: yields the first pending
/// offset and drops it, or `None` once none is left.
#[verifier::external_body]
pub(crate) fn memchr_next(it: &mut memchr::Memchr<'_>) -> (r: Option<usize>)
    ensures
        memchr_pending(*old(it)).len() == 0 ==> r is None && memchr_pending(*final(it))
            == memchr_pending(*old(it)),
        memchr_pending(*old(it)).len() > 0 ==> r == Some(memchr_pending(*old(it))[0])
            && memchr_pending(*final(it)) == memchr_pending(*old(it)).drop_first(),
{
    it.next()
}

/// Offset of the first newline at or after `pos`, or `data.len()`.
pub fn next_newline(data: &[u8], pos: usize) -> (q: usize)
    requires
        pos <= data@.len(),
    ensures
        q == next_nl(data@, pos as int),
{
    let rest = vstd::slice::slice_subrange(data, pos, data.len());
    let q = match find_byte(NL, rest) {
        Some(n) => pos + n,
        None => data.len(),
    };
    proof {
        assert forall|i: int| pos <= i < q implies data@[i] != NL by {
            assert(rest@[i - pos] == data@[i]);
        }
        if q < data@.len() {
            assert(rest@[q - pos] == data@[q as int]);
        }
        lemma_next_nl_is(data@, pos as int, q as int);
    }
    q
}

} // verus!
