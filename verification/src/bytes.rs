//! Byte-level helpers: record alignment and marker search.

use vstd::prelude::*;

verus! {

/// Size in bytes of one fixed record of a transport file.
pub const RECORD_SIZE: usize = 80;

/// The smallest multiple of the record size that is not below `index`.
pub open spec fn align_up(index: int) -> int {
    if index % 80 == 0 {
        index
    } else {
        index + (80 - index % 80)
    }
}

/// Rounds a byte offset up to the next record boundary; an offset already
/// on a boundary is returned unchanged.
pub fn align_to_record_boundary(index: usize) -> (aligned: usize)
    requires
        align_up(index as int) <= usize::MAX,
    ensures
        aligned == align_up(index as int),
{
    let remainder: usize = index % RECORD_SIZE;
    if remainder == 0 {
        index
    } else {
        index + (RECORD_SIZE - remainder)
    }
}

/// The aligned offset after `index`, as long as it does not pass `limit`.
pub fn align_within(index: usize, limit: usize) -> (aligned: Option<usize>)
    ensures
        align_up(index as int) <= limit ==> aligned == Some(align_up(index as int) as usize),
        align_up(index as int) > limit ==> aligned is None,
{
    if index > limit {
        return None;
    }
    let remainder: usize = index % RECORD_SIZE;
    if remainder == 0 || RECORD_SIZE - remainder <= limit - index {
        Some(align_to_record_boundary(index))
    } else {
        None
    }
}

/// `pattern` occurs in `data` at offset `at`.
pub open spec fn matches_at(data: Seq<u8>, pattern: Seq<u8>, at: int) -> bool {
    &&& 0 <= at
    &&& at + pattern.len() <= data.len()
    &&& data.subrange(at, at + pattern.len()) == pattern
}

/// `pattern` occurs in `data` at offset `at` and at no smaller offset.
pub open spec fn is_first_match(data: Seq<u8>, pattern: Seq<u8>, at: int) -> bool {
    &&& matches_at(data, pattern, at)
    &&& forall|earlier: int| 0 <= earlier < at ==> !matches_at(data, pattern, earlier)
}

/// The offset of the first occurrence of `pattern` in `data`, if there is one.
pub open spec fn first_match(data: Seq<u8>, pattern: Seq<u8>) -> Option<int> {
    if exists|at: int| matches_at(data, pattern, at) {
        Some(choose|at: int| is_first_match(data, pattern, at))
    } else {
        None
    }
}

/// A first occurrence is the only one: it is what `first_match` names.
pub proof fn lemma_first_match_is(data: Seq<u8>, pattern: Seq<u8>, at: int)
    requires
        is_first_match(data, pattern, at),
    ensures
        first_match(data, pattern) == Some(at),
{
    let chosen = choose|c: int| is_first_match(data, pattern, c);
    assert(is_first_match(data, pattern, chosen));
    if chosen < at {
        assert(!matches_at(data, pattern, chosen));
    }
    if at < chosen {
        assert(!matches_at(data, pattern, at));
    }
}

/// What `first_match` returns is a first occurrence, and it returns one
/// whenever the pattern occurs.
pub proof fn lemma_first_match_found(data: Seq<u8>, pattern: Seq<u8>)
    ensures
        match first_match(data, pattern) {
            Some(at) => is_first_match(data, pattern, at),
            None => forall|at: int| !matches_at(data, pattern, at),
        },
{
    if exists|at: int| matches_at(data, pattern, at) {
        let witness = choose|at: int| matches_at(data, pattern, at);
        lemma_least_match(data, pattern, witness);
    }
}

/// Below any occurrence there is a first one.
proof fn lemma_least_match(data: Seq<u8>, pattern: Seq<u8>, at: int)
    requires
        matches_at(data, pattern, at),
    ensures
        exists|least: int| is_first_match(data, pattern, least),
    decreases at,
{
    if exists|earlier: int| 0 <= earlier < at && matches_at(data, pattern, earlier) {
        let earlier = choose|earlier: int| 0 <= earlier < at && matches_at(data, pattern, earlier);
        lemma_least_match(data, pattern, earlier);
    } else {
        assert(is_first_match(data, pattern, at));
    }
}

/// Whether `pattern` occurs in `data` at offset `at`.
fn occurs_at(data: &[u8], pattern: &[u8], at: usize) -> (occurs: bool)
    requires
        at + pattern@.len() <= data@.len(),
    ensures
        occurs == matches_at(data@, pattern@, at as int),
{
    let width: usize = pattern.len();
    let size: usize = data.len();
    let mut k: usize = 0;
    while k < width
        invariant
            k <= width,
            width == pattern@.len(),
            size == data@.len(),
            at + width <= size,
            forall|t: int| 0 <= t < k ==> data@[at + t] == pattern@[t],
        decreases width - k,
    {
        if data[at + k] != pattern[k] {
            assert(data@.subrange(at as int, at + pattern@.len())[k as int] == data@[at + k]);
            return false;
        }
        k += 1;
    }
    assert(data@.subrange(at as int, at + pattern@.len()) =~= pattern@);
    true
}

/// Searches `data` for the first occurrence of `pattern`, by plain
/// comparison of bytes. The pattern must not be empty.
pub fn find_bytes(data: &[u8], pattern: &[u8]) -> (found: Option<usize>)
    requires
        pattern@.len() > 0,
    ensures
        match found {
            Some(at) => first_match(data@, pattern@) == Some(at as int),
            None => first_match(data@, pattern@) is None,
        },
{
    if pattern.len() > data.len() {
        return None;
    }
    let last: usize = data.len() - pattern.len();
    let mut at: usize = 0;
    while at <= last
        invariant
            last + pattern@.len() == data@.len(),
            pattern@.len() > 0,
            data@.len() <= usize::MAX,
            at <= last + 1,
            forall|earlier: int| 0 <= earlier < at ==> !matches_at(data@, pattern@, earlier),
        decreases last + 1 - at,
    {
        if occurs_at(data, pattern, at) {
            proof {
                lemma_first_match_is(data@, pattern@, at as int);
            }
            return Some(at);
        }
        at += 1;
    }
    None
}

} // verus!
