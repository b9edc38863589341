//! Substring search: what an occurrence is, which one comes first, and the
//! facts that make a search over a growing buffer agree with a search over
//! the whole input.
use memchr::memmem::Finder;
use vstd::prelude::*;

verus! {

/// `needle` stands in `hay` at position `at`.
pub open spec fn occurs_at(hay: Seq<u8>, needle: Seq<u8>, at: int) -> bool {
    &&& 0 <= at
    &&& at + needle.len() <= hay.len()
    &&& hay.subrange(at, at + needle.len()) =~= needle
}

/// `at` is the leftmost position at which `needle` stands in `hay`.
pub open spec fn first_occurrence(hay: Seq<u8>, needle: Seq<u8>, at: int) -> bool {
    &&& occurs_at(hay, needle, at)
    &&& forall|j: int| 0 <= j < at ==> !#[trigger] occurs_at(hay, needle, j)
}

/// `needle` does not stand anywhere in `hay`.
pub open spec fn absent(hay: Seq<u8>, needle: Seq<u8>) -> bool {
    forall|j: int| !#[trigger] occurs_at(hay, needle, j)
}

/// The leftmost position of `needle` in `hay`, if there is one.
pub open spec fn find_first(hay: Seq<u8>, needle: Seq<u8>) -> Option<int> {
    if absent(hay, needle) {
        None
    } else {
        Some(choose|at: int| first_occurrence(hay, needle, at))
    }
}

/// The position of the first occurrence of `needle` in `hay`.
///
/// Calls `memchr::memmem::Finder::find` on a `Finder` built for `needle`,
/// which reports the index of the first occurrence, and `None` when the needle
/// does not occur. That it does so is taken from the documentation of `memchr`.
#[verifier::external_body]
pub(crate) fn find(hay: &[u8], needle: &[u8]) -> (found: Option<usize>)
    ensures
        match found {
            Some(at) => first_occurrence(hay@, needle@, at as int),
            None => absent(hay@, needle@),
        },
{
    Finder::new(needle).find(hay)
}

/// Below any occurrence, or at it, there is a first one.
proof fn lemma_first_below(hay: Seq<u8>, needle: Seq<u8>, at: int)
    requires
        occurs_at(hay, needle, at),
    ensures
        exists|i: int| i <= at && #[trigger] first_occurrence(hay, needle, i),
    decreases at,
{
    if exists|j: int| 0 <= j < at && #[trigger] occurs_at(hay, needle, j) {
        let j = choose|j: int| 0 <= j < at && #[trigger] occurs_at(hay, needle, j);
        lemma_first_below(hay, needle, j);
    } else {
        assert(first_occurrence(hay, needle, at));
    }
}

/// `find_first` is the first occurrence, and is `None` only when there is none.
pub proof fn lemma_find_first(hay: Seq<u8>, needle: Seq<u8>)
    ensures
        match find_first(hay, needle) {
            Some(at) => first_occurrence(hay, needle, at),
            None => absent(hay, needle),
        },
{
    if !absent(hay, needle) {
        let j = choose|j: int| #[trigger] occurs_at(hay, needle, j);
        lemma_first_below(hay, needle, j);
    }
}

/// There is only one first occurrence.
pub proof fn lemma_find_first_is(hay: Seq<u8>, needle: Seq<u8>, at: int)
    requires
        first_occurrence(hay, needle, at),
    ensures
        find_first(hay, needle) == Some(at),
{
    lemma_find_first(hay, needle);
    let other = find_first(hay, needle)->0;
    assert(occurs_at(hay, needle, at) && occurs_at(hay, needle, other));
}

/// Bytes added at the end move no occurrence, and add none that ends before them.
pub proof fn lemma_occurs_extend(hay: Seq<u8>, more: Seq<u8>, needle: Seq<u8>, at: int)
    ensures
        at + needle.len() <= hay.len() ==> (occurs_at(hay, needle, at) <==> occurs_at(
            hay + more,
            needle,
            at,
        )),
{
    if 0 <= at && at + needle.len() <= hay.len() {
        assert((hay + more).subrange(at, at + needle.len()) =~= hay.subrange(
            at,
            at + needle.len(),
        ));
    }
}

/// An occurrence found in a prefix of the input is the first one of the input.
pub proof fn lemma_find_first_extend(hay: Seq<u8>, more: Seq<u8>, needle: Seq<u8>)
    requires
        find_first(hay, needle) is Some,
    ensures
        find_first(hay + more, needle) == find_first(hay, needle),
{
    lemma_find_first(hay, needle);
    let at = find_first(hay, needle)->0;
    lemma_occurs_extend(hay, more, needle, at);
    assert forall|j: int| 0 <= j < at implies !#[trigger] occurs_at(hay + more, needle, j) by {
        lemma_occurs_extend(hay, more, needle, j);
    }
    lemma_find_first_is(hay + more, needle, at);
}

/// An occurrence behind the first `skipped` bytes, seen from either side.
pub proof fn lemma_occurs_skip(hay: Seq<u8>, needle: Seq<u8>, skipped: int, at: int)
    requires
        0 <= skipped <= hay.len(),
        0 <= at,
    ensures
        occurs_at(hay.skip(skipped), needle, at) <==> occurs_at(hay, needle, skipped + at),
{
    if at + needle.len() <= hay.len() - skipped {
        assert(hay.skip(skipped).subrange(at, at + needle.len()) =~= hay.subrange(
            skipped + at,
            skipped + at + needle.len(),
        ));
    }
}

/// No occurrence of `needle` in `hay` starts before `scanned`.
pub open spec fn clear_before(hay: Seq<u8>, needle: Seq<u8>, scanned: int) -> bool {
    forall|j: int| 0 <= j < scanned ==> !#[trigger] occurs_at(hay, needle, j)
}

/// Where nothing starts in the scanned prefix, searching behind it is
/// searching the whole.
pub proof fn lemma_find_first_skip(hay: Seq<u8>, needle: Seq<u8>, scanned: int)
    requires
        0 <= scanned <= hay.len(),
        clear_before(hay, needle, scanned),
    ensures
        find_first(hay, needle) == match find_first(hay.skip(scanned), needle) {
            Some(at) => Some(scanned + at),
            None => None,
        },
{
    let rest = hay.skip(scanned);
    lemma_find_first(rest, needle);
    match find_first(rest, needle) {
        Some(at) => {
            lemma_occurs_skip(hay, needle, scanned, at);
            assert forall|j: int| 0 <= j < scanned + at implies !#[trigger] occurs_at(
                hay,
                needle,
                j,
            ) by {
                if scanned <= j {
                    lemma_occurs_skip(hay, needle, scanned, j - scanned);
                }
            }
            lemma_find_first_is(hay, needle, scanned + at);
        },
        None => {
            assert forall|j: int| !#[trigger] occurs_at(hay, needle, j) by {
                if scanned <= j {
                    lemma_occurs_skip(hay, needle, scanned, j - scanned);
                }
            }
        },
    }
}

/// A search that came back empty clears every start whose window was complete.
pub proof fn lemma_clear_extend(hay: Seq<u8>, more: Seq<u8>, needle: Seq<u8>, scanned: int)
    requires
        clear_before(hay, needle, scanned),
        scanned + needle.len() <= hay.len() + 1,
    ensures
        clear_before(hay + more, needle, scanned),
{
    assert forall|j: int| 0 <= j < scanned implies !#[trigger] occurs_at(hay + more, needle, j) by {
        lemma_occurs_extend(hay, more, needle, j);
    }
}

} // verus!
