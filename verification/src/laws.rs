//! What the operations are for, stated over their inputs and results: which items
//! a listing holds, in what order, and what a selection leads to.

use vstd::prelude::*;

pub mod annotation;
pub mod catalog;
pub mod completion;
pub mod details;
pub mod documents;
pub mod failures;
pub mod hierarchy;
pub mod listings;
pub mod objects;
pub mod paths;
pub mod printing;
pub mod reading;
pub mod references;
pub mod results;
pub mod selection;

verus! {

/// Whether `at` holds the positions below `n` that are wanted: all of them, each once
/// and in ascending order, and no others.
pub open spec fn are_positions(at: Seq<int>, n: int, wanted: spec_fn(int) -> bool) -> bool {
    &&& forall|j: int| 0 <= j < at.len() ==> 0 <= #[trigger] at[j] < n && wanted(at[j])
    &&& forall|j: int, k: int| 0 <= j < k < at.len() ==> #[trigger] at[j] < #[trigger] at[k]
    &&& forall|i: int| 0 <= i < n && #[trigger] wanted(i) ==> at.contains(i)
}

/// One more position that is not wanted changes nothing.
pub proof fn lemma_positions_skip(at: Seq<int>, n: int, wanted: spec_fn(int) -> bool)
    requires
        are_positions(at, n, wanted),
        !wanted(n),
    ensures
        are_positions(at, n + 1, wanted),
{
}

/// One more position that is wanted comes last.
pub proof fn lemma_positions_push(at: Seq<int>, n: int, wanted: spec_fn(int) -> bool)
    requires
        n >= 0,
        are_positions(at, n, wanted),
        wanted(n),
    ensures
        are_positions(at.push(n), n + 1, wanted),
{
    let more = at.push(n);
    assert forall|i: int| 0 <= i < n + 1 && #[trigger] wanted(i) implies more.contains(i) by {
        if i < n {
            assert(at.contains(i));
            let j = choose|j: int| 0 <= j < at.len() && at[j] == i;
            assert(more[j] == i);
        } else {
            assert(more[at.len() as int] == i);
        }
    }
}

} // verus!
