//! Conflict resolution: the policy that reduces the candidates of one path to
//! the one whose bytes reach the output.

use vstd::prelude::*;

use crate::candidate::{default_file_selector, latest, lemma_latest_exists, Index};

verus! {

/// A policy that picks one candidate out of the non-empty list of candidates
/// of a path. It is a function of the list alone.
pub trait FileSelector {
    /// The policy keeps its promise: it accepts every non-empty list, answers
    /// with a candidate of that list, and gives equal lists the same answer.
    spec fn lawful(&self) -> bool;

    /// The candidate that the policy picks from `candidates`.
    spec fn selection(&self, candidates: Seq<Index>) -> Index;

    /// Picks the winner among `candidates`.
    fn select(&self, candidates: &[Index]) -> (r: Index)
        requires
            self.lawful(),
            candidates@.len() > 0,
        ensures
            r == self.selection(candidates@),
            candidates@.contains(r),
    ;

    /// The pick of a lawful policy is one of the candidates it was given.
    proof fn lemma_selection_member(&self, candidates: Seq<Index>)
        requires
            self.lawful(),
            candidates.len() > 0,
        ensures
            candidates.contains(self.selection(candidates)),
    ;
}

/// The built-in policy: the most recently ingested container that holds the
/// path wins.
#[derive(Debug, Clone, Copy)]
pub struct DefaultSelector;

impl FileSelector for DefaultSelector {
    open spec fn lawful(&self) -> bool {
        true
    }

    open spec fn selection(&self, candidates: Seq<Index>) -> Index {
        latest(candidates)
    }

    fn select(&self, candidates: &[Index]) -> (r: Index) {
        default_file_selector(candidates)
    }

    proof fn lemma_selection_member(&self, candidates: Seq<Index>) {
        lemma_latest_exists(candidates);
    }
}

/// Calling `f` on a list that holds exactly `candidates` may return `r`.
pub open spec fn may_return<F: Fn(&[Index]) -> Index>(
    f: F,
    candidates: Seq<Index>,
    r: Index,
) -> bool {
    exists|l: &[Index]| l@ == candidates && #[trigger] call_ensures(f, (l,), r)
}

/// Any function from a list of candidates to a candidate is a policy. It is
/// lawful when it can be called on every non-empty list, returns a candidate
/// of the list it was given, and returns the same candidate for equal lists.
impl<F: Fn(&[Index]) -> Index> FileSelector for F {
    open spec fn lawful(&self) -> bool {
        &&& forall|l: &[Index]| l@.len() > 0 ==> #[trigger] call_requires(*self, (l,))
        &&& forall|l: &[Index], r: Index|
            l@.len() > 0 && #[trigger] call_ensures(*self, (l,), r) ==> l@.contains(r)
        &&& forall|l1: &[Index], l2: &[Index], r1: Index, r2: Index|
            l1@.len() > 0 && l1@ == l2@ && #[trigger] call_ensures(*self, (l1,), r1)
                && #[trigger] call_ensures(*self, (l2,), r2) ==> r1 == r2
    }

    /// The candidate that the function returns for the list; for a list on
    /// which it never returns, the first candidate.
    open spec fn selection(&self, candidates: Seq<Index>) -> Index {
        if exists|r: Index| may_return(*self, candidates, r) {
            choose|r: Index| may_return(*self, candidates, r)
        } else {
            candidates.first()
        }
    }

    fn select(&self, candidates: &[Index]) -> (r: Index) {
        let r = self(candidates);
        proof {
            assert(may_return(*self, candidates@, r));
            let chosen = self.selection(candidates@);
            let l = choose|l: &[Index]| l@ == candidates@ && call_ensures(*self, (l,), chosen);
            assert(call_ensures(*self, (l,), chosen));
        }
        r
    }

    proof fn lemma_selection_member(&self, candidates: Seq<Index>) {
        let chosen = self.selection(candidates);
        if exists|r: Index| may_return(*self, candidates, r) {
            let l = choose|l: &[Index]| l@ == candidates && call_ensures(*self, (l,), chosen);
            assert(call_ensures(*self, (l,), chosen));
        } else {
            assert(candidates[0] == chosen);
        }
    }
}

/// A function is a lawful policy as soon as it can be called on every
/// non-empty list, returns a candidate of the list it was given, and returns
/// the same candidate for equal lists. A caller shows this of its own
/// function before handing it to a merger.
pub proof fn lemma_lawful<F: Fn(&[Index]) -> Index>(f: F)
    requires
        forall|l: &[Index]| l@.len() > 0 ==> #[trigger] call_requires(f, (l,)),
        forall|l: &[Index], r: Index|
            l@.len() > 0 && #[trigger] call_ensures(f, (l,), r) ==> l@.contains(r),
        forall|l1: &[Index], l2: &[Index], r1: Index, r2: Index|
            l1@.len() > 0 && l1@ == l2@ && #[trigger] call_ensures(f, (l1,), r1)
                && #[trigger] call_ensures(f, (l2,), r2) ==> r1 == r2,
    ensures
        f.lawful(),
{
}

} // verus!
