//! A single recorded transition of the enumeration.

use vstd::prelude::*;

verus! {

/// The tag of a recorded step: which transition of the backtracking
/// enumeration it captures.
#[derive(Clone, Copy, Debug, PartialEq, Eq, Structural)]
pub enum State {
    /// The initial, unsorted pool has been loaded.
    Start,
    /// The pool has been sorted and enumeration is about to begin.
    Sorted,
    /// A candidate position has been chosen for a swap.
    Selected,
    /// The swap has been applied; the engine is about to recurse.
    Swapped,
    /// A branch was skipped as a duplicate.  Kept so the tag set is closed;
    /// the canonical engine formulation does not emit it.
    Repeated,
    /// The "leave the element in place" branch is taken.
    NotRepeated,
    /// Returned from a recursive call; a swap is about to be undone.
    Back,
    /// A complete permutation has been reached; the snapshot holds it.
    Done,
}

/// The mathematical value of a [`Step`].
pub ghost struct StepView {
    pub snapshot: Seq<char>,
    pub primary_index: int,
    pub pivot_index: int,
    pub tag: State,
}

/// One immutable record of the trace: a full copy of the working sequence
/// at the moment of emission, the two indices the transition concerns, and
/// its tag.  The snapshot is an independent copy, so later mutation of the
/// working sequence never alters a recorded step.
pub struct Step {
    pub snapshot: Vec<char>,
    /// The position being considered at this transition.
    pub primary_index: usize,
    /// The recursion's currently fixed position.
    pub pivot_index: usize,
    pub tag: State,
}

impl View for Step {
    type V = StepView;

    open spec fn view(&self) -> StepView {
        StepView {
            snapshot: self.snapshot@,
            primary_index: self.primary_index as int,
            pivot_index: self.pivot_index as int,
            tag: self.tag,
        }
    }
}

/// An element-by-element copy of a character sequence; recorded snapshots
/// and read-out snapshots are always independent copies.
pub fn copy_chars(v: &Vec<char>) -> (r: Vec<char>)
    ensures
        r@ == v@,
{
    let mut r: Vec<char> = Vec::new();
    let mut i: usize = 0;
    while i < v.len()
        invariant
            i <= v@.len(),
            r@ == v@.subrange(0, i as int),
        decreases v@.len() - i,
    {
        r.push(v[i]);
        i += 1;
        proof {
            assert(r@ =~= v@.subrange(0, i as int));
        }
    }
    proof {
        assert(r@ =~= v@);
    }
    r
}

impl Step {
    pub fn new(snapshot: Vec<char>, primary_index: usize, pivot_index: usize, tag: State) -> (r:
        Step)
        ensures
            r@ == (StepView {
                snapshot: snapshot@,
                primary_index: primary_index as int,
                pivot_index: pivot_index as int,
                tag,
            }),
    {
        Step { snapshot, primary_index, pivot_index, tag }
    }
}

} // verus!
