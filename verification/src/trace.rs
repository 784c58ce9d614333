//! The append-only, ordered log of recorded steps.

use crate::step::{State, Step, StepView};
use crate::CoreError;
use vstd::prelude::*;

verus! {

/// The complete record of one engine run: an ordered sequence of steps,
/// append-only, insertion order equal to emission order.  It is fully built
/// before any player reads it and is never reordered or deduplicated.
pub struct Trace {
    steps: Vec<Step>,
}

impl View for Trace {
    type V = Seq<StepView>;

    closed spec fn view(&self) -> Seq<StepView> {
        self.steps@.map_values(|s: Step| s@)
    }
}

/// How many steps among the first `idx` of `t` carry the `Done` tag.
pub open spec fn count_done_before(t: Seq<StepView>, idx: int) -> int
    decreases idx,
{
    if idx <= 0 {
        0
    } else {
        count_done_before(t, idx - 1) + if t[idx - 1].tag == State::Done {
            1int
        } else {
            0int
        }
    }
}

/// The snapshots of the `Done`-tagged steps among the first `idx` of `t`,
/// in emission order.
pub open spec fn done_snapshots_before(t: Seq<StepView>, idx: int) -> Seq<Seq<char>>
    decreases idx,
{
    if idx <= 0 {
        Seq::empty()
    } else if t[idx - 1].tag == State::Done {
        done_snapshots_before(t, idx - 1).push(t[idx - 1].snapshot)
    } else {
        done_snapshots_before(t, idx - 1)
    }
}

/// There are as many recorded `Done` snapshots before `idx` as the count says.
pub proof fn lemma_done_counts(t: Seq<StepView>, idx: int)
    ensures
        done_snapshots_before(t, idx).len() == count_done_before(t, idx),
        count_done_before(t, idx) >= 0,
    decreases idx,
{
    if idx > 0 {
        lemma_done_counts(t, idx - 1);
    }
}

/// The count of `Done` steps before a position never decreases as the
/// position moves forward.
pub proof fn lemma_count_done_monotone(t: Seq<StepView>, i: int, j: int)
    requires
        i <= j,
    ensures
        count_done_before(t, i) <= count_done_before(t, j),
    decreases j - i,
{
    if i < j {
        lemma_count_done_monotone(t, i, j - 1);
    }
}

impl Trace {
    /// A trace starts empty; one engine run fills it.
    pub fn new() -> (r: Trace)
        ensures
            r@ == Seq::<StepView>::empty(),
    {
        Trace { steps: Vec::new() }
    }

    /// Appends one step; the order of the earlier steps is untouched.
    pub fn append(&mut self, step: Step)
        ensures
            final(self)@ == old(self)@.push(step@),
    {
        let ghost pre = self.steps@;
        self.steps.push(step);
        proof {
            assert(self.steps@.map_values(|s: Step| s@) =~= pre.map_values(|s: Step| s@).push(
                self.steps@.last()@,
            ));
        }
    }

    /// The number of recorded steps.
    pub fn len(&self) -> (r: usize)
        ensures
            r == self@.len(),
    {
        self.steps.len()
    }

    /// Counts the `Done`-tagged steps among the first `index`.
    pub fn count_done_upto(&self, index: usize) -> (r: usize)
        requires
            index <= self@.len(),
        ensures
            r == count_done_before(self@, index as int),
            r <= index,
    {
        let mut r: usize = 0;
        let mut k: usize = 0;
        while k < index
            invariant
                k <= index <= self@.len(),
                self@.len() == self.steps@.len(),
                r <= k,
                r == count_done_before(self@, k as int),
            decreases index - k,
        {
            proof {
                assert(self@[k as int] == self.steps@[k as int]@);
            }
            if self.steps[k].tag == State::Done {
                r += 1;
            }
            k += 1;
        }
        r
    }

    /// The snapshots of the `Done`-tagged steps among the first `index`,
    /// in emission order, each an independent copy.
    pub fn done_snapshots_upto(&self, index: usize) -> (r: Vec<Vec<char>>)
        requires
            index <= self@.len(),
        ensures
            r.deep_view() == done_snapshots_before(self@, index as int),
    {
        let mut r: Vec<Vec<char>> = Vec::new();
        let mut k: usize = 0;
        while k < index
            invariant
                k <= index <= self@.len(),
                self@.len() == self.steps@.len(),
                r.deep_view() == done_snapshots_before(self@, k as int),
            decreases index - k,
        {
            proof {
                assert(self@[k as int] == self.steps@[k as int]@);
            }
            let ghost pre = r.deep_view();
            if self.steps[k].tag == State::Done {
                r.push(crate::step::copy_chars(&self.steps[k].snapshot));
                proof {
                    assert(r.deep_view() =~~= pre.push(self@[k as int].snapshot));
                }
            }
            k += 1;
        }
        r
    }

    /// Random access to a recorded step; `IndexOutOfRange` exactly when
    /// `index` is not below the length.
    pub fn get(&self, index: usize) -> (r: Result<&Step, CoreError>)
        ensures
            index < self@.len() ==> (r matches Ok(s) && s@ == self@[index as int]),
            index >= self@.len() ==> r == Err::<&Step, CoreError>(CoreError::IndexOutOfRange),
    {
        if index < self.steps.len() {
            Ok(&self.steps[index])
        } else {
            Err(CoreError::IndexOutOfRange)
        }
    }
}

} // verus!
