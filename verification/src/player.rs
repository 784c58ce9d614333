//! The cursor over a finished trace.
//!
//! A player scrubs through a trace that an engine run has fully built: one
//! step forward or backward at a time, saturating at the two ends, with an
//! independent scroll offset over the completed permutations that precede
//! the cursor.  These four operations and the two read-outs are the whole
//! of the player; nothing else moves it.

use crate::step::{Step, StepView};
use crate::trace::{
    count_done_before, done_snapshots_before, lemma_count_done_monotone, lemma_done_counts, Trace,
};
use vstd::prelude::*;

verus! {

/// The player's cursor state: a position into the trace and a scroll
/// offset over the `Done` steps before it.  The trace outlives the player
/// and is handed to every operation; the player owns none of it.
pub struct Player {
    /// The current position; always below the trace's length.
    pub index: usize,
    /// The scroll offset; always within [`max_done_offset`].
    pub done_scroll_offset: usize,
}

/// The largest value the scroll offset may take at `index`: the count of
/// `Done` steps before `index` keeps the offset inside `[0, count)`, and
/// zero is the floor where there are none.
pub open spec fn max_done_offset(t: Seq<StepView>, index: int) -> int {
    if count_done_before(t, index) == 0 {
        0
    } else {
        count_done_before(t, index) - 1
    }
}

/// The player's invariant over its trace.
pub open spec fn player_wf(p: Player, t: Seq<StepView>) -> bool {
    &&& (p.index as int) < t.len()
    &&& p.done_scroll_offset as int <= max_done_offset(t, p.index as int)
}

/// Where `advance` moves the cursor: one step forward, saturating at the
/// last position.
pub open spec fn advance_index(index: int, tlen: int) -> int {
    if index + 1 < tlen {
        index + 1
    } else {
        tlen - 1
    }
}

/// Where `retreat` moves the cursor: one step backward, saturating at zero.
pub open spec fn retreat_index(index: int) -> int {
    if index > 0 {
        index - 1
    } else {
        0
    }
}

/// The player after `advance`: the cursor moves, the offset stays.
pub open spec fn advance_spec(p: Player, t: Seq<StepView>) -> Player {
    Player {
        index: advance_index(p.index as int, t.len() as int) as usize,
        done_scroll_offset: p.done_scroll_offset,
    }
}

/// The player after `retreat`: the cursor moves back and the offset is
/// clamped to the bound at the new position.
pub open spec fn retreat_spec(p: Player, t: Seq<StepView>) -> Player {
    let ni = retreat_index(p.index as int);
    let m = max_done_offset(t, ni);
    Player {
        index: ni as usize,
        done_scroll_offset: if p.done_scroll_offset as int <= m {
            p.done_scroll_offset
        } else {
            m as usize
        },
    }
}

/// The player after `scroll_done_forward`: the offset grows by one,
/// saturating at the bound.
pub open spec fn scroll_forward_spec(p: Player, t: Seq<StepView>) -> Player {
    let m = max_done_offset(t, p.index as int);
    Player {
        index: p.index,
        done_scroll_offset: if p.done_scroll_offset as int + 1 <= m {
            (p.done_scroll_offset + 1) as usize
        } else {
            m as usize
        },
    }
}

/// The player after `scroll_done_backward`: the offset shrinks by one,
/// saturating at zero.
pub open spec fn scroll_backward_spec(p: Player) -> Player {
    Player {
        index: p.index,
        done_scroll_offset: if p.done_scroll_offset > 0 {
            (p.done_scroll_offset - 1) as usize
        } else {
            0
        },
    }
}

impl Player {
    /// A player over a finished, non-empty trace starts at the first step
    /// with the scroll at zero.
    pub fn new(trace: &Trace) -> (r: Player)
        requires
            trace@.len() > 0,
        ensures
            r.index == 0,
            r.done_scroll_offset == 0,
            player_wf(r, trace@),
    {
        Player { index: 0, done_scroll_offset: 0 }
    }

    /// One step forward, saturating at the last step; repeated calls at the
    /// end are no error and no movement.
    pub fn advance(&mut self, trace: &Trace)
        requires
            player_wf(*old(self), trace@),
        ensures
            *final(self) == advance_spec(*old(self), trace@),
            player_wf(*final(self), trace@),
    {
        if self.index < trace.len() - 1 {
            self.index = self.index + 1;
        }
        proof {
            lemma_done_counts(trace@, old(self).index as int);
            lemma_done_counts(trace@, self.index as int);
            lemma_count_done_monotone(trace@, old(self).index as int, self.index as int);
        }
    }

    /// One step backward, saturating at zero; the scroll offset is clamped
    /// to its bound at the new position.
    pub fn retreat(&mut self, trace: &Trace)
        requires
            player_wf(*old(self), trace@),
        ensures
            *final(self) == retreat_spec(*old(self), trace@),
            player_wf(*final(self), trace@),
    {
        if self.index > 0 {
            self.index = self.index - 1;
        }
        let cnt = trace.count_done_upto(self.index);
        let m = if cnt == 0 {
            0
        } else {
            cnt - 1
        };
        proof {
            lemma_done_counts(trace@, self.index as int);
        }
        if self.done_scroll_offset > m {
            self.done_scroll_offset = m;
        }
    }

    /// Scrolls the completed-results view one entry further back in
    /// history, saturating at its bound.
    pub fn scroll_done_forward(&mut self, trace: &Trace)
        requires
            player_wf(*old(self), trace@),
        ensures
            *final(self) == scroll_forward_spec(*old(self), trace@),
            player_wf(*final(self), trace@),
    {
        let cnt = trace.count_done_upto(self.index);
        let m = if cnt == 0 {
            0
        } else {
            cnt - 1
        };
        proof {
            lemma_done_counts(trace@, self.index as int);
        }
        if self.done_scroll_offset < m {
            self.done_scroll_offset = self.done_scroll_offset + 1;
        } else {
            self.done_scroll_offset = m;
        }
    }

    /// Scrolls the completed-results view one entry forward, saturating at
    /// zero.
    pub fn scroll_done_backward(&mut self, trace: &Trace)
        requires
            player_wf(*old(self), trace@),
        ensures
            *final(self) == scroll_backward_spec(*old(self)),
            player_wf(*final(self), trace@),
    {
        if self.done_scroll_offset > 0 {
            self.done_scroll_offset = self.done_scroll_offset - 1;
        }
    }

    /// The step under the cursor.
    pub fn current<'a>(&self, trace: &'a Trace) -> (r: &'a Step)
        requires
            player_wf(*self, trace@),
        ensures
            r@ == trace@[self.index as int],
    {
        match trace.get(self.index) {
            Ok(s) => s,
            Err(_) => unreached(),
        }
    }

    /// The snapshots of every completed permutation recorded before the
    /// cursor, in emission order, recomputed from the trace at each call.
    /// The caller windows them with the scroll offset and a viewport size.
    pub fn completed_before_cursor(&self, trace: &Trace) -> (r: Vec<Vec<char>>)
        requires
            player_wf(*self, trace@),
        ensures
            r.deep_view() == done_snapshots_before(trace@, self.index as int),
            r@.len() == count_done_before(trace@, self.index as int),
    {
        proof {
            lemma_done_counts(trace@, self.index as int);
        }
        trace.done_snapshots_upto(self.index)
    }
}

/// A forward step followed by a backward step from any interior position
/// returns the player to exactly its prior state, scroll offset included.
pub proof fn lemma_advance_retreat_inverse(p: Player, t: Seq<StepView>)
    requires
        player_wf(p, t),
        t.len() <= usize::MAX,
        p.index as int + 1 < t.len(),
    ensures
        retreat_spec(advance_spec(p, t), t) == p,
{
}

/// The scroll offset never exceeds the count of completed permutations
/// before the cursor.
pub proof fn lemma_offset_within_done_count(p: Player, t: Seq<StepView>)
    requires
        player_wf(p, t),
    ensures
        p.done_scroll_offset as int <= count_done_before(t, p.index as int),
{
    lemma_done_counts(t, p.index as int);
}

/// Scrolling backward from zero stays at zero.
pub proof fn lemma_scroll_backward_floor(p: Player)
    requires
        p.done_scroll_offset == 0,
    ensures
        scroll_backward_spec(p) == p,
{
}

/// Scrolling forward at the bound stays at the bound.
pub proof fn lemma_scroll_forward_ceiling(p: Player, t: Seq<StepView>)
    requires
        player_wf(p, t),
        p.done_scroll_offset as int == max_done_offset(t, p.index as int),
    ensures
        scroll_forward_spec(p, t) == p,
{
    lemma_done_counts(t, p.index as int);
}

} // verus!
