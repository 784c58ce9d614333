//! The chat client's recency-ordered recipient list.
//!
//! Every recipient carries a record of the lines exchanged and the time of
//! their last activity.  The list bumps a recipient's recency on use and
//! lets a selection move through recipients from most to least recent,
//! wrapping past either end.

use vstd::prelude::*;

verus! {

/// One recipient's conversation: the last-activity time, and the lines
/// exchanged, each flagged true when the other side wrote it.
pub struct Record {
    time_stamp: u32,
    data: Vec<(bool, String)>,
}

/// The mathematical value of a [`Record`].
pub ghost struct RecordView {
    pub time_stamp: u32,
    pub data: Seq<(bool, Seq<char>)>,
}

impl View for Record {
    type V = RecordView;

    closed spec fn view(&self) -> RecordView {
        RecordView {
            time_stamp: self.time_stamp,
            data: self.data@.map_values(|p: (bool, String)| (p.0, p.1@)),
        }
    }
}

impl Record {
    /// A fresh record stamped with `time_stamp`.
    pub fn new(time_stamp: u32) -> (r: Record)
        ensures
            r@.time_stamp == time_stamp,
            r@.data == Seq::<(bool, Seq<char>)>::empty(),
    {
        let r = Record { time_stamp, data: vec![] };
        proof {
            assert(r@.data =~= Seq::<(bool, Seq<char>)>::empty());
        }
        r
    }

    /// A line the other side wrote.
    pub fn push(&mut self, data: String)
        ensures
            final(self)@.time_stamp == old(self)@.time_stamp,
            final(self)@.data == old(self)@.data.push((true, data@)),
    {
        let ghost pre = self@.data;
        self.data.push((true, data));
        proof {
            assert(self@.data =~= pre.push((true, self.data@.last().1@)));
        }
    }

    /// A line this side wrote.
    pub fn push_self(&mut self, data: String)
        ensures
            final(self)@.time_stamp == old(self)@.time_stamp,
            final(self)@.data == old(self)@.data.push((false, data@)),
    {
        let ghost pre = self@.data;
        self.data.push((false, data));
        proof {
            assert(self@.data =~= pre.push((false, self.data@.last().1@)));
        }
    }

    /// The record's last-activity time.
    pub fn stamp(&self) -> (r: u32)
        ensures
            r == self@.time_stamp,
    {
        self.time_stamp
    }

    /// Restamps the record, keeping its lines.
    fn restamp(&mut self, ts: u32)
        ensures
            final(self)@.time_stamp == ts,
            final(self)@.data == old(self)@.data,
    {
        self.time_stamp = ts;
    }

    /// The lines exchanged, oldest first.
    pub fn lines(&self) -> (r: &Vec<(bool, String)>)
        ensures
            r@.map_values(|p: (bool, String)| (p.0, p.1@)) == self@.data,
    {
        &self.data
    }
}

/// The mathematical value of a [`LazyList`]: the running clock, the
/// recency index (activity time, recipient id) in ascending time order,
/// and the records keyed by recipient id.
pub ghost struct LazyListView {
    pub time_stamp: u32,
    pub rank: Seq<(u32, u32)>,
    pub by_id: Seq<(u32, RecordView)>,
}

/// The recency index is strictly ascending by time.
pub open spec fn rank_sorted(rank: Seq<(u32, u32)>) -> bool {
    forall|p: int, q: int|
        0 <= p < q < rank.len() ==> (#[trigger] rank[p]).0 < (#[trigger] rank[q]).0
}

/// At most one record per recipient id.
pub open spec fn ids_unique(s: Seq<(u32, RecordView)>) -> bool {
    forall|p: int, q: int| 0 <= p < q < s.len() ==> (#[trigger] s[p]).0 != (#[trigger] s[q]).0
}

/// Some record belongs to `id`.
pub open spec fn has_id(s: Seq<(u32, RecordView)>, id: u32) -> bool {
    exists|j: int| 0 <= j < s.len() && (#[trigger] s[j]).0 == id
}

/// The record of `id`; a blank record where there is none.
pub open spec fn rec_of(s: Seq<(u32, RecordView)>, id: u32) -> RecordView
    decreases s.len(),
{
    if s.len() == 0 {
        RecordView { time_stamp: 0, data: Seq::empty() }
    } else if s[0].0 == id {
        s[0].1
    } else {
        rec_of(s.drop_first(), id)
    }
}

/// The recency entry timed `ts` taken out (there is at most one).
pub open spec fn remove_key(rank: Seq<(u32, u32)>, ts: u32) -> Seq<(u32, u32)>
    decreases rank.len(),
{
    if rank.len() == 0 {
        Seq::empty()
    } else if rank[0].0 == ts {
        rank.drop_first()
    } else {
        seq![rank[0]] + remove_key(rank.drop_first(), ts)
    }
}

/// The latest recency entry strictly older than `ts`.
pub open spec fn last_below(rank: Seq<(u32, u32)>, ts: u32) -> Option<(u32, u32)>
    decreases rank.len(),
{
    if rank.len() == 0 {
        None
    } else if rank.last().0 < ts {
        Some(rank.last())
    } else {
        last_below(rank.drop_last(), ts)
    }
}

/// The earliest recency entry strictly newer than `ts`.
pub open spec fn first_above(rank: Seq<(u32, u32)>, ts: u32) -> Option<(u32, u32)>
    decreases rank.len(),
{
    if rank.len() == 0 {
        None
    } else if rank.first().0 > ts {
        Some(rank.first())
    } else {
        first_above(rank.drop_first(), ts)
    }
}

/// Where the selection moves stepping down the recency order from `ts`:
/// the next older recipient, wrapping to the most recent one, and the
/// placeholder id zero where the index is empty.
pub open spec fn next_spec(rank: Seq<(u32, u32)>, ts: u32) -> u32 {
    match last_below(rank, ts) {
        Some(p) => p.1,
        None => if rank.len() > 0 {
            rank.last().1
        } else {
            0
        },
    }
}

/// Where the selection moves stepping up the recency order from `ts`:
/// the next newer recipient, wrapping to the least recent one.
pub open spec fn previous_spec(rank: Seq<(u32, u32)>, ts: u32) -> u32 {
    match first_above(rank, ts) {
        Some(p) => p.1,
        None => if rank.len() > 0 {
            rank.first().1
        } else {
            0
        },
    }
}

/// The list's invariant.  Beside the orders and bounds, the recency index
/// and the records agree: every index entry names a known recipient whose
/// record is stamped with exactly that entry's time.
pub open spec fn list_wf(l: LazyListView) -> bool {
    &&& rank_sorted(l.rank)
    &&& ids_unique(l.by_id)
    &&& forall|k: int| 0 <= k < l.rank.len() ==> (#[trigger] l.rank[k]).0 <= l.time_stamp
    &&& forall|k: int|
        0 <= k < l.rank.len() ==> has_id(l.by_id, (#[trigger] l.rank[k]).1) && rec_of(
            l.by_id,
            l.rank[k].1,
        ).time_stamp == l.rank[k].0
}

/// A record found first at position `j` is the record [`rec_of`] gives.
proof fn lemma_rec_of_at(s: Seq<(u32, RecordView)>, id: u32, j: int)
    requires
        0 <= j < s.len(),
        s[j].0 == id,
        forall|k: int| 0 <= k < j ==> (#[trigger] s[k]).0 != id,
    ensures
        rec_of(s, id) == s[j].1,
    decreases j,
{
    if j > 0 {
        lemma_rec_of_at(s.drop_first(), id, j - 1);
    }
}

/// Removing the entry found first at position `k` is [`remove_key`].
proof fn lemma_remove_key_at(rank: Seq<(u32, u32)>, ts: u32, k: int)
    requires
        0 <= k < rank.len(),
        rank[k].0 == ts,
        forall|p: int| 0 <= p < k ==> (#[trigger] rank[p]).0 != ts,
    ensures
        remove_key(rank, ts) == rank.remove(k),
    decreases k,
{
    if k == 0 {
        assert(remove_key(rank, ts) =~= rank.remove(0));
    } else {
        lemma_remove_key_at(rank.drop_first(), ts, k - 1);
        assert(rank.drop_first().remove(k - 1) =~= rank.remove(k).drop_first());
        assert(remove_key(rank, ts) =~= rank.remove(k));
    }
}

/// With no entry timed `ts` there is nothing to remove.
proof fn lemma_remove_key_absent(rank: Seq<(u32, u32)>, ts: u32)
    requires
        forall|p: int| 0 <= p < rank.len() ==> (#[trigger] rank[p]).0 != ts,
    ensures
        remove_key(rank, ts) == rank,
    decreases rank.len(),
{
    if rank.len() > 0 {
        lemma_remove_key_absent(rank.drop_first(), ts);
        assert(remove_key(rank, ts) =~= rank);
    }
}

/// What survives [`remove_key`] keeps its order, came from the index, and
/// no longer carries the removed time.
proof fn lemma_remove_key_props(rank: Seq<(u32, u32)>, ts: u32)
    requires
        rank_sorted(rank),
    ensures
        rank_sorted(remove_key(rank, ts)),
        forall|j: int|
            0 <= j < remove_key(rank, ts).len() ==> exists|i: int|
                0 <= i < rank.len() && (#[trigger] remove_key(rank, ts)[j]) == rank[i],
        forall|j: int|
            0 <= j < remove_key(rank, ts).len() ==> (#[trigger] remove_key(rank, ts)[j]).0 != ts,
    decreases rank.len(),
{
    if rank.len() == 0 {
    } else if rank[0].0 == ts {
        assert forall|j: int|
            0 <= j < remove_key(rank, ts).len() implies exists|i: int|
            0 <= i < rank.len() && (#[trigger] remove_key(rank, ts)[j]) == rank[i] by {
            assert(remove_key(rank, ts)[j] == rank[j + 1]);
        }
        assert forall|j: int|
            0 <= j < remove_key(rank, ts).len() implies (#[trigger] remove_key(rank, ts)[j]).0
            != ts by {
            assert(remove_key(rank, ts)[j] == rank[j + 1]);
            assert(rank[0].0 < rank[j + 1].0);
        }
    } else {
        let rest = rank.drop_first();
        lemma_remove_key_props(rest, ts);
        let pruned = remove_key(rank, ts);
        assert(pruned == seq![rank[0]] + remove_key(rest, ts));
        assert forall|j: int|
            0 <= j < pruned.len() implies exists|i: int|
            0 <= i < rank.len() && (#[trigger] pruned[j]) == rank[i] by {
            if j == 0 {
                assert(pruned[j] == rank[0]);
            } else {
                assert(pruned[j] == remove_key(rest, ts)[j - 1]);
                let i = choose|i: int|
                    0 <= i < rest.len() && remove_key(rest, ts)[j - 1] == rest[i];
                assert(pruned[j] == rank[i + 1]);
            }
        }
        assert forall|j: int| 0 <= j < pruned.len() implies (#[trigger] pruned[j]).0 != ts by {
            if j > 0 {
                assert(pruned[j] == remove_key(rest, ts)[j - 1]);
            }
        }
        assert forall|p: int, q: int|
            0 <= p < q < pruned.len() implies (#[trigger] pruned[p]).0 < (
        #[trigger] pruned[q]).0 by {
            if p == 0 {
                assert(pruned[q] == remove_key(rest, ts)[q - 1]);
                let i = choose|i: int|
                    0 <= i < rest.len() && remove_key(rest, ts)[q - 1] == rest[i];
                assert(pruned[q] == rank[i + 1]);
                assert(rank[0].0 < rank[i + 1].0);
            } else {
                assert(pruned[p] == remove_key(rest, ts)[p - 1]);
                assert(pruned[q] == remove_key(rest, ts)[q - 1]);
            }
        }
    }
}

/// With the ids unchanged position by position and every stamp rewritten
/// as stated (`id0`'s to `new_ts`, the others kept), each recipient keeps
/// its place: who is known and what their record's stamp is follow.
proof fn lemma_rec_of_restamped(
    s1: Seq<(u32, RecordView)>,
    s2: Seq<(u32, RecordView)>,
    id0: u32,
    new_ts: u32,
    i: u32,
)
    requires
        s1.len() == s2.len(),
        forall|k: int| 0 <= k < s1.len() ==> (#[trigger] s2[k]).0 == s1[k].0,
        forall|k: int|
            0 <= k < s1.len() && s1[k].0 != id0 ==> (#[trigger] s2[k]).1.time_stamp
                == s1[k].1.time_stamp,
        forall|k: int|
            0 <= k < s1.len() && s1[k].0 == id0 ==> (#[trigger] s2[k]).1.time_stamp == new_ts,
    ensures
        has_id(s2, i) == has_id(s1, i),
        i != id0 && has_id(s1, i) ==> rec_of(s2, i).time_stamp == rec_of(s1, i).time_stamp,
        i == id0 && has_id(s1, i) ==> rec_of(s2, i).time_stamp == new_ts,
    decreases s1.len(),
{
    if has_id(s1, i) {
        let j = choose|j: int| 0 <= j < s1.len() && (#[trigger] s1[j]).0 == i;
        assert(s2[j].0 == i);
        assert(has_id(s2, i));
    }
    if has_id(s2, i) {
        let j = choose|j: int| 0 <= j < s2.len() && (#[trigger] s2[j]).0 == i;
        assert(s1[j].0 == i);
        assert(has_id(s1, i));
    }
    if s1.len() > 0 && has_id(s1, i) {
        if s1[0].0 == i {
        } else {
            let r1 = s1.drop_first();
            let r2 = s2.drop_first();
            assert forall|k: int| 0 <= k < r1.len() implies (#[trigger] r2[k]).0 == r1[k].0 by {
                assert(r2[k] == s2[k + 1]);
                assert(r1[k] == s1[k + 1]);
            }
            assert forall|k: int|
                0 <= k < r1.len() && r1[k].0 != id0 implies (#[trigger] r2[k]).1.time_stamp
                == r1[k].1.time_stamp by {
                assert(r2[k] == s2[k + 1]);
                assert(r1[k] == s1[k + 1]);
            }
            assert forall|k: int|
                0 <= k < r1.len() && r1[k].0 == id0 implies (#[trigger] r2[k]).1.time_stamp
                == new_ts by {
                assert(r2[k] == s2[k + 1]);
                assert(r1[k] == s1[k + 1]);
            }
            assert(has_id(r1, i)) by {
                let j = choose|j: int| 0 <= j < s1.len() && (#[trigger] s1[j]).0 == i;
                assert(r1[j - 1].0 == i);
            }
            lemma_rec_of_restamped(r1, r2, id0, new_ts, i);
        }
    }
}

/// Appending a record leaves every known recipient's record in place.
proof fn lemma_rec_of_push_known(s: Seq<(u32, RecordView)>, p: (u32, RecordView), i: u32)
    requires
        has_id(s, i),
    ensures
        has_id(s.push(p), i),
        rec_of(s.push(p), i) == rec_of(s, i),
    decreases s.len(),
{
    let j = choose|j: int| 0 <= j < s.len() && (#[trigger] s[j]).0 == i;
    assert(s.push(p)[j].0 == i);
    assert(has_id(s.push(p), i));
    if s[0].0 == i {
        assert(s.push(p)[0] == s[0]);
        assert(s.push(p).drop_first() =~= s.drop_first().push(p));
    } else {
        assert(s.push(p).drop_first() =~= s.drop_first().push(p));
        assert(has_id(s.drop_first(), i)) by {
            assert(s.drop_first()[j - 1].0 == i);
        }
        lemma_rec_of_push_known(s.drop_first(), p, i);
        assert(s.push(p)[0] == s[0]);
    }
}

/// Appending a record for a new recipient makes it that recipient's.
proof fn lemma_rec_of_push_new(s: Seq<(u32, RecordView)>, p: (u32, RecordView))
    requires
        !has_id(s, p.0),
    ensures
        has_id(s.push(p), p.0),
        rec_of(s.push(p), p.0) == p.1,
    decreases s.len(),
{
    assert(s.push(p)[s.len() as int] == p);
    assert(has_id(s.push(p), p.0));
    if s.len() == 0 {
        assert(s.push(p)[0] == p);
    } else {
        assert(s[0].0 != p.0) by {
            if s[0].0 == p.0 {
                assert(has_id(s, p.0));
            }
        }
        assert(s.push(p)[0] == s[0]);
        assert(s.push(p).drop_first() =~= s.drop_first().push(p));
        assert(!has_id(s.drop_first(), p.0)) by {
            if has_id(s.drop_first(), p.0) {
                let j = choose|j: int|
                    0 <= j < s.drop_first().len() && (#[trigger] s.drop_first()[j]).0 == p.0;
                assert(s[j + 1].0 == p.0);
            }
        }
        lemma_rec_of_push_new(s.drop_first(), p);
    }
}

/// In a strictly ascending index, the entry just before the one timed `ts`
/// is the latest entry strictly older than `ts`.
proof fn lemma_last_below_at(rank: Seq<(u32, u32)>, ts: u32, k: int)
    requires
        rank_sorted(rank),
        1 <= k < rank.len(),
        rank[k].0 == ts,
    ensures
        last_below(rank, ts) == Some(rank[k - 1]),
    decreases rank.len(),
{
    if k == rank.len() - 1 {
        assert(rank.drop_last().last() == rank[k - 1]);
        assert(rank[k - 1].0 < ts);
        assert(last_below(rank.drop_last(), ts) == Some(rank[k - 1]));
    } else {
        assert(rank.last().0 > ts);
        assert forall|p: int, q: int|
            0 <= p < q < rank.drop_last().len() implies (#[trigger] rank.drop_last()[p]).0 < (
        #[trigger] rank.drop_last()[q]).0 by {
            assert(rank.drop_last()[p] == rank[p]);
            assert(rank.drop_last()[q] == rank[q]);
        }
        assert(rank.drop_last()[k] == rank[k]);
        lemma_last_below_at(rank.drop_last(), ts, k);
        assert(rank.drop_last()[k - 1] == rank[k - 1]);
    }
}

/// In a strictly ascending index, the entry just after the one timed `ts`
/// is the earliest entry strictly newer than `ts`.
proof fn lemma_first_above_at(rank: Seq<(u32, u32)>, ts: u32, m: int)
    requires
        rank_sorted(rank),
        0 <= m < rank.len() - 1,
        rank[m].0 == ts,
    ensures
        first_above(rank, ts) == Some(rank[m + 1]),
    decreases rank.len(),
{
    if m == 0 {
        assert(rank.drop_first().first() == rank[1]);
        assert(rank[1].0 > ts);
        assert(first_above(rank.drop_first(), ts) == Some(rank[1]));
    } else {
        assert(rank.first().0 < ts);
        assert forall|p: int, q: int|
            0 <= p < q < rank.drop_first().len() implies (#[trigger] rank.drop_first()[p]).0 < (
        #[trigger] rank.drop_first()[q]).0 by {
            assert(rank.drop_first()[p] == rank[p + 1]);
            assert(rank.drop_first()[q] == rank[q + 1]);
        }
        assert(rank.drop_first()[m - 1] == rank[m]);
        lemma_first_above_at(rank.drop_first(), ts, m - 1);
        assert(rank.drop_first()[m] == rank[m + 1]);
    }
}

/// Stepping down the recency order and then back up returns to the same
/// recipient: away from the two wrap-around ends, `previous` inverts
/// `next`.  The recipient's last-activity time stands at position `k` of
/// the index, not at its oldest end.
pub proof fn lemma_next_previous_inverse(l: LazyListView, id: u32, k: int)
    requires
        list_wf(l),
        has_id(l.by_id, id),
        1 <= k < l.rank.len(),
        l.rank[k] == (rec_of(l.by_id, id).time_stamp, id),
    ensures
        has_id(l.by_id, next_spec(l.rank, rec_of(l.by_id, id).time_stamp)),
        previous_spec(
            l.rank,
            rec_of(l.by_id, next_spec(l.rank, rec_of(l.by_id, id).time_stamp)).time_stamp,
        ) == id,
{
    let ts = rec_of(l.by_id, id).time_stamp;
    assert(l.rank[k].0 == ts);
    lemma_last_below_at(l.rank, ts, k);
    let id2 = l.rank[k - 1].1;
    assert(next_spec(l.rank, ts) == id2);
    assert(has_id(l.by_id, id2) && rec_of(l.by_id, id2).time_stamp == l.rank[k - 1].0);
    lemma_first_above_at(l.rank, l.rank[k - 1].0, k - 1);
    assert(previous_spec(l.rank, l.rank[k - 1].0) == l.rank[k].1);
}

/// The recency-ordered recipient list.
pub struct LazyList {
    time_stamp: u32,
    rank: Vec<(u32, u32)>,
    by_id: Vec<(u32, Record)>,
}

impl View for LazyList {
    type V = LazyListView;

    closed spec fn view(&self) -> LazyListView {
        LazyListView {
            time_stamp: self.time_stamp,
            rank: self.rank@,
            by_id: self.by_id@.map_values(|e: (u32, Record)| (e.0, e.1@)),
        }
    }
}

impl LazyList {
    /// A list that knows only the placeholder recipient zero, not yet
    /// ranked.
    pub fn new() -> (r: LazyList)
        ensures
            r@.time_stamp == 0,
            r@.rank == Seq::<(u32, u32)>::empty(),
            r@.by_id.len() == 1,
            r@.by_id[0] == (0u32, RecordView {
                time_stamp: 0,
                data: Seq::<(bool, Seq<char>)>::empty(),
            }),
            list_wf(r@),
    {
        let mut by_id: Vec<(u32, Record)> = Vec::new();
        by_id.push((0, Record::new(0)));
        LazyList { time_stamp: 0, rank: Vec::new(), by_id }
    }

    /// The position of `id` among the records, if it is known.
    #[verifier::loop_isolation(false)]
    fn find(&self, id: u32) -> (r: Option<usize>)
        ensures
            match r {
                Some(j) => (j as int) < self@.by_id.len() && self@.by_id[j as int].0 == id
                    && forall|k: int| 0 <= k < j ==> (#[trigger] self@.by_id[k]).0 != id,
                None => !has_id(self@.by_id, id),
            },
    {
        let mut j: usize = 0;
        while j < self.by_id.len()
            invariant
                j <= self.by_id@.len(),
                forall|k: int| 0 <= k < j ==> (#[trigger] self@.by_id[k]).0 != id,
            decreases self.by_id@.len() - j,
        {
            if self.by_id[j].0 == id {
                return Some(j);
            }
            j += 1;
        }
        None
    }

    /// The record of `id`, if it is known.
    pub fn get(&self, id: u32) -> (r: Option<&Record>)
        ensures
            has_id(self@.by_id, id) ==> (r matches Some(rec) && rec@ == rec_of(self@.by_id, id)),
            !has_id(self@.by_id, id) ==> r is None,
    {
        match self.find(id) {
            Some(j) => {
                proof {
                    lemma_rec_of_at(self@.by_id, id, j as int);
                }
                Some(&self.by_id[j].1)
            },
            None => None,
        }
    }

    /// Marks `id` active now: bumps the clock, restamps (or creates) its
    /// record, and moves it to the newest end of the recency index.
    #[verifier::loop_isolation(false)]
    pub fn update(&mut self, id: u32)
        requires
            list_wf(old(self)@),
            old(self)@.time_stamp < u32::MAX,
        ensures
            list_wf(final(self)@),
            has_id(final(self)@.by_id, id),
            final(self)@.time_stamp == (old(self)@.time_stamp + 1) as u32,
            has_id(old(self)@.by_id, id) ==> {
                &&& final(self)@.by_id.len() == old(self)@.by_id.len()
                &&& forall|k: int|
                    0 <= k < old(self)@.by_id.len() ==> (#[trigger] final(self)@.by_id[k]).0
                        == old(self)@.by_id[k].0
                &&& forall|k: int|
                    0 <= k < old(self)@.by_id.len() && old(self)@.by_id[k].0 != id
                        ==> (#[trigger] final(self)@.by_id[k]).1 == old(self)@.by_id[k].1
                &&& forall|k: int|
                    0 <= k < old(self)@.by_id.len() && old(self)@.by_id[k].0 == id
                        ==> (#[trigger] final(self)@.by_id[k]).1 == (RecordView {
                        time_stamp: (old(self)@.time_stamp + 1) as u32,
                        data: old(self)@.by_id[k].1.data,
                    })
                &&& final(self)@.rank == remove_key(
                    old(self)@.rank,
                    rec_of(old(self)@.by_id, id).time_stamp,
                ).push(((old(self)@.time_stamp + 1) as u32, id))
            },
            !has_id(old(self)@.by_id, id) ==> {
                &&& final(self)@.by_id == old(self)@.by_id.push(
                    (
                        id,
                        RecordView {
                            time_stamp: (old(self)@.time_stamp + 1) as u32,
                            data: Seq::<(bool, Seq<char>)>::empty(),
                        },
                    ),
                )
                &&& final(self)@.rank == old(self)@.rank.push(((old(self)@.time_stamp + 1) as u32, id))
            },
    {
        self.time_stamp = self.time_stamp + 1;
        let ts = self.time_stamp;
        match self.find(id) {
            Some(j) => {
                proof {
                    lemma_rec_of_at(old(self)@.by_id, id, j as int);
                }
                let (id0, mut rec) = self.by_id.remove(j);
                let old_ts = rec.stamp();
                rec.restamp(ts);
                self.by_id.insert(j, (id0, rec));
                proof {
                    assert(forall|k: int|
                        0 <= k < old(self)@.by_id.len() && k != j ==> self.by_id@[k] == old(
                            self,
                        ).by_id@[k]);
                    assert(forall|k: int|
                        0 <= k < old(self)@.by_id.len() ==> (#[trigger] self@.by_id[k]) == (
                        self.by_id@[k].0,
                        self.by_id@[k].1@,
                    ));
                    assert forall|p: int, q: int|
                        0 <= p < q < self@.by_id.len() implies (#[trigger] self@.by_id[p]).0 != (
                    #[trigger] self@.by_id[q]).0 by {
                        assert(self@.by_id[p].0 == old(self)@.by_id[p].0);
                        assert(self@.by_id[q].0 == old(self)@.by_id[q].0);
                    }
                }
                proof {
                    assert(self@.rank == old(self)@.rank);
                }
                match self.find_rank(old_ts) {
                    Some(k) => {
                        self.rank.remove(k);
                        proof {
                            lemma_remove_key_at(old(self)@.rank, old_ts, k as int);
                        }
                    },
                    None => {
                        proof {
                            lemma_remove_key_absent(old(self)@.rank, old_ts);
                        }
                    },
                }
                let ghost pruned = self.rank@;
                self.rank.push((ts, id));
                proof {
                    assert(pruned == remove_key(old(self)@.rank, old_ts));
                    lemma_remove_key_props(old(self)@.rank, old_ts);
                    assert forall|p: int, q: int|
                        0 <= p < q < self@.rank.len() implies (#[trigger] self@.rank[p]).0 < (
                    #[trigger] self@.rank[q]).0 by {
                        if q == self@.rank.len() - 1 {
                            let i = choose|i: int|
                                0 <= i < old(self)@.rank.len() && pruned[p] == old(self)@.rank[i];
                            assert(pruned[p].0 <= old(self)@.time_stamp);
                        } else {
                            assert(pruned[p].0 < pruned[q].0);
                        }
                    }
                    assert forall|k: int|
                        0 <= k < self@.rank.len() implies (#[trigger] self@.rank[k]).0 <= ts by {
                        if k < self@.rank.len() - 1 {
                            let i = choose|i: int|
                                0 <= i < old(self)@.rank.len() && pruned[k] == old(self)@.rank[i];
                            assert(pruned[k].0 <= old(self)@.time_stamp);
                        }
                    }
                    assert(self@.by_id.len() == old(self)@.by_id.len());
                    assert(self.by_id@[j as int].0 == id);
                    assert forall|k: int|
                        0 <= k < old(self)@.by_id.len() implies (#[trigger] self@.by_id[k]).0
                        == old(self)@.by_id[k].0 by {
                        assert(self@.by_id[k] == (self.by_id@[k].0, self.by_id@[k].1@));
                        if k != j {
                            assert(self.by_id@[k] == old(self).by_id@[k]);
                        }
                    }
                    assert forall|k: int|
                        0 <= k < old(self)@.by_id.len() && old(self)@.by_id[k].0 != id implies (
                    #[trigger] self@.by_id[k]).1.time_stamp == old(self)@.by_id[k].1.time_stamp by {
                        assert(self@.by_id[k] == (self.by_id@[k].0, self.by_id@[k].1@));
                        assert(k != j);
                        assert(self.by_id@[k] == old(self).by_id@[k]);
                    }
                    assert forall|k: int|
                        0 <= k < old(self)@.by_id.len() && old(self)@.by_id[k].0 == id implies (
                    #[trigger] self@.by_id[k]).1.time_stamp == ts by {
                        if k != j {
                            assert(old(self)@.by_id[k].0 != old(self)@.by_id[j as int].0);
                        }
                        assert(self@.by_id[k] == (self.by_id@[k].0, self.by_id@[k].1@));
                    }
                    assert(old_ts == rec_of(old(self)@.by_id, id).time_stamp);
                    assert forall|k: int|
                        0 <= k < self@.rank.len() implies has_id(
                        self@.by_id,
                        (#[trigger] self@.rank[k]).1,
                    ) && rec_of(self@.by_id, self@.rank[k].1).time_stamp == self@.rank[k].0 by {
                        if k == self@.rank.len() - 1 {
                            assert(self@.rank[k] == (ts, id));
                            lemma_rec_of_restamped(old(self)@.by_id, self@.by_id, id, ts, id);
                        } else {
                            let e = pruned[k];
                            assert(self@.rank[k] == e);
                            let i0 = choose|i0: int|
                                0 <= i0 < old(self)@.rank.len() && pruned[k] == old(self)@.rank[i0];
                            assert(e == old(self)@.rank[i0]);
                            assert(e.0 != old_ts);
                            assert(has_id(old(self)@.by_id, e.1) && rec_of(
                                old(self)@.by_id,
                                e.1,
                            ).time_stamp == e.0);
                            assert(e.1 != id) by {
                                if e.1 == id {
                                    assert(rec_of(old(self)@.by_id, id).time_stamp == e.0);
                                }
                            }
                            lemma_rec_of_restamped(old(self)@.by_id, self@.by_id, id, ts, e.1);
                        }
                    }
                }
            },
            None => {
                self.by_id.push((id, Record::new(ts)));
                self.rank.push((ts, id));
                proof {
                    assert(self@.by_id =~= old(self)@.by_id.push(
                        (
                            id,
                            RecordView {
                                time_stamp: ts,
                                data: Seq::<(bool, Seq<char>)>::empty(),
                            },
                        ),
                    ));
                    assert forall|p: int, q: int|
                        0 <= p < q < self@.by_id.len() implies (#[trigger] self@.by_id[p]).0 != (
                    #[trigger] self@.by_id[q]).0 by {
                        if q == self@.by_id.len() - 1 {
                            assert(self@.by_id[p] == old(self)@.by_id[p]);
                        }
                    }
                    assert forall|p: int, q: int|
                        0 <= p < q < self@.rank.len() implies (#[trigger] self@.rank[p]).0 < (
                    #[trigger] self@.rank[q]).0 by {
                        if q == self@.rank.len() - 1 {
                            assert(self@.rank[p] == old(self)@.rank[p]);
                            assert(old(self)@.rank[p].0 <= old(self)@.time_stamp);
                        }
                    }
                    assert forall|k: int|
                        0 <= k < self@.rank.len() implies (#[trigger] self@.rank[k]).0 <= ts by {
                        if k < self@.rank.len() - 1 {
                            assert(self@.rank[k] == old(self)@.rank[k]);
                        }
                    }
                    assert forall|k: int|
                        0 <= k < self@.rank.len() implies has_id(
                        self@.by_id,
                        (#[trigger] self@.rank[k]).1,
                    ) && rec_of(self@.by_id, self@.rank[k].1).time_stamp == self@.rank[k].0 by {
                        let p = (
                            id,
                            RecordView { time_stamp: ts, data: Seq::<(bool, Seq<char>)>::empty() },
                        );
                        assert(self@.by_id == old(self)@.by_id.push(p));
                        if k == self@.rank.len() - 1 {
                            assert(self@.rank[k] == (ts, id));
                            lemma_rec_of_push_new(old(self)@.by_id, p);
                        } else {
                            assert(self@.rank[k] == old(self)@.rank[k]);
                            assert(has_id(old(self)@.by_id, old(self)@.rank[k].1));
                            lemma_rec_of_push_known(old(self)@.by_id, p, self@.rank[k].1);
                        }
                    }
                }
            },
        }
        proof {
            assert forall|p: int, q: int|
                0 <= p < q < self@.by_id.len() implies (#[trigger] self@.by_id[p]).0 != (
            #[trigger] self@.by_id[q]).0 by {
                if has_id(old(self)@.by_id, id) {
                    assert(self@.by_id[p].0 == old(self)@.by_id[p].0);
                    assert(self@.by_id[q].0 == old(self)@.by_id[q].0);
                } else if q == self@.by_id.len() - 1 {
                    assert(self@.by_id[p] == old(self)@.by_id[p]);
                    assert(old(self)@.by_id[p].0 != id);
                } else {
                    assert(self@.by_id[p] == old(self)@.by_id[p]);
                    assert(self@.by_id[q] == old(self)@.by_id[q]);
                }
            }
            assert(has_id(self@.by_id, id)) by {
                if has_id(old(self)@.by_id, id) {
                    let j = choose|j: int|
                        0 <= j < old(self)@.by_id.len() && (#[trigger] old(self)@.by_id[j]).0
                            == id;
                    assert(self@.by_id[j].0 == id);
                } else {
                    assert(self@.by_id.last().0 == id);
                }
            }
        }
    }

    /// Appends a line to the record of `id`, which must be known; the
    /// recency index and the clock are untouched.
    #[verifier::loop_isolation(false)]
    pub fn record_push(&mut self, id: u32, from_other: bool, line: String)
        requires
            list_wf(old(self)@),
            has_id(old(self)@.by_id, id),
        ensures
            list_wf(final(self)@),
            final(self)@.time_stamp == old(self)@.time_stamp,
            final(self)@.rank == old(self)@.rank,
            final(self)@.by_id.len() == old(self)@.by_id.len(),
            forall|k: int|
                0 <= k < old(self)@.by_id.len() ==> (#[trigger] final(self)@.by_id[k]).0 == old(
                    self,
                )@.by_id[k].0,
            forall|k: int|
                0 <= k < old(self)@.by_id.len() && old(self)@.by_id[k].0 != id ==> (
                #[trigger] final(self)@.by_id[k]).1 == old(self)@.by_id[k].1,
            forall|k: int|
                0 <= k < old(self)@.by_id.len() && old(self)@.by_id[k].0 == id ==> (
                #[trigger] final(self)@.by_id[k]).1 == (RecordView {
                    time_stamp: old(self)@.by_id[k].1.time_stamp,
                    data: old(self)@.by_id[k].1.data.push((from_other, line@)),
                }),
    {
        let j = match self.find(id) {
            Some(j) => j,
            None => unreached(),
        };
        proof {
            lemma_rec_of_at(old(self)@.by_id, id, j as int);
        }
        let (id0, mut rec) = self.by_id.remove(j);
        if from_other {
            rec.push(line);
        } else {
            rec.push_self(line);
        }
        self.by_id.insert(j, (id0, rec));
        proof {
            assert(forall|k: int|
                0 <= k < old(self)@.by_id.len() && k != j ==> self.by_id@[k] == old(
                    self,
                ).by_id@[k]);
            assert(forall|k: int|
                0 <= k < old(self)@.by_id.len() ==> (#[trigger] self@.by_id[k]) == (
                self.by_id@[k].0,
                self.by_id@[k].1@,
            ));
            assert forall|p: int, q: int|
                0 <= p < q < self@.by_id.len() implies (#[trigger] self@.by_id[p]).0 != (
            #[trigger] self@.by_id[q]).0 by {
                assert(self@.by_id[p].0 == old(self)@.by_id[p].0);
                assert(self@.by_id[q].0 == old(self)@.by_id[q].0);
            }
            let ots = rec_of(old(self)@.by_id, id).time_stamp;
            assert(self@.by_id.len() == old(self)@.by_id.len());
            assert forall|k: int|
                0 <= k < old(self)@.by_id.len() && old(self)@.by_id[k].0 != id implies (
            #[trigger] self@.by_id[k]).1.time_stamp == old(self)@.by_id[k].1.time_stamp by {
                assert(k != j);
                assert(self.by_id@[k] == old(self).by_id@[k]);
            }
            assert forall|k: int|
                0 <= k < old(self)@.by_id.len() && old(self)@.by_id[k].0 == id implies (
            #[trigger] self@.by_id[k]).1.time_stamp == ots by {
                if k != j {
                    assert(old(self)@.by_id[k].0 != old(self)@.by_id[j as int].0);
                }
            }
            assert forall|k: int|
                0 <= k < self@.rank.len() implies has_id(
                self@.by_id,
                (#[trigger] self@.rank[k]).1,
            ) && rec_of(self@.by_id, self@.rank[k].1).time_stamp == self@.rank[k].0 by {
                assert(self@.rank[k] == old(self)@.rank[k]);
                assert(has_id(old(self)@.by_id, old(self)@.rank[k].1));
                lemma_rec_of_restamped(old(self)@.by_id, self@.by_id, id, ots, self@.rank[k].1);
            }
        }
    }

    /// The position of the recency entry timed `ts`, if any.
    #[verifier::loop_isolation(false)]
    fn find_rank(&self, ts: u32) -> (r: Option<usize>)
        ensures
            match r {
                Some(k) => (k as int) < self@.rank.len() && self@.rank[k as int].0 == ts && forall|
                    p: int,
                |
                    0 <= p < k ==> (#[trigger] self@.rank[p]).0 != ts,
                None => forall|p: int|
                    0 <= p < self@.rank.len() ==> (#[trigger] self@.rank[p]).0 != ts,
            },
    {
        let mut k: usize = 0;
        while k < self.rank.len()
            invariant
                k <= self.rank@.len(),
                forall|p: int| 0 <= p < k ==> (#[trigger] self@.rank[p]).0 != ts,
            decreases self.rank@.len() - k,
        {
            if self.rank[k].0 == ts {
                return Some(k);
            }
            k += 1;
        }
        None
    }

    /// The recipient one step older in the recency order than `id`'s last
    /// activity, wrapping to the most recent.
    #[verifier::loop_isolation(false)]
    pub fn next(&self, id: u32) -> (r: u32)
        requires
            has_id(self@.by_id, id),
        ensures
            r == next_spec(self@.rank, rec_of(self@.by_id, id).time_stamp),
    {
        let j = match self.find(id) {
            Some(j) => j,
            None => unreached(),
        };
        proof {
            lemma_rec_of_at(self@.by_id, id, j as int);
        }
        let ts = self.by_id[j].1.stamp();
        let mut k: usize = self.rank.len();
        proof {
            assert(self@.rank.subrange(0, k as int) =~= self@.rank);
        }
        while k > 0
            invariant
                k <= self.rank@.len(),
                last_below(self@.rank, ts) == last_below(self@.rank.subrange(0, k as int), ts),
            decreases k,
        {
            let ghost sub = self@.rank.subrange(0, k as int);
            proof {
                assert(sub.last() == self@.rank[k as int - 1]);
            }
            if self.rank[k - 1].0 < ts {
                return self.rank[k - 1].1;
            }
            k -= 1;
            proof {
                assert(sub.drop_last() =~= self@.rank.subrange(0, k as int));
            }
        }
        proof {
            assert(self@.rank.subrange(0, 0) =~= Seq::<(u32, u32)>::empty());
        }
        if self.rank.len() > 0 {
            self.rank[self.rank.len() - 1].1
        } else {
            0
        }
    }

    /// The recipient one step newer in the recency order than `id`'s last
    /// activity, wrapping to the least recent.
    #[verifier::loop_isolation(false)]
    pub fn previous(&self, id: u32) -> (r: u32)
        requires
            has_id(self@.by_id, id),
        ensures
            r == previous_spec(self@.rank, rec_of(self@.by_id, id).time_stamp),
    {
        let j = match self.find(id) {
            Some(j) => j,
            None => unreached(),
        };
        proof {
            lemma_rec_of_at(self@.by_id, id, j as int);
        }
        let ts = self.by_id[j].1.stamp();
        let len = self.rank.len();
        let mut k: usize = 0;
        proof {
            assert(self@.rank.subrange(0, len as int) =~= self@.rank);
        }
        while k < len
            invariant
                k <= len,
                len == self.rank@.len(),
                first_above(self@.rank, ts) == first_above(
                    self@.rank.subrange(k as int, len as int),
                    ts,
                ),
            decreases len - k,
        {
            let ghost sub = self@.rank.subrange(k as int, len as int);
            proof {
                assert(sub.first() == self@.rank[k as int]);
            }
            if self.rank[k].0 > ts {
                return self.rank[k].1;
            }
            k += 1;
            proof {
                assert(sub.drop_first() =~= self@.rank.subrange(k as int, len as int));
            }
        }
        proof {
            assert(self@.rank.subrange(len as int, len as int) =~= Seq::<(u32, u32)>::empty());
        }
        if len > 0 {
            self.rank[0].1
        } else {
            0
        }
    }
}

} // verus!
