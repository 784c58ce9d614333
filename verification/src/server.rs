//! The server's in-memory routing store.
//!
//! One pending-message queue per recipient id.  A message sent to the
//! group id is shared with every other known recipient; any other message
//! is queued for its recipient alone, whose queue is created on first use.
//! Receiving drains a recipient's queue and leaves the entry in place.

use crate::message::{arc_share, Message, MessageView, TmpMessage, TmpMessageView};
use std::sync::Arc;
use vstd::prelude::*;

verus! {

/// The recipient id that fans a message out to every other recipient.
pub const GROUP_ID: u32 = 1;

/// The per-recipient queues, at most one entry per id.
pub struct MessageStore {
    entries: Vec<(u32, TmpMessage)>,
}

impl View for MessageStore {
    type V = Seq<(u32, TmpMessageView)>;

    closed spec fn view(&self) -> Seq<(u32, TmpMessageView)> {
        self.entries@.map_values(|e: (u32, TmpMessage)| (e.0, e.1@))
    }
}

/// At most one queue per recipient id.
pub open spec fn store_wf(s: Seq<(u32, TmpMessageView)>) -> bool {
    forall|p: int, q: int| 0 <= p < q < s.len() ==> (#[trigger] s[p]).0 != (#[trigger] s[q]).0
}

/// Some queue belongs to `id`.
pub open spec fn store_has(s: Seq<(u32, TmpMessageView)>, id: u32) -> bool {
    exists|j: int| 0 <= j < s.len() && (#[trigger] s[j]).0 == id
}

/// An empty queue.
pub open spec fn empty_queue() -> TmpMessageView {
    TmpMessageView {
        group_chat: Seq::<MessageView>::empty(),
        chat: Seq::<MessageView>::empty(),
    }
}

impl MessageStore {
    /// A store with no recipients yet.
    pub fn new() -> (r: MessageStore)
        ensures
            r@ == Seq::<(u32, TmpMessageView)>::empty(),
            store_wf(r@),
    {
        let r = MessageStore { entries: Vec::new() };
        proof {
            assert(r@ =~= Seq::<(u32, TmpMessageView)>::empty());
        }
        r
    }

    /// Routes one message.  Sent to [`GROUP_ID`], it is shared into the
    /// group queue of every recipient but its sender, re-addressed from
    /// the group id; sent to anyone else, it joins that recipient's direct
    /// queue, created on first use.
    #[verifier::loop_isolation(false)]
    pub fn send(&mut self, dst: u32, msg: Message)
        requires
            store_wf(old(self)@),
        ensures
            store_wf(final(self)@),
            dst == GROUP_ID ==> {
                &&& final(self)@.len() == old(self)@.len()
                &&& forall|k: int|
                    0 <= k < old(self)@.len() ==> (#[trigger] final(self)@[k]).0 == old(
                        self,
                    )@[k].0
                &&& forall|k: int|
                    0 <= k < old(self)@.len() && old(self)@[k].0 == msg.id
                        ==> (#[trigger] final(self)@[k]).1 == old(self)@[k].1
                &&& forall|k: int|
                    0 <= k < old(self)@.len() && old(self)@[k].0 != msg.id
                        ==> (#[trigger] final(self)@[k]).1 == (TmpMessageView {
                        group_chat: old(self)@[k].1.group_chat.push(
                            MessageView { id: GROUP_ID, data: msg.data@ },
                        ),
                        chat: old(self)@[k].1.chat,
                    })
            },
            dst != GROUP_ID && store_has(old(self)@, dst) ==> {
                &&& final(self)@.len() == old(self)@.len()
                &&& forall|k: int|
                    0 <= k < old(self)@.len() ==> (#[trigger] final(self)@[k]).0 == old(
                        self,
                    )@[k].0
                &&& forall|k: int|
                    0 <= k < old(self)@.len() && old(self)@[k].0 != dst
                        ==> (#[trigger] final(self)@[k]).1 == old(self)@[k].1
                &&& forall|k: int|
                    0 <= k < old(self)@.len() && old(self)@[k].0 == dst
                        ==> (#[trigger] final(self)@[k]).1 == (TmpMessageView {
                        group_chat: old(self)@[k].1.group_chat,
                        chat: old(self)@[k].1.chat.push(msg@),
                    })
            },
            dst != GROUP_ID && !store_has(old(self)@, dst) ==> final(self)@ == old(self)@.push(
                (
                    dst,
                    TmpMessageView {
                        group_chat: Seq::<MessageView>::empty(),
                        chat: Seq::<MessageView>::empty().push(msg@),
                    },
                ),
            ),
    {
        if dst == GROUP_ID {
            let src = msg.id;
            let shared = Arc::new(Message::new(GROUP_ID, msg.data));
            let mut processed: Vec<(u32, TmpMessage)> = Vec::new();
            proof {
                assert(processed@.map_values(|e: (u32, TmpMessage)| (e.0, e.1@)) =~= Seq::<
                    (u32, TmpMessageView),
                >::empty());
            }
            while self.entries.len() > 0
                invariant
                    processed@.len() + self.entries@.len() == old(self)@.len(),
                    forall|k: int|
                        0 <= k < self.entries@.len() ==> (#[trigger] self.entries@[k])
                            == old(self).entries@[processed@.len() + k],
                    forall|k: int|
                        0 <= k < processed@.len() ==> (#[trigger] processed@[k]).0 == old(
                            self,
                        )@[k].0,
                    forall|k: int|
                        0 <= k < processed@.len() && old(self)@[k].0 == src
                            ==> (#[trigger] processed@[k]).1@ == old(self)@[k].1,
                    forall|k: int|
                        0 <= k < processed@.len() && old(self)@[k].0 != src
                            ==> (#[trigger] processed@[k]).1@ == (TmpMessageView {
                            group_chat: old(self)@[k].1.group_chat.push(
                                MessageView { id: GROUP_ID, data: shared@.data },
                            ),
                            chat: old(self)@[k].1.chat,
                        }),
                decreases self.entries@.len(),
            {
                let ghost done = processed@.len() as int;
                let (id, mut tm) = self.entries.remove(0);
                proof {
                    assert(old(self)@[done] == (id, tm@));
                }
                if id != src {
                    tm.push_group(arc_share(&shared));
                }
                processed.push((id, tm));
            }
            self.entries = processed;
            proof {
                assert(forall|k: int|
                    0 <= k < old(self)@.len() ==> (#[trigger] self@[k]) == (
                    self.entries@[k].0,
                    self.entries@[k].1@,
                ));
            }
        } else {
            let mut j: usize = 0;
            while j < self.entries.len()
                invariant
                    j <= self.entries@.len(),
                    self.entries@ == old(self).entries@,
                    forall|k: int| 0 <= k < j ==> (#[trigger] self.entries@[k]).0 != dst,
                decreases self.entries@.len() - j,
            {
                if self.entries[j].0 == dst {
                    let (id, mut tm) = self.entries.remove(j);
                    tm.push(msg);
                    self.entries.insert(j, (id, tm));
                    proof {
                        assert(old(self)@[j as int] == (id, old(self)@[j as int].1));
                        assert(forall|k: int|
                            0 <= k < old(self)@.len() && k != j ==> self.entries@[k] == old(
                                self,
                            ).entries@[k]);
                        assert(forall|k: int|
                            0 <= k < old(self)@.len() ==> (#[trigger] self@[k]) == (
                            self.entries@[k].0,
                            self.entries@[k].1@,
                        ));
                        assert(store_has(old(self)@, dst));
                        assert forall|p: int, q: int|
                            0 <= p < q < self@.len() implies (#[trigger] self@[p]).0 != (
                        #[trigger] self@[q]).0 by {
                            assert(self@[p].0 == old(self)@[p].0);
                            assert(self@[q].0 == old(self)@[q].0);
                        }
                    }
                    return ;
                }
                j += 1;
            }
            proof {
                assert(!store_has(old(self)@, dst));
            }
            let mut tm = TmpMessage::new();
            tm.push(msg);
            self.entries.push((dst, tm));
            proof {
                assert(self@ =~= old(self)@.push(
                    (
                        dst,
                        TmpMessageView {
                            group_chat: Seq::<MessageView>::empty(),
                            chat: Seq::<MessageView>::empty().push(msg@),
                        },
                    ),
                ));
            }
        }
    }

    /// Hands out everything queued for `dst`, direct messages first, and
    /// leaves its emptied queue in place, created on first use.
    #[verifier::loop_isolation(false)]
    pub fn recv(&mut self, dst: u32) -> (r: Vec<Message>)
        requires
            store_wf(old(self)@),
        ensures
            store_wf(final(self)@),
            store_has(old(self)@, dst) ==> {
                &&& final(self)@.len() == old(self)@.len()
                &&& forall|k: int|
                    0 <= k < old(self)@.len() ==> (#[trigger] final(self)@[k]).0 == old(
                        self,
                    )@[k].0
                &&& forall|k: int|
                    0 <= k < old(self)@.len() && old(self)@[k].0 != dst
                        ==> (#[trigger] final(self)@[k]).1 == old(self)@[k].1
                &&& forall|k: int|
                    0 <= k < old(self)@.len() && old(self)@[k].0 == dst ==> (
                    #[trigger] final(self)@[k]).1 == empty_queue() && crate::message::message_views(
                        r@,
                    ) == old(self)@[k].1.chat + old(self)@[k].1.group_chat
            },
            !store_has(old(self)@, dst) ==> {
                &&& final(self)@ == old(self)@.push((dst, empty_queue()))
                &&& r@ == Seq::<Message>::empty()
            },
    {
        let mut j: usize = 0;
        while j < self.entries.len()
            invariant
                j <= self.entries@.len(),
                self.entries@ == old(self).entries@,
                forall|k: int| 0 <= k < j ==> (#[trigger] self.entries@[k]).0 != dst,
            decreases self.entries@.len() - j,
        {
            if self.entries[j].0 == dst {
                let (id, mut tm) = self.entries.remove(j);
                let msgs = tm.extract();
                self.entries.insert(j, (id, tm));
                proof {
                    assert(old(self)@[j as int] == (id, old(self)@[j as int].1));
                    assert(forall|k: int|
                        0 <= k < old(self)@.len() && k != j ==> self.entries@[k] == old(
                            self,
                        ).entries@[k]);
                    assert(forall|k: int|
                        0 <= k < old(self)@.len() ==> (#[trigger] self@[k]) == (
                        self.entries@[k].0,
                        self.entries@[k].1@,
                    ));
                    assert(store_has(old(self)@, dst));
                    assert forall|p: int, q: int|
                        0 <= p < q < self@.len() implies (#[trigger] self@[p]).0 != (
                    #[trigger] self@[q]).0 by {
                        assert(self@[p].0 == old(self)@[p].0);
                        assert(self@[q].0 == old(self)@[q].0);
                    }
                }
                return msgs;
            }
            j += 1;
        }
        proof {
            assert(!store_has(old(self)@, dst));
        }
        self.entries.push((dst, TmpMessage::new()));
        proof {
            assert(self@ =~= old(self)@.push((dst, empty_queue())));
        }
        Vec::new()
    }
}

} // verus!
