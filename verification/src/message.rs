//! The chat demo's message values and the server's per-recipient store.

use crate::digits::{dec_rep, push_decimal};
use std::sync::Arc;
use vstd::prelude::*;
use vstd::string::*;

verus! {

/// A message payload: plain text, or a named file's bytes.
pub enum Data {
    Text(String),
    File { filename: String, file: Vec<u8> },
}

/// The mathematical value of a [`Data`].
pub ghost enum DataView {
    Text(Seq<char>),
    File { filename: Seq<char>, file: Seq<u8> },
}

impl View for Data {
    type V = DataView;

    open spec fn view(&self) -> DataView {
        match self {
            Data::Text(s) => DataView::Text(s@),
            Data::File { filename, file } => DataView::File {
                filename: filename@,
                file: file@,
            },
        }
    }
}

/// The line a payload renders to: the text itself, or the file's name
/// followed by `: ` and its size in bytes.
pub open spec fn data_text(d: DataView) -> Seq<char> {
    match d {
        DataView::Text(s) => s,
        DataView::File { filename, file } => filename + (": ")@ + dec_rep(file.len()),
    }
}

/// A copy of a byte vector.
fn copy_bytes(v: &Vec<u8>) -> (r: Vec<u8>)
    ensures
        r@ == v@,
{
    let mut r: Vec<u8> = Vec::new();
    let mut i: usize = 0;
    while i < v.len()
        invariant
            i <= v@.len(),
            r@ == v@.subrange(0, i as int),
        decreases v@.len() - i,
    {
        r.push(v[i]);
        i += 1;
        proof {
            assert(r@ =~= v@.subrange(0, i as int));
        }
    }
    proof {
        assert(r@ =~= v@);
    }
    r
}

impl Clone for Data {
    /// A clone carries the same payload.
    fn clone(&self) -> (res: Self)
        ensures
            res@ == self@,
    {
        match self {
            Data::Text(s) => Data::Text(s.clone()),
            Data::File { filename, file } => Data::File {
                filename: filename.clone(),
                file: copy_bytes(file),
            },
        }
    }
}

impl Data {
    /// Renders the payload to one line.
    pub fn to_string(&self) -> (r: String)
        ensures
            r@ == data_text(self@),
    {
        match self {
            Data::Text(s) => s.clone(),
            Data::File { filename, file } => {
                let mut r = filename.clone();
                r.append(": ");
                push_decimal(&mut r, file.len() as u64);
                proof {
                    assert(r@ =~= data_text(self@));
                }
                r
            },
        }
    }
}

/// One chat message: the peer it concerns and its payload.
pub struct Message {
    pub id: u32,
    pub data: Data,
}

/// The mathematical value of a [`Message`].
pub ghost struct MessageView {
    pub id: u32,
    pub data: DataView,
}

impl View for Message {
    type V = MessageView;

    open spec fn view(&self) -> MessageView {
        MessageView { id: self.id, data: self.data@ }
    }
}

/// The line a message renders to: its id, `: `, and its payload's line.
pub open spec fn message_text(m: MessageView) -> Seq<char> {
    dec_rep(m.id as nat) + (": ")@ + data_text(m.data)
}

impl Clone for Message {
    /// A clone carries the same id and payload.
    fn clone(&self) -> (res: Self)
        ensures
            res@ == self@,
    {
        Message { id: self.id, data: self.data.clone() }
    }
}

impl Message {
    pub fn new(id: u32, data: Data) -> (r: Self)
        ensures
            r@ == (MessageView { id, data: data@ }),
    {
        Message { id, data }
    }

    /// Renders the message to one line.
    pub fn to_string(&self) -> (r: String)
        ensures
            r@ == message_text(self@),
    {
        let mut r = crate::digits::decimal_string(self.id as u64);
        r.append(": ");
        let tail = self.data.to_string();
        r.append(tail.as_str());
        proof {
            assert(r@ =~= message_text(self@));
        }
        r
    }
}

/// Relies on `Arc`'s `Deref`: a shared handle reads exactly the value it
/// was built from.
#[verifier::external_body]
fn arc_get(m: &Arc<Message>) -> (r: &Message)
    ensures
        *r == **m,
{
    &**m
}

/// Relies on `Arc`'s `Clone`: a new handle shares exactly the value the
/// old one holds.
#[verifier::external_body]
pub fn arc_share(m: &Arc<Message>) -> (r: Arc<Message>)
    ensures
        r == *m,
{
    m.clone()
}

/// The sequence of views of a sequence of messages.
pub open spec fn message_views(s: Seq<Message>) -> Seq<MessageView> {
    s.map_values(|m: Message| m@)
}

/// The server's pending messages for one recipient: direct messages and
/// shared group messages, each drained in arrival order on extraction.
pub struct TmpMessage {
    group_chat: Vec<Arc<Message>>,
    chat: Vec<Message>,
}

/// The mathematical value of a [`TmpMessage`].
pub ghost struct TmpMessageView {
    pub group_chat: Seq<MessageView>,
    pub chat: Seq<MessageView>,
}

impl View for TmpMessage {
    type V = TmpMessageView;

    closed spec fn view(&self) -> TmpMessageView {
        TmpMessageView {
            group_chat: self.group_chat@.map_values(|m: Arc<Message>| m@),
            chat: self.chat@.map_values(|m: Message| m@),
        }
    }
}

impl TmpMessage {
    /// An empty store.
    pub fn new() -> (r: Self)
        ensures
            r@.group_chat == Seq::<MessageView>::empty(),
            r@.chat == Seq::<MessageView>::empty(),
    {
        let r = TmpMessage { group_chat: vec![], chat: vec![] };
        proof {
            assert(r@.group_chat =~= Seq::<MessageView>::empty());
            assert(r@.chat =~= Seq::<MessageView>::empty());
        }
        r
    }

    /// Queues one direct message.
    pub fn push(&mut self, msg: Message)
        ensures
            final(self)@.chat == old(self)@.chat.push(msg@),
            final(self)@.group_chat == old(self)@.group_chat,
    {
        self.chat.push(msg);
        proof {
            assert(self@.chat =~= old(self)@.chat.push(self.chat@.last()@));
        }
    }

    /// Queues one shared group message.
    pub fn push_group(&mut self, msg: Arc<Message>)
        ensures
            final(self)@.group_chat == old(self)@.group_chat.push(msg@),
            final(self)@.chat == old(self)@.chat,
    {
        self.group_chat.push(msg);
        proof {
            assert(self@.group_chat =~= old(self)@.group_chat.push(self.group_chat@.last()@));
        }
    }

    /// Hands out everything queued, direct messages first, each list in
    /// arrival order, and leaves the store empty.
    pub fn extract(&mut self) -> (r: Vec<Message>)
        ensures
            message_views(r@) == old(self)@.chat + old(self)@.group_chat,
            final(self)@.chat == Seq::<MessageView>::empty(),
            final(self)@.group_chat == Seq::<MessageView>::empty(),
    {
        let mut msgs: Vec<Message> = Vec::new();
        std::mem::swap(&mut msgs, &mut self.chat);
        proof {
            assert(message_views(msgs@) =~= old(self)@.chat);
        }
        let mut i: usize = 0;
        while i < self.group_chat.len()
            invariant
                i <= self.group_chat@.len(),
                self.group_chat@ == old(self).group_chat@,
                message_views(msgs@) == old(self)@.chat + old(self)@.group_chat.subrange(
                    0,
                    i as int,
                ),
            decreases self.group_chat@.len() - i,
        {
            let m: Message = arc_get(&self.group_chat[i]).clone();
            proof {
                assert(m@ == old(self)@.group_chat[i as int]);
            }
            let ghost pre = msgs@;
            msgs.push(m);
            i += 1;
            proof {
                assert(message_views(pre.push(m)) =~= message_views(pre).push(m@));
                assert(message_views(pre).push(m@) =~= old(self)@.chat + old(
                    self,
                )@.group_chat.subrange(0, i as int));
            }
        }
        self.group_chat = Vec::new();
        proof {
            assert(old(self)@.group_chat.subrange(0, old(self).group_chat@.len() as int) =~= old(
                self,
            )@.group_chat);
            assert(self@.chat =~= Seq::<MessageView>::empty());
            assert(self@.group_chat =~= Seq::<MessageView>::empty());
        }
        msgs
    }
}

} // verus!
