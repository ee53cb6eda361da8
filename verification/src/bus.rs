//! The bounded broadcast bus: the fan-out primitive behind every channel,
//! agent and connection queue.
//!
//! A bus keeps the full send history as a ghost sequence and retains the
//! newest `capacity` messages.  Sending never blocks and never fails: when
//! the window is full the oldest retained message is dropped.  Each receiver
//! is a cursor into the history; a receiver that fell behind the window
//! observes a recoverable lag signal that says exactly how many messages it
//! missed, and resumes at the oldest retained message.  One receiver's lag
//! never affects senders or other receivers.

use vstd::prelude::*;

use crate::codec::ReplyMessage;

verus! {

/// A message carried on the buses.
pub enum ChannelMessage {
    Reply(ReplyMessage),
}

impl View for ChannelMessage {
    type V = crate::codec::ReplyMessageView;

    open spec fn view(&self) -> crate::codec::ReplyMessageView {
        match self {
            ChannelMessage::Reply(m) => m@,
        }
    }
}

impl Clone for ChannelMessage {
    fn clone(&self) -> (r: ChannelMessage)
        ensures
            r == *self,
    {
        match self {
            ChannelMessage::Reply(m) => ChannelMessage::Reply(m.clone()),
        }
    }
}

/// What one receive step yields.
pub enum RecvOutcome {
    /// The next message, in send order.
    Msg(ChannelMessage),
    /// The receiver fell behind and this many messages were dropped before
    /// it caught up; it resumes at the oldest retained message.
    Lagged(u64),
    /// Nothing new yet.
    Idle,
}

/// A multi-producer broadcast bus with a bounded retained window.
pub struct Bus {
    cap: usize,
    start: u64,
    items: Vec<ChannelMessage>,
    hist: Ghost<Seq<ChannelMessage>>,
}

impl Bus {
    /// Every message ever sent, in order.
    pub closed spec fn history(&self) -> Seq<ChannelMessage> {
        self.hist@
    }

    pub closed spec fn capacity(&self) -> usize {
        self.cap
    }

    /// The history index of the oldest retained message.
    pub closed spec fn start_of_window(&self) -> int {
        self.start as int
    }

    pub closed spec fn wf(&self) -> bool {
        &&& self.cap >= 1
        &&& self.start as int + self.items@.len() == self.hist@.len()
        &&& self.items@.len() <= self.cap
        &&& self.items@ == self.hist@.skip(self.start as int)
        &&& self.hist@.len() <= u64::MAX
    }

    pub fn new(cap: usize) -> (b: Bus)
        requires
            cap >= 1,
        ensures
            b.wf(),
            b.history() == Seq::<ChannelMessage>::empty(),
            b.capacity() == cap,
    {
        let b = Bus { cap, start: 0, items: Vec::new(), hist: Ghost(Seq::empty()) };
        proof {
            assert(b.items@ =~= b.hist@.skip(0));
        }
        b
    }

    /// Append a message. Never blocks: when the retained window is full the
    /// oldest retained message is dropped and the window advances.
    pub fn send(&mut self, m: ChannelMessage)
        requires
            old(self).wf(),
            old(self).history().len() < u64::MAX,
        ensures
            final(self).wf(),
            final(self).history() == old(self).history().push(m),
            final(self).capacity() == old(self).capacity(),
            final(self).start_of_window() == if old(self).history().len()
                - old(self).start_of_window() < old(self).capacity() {
                old(self).start_of_window()
            } else {
                old(self).start_of_window() + 1
            },
    {
        self.items.push(m);
        proof {
            self.hist@ = self.hist@.push(m);
            assert(self.items@ =~= self.hist@.skip(self.start as int));
        }
        if self.items.len() > self.cap {
            let _dropped = self.items.remove(0);
            self.start = self.start + 1;
            proof {
                assert(self.items@ =~= self.hist@.skip(self.start as int));
            }
        }
    }

    /// A fresh receive cursor: it begins after everything already sent, so
    /// it sees exactly the messages sent from now on.
    pub fn subscribe(&self) -> (c: u64)
        requires
            self.wf(),
        ensures
            c as int == self.history().len(),
    {
        self.start + self.items.len() as u64
    }

    /// Receive at a cursor.  In order and exactly once: a receiver inside
    /// the window takes the message at its cursor and advances by one; one
    /// behind the window learns how many messages it missed and resumes at
    /// the oldest retained message; one at the end sees `Idle`.
    pub fn recv_at(&self, cursor: &mut u64) -> (r: RecvOutcome)
        requires
            self.wf(),
            *old(cursor) as int <= self.history().len(),
        ensures
            *final(cursor) as int <= self.history().len(),
            (*old(cursor) as int) < self.start_of_window() ==> r == RecvOutcome::Lagged(
                (self.start_of_window() - *old(cursor) as int) as u64,
            ) && *final(cursor) as int == self.start_of_window(),
            self.start_of_window() <= *old(cursor) as int && (*old(cursor) as int)
                < self.history().len() ==> r == RecvOutcome::Msg(
                self.history()[*old(cursor) as int],
            ) && *final(cursor) as int == *old(cursor) as int + 1,
            *old(cursor) as int == self.history().len() ==> r == RecvOutcome::Idle
                && *final(cursor) == *old(cursor),
    {
        if *cursor < self.start {
            let missed = self.start - *cursor;
            *cursor = self.start;
            RecvOutcome::Lagged(missed)
        } else {
            let offset = *cursor - self.start;
            if offset < self.items.len() as u64 {
                let m = self.items[offset as usize].clone();
                assert(self.items@[offset as int] == self.history()[*old(cursor) as int]);
                *cursor = *cursor + 1;
                RecvOutcome::Msg(m)
            } else {
                RecvOutcome::Idle
            }
        }
    }
}

/// The messages a receiver at cursor `c` has yet to take from history `h`,
/// in send order.
pub open spec fn pending(h: Seq<ChannelMessage>, c: int) -> Seq<ChannelMessage> {
    h.skip(c)
}

/// Delivery is exactly once and in order: a receiver inside the history
/// takes precisely the message at its cursor, and what remains pending is
/// everything after it — no message is repeated or reordered.
pub proof fn lemma_pending_step(h: Seq<ChannelMessage>, c: int)
    requires
        0 <= c < h.len(),
    ensures
        pending(h, c) == seq![h[c]] + pending(h, c + 1),
{
    assert(pending(h, c) =~= seq![h[c]] + pending(h, c + 1));
}

/// A broadcast reaches every pending stream exactly once, at its end: after
/// a send, each receiver that has not lagged will take exactly its old
/// pending messages and then the new one.
pub proof fn lemma_pending_send(h: Seq<ChannelMessage>, c: int, m: ChannelMessage)
    requires
        0 <= c <= h.len(),
    ensures
        pending(h.push(m), c) == pending(h, c).push(m),
{
    assert(pending(h.push(m), c) =~= pending(h, c).push(m));
}

} // verus!
