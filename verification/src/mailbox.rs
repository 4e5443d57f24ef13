//! Bounded FIFO of rendered lines awaiting delivery to one peer.
//!
//! The hub enqueues on behalf of a broadcast; the peer's writer path drains.
//! The bound decouples broadcast speed from one slow peer: a full mailbox is
//! surfaced as an error so the hub can apply its overflow policy instead of
//! blocking or silently dropping.

use vstd::prelude::*;

verus! {

/// Returned by [`Mailbox::enqueue`] when the queue already holds `capacity`
/// lines.
#[derive(Debug, PartialEq, Eq, Structural)]
pub enum MailboxError {
    Full,
}

/// An ordered, bounded queue of outgoing lines for one peer.
pub struct Mailbox {
    items: Vec<String>,
    cap: usize,
}

impl View for Mailbox {
    type V = Seq<Seq<char>>;

    closed spec fn view(&self) -> Seq<Seq<char>> {
        self.items.deep_view()
    }
}

impl Mailbox {
    /// The fixed bound this mailbox was created with.
    pub closed spec fn capacity(&self) -> nat {
        self.cap as nat
    }

    pub open spec fn wf(&self) -> bool {
        self@.len() <= self.capacity() && 1 <= self.capacity()
    }

    pub open spec fn is_full(&self) -> bool {
        self@.len() >= self.capacity()
    }

    /// An empty mailbox holding at most `cap` lines.
    pub fn make(cap: usize) -> (m: Mailbox)
        requires
            1 <= cap,
        ensures
            m@ =~= Seq::<Seq<char>>::empty(),
            m.capacity() == cap,
            m.wf(),
    {
        Mailbox { items: Vec::new(), cap }
    }

    pub fn len(&self) -> (n: usize)
        ensures
            n == self@.len(),
    {
        self.items.len()
    }

    /// Appends `line` at the back, or reports `Full` leaving the queue as it
    /// was: the caller decides what a full mailbox means.
    pub fn enqueue(&mut self, line: String) -> (r: Result<(), MailboxError>)
        ensures
            final(self).capacity() == old(self).capacity(),
            old(self).is_full() ==> r is Err && final(self)@ =~= old(self)@,
            !old(self).is_full() ==> r is Ok && final(self)@ =~= old(self)@.push(line@),
            old(self).wf() ==> final(self).wf(),
    {
        if self.items.len() >= self.cap {
            Err(MailboxError::Full)
        } else {
            self.items.push(line);
            assert(self@ =~= old(self)@.push(line@));
            Ok(())
        }
    }

    /// Removes and returns the oldest queued line, or `None` on an empty
    /// queue.
    pub fn dequeue(&mut self) -> (r: Option<String>)
        ensures
            final(self).capacity() == old(self).capacity(),
            old(self)@.len() == 0 ==> r is None && final(self)@ =~= old(self)@,
            old(self)@.len() > 0 ==> r is Some && r.unwrap()@ == old(self)@[0] && final(self)@
                =~= old(self)@.drop_first(),
            old(self).wf() ==> final(self).wf(),
    {
        if self.items.len() == 0 {
            None
        } else {
            let line = self.items.remove(0);
            assert(self@ =~= old(self)@.drop_first());
            Some(line)
        }
    }
}

} // verus!
