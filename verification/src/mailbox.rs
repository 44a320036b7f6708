//! A process's mailbox: messages kept in the order they arrived, and at
//! most one poll waiting for a message that matches its pattern. Patterns
//! are matched by the caller, which hands in the outcome per message.
use vstd::prelude::*;

use crate::value::{Val, ValView};

verus! {

/// The views of messages, in order.
pub open spec fn views(s: Seq<Val>) -> Seq<ValView> {
    s.map_values(|v: Val| v@)
}

/// The position of the first `true`, or the length where there is none.
pub open spec fn first_true(m: Seq<bool>) -> int
    decreases m.len(),
{
    if m.len() == 0 {
        0
    } else if m[0] {
        0
    } else {
        1 + first_true(m.drop_first())
    }
}

pub proof fn lemma_first_true(m: Seq<bool>)
    ensures
        0 <= first_true(m) <= m.len(),
        first_true(m) < m.len() ==> m[first_true(m)],
        forall|j: int| 0 <= j < first_true(m) ==> !m[j],
    decreases m.len(),
{
    if m.len() > 0 && !m[0] {
        lemma_first_true(m.drop_first());
        assert forall|j: int| 0 <= j < first_true(m) implies !m[j] by {
            if j > 0 {
                assert(m.drop_first()[j - 1] == m[j]);
            }
        }
    }
}

/// The mailbox of one process.
pub struct Mailbox {
    messages: Vec<Val>,
    pending: bool,
}

pub struct MailboxView {
    /// The messages not yet taken, oldest first.
    pub messages: Seq<ValView>,
    /// Whether a poll waits for a message.
    pub pending: bool,
}

impl View for Mailbox {
    type V = MailboxView;

    closed spec fn view(&self) -> MailboxView {
        MailboxView { messages: views(self.messages@), pending: self.pending }
    }
}

impl Mailbox {
    /// An empty mailbox with no poll waiting.
    pub fn new() -> (r: Mailbox)
        ensures
            r@.messages == Seq::<ValView>::empty(),
            !r@.pending,
    {
        let r = Mailbox { messages: Vec::new(), pending: false };
        proof {
            assert(views(r.messages@) =~= Seq::<ValView>::empty());
        }
        r
    }

    /// Whether a poll waits for a message.
    pub fn is_pending(&self) -> (r: bool)
        ensures
            r == self@.pending,
    {
        self.pending
    }

    /// A new message arrives. Where a poll waits and the message matches its
    /// pattern (`fulfills_pending`), the message goes to the poll, which no
    /// longer waits; otherwise it is kept, after all earlier ones.
    pub fn push(&mut self, msg: Val, fulfills_pending: bool) -> (delivered: Option<Val>)
        ensures
            old(self)@.pending && fulfills_pending ==> {
                &&& delivered == Some(msg)
                &&& final(self)@.messages == old(self)@.messages
                &&& !final(self)@.pending
            },
            !(old(self)@.pending && fulfills_pending) ==> {
                &&& delivered is None
                &&& final(self)@.messages == old(self)@.messages.push(msg@)
                &&& final(self)@.pending == old(self)@.pending
            },
    {
        if self.pending && fulfills_pending {
            self.pending = false;
            Some(msg)
        } else {
            proof {
                assert(views(self.messages@.push(msg)) =~= views(self.messages@).push(msg@));
            }
            self.messages.push(msg);
            None
        }
    }

    /// A poll for the first message that matches its pattern (`matches`
    /// tells, per message, whether it does; with no pattern every message
    /// does). The first matching message is taken and returned; where none
    /// matches, the poll waits. Only one poll may wait at a time.
    pub fn handle_poll(&mut self, matches: &Vec<bool>) -> (r: Option<Val>)
        requires
            matches.len() == old(self)@.messages.len(),
            first_true(matches@) == matches.len() ==> !old(self)@.pending,
        ensures
            first_true(matches@) < matches.len() ==> {
                &&& r is Some
                &&& r->Some_0@ == old(self)@.messages[first_true(matches@)]
                &&& final(self)@.messages == old(self)@.messages.remove(first_true(matches@))
                &&& final(self)@.pending == old(self)@.pending
            },
            first_true(matches@) == matches.len() ==> {
                &&& r is None
                &&& final(self)@.messages == old(self)@.messages
                &&& final(self)@.pending
            },
    {
        proof {
            lemma_first_true(matches@);
        }
        let mut i: usize = 0;
        while i < matches.len() && !matches[i]
            invariant
                i <= matches.len(),
                i <= first_true(matches@),
                0 <= first_true(matches@) <= matches.len(),
                first_true(matches@) < matches.len() ==> matches@[first_true(matches@)],
            decreases matches.len() - i,
        {
            i = i + 1;
        }
        if i < matches.len() {
            proof {
                assert(views(self.messages@.remove(i as int)) =~= views(self.messages@).remove(
                    i as int,
                ));
            }
            let msg = self.messages.remove(i);
            Some(msg)
        } else {
            self.pending = true;
            None
        }
    }

    /// The waiting poll gave up (its wait timed out): no poll waits any
    /// more, and the messages stay as they are.
    pub fn cancel_poll(&mut self)
        ensures
            final(self)@.messages == old(self)@.messages,
            !final(self)@.pending,
    {
        self.pending = false;
    }

    /// Copies of the messages not yet taken, oldest first.
    pub fn all(&self) -> (r: Vec<Val>)
        ensures
            views(r@) == self@.messages,
    {
        let mut r: Vec<Val> = Vec::new();
        let mut i: usize = 0;
        while i < self.messages.len()
            invariant
                i <= self.messages.len(),
                views(r@) =~= views(self.messages@).take(i as int),
            decreases self.messages.len() - i,
        {
            let d = self.messages[i].duplicate();
            proof {
                assert(views(r@.push(d)) =~= views(r@).push(d@));
                assert(views(self.messages@).take(i + 1) =~= views(self.messages@).take(i as int).push(
                    self.messages@[i as int]@,
                ));
            }
            r.push(d);
            i = i + 1;
        }
        r
    }
}

} // verus!
