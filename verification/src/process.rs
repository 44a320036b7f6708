//! How a process ends, and the subscriptions it holds: numbered as they are
//! added, ended one by one or all at once when the process shuts down.
use vstd::prelude::*;

use crate::value::Val;

verus! {

/// Identifies one subscription of a process.
#[derive(Debug, Clone, Copy, PartialEq, Eq, Hash, Structural)]
pub struct SubscriptionId(pub usize);

impl From<usize> for SubscriptionId {
    fn from(value: usize) -> (r: SubscriptionId) {
        SubscriptionId(value)
    }
}

impl vstd::std_specs::convert::FromSpecImpl<usize> for SubscriptionId {
    open spec fn obeys_from_spec() -> bool {
        true
    }

    open spec fn from_spec(v: usize) -> SubscriptionId {
        SubscriptionId(v)
    }
}

impl SubscriptionId {
    /// The number of the subscription.
    pub fn inner(&self) -> (r: usize)
        ensures
            r == self.0,
    {
        self.0
    }
}

/// How a process ended without an error.
#[derive(Debug, PartialEq)]
pub enum ProcessResult {
    /// It completed with a value.
    Done(Val),
    /// It was killed.
    Cancelled,
    /// Its client connection went away.
    Disconnected,
}

impl ProcessResult {
    /// The value of a process that completed.
    pub fn unwrap(self) -> (r: Val)
        requires
            self is Done,
        ensures
            r == self->Done_0,
    {
        match self {
            ProcessResult::Done(v) => v,
            _ => {
                proof {
                    assert(false);
                }
                Val::Nil
            },
        }
    }

    /// The value of a process that completed; none for one that was killed
    /// or lost its connection.
    pub fn value(self) -> (r: Option<Val>)
        ensures
            self is Done ==> r == Some(self->Done_0),
            !(self is Done) ==> r is None,
    {
        match self {
            ProcessResult::Done(v) => Some(v),
            _ => None,
        }
    }
}

/// No number occurs twice.
pub open spec fn distinct(s: Seq<usize>) -> bool {
    forall|i: int, j: int| 0 <= i < j < s.len() ==> s[i] != s[j]
}

pub open spec fn other_than(id: usize) -> spec_fn(usize) -> bool {
    |x: usize| x != id
}

/// The subscription bookkeeping of one process.
pub struct Subscriptions {
    active: Vec<usize>,
    next_sub_id: usize,
    is_shutdown: bool,
}

pub struct SubscriptionsView {
    pub active: Seq<usize>,
    pub next_sub_id: usize,
    pub is_shutdown: bool,
}

impl View for Subscriptions {
    type V = SubscriptionsView;

    closed spec fn view(&self) -> SubscriptionsView {
        SubscriptionsView {
            active: self.active@,
            next_sub_id: self.next_sub_id,
            is_shutdown: self.is_shutdown,
        }
    }
}

/// `v` without `id`, in order.
fn without(v: &Vec<usize>, id: usize) -> (r: Vec<usize>)
    ensures
        r@ == v@.filter(other_than(id)),
{
    let mut r: Vec<usize> = Vec::new();
    let mut i: usize = 0;
    while i < v.len()
        invariant
            i <= v.len(),
            r@ =~= v@.take(i as int).filter(other_than(id)),
        decreases v.len() - i,
    {
        proof {
            reveal(Seq::filter);
            assert(v@.take(i + 1).drop_last() =~= v@.take(i as int));
            assert(v@.take(i + 1).last() == v@[i as int]);
        }
        if v[i] != id {
            r.push(v[i]);
        }
        i = i + 1;
    }
    proof {
        assert(v@.take(v.len() as int) =~= v@);
    }
    r
}

proof fn lemma_filter_distinct(s: Seq<usize>, id: usize)
    requires
        distinct(s),
    ensures
        distinct(s.filter(other_than(id))),
        !s.filter(other_than(id)).contains(id),
        forall|x: usize| x != id ==> (s.contains(x) == s.filter(other_than(id)).contains(x)),
    decreases s.len(),
{
    reveal(Seq::filter);
    if s.len() > 0 {
        let rest = s.drop_last();
        assert(distinct(rest)) by {
            assert forall|i: int, j: int| 0 <= i < j < rest.len() implies rest[i] != rest[j] by {
                assert(rest[i] == s[i] && rest[j] == s[j]);
            }
        }
        lemma_filter_distinct(rest, id);
        let f = rest.filter(other_than(id));
        assert(!rest.contains(s.last())) by {
            if rest.contains(s.last()) {
                let k = choose|k: int| 0 <= k < rest.len() && rest[k] == s.last();
                assert(s[k] == rest[k]);
            }
        }
        assert forall|x: usize| x != id implies (s.contains(x) == s.filter(other_than(id)).contains(
            x,
        )) by {
            if s.contains(x) {
                let k = choose|k: int| 0 <= k < s.len() && s[k] == x;
                if k < rest.len() {
                    assert(rest[k] == x);
                    assert(rest.contains(x));
                }
            }
            if rest.contains(x) {
                let k = choose|k: int| 0 <= k < rest.len() && rest[k] == x;
                assert(s[k] == x);
            }
        }
        if other_than(id)(s.last()) {
            let g = f.push(s.last());
            assert(!f.contains(s.last())) by {
                if f.contains(s.last()) {
                    rest.lemma_filter_contains_rev(other_than(id), s.last());
                }
            }
            assert forall|i: int, j: int| 0 <= i < j < g.len() implies g[i] != g[j] by {
                if j == g.len() - 1 {
                    assert(g[i] == f[i]);
                    assert(f.contains(f[i]));
                } else {
                    assert(g[i] == f[i] && g[j] == f[j]);
                }
            }
        }
    }
}

impl Subscriptions {
    /// No subscription is held twice.
    pub open spec fn wf(&self) -> bool {
        distinct(self@.active)
    }

    /// A running process without subscriptions.
    pub fn new() -> (r: Subscriptions)
        ensures
            r.wf(),
            r@.active.len() == 0,
            r@.next_sub_id == 0,
            !r@.is_shutdown,
    {
        Subscriptions { active: Vec::new(), next_sub_id: 0, is_shutdown: false }
    }

    /// Whether the process should leave its event loop.
    pub fn is_shutdown(&self) -> (r: bool)
        ensures
            r == self@.is_shutdown,
    {
        self.is_shutdown
    }

    /// Whether `id` is held.
    pub fn contains(&self, id: SubscriptionId) -> (r: bool)
        ensures
            r == self@.active.contains(id.0),
    {
        let mut i: usize = 0;
        while i < self.active.len()
            invariant
                i <= self.active.len(),
                forall|j: int| 0 <= j < i ==> self.active@[j] != id.0,
            decreases self.active.len() - i,
        {
            if self.active[i] == id.0 {
                return true;
            }
            i = i + 1;
        }
        false
    }

    /// Numbers a new subscription with the next number (wrapping around);
    /// a subscription still held under that number is replaced, which the
    /// second component reports.
    pub fn add_subscription(&mut self) -> (r: (SubscriptionId, bool))
        requires
            old(self).wf(),
        ensures
            final(self).wf(),
            r.0.0 == old(self)@.next_sub_id,
            r.1 == old(self)@.active.contains(r.0.0),
            final(self)@ == (SubscriptionsView {
                active: old(self)@.active.filter(other_than(r.0.0)).push(r.0.0),
                next_sub_id: (if old(self)@.next_sub_id == usize::MAX {
                    0
                } else {
                    old(self)@.next_sub_id + 1
                }) as usize,
                is_shutdown: old(self)@.is_shutdown,
            }),
            final(self)@.active.contains(r.0.0),
    {
        let id = self.next_sub_id;
        self.next_sub_id = self.next_sub_id.wrapping_add(1);
        let replaced = self.contains(SubscriptionId(id));
        let mut active = without(&self.active, id);
        proof {
            lemma_filter_distinct(old(self)@.active, id);
        }
        let ghost base = active@;
        active.push(id);
        proof {
            assert(active@.last() == id);
            assert forall|i: int, j: int| 0 <= i < j < active@.len() implies active@[i]
                != active@[j] by {
                if j == active@.len() - 1 {
                    assert(active@[i] == base[i]);
                    assert(base.contains(base[i]));
                } else {
                    assert(active@[i] == base[i] && active@[j] == base[j]);
                }
            }
            assert(active@.contains(id)) by {
                assert(active@[active@.len() - 1] == id);
            }
        }
        self.active = active;
        (SubscriptionId(id), replaced)
    }

    /// Ends subscription `id`; false when it was not held.
    pub fn remove_subscription(&mut self, id: SubscriptionId) -> (r: bool)
        requires
            old(self).wf(),
        ensures
            final(self).wf(),
            r == old(self)@.active.contains(id.0),
            final(self)@ == (SubscriptionsView {
                active: old(self)@.active.filter(other_than(id.0)),
                ..old(self)@
            }),
            !final(self)@.active.contains(id.0),
    {
        let found = self.contains(id);
        let active = without(&self.active, id.0);
        proof {
            lemma_filter_distinct(old(self)@.active, id.0);
        }
        self.active = active;
        found
    }

    /// Marks the process for shutdown and ends every subscription; answers
    /// with the subscriptions ended.
    pub fn shutdown(&mut self) -> (r: Vec<SubscriptionId>)
        requires
            old(self).wf(),
        ensures
            final(self).wf(),
            r@.map_values(|s: SubscriptionId| s.0) == old(self)@.active,
            final(self)@ == (SubscriptionsView {
                active: Seq::empty(),
                next_sub_id: old(self)@.next_sub_id,
                is_shutdown: true,
            }),
    {
        let mut r: Vec<SubscriptionId> = Vec::new();
        let mut i: usize = 0;
        while i < self.active.len()
            invariant
                i <= self.active.len(),
                r@.map_values(|s: SubscriptionId| s.0) =~= self.active@.take(i as int),
            decreases self.active.len() - i,
        {
            r.push(SubscriptionId(self.active[i]));
            proof {
                assert(self.active@.take(i + 1) =~= self.active@.take(i as int).push(
                    self.active@[i as int],
                ));
            }
            i = i + 1;
        }
        proof {
            assert(self.active@.take(self.active.len() as int) =~= self.active@);
        }
        self.active = Vec::new();
        self.is_shutdown = true;
        proof {
            assert(self@.active =~= Seq::<usize>::empty());
        }
        r
    }
}

} // verus!
