//! Future-only, best-effort publish and subscribe on a node. A publication
//! reaches the topic's local subscribers, if any; one published on this node
//! is also offered to the node's peers, while one received from a peer is
//! delivered locally and never relayed.
use vstd::prelude::*;

use crate::textset::TextSet;

verus! {

/// Where a publication goes.
#[derive(Debug, Clone, Copy, PartialEq, Eq, Structural)]
pub struct Delivery {
    /// To the topic's local subscribers.
    pub local: bool,
    /// To the node's peers.
    pub peers: bool,
}

/// The topics that have local subscribers.
pub struct PubSub {
    topics: TextSet,
}

impl View for PubSub {
    type V = Set<Seq<char>>;

    closed spec fn view(&self) -> Set<Seq<char>> {
        self.topics@
    }
}

impl PubSub {
    pub closed spec fn wf(&self) -> bool {
        self.topics.wf()
    }

    /// No topics.
    pub fn new() -> (r: PubSub)
        ensures
            r.wf(),
            r@ == Set::<Seq<char>>::empty(),
    {
        PubSub { topics: TextSet::new() }
    }

    /// A local subscription to `topic`, which is created where it is new.
    pub fn handle_subscribe(&mut self, topic: String)
        requires
            old(self).wf(),
        ensures
            final(self).wf(),
            final(self)@ == old(self)@.insert(topic@),
    {
        self.topics.insert(topic);
    }

    /// Where a publication on `topic` goes: to local subscribers where the
    /// topic has any, and to peers where it was published on this node
    /// (`forward_to_peers`). Publishing needs no topic state.
    pub fn handle_publish(&self, topic: &str, forward_to_peers: bool) -> (r: Delivery)
        ensures
            r.local == self@.contains(topic@),
            r.peers == forward_to_peers,
    {
        Delivery { local: self.topics.contains(topic), peers: forward_to_peers }
    }

    /// A publication that originates on this node.
    pub fn publish(&self, topic: &str) -> (r: Delivery)
        ensures
            r.local == self@.contains(topic@),
            r.peers,
    {
        self.handle_publish(topic, true)
    }

    /// A publication received from a peer: delivered locally, never relayed.
    pub fn publish_from_peer(&self, topic: &str) -> (r: Delivery)
        ensures
            r.local == self@.contains(topic@),
            !r.peers,
    {
        self.handle_publish(topic, false)
    }

    /// Clears `topic`; whether it was known.
    pub fn handle_clear(&mut self, topic: &str) -> (known: bool)
        requires
            old(self).wf(),
        ensures
            final(self).wf(),
            known == old(self)@.contains(topic@),
            final(self)@ == old(self)@.remove(topic@),
    {
        self.topics.remove(topic)
    }
}

} // verus!
