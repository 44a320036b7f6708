//! The state of a headless client of the runtime: requests numbered as
//! they are sent and matched with their responses, and subscriptions shared
//! by all of the client's subscribers to a topic, so that the runtime is
//! told once when the first subscribes and once when the last goes.
use vstd::prelude::*;

use crate::textset::TextCounts;

verus! {

/// Why the client's state refused an event.
#[derive(Debug, Clone, Copy, PartialEq, Eq, Structural)]
pub enum ClientError {
    /// A response for a request that is not in flight.
    UnexpectedResponse(u32),
    /// A message that a client does not take: a request or a subscription
    /// request.
    UnexpectedMessage,
}

impl ClientError {
    /// The error's message.
    pub fn message(&self) -> (r: &'static str)
        ensures
            self is UnexpectedResponse ==> r@ == "Internal inconsistency - Received unexpected response for request"@,
            self is UnexpectedMessage ==> r@ == "Internal inconsistency - Client unexpectedly received a message"@,
    {
        match self {
            ClientError::UnexpectedResponse(_) => "Internal inconsistency - Received unexpected response for request",
            ClientError::UnexpectedMessage => "Internal inconsistency - Client unexpectedly received a message",
        }
    }
}

/// The kind of a message from the runtime.
#[derive(Debug, Clone, Copy, PartialEq, Eq, Structural)]
pub enum MessageKind {
    Request,
    Response,
    SubscriptionStart,
    SubscriptionEnd,
    SubscriptionUpdate,
}

/// The client events that messages from the runtime become.
#[derive(Debug, Clone, Copy, PartialEq, Eq, Structural)]
pub enum IncomingEvent {
    RecvResponse,
    RecvSubscriptionUpdate,
}

/// A message from the runtime as a client event: responses and
/// subscription updates; anything else is an error.
pub fn incoming_event(kind: MessageKind) -> (r: Result<IncomingEvent, ClientError>)
    ensures
        kind is Response ==> r == Ok::<IncomingEvent, ClientError>(IncomingEvent::RecvResponse),
        kind is SubscriptionUpdate ==> r == Ok::<IncomingEvent, ClientError>(
            IncomingEvent::RecvSubscriptionUpdate,
        ),
        !(kind is Response || kind is SubscriptionUpdate) ==> r == Err::<IncomingEvent, ClientError>(
            ClientError::UnexpectedMessage,
        ),
{
    match kind {
        MessageKind::Response => Ok(IncomingEvent::RecvResponse),
        MessageKind::SubscriptionUpdate => Ok(IncomingEvent::RecvSubscriptionUpdate),
        _ => Err(ClientError::UnexpectedMessage),
    }
}

/// Whether `v` holds `x`.
fn holds(v: &Vec<u32>, x: u32) -> (r: Option<usize>)
    ensures
        match r {
            Some(p) => p < v.len() && v@[p as int] == x,
            None => !v@.contains(x),
        },
{
    let mut i: usize = 0;
    while i < v.len()
        invariant
            i <= v.len(),
            forall|j: int| 0 <= j < i ==> v@[j] != x,
        decreases v.len() - i,
    {
        if v[i] == x {
            return Some(i);
        }
        i = i + 1;
    }
    None
}

/// A subscriber subscribes to `t`: the counts after, and whether it is the
/// first (and the runtime is to be asked to start the subscription).
pub open spec fn spec_subscribe(m: Map<Seq<char>, nat>, t: Seq<char>) -> (Map<Seq<char>, nat>, bool) {
    if m.contains_key(t) {
        (m.insert(t, m[t] + 1), false)
    } else {
        (m.insert(t, 1), true)
    }
}

/// A subscriber of `t` goes: the counts after, and whether it was the last
/// (and the runtime is to be asked to end the subscription).
pub open spec fn spec_sub_drop(m: Map<Seq<char>, nat>, t: Seq<char>) -> (Map<Seq<char>, nat>, bool) {
    if m[t] == 1 {
        (m.remove(t), true)
    } else {
        (m.insert(t, (m[t] - 1) as nat), false)
    }
}

/// The counts after `k` subscriptions to `t`, and what each said.
pub open spec fn subscribe_times(m: Map<Seq<char>, nat>, t: Seq<char>, k: nat) -> (
    Map<Seq<char>, nat>,
    Seq<bool>,
)
    decreases k,
{
    if k == 0 {
        (m, Seq::empty())
    } else {
        let (m1, said) = subscribe_times(m, t, (k - 1) as nat);
        let (m2, start) = spec_subscribe(m1, t);
        (m2, said.push(start))
    }
}

/// The counts after `k` subscribers of `t` go, and what each said.
pub open spec fn drop_times(m: Map<Seq<char>, nat>, t: Seq<char>, k: nat) -> (
    Map<Seq<char>, nat>,
    Seq<bool>,
)
    decreases k,
{
    if k == 0 {
        (m, Seq::empty())
    } else {
        let (m1, said) = drop_times(m, t, (k - 1) as nat);
        let (m2, end) = spec_sub_drop(m1, t);
        (m2, said.push(end))
    }
}

proof fn lemma_subscribe_times(m: Map<Seq<char>, nat>, t: Seq<char>, k: nat)
    requires
        !m.contains_key(t),
    ensures
        subscribe_times(m, t, k).0 == (if k == 0 {
            m
        } else {
            m.insert(t, k)
        }),
        subscribe_times(m, t, k).1 == Seq::new(k, |i: int| i == 0),
    decreases k,
{
    if k > 0 {
        lemma_subscribe_times(m, t, (k - 1) as nat);
        let m1 = subscribe_times(m, t, (k - 1) as nat).0;
        if k == 1 {
            assert(m1 == m);
        } else {
            assert(m1.insert(t, m1[t] + 1) =~= m.insert(t, k));
        }
        assert(subscribe_times(m, t, k).1 =~= Seq::new(k, |i: int| i == 0));
    } else {
        assert(subscribe_times(m, t, k).1 =~= Seq::new(k, |i: int| i == 0));
    }
}

proof fn lemma_drop_times(m: Map<Seq<char>, nat>, t: Seq<char>, n: nat, k: nat)
    requires
        !m.contains_key(t),
        k <= n,
        n >= 1,
    ensures
        drop_times(m.insert(t, n), t, k).0 == (if k == n {
            m
        } else {
            m.insert(t, (n - k) as nat)
        }),
        drop_times(m.insert(t, n), t, k).1 == Seq::new(k, |i: int| i == n - 1),
    decreases k,
{
    if k > 0 {
        lemma_drop_times(m, t, n, (k - 1) as nat);
        let m1 = drop_times(m.insert(t, n), t, (k - 1) as nat).0;
        assert(m1 == m.insert(t, (n - k + 1) as nat));
        if k == n {
            assert(m1.remove(t) =~= m);
        } else {
            assert(m1.insert(t, (m1[t] - 1) as nat) =~= m.insert(t, (n - k) as nat));
        }
        assert(drop_times(m.insert(t, n), t, k).1 =~= Seq::new(k, |i: int| i == n - 1));
    } else {
        assert(m.insert(t, n) == m.insert(t, n));
        assert(drop_times(m.insert(t, n), t, k).1 =~= Seq::new(k, |i: int| i == n - 1));
    }
}

/// Law: the client's subscribers to a topic share one subscription with
/// the runtime. Of `k` subscribers to a topic nobody held, only the first
/// asks the runtime to start it; when the `k` go, only the last asks the
/// runtime to end it, and the topic is forgotten again.
pub proof fn law_subscription_shared(m: Map<Seq<char>, nat>, t: Seq<char>, k: nat)
    requires
        !m.contains_key(t),
        k >= 1,
    ensures
        subscribe_times(m, t, k).1 == Seq::new(k, |i: int| i == 0),
        drop_times(subscribe_times(m, t, k).0, t, k).1 == Seq::new(k, |i: int| i == k - 1),
        drop_times(subscribe_times(m, t, k).0, t, k).0 == m,
{
    lemma_subscribe_times(m, t, k);
    lemma_drop_times(m, t, k, k);
}

/// The requests and subscriptions of a client.
pub struct ClientState {
    next_req_id: u32,
    inflight: Vec<u32>,
    subscriptions: TextCounts,
}

pub struct ClientView {
    /// The number the next request gets.
    pub next_req_id: u32,
    /// The numbers of the requests awaiting a response.
    pub inflight: Set<u32>,
    /// How many of the client's subscribers hold each topic.
    pub subscriptions: Map<Seq<char>, nat>,
}

impl View for ClientState {
    type V = ClientView;

    closed spec fn view(&self) -> ClientView {
        ClientView {
            next_req_id: self.next_req_id,
            inflight: self.inflight@.to_set(),
            subscriptions: self.subscriptions@,
        }
    }
}

impl ClientState {
    /// Every request in flight was numbered before the next number, each
    /// number is held once, and the subscription counts are well formed.
    pub closed spec fn wf(&self) -> bool {
        &&& self.subscriptions.wf()
        &&& forall|i: int| 0 <= i < self.inflight@.len() ==> #[trigger] self.inflight@[i] < self.next_req_id
        &&& forall|i: int, j: int| 0 <= i < j < self.inflight@.len() ==> #[trigger] self.inflight@[i] != #[trigger] self.inflight@[j]
    }

    /// Each request in flight has a number below the next one, and every
    /// subscribed topic has at least one subscriber.
    pub proof fn lemma_wf(&self)
        requires
            self.wf(),
        ensures
            forall|id: u32| #[trigger] self@.inflight.contains(id) ==> id < self@.next_req_id,
            forall|t: Seq<char>| #[trigger] self@.subscriptions.contains_key(t) ==> self@.subscriptions[t] > 0,
    {
        self.subscriptions.lemma_wf();
        assert forall|id: u32| #[trigger] self@.inflight.contains(id) implies id < self@.next_req_id by {
            let i = choose|i: int| 0 <= i < self.inflight@.len() && self.inflight@[i] == id;
            assert(self.inflight@[i] < self.next_req_id);
        }
    }

    /// No requests, no subscriptions; the first request is numbered 0.
    pub fn new() -> (r: ClientState)
        ensures
            r.wf(),
            r@.next_req_id == 0,
            r@.inflight == Set::<u32>::empty(),
            r@.subscriptions == Map::<Seq<char>, nat>::empty(),
    {
        let r = ClientState { next_req_id: 0, inflight: Vec::new(), subscriptions: TextCounts::new() };
        proof {
            assert(r.inflight@.to_set() =~= Set::<u32>::empty());
        }
        r
    }

    /// The number the next request gets.
    pub fn next_req_id(&self) -> (r: u32)
        ensures
            r == self@.next_req_id,
    {
        self.next_req_id
    }

    /// How many of the client's subscribers hold `topic`, if any.
    pub fn subscribers(&self, topic: &str) -> (r: Option<usize>)
        requires
            self.wf(),
        ensures
            match r {
                Some(c) => self@.subscriptions.contains_key(topic@) && self@.subscriptions[topic@] == c,
                None => !self@.subscriptions.contains_key(topic@),
            },
    {
        self.subscriptions.get(topic)
    }

    /// A request is sent: it gets the next number, which is returned, and
    /// awaits its response.
    pub fn handle_request(&mut self) -> (id: u32)
        requires
            old(self).wf(),
            old(self)@.next_req_id < u32::MAX,
        ensures
            final(self).wf(),
            id == old(self)@.next_req_id,
            !old(self)@.inflight.contains(id),
            final(self)@.next_req_id == old(self)@.next_req_id + 1,
            final(self)@.inflight == old(self)@.inflight.insert(id),
            final(self)@.subscriptions == old(self)@.subscriptions,
    {
        let id = self.next_req_id;
        let ghost old_inflight = self.inflight@;
        proof {
            if old_inflight.contains(id) {
                let i = choose|i: int| 0 <= i < old_inflight.len() && old_inflight[i] == id;
                assert(old_inflight[i] < id);
            }
        }
        self.next_req_id = self.next_req_id + 1;
        self.inflight.push(id);
        proof {
            assert(self.inflight@ == old_inflight.push(id));
            assert(self.inflight@.to_set() =~= old_inflight.to_set().insert(id)) by {
                assert forall|x: u32| self.inflight@.contains(x) <==> (old_inflight.contains(x) || x == id) by {
                    if self.inflight@.contains(x) {
                        let i = choose|i: int| 0 <= i < self.inflight@.len() && self.inflight@[i] == x;
                        if i < old_inflight.len() {
                            assert(old_inflight[i] == x);
                        }
                    }
                    if old_inflight.contains(x) {
                        let i = choose|i: int| 0 <= i < old_inflight.len() && old_inflight[i] == x;
                        assert(self.inflight@[i] == x);
                    }
                    if x == id {
                        assert(self.inflight@[old_inflight.len() as int] == x);
                    }
                }
            }
            assert forall|i: int, j: int| 0 <= i < j < self.inflight@.len() implies #[trigger] self.inflight@[i] != #[trigger] self.inflight@[j] by {
                if j < old_inflight.len() {
                    assert(self.inflight@[i] == old_inflight[i]);
                    assert(self.inflight@[j] == old_inflight[j]);
                } else {
                    assert(self.inflight@[i] == old_inflight[i]);
                }
            }
        }
        id
    }

    /// A response arrives for request `req_id`: it is handed to the request's
    /// caller, which no longer awaits it; a response for a request not in
    /// flight is an error.
    pub fn handle_recv_response(&mut self, req_id: u32) -> (r: Result<(), ClientError>)
        requires
            old(self).wf(),
        ensures
            final(self).wf(),
            r is Ok <==> old(self)@.inflight.contains(req_id),
            r is Err ==> r == Err::<(), ClientError>(ClientError::UnexpectedResponse(req_id)),
            final(self)@.inflight == old(self)@.inflight.remove(req_id),
            final(self)@.next_req_id == old(self)@.next_req_id,
            final(self)@.subscriptions == old(self)@.subscriptions,
    {
        let ghost old_inflight = self.inflight@;
        match holds(&self.inflight, req_id) {
            Some(p) => {
                self.inflight.remove(p);
                proof {
                    let s = self.inflight@;
                    assert(s =~= old_inflight.remove(p as int));
                    assert forall|x: u32| s.contains(x) <==> (old_inflight.contains(x) && x != req_id) by {
                        if s.contains(x) {
                            let i = choose|i: int| 0 <= i < s.len() && s[i] == x;
                            let oi = if i < p { i } else { i + 1 };
                            assert(s[i] == old_inflight[oi]);
                            assert(oi != p);
                        }
                        if old_inflight.contains(x) && x != req_id {
                            let i = choose|i: int| 0 <= i < old_inflight.len() && old_inflight[i] == x;
                            if i < p {
                                assert(s[i] == x);
                            } else {
                                assert(s[i - 1] == x);
                            }
                        }
                    }
                    assert(s.to_set() =~= old_inflight.to_set().remove(req_id));
                    assert forall|i: int, j: int| 0 <= i < j < s.len() implies #[trigger] s[i] != #[trigger] s[j] by {
                        let oi = if i < p { i } else { i + 1 };
                        let oj = if j < p { j } else { j + 1 };
                        assert(s[i] == old_inflight[oi] && s[j] == old_inflight[oj]);
                    }
                    assert forall|i: int| 0 <= i < s.len() implies #[trigger] s[i] < self.next_req_id by {
                        let oi = if i < p { i } else { i + 1 };
                        assert(s[i] == old_inflight[oi]);
                    }
                    assert(old_inflight.contains(req_id));
                }
                Ok(())
            },
            None => {
                proof {
                    assert(old_inflight.to_set() =~= old_inflight.to_set().remove(req_id));
                }
                Err(ClientError::UnexpectedResponse(req_id))
            },
        }
    }

    /// A subscriber of the client subscribes to `topic`; whether it is the
    /// first, in which case the runtime is asked to start the subscription.
    pub fn handle_subscribe(&mut self, topic: String) -> (send_start: bool)
        requires
            old(self).wf(),
            old(self)@.subscriptions.contains_key(topic@) ==> old(self)@.subscriptions[topic@] < usize::MAX,
        ensures
            final(self).wf(),
            (final(self)@.subscriptions, send_start) == spec_subscribe(old(self)@.subscriptions, topic@),
            final(self)@.inflight == old(self)@.inflight,
            final(self)@.next_req_id == old(self)@.next_req_id,
    {
        self.subscriptions.increment(topic)
    }

    /// An update for `topic` arrives; whether the client's subscribers take
    /// it (for a topic nobody subscribed to, it is dropped).
    pub fn handle_sub_update(&self, topic: &str) -> (forward: bool)
        requires
            self.wf(),
        ensures
            forward == self@.subscriptions.contains_key(topic@),
    {
        self.subscriptions.get(topic).is_some()
    }

    /// A subscriber of `topic` goes; whether it was the last, in which case
    /// the topic is forgotten and the runtime is asked to end the
    /// subscription.
    pub fn handle_sub_drop(&mut self, topic: &str) -> (send_end: bool)
        requires
            old(self).wf(),
            old(self)@.subscriptions.contains_key(topic@),
        ensures
            final(self).wf(),
            (final(self)@.subscriptions, send_end) == spec_sub_drop(old(self)@.subscriptions, topic@),
            final(self)@.inflight == old(self)@.inflight,
            final(self)@.next_req_id == old(self)@.next_req_id,
    {
        self.subscriptions.decrement(topic)
    }
}

} // verus!
