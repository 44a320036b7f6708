//! The controlling terminal of a client connection: requests from the
//! client are handed to readers in the order they arrived, each to the
//! reader that has waited longest; and the terminal's own subscriptions.
use vstd::prelude::*;

use crate::textset::TextSet;

verus! {

/// The terminal's queues and subscriptions. Requests are of any type `R`;
/// waiting readers are counted here and kept, oldest first, by the caller.
pub struct Term<R> {
    requests: Vec<R>,
    readers: usize,
    subscriptions: TextSet,
}

pub struct TermView<R> {
    /// Requests not yet read, oldest first.
    pub requests: Seq<R>,
    /// How many readers wait for a request.
    pub readers: nat,
    /// Topics the terminal is subscribed to.
    pub subscriptions: Set<Seq<char>>,
}

impl<R> View for Term<R> {
    type V = TermView<R>;

    closed spec fn view(&self) -> TermView<R> {
        TermView {
            requests: self.requests@,
            readers: self.readers as nat,
            subscriptions: self.subscriptions@,
        }
    }
}

/// A request arrives: it goes to the longest-waiting reader, if any, or
/// is queued.
pub open spec fn spec_on_request<R>(v: TermView<R>, req: R) -> (TermView<R>, Option<R>) {
    if v.readers > 0 {
        (TermView { readers: (v.readers - 1) as nat, ..v }, Some(req))
    } else {
        (TermView { requests: v.requests.push(req), ..v }, None)
    }
}

/// A reader asks for a request: it gets the oldest queued one, if any, or
/// waits.
pub open spec fn spec_on_read<R>(v: TermView<R>) -> (TermView<R>, Option<R>) {
    if v.requests.len() > 0 {
        (TermView { requests: v.requests.drop_first(), ..v }, Some(v.requests[0]))
    } else {
        (TermView { readers: v.readers + 1, ..v }, None)
    }
}

/// The terminal after the requests `reqs` arrive, in order.
pub open spec fn arrive_all<R>(v: TermView<R>, reqs: Seq<R>) -> TermView<R>
    decreases reqs.len(),
{
    if reqs.len() == 0 {
        v
    } else {
        spec_on_request(arrive_all(v, reqs.drop_last()), reqs.last()).0
    }
}

/// The terminal after `n` reads, and what they returned, in order.
pub open spec fn read_times<R>(v: TermView<R>, n: nat) -> (TermView<R>, Seq<Option<R>>)
    decreases n,
{
    if n == 0 {
        (v, Seq::empty())
    } else {
        let (w, got) = read_times(v, (n - 1) as nat);
        let (x, r) = spec_on_read(w);
        (x, got.push(r))
    }
}

proof fn lemma_arrive_all<R>(v: TermView<R>, reqs: Seq<R>)
    requires
        v.readers == 0,
    ensures
        arrive_all(v, reqs).readers == 0,
        arrive_all(v, reqs).requests == v.requests + reqs,
    decreases reqs.len(),
{
    if reqs.len() > 0 {
        lemma_arrive_all(v, reqs.drop_last());
        assert(v.requests + reqs =~= (v.requests + reqs.drop_last()).push(reqs.last()));
    } else {
        assert(v.requests + reqs =~= v.requests);
    }
}

proof fn lemma_read_times<R>(v: TermView<R>, n: nat)
    requires
        n <= v.requests.len(),
    ensures
        read_times(v, n).0.requests == v.requests.skip(n as int),
        read_times(v, n).0.readers == v.readers,
        read_times(v, n).0.subscriptions == v.subscriptions,
        read_times(v, n).1 == v.requests.take(n as int).map_values(|r: R| Some(r)),
    decreases n,
{
    if n > 0 {
        lemma_read_times(v, (n - 1) as nat);
        let w = read_times(v, (n - 1) as nat).0;
        assert(w.requests.drop_first() =~= v.requests.skip(n as int));
        assert(w.requests[0] == v.requests[n - 1]);
        assert(v.requests.take(n as int).map_values(|r: R| Some(r)) =~= v.requests.take(
            n - 1,
        ).map_values(|r: R| Some(r)).push(Some(v.requests[n - 1])));
    } else {
        assert(v.requests.skip(0) =~= v.requests);
        assert(v.requests.take(0).map_values(|r: R| Some(r)) =~= Seq::<Option<R>>::empty());
    }
}

/// Law: requests are read in the order they arrived. After requests
/// arrive at a terminal where no request is queued and no reader waits,
/// reading as many times returns them in that order, and leaves the
/// terminal as it was.
pub proof fn law_requests_read_in_order<R>(v: TermView<R>, reqs: Seq<R>)
    requires
        v.readers == 0,
        v.requests.len() == 0,
    ensures
        read_times(arrive_all(v, reqs), reqs.len()).1 == reqs.map_values(|r: R| Some(r)),
        read_times(arrive_all(v, reqs), reqs.len()).0 == v,
{
    lemma_arrive_all(v, reqs);
    let w = arrive_all(v, reqs);
    assert(w.requests =~= reqs);
    lemma_read_times(w, reqs.len());
    assert(reqs.take(reqs.len() as int) =~= reqs);
    assert(reqs.skip(reqs.len() as int) =~= v.requests);
    lemma_arrive_subscriptions(v, reqs);
    let x = read_times(w, reqs.len()).0;
    assert(x.requests == v.requests);
    assert(x.readers == v.readers);
    assert(x.subscriptions == v.subscriptions);
}

proof fn lemma_arrive_subscriptions<R>(v: TermView<R>, reqs: Seq<R>)
    ensures
        arrive_all(v, reqs).subscriptions == v.subscriptions,
    decreases reqs.len(),
{
    if reqs.len() > 0 {
        lemma_arrive_subscriptions(v, reqs.drop_last());
    }
}

impl<R> Term<R> {
    /// Requests never wait while a reader waits; the subscriptions are a set.
    pub closed spec fn wf(&self) -> bool {
        &&& self.subscriptions.wf()
        &&& (self.requests@.len() == 0 || self.readers == 0)
    }

    /// No requests, readers or subscriptions.
    pub fn new() -> (r: Term<R>)
        ensures
            r.wf(),
            r@.requests == Seq::<R>::empty(),
            r@.readers == 0,
            r@.subscriptions == Set::<Seq<char>>::empty(),
    {
        Term { requests: Vec::new(), readers: 0, subscriptions: TextSet::new() }
    }

    /// A request arrives from the client. Where a reader waits, the request
    /// is returned for the longest-waiting reader; otherwise it is queued.
    pub fn on_request(&mut self, req: R) -> (r: Option<R>)
        requires
            old(self).wf(),
        ensures
            final(self).wf(),
            (final(self)@, r) == spec_on_request(old(self)@, req),
    {
        if self.readers > 0 {
            self.readers = self.readers - 1;
            Some(req)
        } else {
            self.requests.push(req);
            None
        }
    }

    /// A reader asks for a request: the oldest queued request is returned;
    /// where none is queued, the reader waits (after those waiting already).
    pub fn on_read(&mut self) -> (r: Option<R>)
        requires
            old(self).wf(),
            old(self)@.readers < usize::MAX,
        ensures
            final(self).wf(),
            (final(self)@, r) == spec_on_read(old(self)@),
    {
        if self.requests.len() > 0 {
            let req = self.requests.remove(0);
            Some(req)
        } else {
            self.readers = self.readers + 1;
            None
        }
    }

    /// The client starts a subscription to `topic`; whether the terminal
    /// held none to it already (one it held keeps running, unawaited).
    pub fn setup_subscription(&mut self, topic: String) -> (new: bool)
        requires
            old(self).wf(),
        ensures
            final(self).wf(),
            new == !old(self)@.subscriptions.contains(topic@),
            final(self)@.subscriptions == old(self)@.subscriptions.insert(topic@),
            final(self)@.requests == old(self)@.requests,
            final(self)@.readers == old(self)@.readers,
    {
        self.subscriptions.insert(topic)
    }

    /// The client ends its subscription to `topic`; whether the terminal
    /// held one, which is then to be stopped.
    pub fn teardown_subscription(&mut self, topic: &str) -> (held: bool)
        requires
            old(self).wf(),
        ensures
            final(self).wf(),
            held == old(self)@.subscriptions.contains(topic@),
            final(self)@.subscriptions == old(self)@.subscriptions.remove(topic@),
            final(self)@.requests == old(self)@.requests,
            final(self)@.readers == old(self)@.readers,
    {
        self.subscriptions.remove(topic)
    }
}

} // verus!
