//! Remote evaluations and client sessions carried over node links: which
//! evaluations await a reply, which run on behalf of a peer, and which
//! client sessions are bridged. The transport never retries an evaluation
//! after a link fails; an evaluation already running is not started twice.
use vstd::prelude::*;

use crate::registry::RegistryError;
use crate::value::Val;
use crate::wire::{val_of, WireVal};

verus! {

/// An evaluation on a link: the link and the evaluation's number.
#[derive(Debug, Clone, Copy, PartialEq, Eq, Structural)]
pub struct EvalKey {
    pub link: u64,
    pub id: u64,
}

/// A bridged session on a link: the link, whether this side serves it,
/// and the session's number.
#[derive(Debug, Clone, Copy, PartialEq, Eq, Structural)]
pub struct SessionKey {
    pub link: u64,
    pub server: bool,
    pub id: u64,
}

/// What arrived from a peer over a link (its payload stays with the caller).
#[derive(Debug, Clone, Copy, PartialEq, Eq, Structural)]
pub enum RemoteEvent {
    /// The peer asks to evaluate code.
    Eval { id: u64 },
    /// The peer answers an evaluation asked of it, with a registry checkpoint.
    Evaluated { id: u64 },
    /// The peer withdraws an evaluation it asked for.
    Cancel { id: u64 },
    /// The peer opens a client session that this side serves.
    Open { id: u64 },
    /// A client message for a session that this side serves.
    Client { id: u64 },
    /// A server message for a session that the peer serves, with a registry
    /// checkpoint where it is a response.
    Server { id: u64, has_snapshot: bool },
    /// The peer closed its end of a session.
    Close { id: u64, server: bool },
}

/// What to do about an event.
#[derive(Debug, Clone, Copy, PartialEq, Eq, Structural)]
pub enum RemoteAction {
    /// Nothing.
    Ignore,
    /// Start evaluating the peer's code (now counted as running).
    SpawnEvaluation { id: u64 },
    /// Apply the checkpoint; once applied, complete the evaluation.
    ApplySnapshotThenComplete { id: u64 },
    /// Abort the running evaluation (no longer counted).
    AbortEvaluation { id: u64 },
    /// Start a session for the peer's client; once it runs, add the bridge.
    OpenServerSession { id: u64 },
    /// Hand the message to the session's bridge.
    Deliver { key: SessionKey },
    /// Apply the checkpoint; once applied, hand the message to the bridge.
    ApplySnapshotThenDeliver { key: SessionKey },
    /// Abort the session's bridge (no longer counted).
    AbortSession { key: SessionKey },
}

/// The bookkeeping of remote evaluations and sessions.
pub struct RemoteSessions {
    pending: Vec<EvalKey>,
    evaluations: Vec<EvalKey>,
    sessions: Vec<SessionKey>,
}

pub struct RemoteView {
    /// Evaluations asked of peers whose replies are awaited.
    pub pending: Set<EvalKey>,
    /// Evaluations running on behalf of peers.
    pub evaluations: Set<EvalKey>,
    /// Bridged sessions.
    pub sessions: Set<SessionKey>,
}

pub open spec fn no_dup<T>(s: Seq<T>) -> bool {
    forall|i: int, j: int| 0 <= i < j < s.len() ==> s[i] != s[j]
}

pub open spec fn set_of<T>(s: Seq<T>) -> Set<T> {
    Set::new(|k: T| s.contains(k))
}

impl View for RemoteSessions {
    type V = RemoteView;

    closed spec fn view(&self) -> RemoteView {
        RemoteView {
            pending: set_of(self.pending@),
            evaluations: set_of(self.evaluations@),
            sessions: set_of(self.sessions@),
        }
    }
}

/// The evaluation keys of `s` that are not on `link`.
pub open spec fn evals_off(s: Set<EvalKey>, link: u64) -> Set<EvalKey> {
    s.filter(|k: EvalKey| k.link != link)
}

/// The session keys of `s` that are not on `link`.
pub open spec fn sessions_off(s: Set<SessionKey>, link: u64) -> Set<SessionKey> {
    s.filter(|k: SessionKey| k.link != link)
}

fn find_eval(v: &Vec<EvalKey>, key: EvalKey) -> (r: Option<usize>)
    ensures
        match r {
            Some(p) => p < v.len() && v@[p as int] == key,
            None => !v@.contains(key),
        },
{
    let mut i: usize = 0;
    while i < v.len()
        invariant
            i <= v.len(),
            forall|j: int| 0 <= j < i ==> v@[j] != key,
        decreases v.len() - i,
    {
        if v[i] == key {
            return Some(i);
        }
        i = i + 1;
    }
    None
}

fn find_session(v: &Vec<SessionKey>, key: SessionKey) -> (r: Option<usize>)
    ensures
        match r {
            Some(p) => p < v.len() && v@[p as int] == key,
            None => !v@.contains(key),
        },
{
    let mut i: usize = 0;
    while i < v.len()
        invariant
            i <= v.len(),
            forall|j: int| 0 <= j < i ==> v@[j] != key,
        decreases v.len() - i,
    {
        if v[i] == key {
            return Some(i);
        }
        i = i + 1;
    }
    None
}

proof fn lemma_remove_at<T>(s: Seq<T>, p: int)
    requires
        no_dup(s),
        0 <= p < s.len(),
    ensures
        no_dup(s.remove(p)),
        set_of(s.remove(p)) == set_of(s).remove(s[p]),
{
    let r = s.remove(p);
    assert forall|k: T| set_of(r).contains(k) <==> set_of(s).remove(s[p]).contains(k) by {
        if r.contains(k) {
            let i = choose|i: int| 0 <= i < r.len() && r[i] == k;
            if i < p {
                assert(s[i] == k);
            } else {
                assert(s[i + 1] == k);
            }
        }
        if s.contains(k) && k != s[p] {
            let i = choose|i: int| 0 <= i < s.len() && s[i] == k;
            if i < p {
                assert(r[i] == k);
            } else {
                assert(i != p);
                assert(r[i - 1] == k);
            }
        }
    }
    assert(set_of(r) =~= set_of(s).remove(s[p]));
}

proof fn lemma_push<T>(s: Seq<T>, k: T)
    requires
        no_dup(s),
        !s.contains(k),
    ensures
        no_dup(s.push(k)),
        set_of(s.push(k)) == set_of(s).insert(k),
{
    let r = s.push(k);
    assert forall|x: T| set_of(r).contains(x) <==> set_of(s).insert(k).contains(x) by {
        if r.contains(x) {
            let i = choose|i: int| 0 <= i < r.len() && r[i] == x;
            if i < s.len() {
                assert(s[i] == x);
            }
        }
        if s.contains(x) {
            let i = choose|i: int| 0 <= i < s.len() && s[i] == x;
            assert(r[i] == x);
        }
        if x == k {
            assert(r[s.len() as int] == x);
        }
    }
    assert(set_of(r) =~= set_of(s).insert(k));
}

/// Adds `key` to the evaluation keys `v`; whether it was new.
fn insert_eval(v: &mut Vec<EvalKey>, key: EvalKey) -> (added: bool)
    requires
        no_dup(old(v)@),
    ensures
        no_dup(final(v)@),
        added == !set_of(old(v)@).contains(key),
        set_of(final(v)@) == set_of(old(v)@).insert(key),
        !added ==> final(v)@ == old(v)@,
{
    match find_eval(v, key) {
        Some(_) => {
            proof {
                assert(set_of(v@) =~= set_of(v@).insert(key));
            }
            false
        },
        None => {
            proof {
                lemma_push(v@, key);
            }
            v.push(key);
            true
        },
    }
}

/// Removes `key` from the evaluation keys `v`; whether it was there.
fn remove_eval(v: &mut Vec<EvalKey>, key: EvalKey) -> (r: bool)
    requires
        no_dup(old(v)@),
    ensures
        no_dup(final(v)@),
        r == set_of(old(v)@).contains(key),
        set_of(final(v)@) == set_of(old(v)@).remove(key),
        !r ==> final(v)@ == old(v)@,
{
    match find_eval(v, key) {
        Some(p) => {
            proof {
                lemma_remove_at(v@, p as int);
            }
            v.remove(p);
            true
        },
        None => {
            proof {
                assert(set_of(v@) =~= set_of(v@).remove(key));
            }
            false
        },
    }
}

/// Adds `key` to the session keys `v`.
fn insert_session(v: &mut Vec<SessionKey>, key: SessionKey)
    requires
        no_dup(old(v)@),
    ensures
        no_dup(final(v)@),
        set_of(final(v)@) == set_of(old(v)@).insert(key),
{
    match find_session(v, key) {
        Some(_) => {
            proof {
                assert(set_of(v@) =~= set_of(v@).insert(key));
            }
        },
        None => {
            proof {
                lemma_push(v@, key);
            }
            v.push(key);
        },
    }
}

/// Removes `key` from the session keys `v`; whether it was there.
fn remove_session(v: &mut Vec<SessionKey>, key: SessionKey) -> (r: bool)
    requires
        no_dup(old(v)@),
    ensures
        no_dup(final(v)@),
        r == set_of(old(v)@).contains(key),
        set_of(final(v)@) == set_of(old(v)@).remove(key),
        !r ==> final(v)@ == old(v)@,
{
    match find_session(v, key) {
        Some(p) => {
            proof {
                lemma_remove_at(v@, p as int);
            }
            v.remove(p);
            true
        },
        None => {
            proof {
                assert(set_of(v@) =~= set_of(v@).remove(key));
            }
            false
        },
    }
}

/// The evaluation keys of `v` not in `finished`, and those in it.
fn split_evals(v: &Vec<EvalKey>, finished: &Vec<EvalKey>) -> (r: (
    Vec<EvalKey>,
    Vec<EvalKey>,
))
    requires
        no_dup(v@),
    ensures
        no_dup(r.0@),
        no_dup(r.1@),
        set_of(r.0@) == set_of(v@).filter(|k: EvalKey| !finished@.contains(k)),
        set_of(r.1@) == set_of(v@).filter(|k: EvalKey| finished@.contains(k)),
{
    let mut keep: Vec<EvalKey> = Vec::new();
    let mut drop: Vec<EvalKey> = Vec::new();
    let mut i: usize = 0;
    while i < v.len()
        invariant
            i <= v.len(),
            no_dup(v@),
            no_dup(keep@),
            no_dup(drop@),
            forall|k: EvalKey| keep@.contains(k) <==> (v@.take(i as int).contains(k) && !finished@.contains(k)),
            forall|k: EvalKey| drop@.contains(k) <==> (v@.take(i as int).contains(k) && finished@.contains(k)),
        decreases v.len() - i,
    {
        let k = v[i];
        let ghost t = v@.take(i + 1);
        proof {
            assert(t =~= v@.take(i as int).push(k));
            assert(!v@.take(i as int).contains(k)) by {
                if v@.take(i as int).contains(k) {
                    let j = choose|j: int| 0 <= j < i && v@.take(i as int)[j] == k;
                    assert(v@[j] == v@[i as int]);
                }
            }
            assert forall|x: EvalKey| t.contains(x) <==> (v@.take(i as int).contains(x) || x == k) by {
                if t.contains(x) {
                    let j = choose|j: int| 0 <= j < t.len() && t[j] == x;
                    if j < i {
                        assert(v@.take(i as int)[j] == x);
                    }
                }
                if v@.take(i as int).contains(x) {
                    let j = choose|j: int| 0 <= j < i && v@.take(i as int)[j] == x;
                    assert(t[j] == x);
                }
                if x == k {
                    assert(t[i as int] == x);
                }
            }
        }
        let ghost keep0 = keep@;
        let ghost drop0 = drop@;
        let found = find_eval(finished, k).is_some();
        if found {
            proof {
                lemma_push(drop@, k);
            }
            drop.push(k);
        } else {
            proof {
                lemma_push(keep@, k);
            }
            keep.push(k);
        }
        proof {
            assert forall|x: EvalKey| keep@.contains(x) <==> (t.contains(x) && !finished@.contains(x)) by {
                assert(set_of(keep@).contains(x) == keep@.contains(x));
                assert(set_of(keep0).contains(x) == keep0.contains(x));
            }
            assert forall|x: EvalKey| drop@.contains(x) <==> (t.contains(x) && finished@.contains(x)) by {
                assert(set_of(drop@).contains(x) == drop@.contains(x));
                assert(set_of(drop0).contains(x) == drop0.contains(x));
            }
        }
        i = i + 1;
    }
    proof {
        assert(v@.take(v.len() as int) =~= v@);
        assert(set_of(keep@) =~= set_of(v@).filter(|k: EvalKey| !finished@.contains(k)));
        assert(set_of(drop@) =~= set_of(v@).filter(|k: EvalKey| finished@.contains(k)));
    }
    (keep, drop)
}

/// The evaluation keys of `v` not on `link`, and those on it.
fn split_evals_by_link(v: &Vec<EvalKey>, link: u64) -> (r: (
    Vec<EvalKey>,
    Vec<EvalKey>,
))
    requires
        no_dup(v@),
    ensures
        no_dup(r.0@),
        no_dup(r.1@),
        set_of(r.0@) == set_of(v@).filter(|k: EvalKey| k.link != link),
        set_of(r.1@) == set_of(v@).filter(|k: EvalKey| k.link == link),
{
    let mut keep: Vec<EvalKey> = Vec::new();
    let mut drop: Vec<EvalKey> = Vec::new();
    let mut i: usize = 0;
    while i < v.len()
        invariant
            i <= v.len(),
            no_dup(v@),
            no_dup(keep@),
            no_dup(drop@),
            forall|k: EvalKey| keep@.contains(k) <==> (v@.take(i as int).contains(k) && k.link != link),
            forall|k: EvalKey| drop@.contains(k) <==> (v@.take(i as int).contains(k) && k.link == link),
        decreases v.len() - i,
    {
        let k = v[i];
        let ghost t = v@.take(i + 1);
        proof {
            assert(t =~= v@.take(i as int).push(k));
            assert(!v@.take(i as int).contains(k)) by {
                if v@.take(i as int).contains(k) {
                    let j = choose|j: int| 0 <= j < i && v@.take(i as int)[j] == k;
                    assert(v@[j] == v@[i as int]);
                }
            }
            assert forall|x: EvalKey| t.contains(x) <==> (v@.take(i as int).contains(x) || x == k) by {
                if t.contains(x) {
                    let j = choose|j: int| 0 <= j < t.len() && t[j] == x;
                    if j < i {
                        assert(v@.take(i as int)[j] == x);
                    }
                }
                if v@.take(i as int).contains(x) {
                    let j = choose|j: int| 0 <= j < i && v@.take(i as int)[j] == x;
                    assert(t[j] == x);
                }
                if x == k {
                    assert(t[i as int] == x);
                }
            }
        }
        let ghost keep0 = keep@;
        let ghost drop0 = drop@;
        let found = k.link == link;
        if found {
            proof {
                lemma_push(drop@, k);
            }
            drop.push(k);
        } else {
            proof {
                lemma_push(keep@, k);
            }
            keep.push(k);
        }
        proof {
            assert forall|x: EvalKey| keep@.contains(x) <==> (t.contains(x) && x.link != link) by {
                assert(set_of(keep@).contains(x) == keep@.contains(x));
                assert(set_of(keep0).contains(x) == keep0.contains(x));
            }
            assert forall|x: EvalKey| drop@.contains(x) <==> (t.contains(x) && x.link == link) by {
                assert(set_of(drop@).contains(x) == drop@.contains(x));
                assert(set_of(drop0).contains(x) == drop0.contains(x));
            }
        }
        i = i + 1;
    }
    proof {
        assert(v@.take(v.len() as int) =~= v@);
        assert(set_of(keep@) =~= set_of(v@).filter(|k: EvalKey| k.link != link));
        assert(set_of(drop@) =~= set_of(v@).filter(|k: EvalKey| k.link == link));
    }
    (keep, drop)
}

/// The session keys of `v` not on `link`, and those on it.
fn split_sessions_by_link(v: &Vec<SessionKey>, link: u64) -> (r: (
    Vec<SessionKey>,
    Vec<SessionKey>,
))
    requires
        no_dup(v@),
    ensures
        no_dup(r.0@),
        no_dup(r.1@),
        set_of(r.0@) == set_of(v@).filter(|k: SessionKey| k.link != link),
        set_of(r.1@) == set_of(v@).filter(|k: SessionKey| k.link == link),
{
    let mut keep: Vec<SessionKey> = Vec::new();
    let mut drop: Vec<SessionKey> = Vec::new();
    let mut i: usize = 0;
    while i < v.len()
        invariant
            i <= v.len(),
            no_dup(v@),
            no_dup(keep@),
            no_dup(drop@),
            forall|k: SessionKey| keep@.contains(k) <==> (v@.take(i as int).contains(k) && k.link != link),
            forall|k: SessionKey| drop@.contains(k) <==> (v@.take(i as int).contains(k) && k.link == link),
        decreases v.len() - i,
    {
        let k = v[i];
        let ghost t = v@.take(i + 1);
        proof {
            assert(t =~= v@.take(i as int).push(k));
            assert(!v@.take(i as int).contains(k)) by {
                if v@.take(i as int).contains(k) {
                    let j = choose|j: int| 0 <= j < i && v@.take(i as int)[j] == k;
                    assert(v@[j] == v@[i as int]);
                }
            }
            assert forall|x: SessionKey| t.contains(x) <==> (v@.take(i as int).contains(x) || x == k) by {
                if t.contains(x) {
                    let j = choose|j: int| 0 <= j < t.len() && t[j] == x;
                    if j < i {
                        assert(v@.take(i as int)[j] == x);
                    }
                }
                if v@.take(i as int).contains(x) {
                    let j = choose|j: int| 0 <= j < i && v@.take(i as int)[j] == x;
                    assert(t[j] == x);
                }
                if x == k {
                    assert(t[i as int] == x);
                }
            }
        }
        let ghost keep0 = keep@;
        let ghost drop0 = drop@;
        let found = k.link == link;
        if found {
            proof {
                lemma_push(drop@, k);
            }
            drop.push(k);
        } else {
            proof {
                lemma_push(keep@, k);
            }
            keep.push(k);
        }
        proof {
            assert forall|x: SessionKey| keep@.contains(x) <==> (t.contains(x) && x.link != link) by {
                assert(set_of(keep@).contains(x) == keep@.contains(x));
                assert(set_of(keep0).contains(x) == keep0.contains(x));
            }
            assert forall|x: SessionKey| drop@.contains(x) <==> (t.contains(x) && x.link == link) by {
                assert(set_of(drop@).contains(x) == drop@.contains(x));
                assert(set_of(drop0).contains(x) == drop0.contains(x));
            }
        }
        i = i + 1;
    }
    proof {
        assert(v@.take(v.len() as int) =~= v@);
        assert(set_of(keep@) =~= set_of(v@).filter(|k: SessionKey| k.link != link));
        assert(set_of(drop@) =~= set_of(v@).filter(|k: SessionKey| k.link == link));
    }
    (keep, drop)
}

/// `v` with other running evaluations.
pub open spec fn with_evaluations(v: RemoteView, evaluations: Set<EvalKey>) -> RemoteView {
    RemoteView { pending: v.pending, evaluations, sessions: v.sessions }
}

/// `v` with other bridged sessions.
pub open spec fn with_sessions(v: RemoteView, sessions: Set<SessionKey>) -> RemoteView {
    RemoteView { pending: v.pending, evaluations: v.evaluations, sessions }
}

/// The state after an event, and what to do about it. Evaluations that
/// have finished are forgotten first.
pub open spec fn spec_incoming(v: RemoteView, link: u64, event: RemoteEvent, finished: Set<EvalKey>) -> (
    RemoteView,
    RemoteAction,
) {
    let v0 = with_evaluations(v, v.evaluations.difference(finished));
    match event {
        RemoteEvent::Eval { id } => {
            let k = EvalKey { link, id };
            if v0.evaluations.contains(k) {
                (v0, RemoteAction::Ignore)
            } else {
                (
                    with_evaluations(v0, v0.evaluations.insert(k)),
                    RemoteAction::SpawnEvaluation { id },
                )
            }
        },
        RemoteEvent::Evaluated { id } => (v0, RemoteAction::ApplySnapshotThenComplete { id }),
        RemoteEvent::Cancel { id } => {
            let k = EvalKey { link, id };
            if v0.evaluations.contains(k) {
                (
                    with_evaluations(v0, v0.evaluations.remove(k)),
                    RemoteAction::AbortEvaluation { id },
                )
            } else {
                (v0, RemoteAction::Ignore)
            }
        },
        RemoteEvent::Open { id } => {
            if v0.sessions.contains(SessionKey { link, server: true, id }) {
                (v0, RemoteAction::Ignore)
            } else {
                (v0, RemoteAction::OpenServerSession { id })
            }
        },
        RemoteEvent::Client { id } => {
            let key = SessionKey { link, server: true, id };
            if v0.sessions.contains(key) {
                (v0, RemoteAction::Deliver { key })
            } else {
                (v0, RemoteAction::Ignore)
            }
        },
        RemoteEvent::Server { id, has_snapshot } => {
            let key = SessionKey { link, server: false, id };
            if has_snapshot {
                (v0, RemoteAction::ApplySnapshotThenDeliver { key })
            } else if v0.sessions.contains(key) {
                (v0, RemoteAction::Deliver { key })
            } else {
                (v0, RemoteAction::Ignore)
            }
        },
        RemoteEvent::Close { id, server } => {
            let key = SessionKey { link, server: !server, id };
            if v0.sessions.contains(key) {
                (with_sessions(v0, v0.sessions.remove(key)), RemoteAction::AbortSession { key })
            } else {
                (v0, RemoteAction::Ignore)
            }
        },
    }
}

/// Law: an evaluation that a peer asked for and that still runs is not
/// started again when the peer asks again.
pub proof fn law_running_evaluation_not_restarted(
    v: RemoteView,
    link: u64,
    id: u64,
    finished: Set<EvalKey>,
)
    requires
        v.evaluations.contains(EvalKey { link, id }),
        !finished.contains(EvalKey { link, id }),
    ensures
        spec_incoming(v, link, RemoteEvent::Eval { id }, finished).1 == RemoteAction::Ignore,
        spec_incoming(v, link, RemoteEvent::Eval { id }, finished).0.evaluations.contains(
            EvalKey { link, id },
        ),
{
}

/// Law: once a link went down, nothing on it is awaited, running or
/// bridged any more: a reply that arrives later for an evaluation asked over
/// it is not delivered, and no evaluation is retried.
pub proof fn law_disconnect_forgets_link(v: RemoteView, link: u64, id: u64, server: bool)
    ensures
        !evals_off(v.pending, link).contains(EvalKey { link, id }),
        !evals_off(v.evaluations, link).contains(EvalKey { link, id }),
        !sessions_off(v.sessions, link).contains(SessionKey { link, server, id }),
{
}

impl RemoteSessions {
    /// No key is held twice.
    pub closed spec fn wf(&self) -> bool {
        no_dup(self.pending@) && no_dup(self.evaluations@) && no_dup(self.sessions@)
    }

    /// No evaluations and no sessions.
    pub fn new() -> (r: RemoteSessions)
        ensures
            r.wf(),
            r@.pending == Set::<EvalKey>::empty(),
            r@.evaluations == Set::<EvalKey>::empty(),
            r@.sessions == Set::<SessionKey>::empty(),
    {
        let r = RemoteSessions { pending: Vec::new(), evaluations: Vec::new(), sessions: Vec::new() };
        proof {
            assert(set_of(r.pending@) =~= Set::<EvalKey>::empty());
            assert(set_of(r.evaluations@) =~= Set::<EvalKey>::empty());
            assert(set_of(r.sessions@) =~= Set::<SessionKey>::empty());
        }
        r
    }

    /// Records an evaluation asked of the peer on `link`: its reply is
    /// awaited once the request was sent (`sent`); if sending failed, no
    /// reply is awaited under its number.
    pub fn start_eval(&mut self, link: u64, id: u64, sent: bool)
        requires
            old(self).wf(),
        ensures
            final(self).wf(),
            final(self)@.pending == (if sent {
                old(self)@.pending.insert(EvalKey { link, id })
            } else {
                old(self)@.pending.remove(EvalKey { link, id })
            }),
            final(self)@.evaluations == old(self)@.evaluations,
            final(self)@.sessions == old(self)@.sessions,
    {
        let k = EvalKey { link, id };
        if sent {
            insert_eval(&mut self.pending, k);
        } else {
            remove_eval(&mut self.pending, k);
        }
    }

    /// Withdraws an evaluation asked of the peer; whether it was awaited,
    /// and so whether the peer is to be told to cancel it.
    pub fn cancel_eval(&mut self, link: u64, id: u64) -> (send_cancel: bool)
        requires
            old(self).wf(),
        ensures
            final(self).wf(),
            send_cancel == old(self)@.pending.contains(EvalKey { link, id }),
            final(self)@.pending == old(self)@.pending.remove(EvalKey { link, id }),
            final(self)@.evaluations == old(self)@.evaluations,
            final(self)@.sessions == old(self)@.sessions,
    {
        remove_eval(&mut self.pending, EvalKey { link, id })
    }

    /// Settles an awaited evaluation once its reply's checkpoint was
    /// applied; whether a caller still awaits it (and gets the result).
    pub fn complete_eval(&mut self, link: u64, id: u64) -> (reply: bool)
        requires
            old(self).wf(),
        ensures
            final(self).wf(),
            reply == old(self)@.pending.contains(EvalKey { link, id }),
            final(self)@.pending == old(self)@.pending.remove(EvalKey { link, id }),
            final(self)@.evaluations == old(self)@.evaluations,
            final(self)@.sessions == old(self)@.sessions,
    {
        remove_eval(&mut self.pending, EvalKey { link, id })
    }

    /// The answer to evaluation `id` that this side asked of the peer on
    /// `link`, once the checkpoint that came with it was `applied`: if that
    /// failed, the error, and the evaluation stays awaited; otherwise the
    /// evaluation is settled and, if a caller still awaits it, the caller
    /// gets the peer's `result` (an error there is an evaluation error).
    pub fn evaluated(
        &mut self,
        link: u64,
        id: u64,
        applied: Result<(), RegistryError>,
        result: Result<WireVal, String>,
    ) -> (r: Result<Option<Result<Val, String>>, RegistryError>)
        requires
            old(self).wf(),
        ensures
            final(self).wf(),
            match applied {
                Err(e) => r == Err::<Option<Result<Val, String>>, RegistryError>(e) && final(self)@
                    == old(self)@,
                Ok(_) => {
                    &&& final(self)@.pending == old(self)@.pending.remove(EvalKey { link, id })
                    &&& final(self)@.evaluations == old(self)@.evaluations
                    &&& final(self)@.sessions == old(self)@.sessions
                    &&& r matches Ok(reply)
                    &&& (reply is Some <==> old(self)@.pending.contains(EvalKey { link, id }))
                    &&& (reply matches Some(v) ==> match result {
                        Ok(w) => v matches Ok(x) && x@ == val_of(w@),
                        Err(m) => v == Err::<Val, String>(m),
                    })
                },
            },
    {
        match applied {
            Err(e) => Err(e),
            Ok(_) => {
                let awaited = self.complete_eval(link, id);
                if awaited {
                    match result {
                        Ok(w) => Ok(Some(Ok(w.into_val()))),
                        Err(m) => Ok(Some(Err(m))),
                    }
                } else {
                    Ok(None)
                }
            },
        }
    }

    /// Whether the session is bridged.
    pub fn has_session(&self, key: SessionKey) -> (r: bool)
        ensures
            r == self@.sessions.contains(key),
    {
        find_session(&self.sessions, key).is_some()
    }

    /// Records a bridged session.
    pub fn add_session(&mut self, key: SessionKey)
        requires
            old(self).wf(),
        ensures
            final(self).wf(),
            final(self)@.sessions == old(self)@.sessions.insert(key),
            final(self)@.pending == old(self)@.pending,
            final(self)@.evaluations == old(self)@.evaluations,
    {
        insert_session(&mut self.sessions, key);
    }

    /// Records a client session opened to the peer on `link` (its `Open`
    /// was sent).
    pub fn open(&mut self, link: u64, id: u64)
        requires
            old(self).wf(),
        ensures
            final(self).wf(),
            final(self)@.sessions == old(self)@.sessions.insert(SessionKey { link, server: false, id }),
            final(self)@.pending == old(self)@.pending,
            final(self)@.evaluations == old(self)@.evaluations,
    {
        insert_session(&mut self.sessions, SessionKey { link, server: false, id });
    }

    /// Drops a session whose bridge could not take a message (a slow client
    /// must not hold up the link); whether it was bridged, and so is to be
    /// aborted.
    pub fn drop_session(&mut self, key: SessionKey) -> (abort: bool)
        requires
            old(self).wf(),
        ensures
            final(self).wf(),
            abort == old(self)@.sessions.contains(key),
            final(self)@.sessions == old(self)@.sessions.remove(key),
            final(self)@.pending == old(self)@.pending,
            final(self)@.evaluations == old(self)@.evaluations,
    {
        remove_session(&mut self.sessions, key)
    }

    /// Decides about an event from the peer on `link`, after forgetting the
    /// evaluations whose tasks have finished.
    pub fn incoming(&mut self, link: u64, event: RemoteEvent, finished: &Vec<EvalKey>) -> (action:
        RemoteAction)
        requires
            old(self).wf(),
        ensures
            final(self).wf(),
            final(self)@ == spec_incoming(old(self)@, link, event, set_of(finished@)).0,
            action == spec_incoming(old(self)@, link, event, set_of(finished@)).1,
    {
        let ghost v = self@;
        let (keep, _done) = split_evals(&self.evaluations, finished);
        self.evaluations = keep;
        proof {
            assert(self@.evaluations =~= v.evaluations.difference(set_of(finished@)));
            assert(self@ == with_evaluations(v, v.evaluations.difference(set_of(finished@))));
        }
        match event {
            RemoteEvent::Eval { id } => {
                let added = insert_eval(&mut self.evaluations, EvalKey { link, id });
                if added {
                    RemoteAction::SpawnEvaluation { id }
                } else {
                    RemoteAction::Ignore
                }
            },
            RemoteEvent::Evaluated { id } => {
                RemoteAction::ApplySnapshotThenComplete { id }
            },
            RemoteEvent::Cancel { id } => {
                let removed = remove_eval(&mut self.evaluations, EvalKey { link, id });
                if removed {
                    RemoteAction::AbortEvaluation { id }
                } else {
                    RemoteAction::Ignore
                }
            },
            RemoteEvent::Open { id } => {
                if find_session(&self.sessions, SessionKey { link, server: true, id }).is_some() {
                    RemoteAction::Ignore
                } else {
                    RemoteAction::OpenServerSession { id }
                }
            },
            RemoteEvent::Client { id } => {
                let key = SessionKey { link, server: true, id };
                if find_session(&self.sessions, key).is_some() {
                    RemoteAction::Deliver { key }
                } else {
                    RemoteAction::Ignore
                }
            },
            RemoteEvent::Server { id, has_snapshot } => {
                let key = SessionKey { link, server: false, id };
                if has_snapshot {
                    RemoteAction::ApplySnapshotThenDeliver { key }
                } else if find_session(&self.sessions, key).is_some() {
                    RemoteAction::Deliver { key }
                } else {
                    RemoteAction::Ignore
                }
            },
            RemoteEvent::Close { id, server } => {
                let key = SessionKey { link, server: !server, id };
                let removed = remove_session(&mut self.sessions, key);
                if removed {
                    RemoteAction::AbortSession { key }
                } else {
                    RemoteAction::Ignore
                }
            },
        }
    }

    /// Forgets everything on a link that went down: no reply is awaited
    /// from it any more; its evaluations and sessions (returned) are to be
    /// aborted.
    pub fn disconnect(&mut self, link: u64) -> (aborted: (Vec<EvalKey>, Vec<SessionKey>))
        requires
            old(self).wf(),
        ensures
            final(self).wf(),
            final(self)@.pending == evals_off(old(self)@.pending, link),
            final(self)@.evaluations == evals_off(old(self)@.evaluations, link),
            final(self)@.sessions == sessions_off(old(self)@.sessions, link),
            set_of(aborted.0@) == old(self)@.evaluations.filter(|k: EvalKey| k.link == link),
            set_of(aborted.1@) == old(self)@.sessions.filter(|k: SessionKey| k.link == link),
    {
        let ghost v = self@;
        let (pending, _gone) = split_evals_by_link(&self.pending, link);
        let (evaluations, evals_gone) = split_evals_by_link(&self.evaluations, link);
        let (sessions, sessions_gone) = split_sessions_by_link(&self.sessions, link);
        self.pending = pending;
        self.evaluations = evaluations;
        self.sessions = sessions;
        proof {
            assert(self@.pending =~= evals_off(v.pending, link));
            assert(self@.evaluations =~= evals_off(v.evaluations, link));
            assert(self@.sessions =~= sessions_off(v.sessions, link));
        }
        (evals_gone, sessions_gone)
    }
}

} // verus!
