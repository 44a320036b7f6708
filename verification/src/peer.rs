//! Node links: the messages nodes exchange, what one session does with the
//! lines it reads, and how the link manager decides on listeners, wanted
//! endpoints, doubled links, and what arrives from linked nodes.
//!
//! The manager itself runs elsewhere: it performs what these decisions say
//! (binding, connecting, sending, shutting sessions down) and reports back.
use vstd::prelude::*;
use vstd::string::*;

use crate::endpoint::{
    preferred_direction, spec_parse_endpoint, spec_valid_node_name, valid_node_name, Direction,
    EndpointView, NodeEndpoint,
};
use crate::pid::ProcessId;
use crate::registry::ServiceDescription;
use crate::text::{decimal, format_u16, seq_lt, str_eq};
use crate::value::Val;
use crate::wire::{crosses, val_of, WireError, WireVal};

verus! {

/// What nodes send each other over a link, one message per line.
#[derive(Debug)]
pub enum PeerMessage {
    /// The first message of each side: who it is.
    Hello { node: String },
    /// Sent periodically so that a silent link can be detected.
    Heartbeat,
    /// All services of the sending node.
    RegistrySnapshot { services: Vec<ServiceDescription> },
    /// A service of the sending node came up.
    RegistryUp { service: ServiceDescription },
    /// A service of the sending node went away.
    RegistryDown { name: String, pid: ProcessId },
    /// A message for a process of the receiving node.
    Deliver { pid: ProcessId, contents: WireVal },
}

/// How often a session sends a heartbeat, in seconds.
pub const HEARTBEAT_INTERVAL_SECS: u64 = 5;

/// How long a session waits for word from a node that introduced itself
/// before it gives the link up, in seconds.
pub const HEARTBEAT_TIMEOUT_SECS: u64 = 15;

/// What a session does with a message it read.
#[derive(Debug, PartialEq, Eq)]
pub enum SessionStep {
    /// The remote node introduced itself: report the link as connected.
    Connected(String),
    /// A heartbeat: the link is alive.
    Alive,
    /// Pass the message on to the manager as coming from this node.
    Forward(String),
    /// Drop the message.
    Ignore,
}

impl SessionStep {
    /// Whether the step shows the link alive, so that the session's silence
    /// timeout starts over: everything but an ignored message does.
    pub fn keeps_alive(&self) -> (r: bool)
        ensures
            r == !(self is Ignore),
    {
        match self {
            SessionStep::Ignore => false,
            _ => true,
        }
    }
}

/// One session's knowledge of its remote side.
pub struct Session {
    remote_node: Option<String>,
}

impl View for Session {
    type V = Option<Seq<char>>;

    closed spec fn view(&self) -> Option<Seq<char>> {
        match &self.remote_node {
            Some(n) => Some(n@),
            None => None,
        }
    }
}

/// The session's step for a message, and its remote node afterwards. Until
/// a node introduces itself with a valid name, nothing it sends counts;
/// afterwards everything it sends keeps the link alive.
pub open spec fn spec_session_step(remote: Option<Seq<char>>, msg: &PeerMessage) -> (
    Option<Seq<char>>,
    Option<Seq<char>>,
    bool,
) {
    // (remote afterwards, node reported as connected, whether it is forwarded)
    match msg {
        PeerMessage::Hello { node } => if remote is None && spec_valid_node_name(node@) {
            (Some(node@), Some(node@), false)
        } else {
            (remote, None, remote is Some)
        },
        PeerMessage::Heartbeat => (remote, None, false),
        _ => (remote, None, remote is Some),
    }
}

impl Session {
    /// A session that has not heard from its remote side yet.
    pub fn new() -> (r: Session)
        ensures
            r@ is None,
    {
        Session { remote_node: None }
    }

    /// What a session writes first, before it reads anything: this node's
    /// introduction.
    pub fn greeting(local: &str) -> (r: PeerMessage)
        ensures
            r matches PeerMessage::Hello { node } && node@ == local@,
    {
        PeerMessage::Hello { node: String::from_str(local) }
    }

    /// What a session writes at each tick of its heartbeat interval, whether
    /// or not the remote node introduced itself: a heartbeat.
    pub fn on_tick(&self) -> (r: PeerMessage)
        ensures
            r is Heartbeat,
    {
        PeerMessage::Heartbeat
    }

    /// The remote node, once it introduced itself.
    pub fn remote_node(&self) -> (r: Option<&String>)
        ensures
            match r {
                Some(n) => self@ == Some(n@),
                None => self@ is None,
            },
    {
        self.remote_node.as_ref()
    }

    /// What to do with a message read from the link.
    pub fn on_message(&mut self, msg: &PeerMessage) -> (r: SessionStep)
        ensures
            ({
                let (after, connected, forwarded) = spec_session_step(old(self)@, msg);
                &&& final(self)@ == after
                &&& match r {
                    SessionStep::Connected(n) => connected == Some(n@),
                    SessionStep::Alive => connected is None && !forwarded && msg is Heartbeat
                        && old(self)@ is Some,
                    SessionStep::Forward(n) => connected is None && forwarded && old(self)@ == Some(
                        n@,
                    ),
                    SessionStep::Ignore => connected is None && !forwarded && !(msg is Heartbeat
                        && old(self)@ is Some),
                }
            }),
    {
        match msg {
            PeerMessage::Hello { node } => {
                if self.remote_node.is_none() && valid_node_name(node.as_str()) {
                    self.remote_node = Some(node.clone());
                    return SessionStep::Connected(node.clone());
                }
            },
            PeerMessage::Heartbeat => {
                return if self.remote_node.is_some() {
                    SessionStep::Alive
                } else {
                    SessionStep::Ignore
                };
            },
            _ => {},
        }
        match &self.remote_node {
            Some(n) => SessionStep::Forward(n.clone()),
            None => SessionStep::Ignore,
        }
    }

    /// The node to report as disconnected when the session ends.
    pub fn on_end(&self) -> (r: Option<String>)
        ensures
            match r {
                Some(n) => self@ == Some(n@),
                None => self@ is None,
            },
    {
        match &self.remote_node {
            Some(n) => Some(n.clone()),
            None => None,
        }
    }
}

/// A session run over the messages `msgs`, from a new session: its remote
/// node at the end, and the nodes it reported as connected, in order.
pub open spec fn session_run(msgs: Seq<PeerMessage>) -> (Option<Seq<char>>, Seq<Seq<char>>)
    decreases msgs.len(),
{
    if msgs.len() == 0 {
        (None, Seq::empty())
    } else {
        let (remote, reported) = session_run(msgs.drop_last());
        let (after, connected, _forwarded) = spec_session_step(remote, &msgs.last());
        (
            after,
            match connected {
                Some(n) => reported.push(n),
                None => reported,
            },
        )
    }
}

/// Law: a session reports its link connected at most once, and only for a
/// node that introduced itself with a valid name; a later `Hello` reports
/// nothing more. The session knows its remote node exactly when it
/// reported it, so the disconnection that [Session::on_end] reports comes
/// exactly when a connection was reported, for the same node.
pub proof fn law_session_connects_at_most_once(msgs: Seq<PeerMessage>)
    ensures
        ({
            let (remote, reported) = session_run(msgs);
            &&& reported.len() <= 1
            &&& (reported.len() == 1 <==> remote is Some)
            &&& (remote matches Some(n) ==> reported[0] == n && spec_valid_node_name(n))
        }),
    decreases msgs.len(),
{
    if msgs.len() > 0 {
        law_session_connects_at_most_once(msgs.drop_last());
    }
}

/// A connected node's link as the manager keeps it.
#[derive(Debug, Clone, Copy, PartialEq, Eq, Structural)]
pub struct ActiveSession {
    pub id: u64,
    pub direction: Direction,
}

/// What to do about a listen request.
#[derive(Debug, PartialEq, Eq)]
pub enum ListenDecision {
    /// Already listening on that port: nothing to do.
    Ready,
    /// Listening on another port already.
    Conflict(u16),
    /// Bind the port and report back.
    Bind,
}

/// What to do about one node named in a configuration.
#[derive(Debug, PartialEq, Eq)]
pub enum ConfigureStep {
    /// Not an endpoint: warn and skip.
    Invalid(String),
    /// Already wanted: nothing to do.
    Known,
    /// Newly wanted: keep connecting to it.
    Connect(NodeEndpoint),
}

/// What to do about a session that introduced its node.
#[derive(Debug, PartialEq, Eq)]
pub enum ConnectDecision {
    /// It is this node itself: shut the new session down.
    RejectSelf,
    /// The node is linked already and the new link is not preferred: shut
    /// the new session down.
    RejectDuplicate,
    /// Keep the new session (shutting down the one it replaces, if any) and
    /// send it this node's services.
    Accept { replaced: Option<u64> },
}

/// What to do with a message that arrived from a linked node.
#[derive(Debug, PartialEq, Eq)]
pub enum IncomingAction {
    /// From a session that is no longer the node's link, or nothing to do.
    Ignore,
    /// Replace what is known of the node's services.
    ReplaceServices,
    /// Learn of a service of the node.
    ServiceUp,
    /// Forget a service of the node.
    ServiceDown,
    /// Hand the contents to the local process.
    Deliver,
    /// The node addressed a process of another node: warn.
    ForeignDelivery,
}

/// Why a message for a process of another node was not handed on.
#[derive(Debug, PartialEq, Eq)]
pub enum RouteError {
    /// No link to the node.
    NotConnected(String),
    /// The link went down while the message was being handed to it.
    Disconnected(String),
    /// The message cannot cross nodes.
    Wire(WireError),
}

impl RouteError {
    /// The error as text.
    pub fn message(&self) -> (r: String)
        ensures
            match self {
                RouteError::NotConnected(n) => r@ == "node "@ + n@ + " is not connected"@,
                RouteError::Disconnected(n) => r@ == "node "@ + n@
                    + " disconnected while routing message"@,
                RouteError::Wire(_) => r@ == "message contains a value that cannot cross nodes"@,
            },
    {
        match self {
            RouteError::NotConnected(n) => {
                let mut s = String::from_str("node ");
                s.append(n.as_str());
                s.append(" is not connected");
                s
            },
            RouteError::Disconnected(n) => {
                let mut s = String::from_str("node ");
                s.append(n.as_str());
                s.append(" disconnected while routing message");
                s
            },
            RouteError::Wire(_) => String::from_str("message contains a value that cannot cross nodes"),
        }
    }
}

/// What to do with a message for a process of another node.
#[derive(Debug)]
pub enum RouteDecision {
    /// Answer the sender with this error at once; nothing is sent.
    Refuse(RouteError),
    /// Queue `message` on session `session`, then answer the sender with
    /// [route_reply].
    Deliver { session: u64, message: PeerMessage },
}

/// The answer to a sender once its message was (`queued`) or was not
/// handed to the link of node `node`.
pub fn route_reply(node: &str, queued: bool) -> (r: Result<(), RouteError>)
    ensures
        queued ==> r is Ok,
        !queued ==> (r matches Err(RouteError::Disconnected(n)) && n@ == node@),
{
    if queued {
        Ok(())
    } else {
        Err(RouteError::Disconnected(String::from_str(node)))
    }
}

pub struct LinkView {
    pub node: Seq<char>,
    pub session: ActiveSession,
}

/// The manager's books.
pub struct PeerManager {
    node_name: String,
    desired: Vec<NodeEndpoint>,
    links: Vec<(String, ActiveSession)>,
    listening_on: Option<u16>,
}

pub struct PeerView {
    pub node: Seq<char>,
    pub desired: Seq<EndpointView>,
    pub links: Seq<(Seq<char>, ActiveSession)>,
    pub listening_on: Option<u16>,
}

pub open spec fn endpoints_view(s: Seq<NodeEndpoint>) -> Seq<EndpointView> {
    s.map_values(|e: NodeEndpoint| e@)
}

pub open spec fn links_view(s: Seq<(String, ActiveSession)>) -> Seq<(Seq<char>, ActiveSession)> {
    s.map_values(|l: (String, ActiveSession)| (l.0@, l.1))
}

impl View for PeerManager {
    type V = PeerView;

    closed spec fn view(&self) -> PeerView {
        PeerView {
            node: self.node_name@,
            desired: endpoints_view(self.desired@),
            links: links_view(self.links@),
            listening_on: self.listening_on,
        }
    }
}

/// The link of `node`, if it is connected.
pub open spec fn link_of(links: Seq<(Seq<char>, ActiveSession)>, node: Seq<char>) -> Option<
    ActiveSession,
>
    decreases links.len(),
{
    if links.len() == 0 {
        None
    } else if links.last().0 == node {
        Some(links.last().1)
    } else {
        link_of(links.drop_last(), node)
    }
}

pub open spec fn other_link(node: Seq<char>) -> spec_fn((Seq<char>, ActiveSession)) -> bool {
    |l: (Seq<char>, ActiveSession)| l.0 != node
}

/// `id` is the current session of `node`.
pub open spec fn current(links: Seq<(Seq<char>, ActiveSession)>, id: u64, node: Seq<char>) -> bool {
    link_of(links, node) matches Some(s) && s.id == id
}

/// What a listen request decides.
pub open spec fn spec_listen(listening_on: Option<u16>, port: u16) -> ListenDecision {
    match listening_on {
        Some(p) => if p == port {
            ListenDecision::Ready
        } else {
            ListenDecision::Conflict(p)
        },
        None => ListenDecision::Bind,
    }
}

/// What a newly introduced session decides.
pub open spec fn spec_connect(
    local: Seq<char>,
    links: Seq<(Seq<char>, ActiveSession)>,
    node: Seq<char>,
    direction: Direction,
) -> ConnectDecision {
    let preferred = if seq_lt(local, node) {
        Direction::Outgoing
    } else {
        Direction::Incoming
    };
    if node == local {
        ConnectDecision::RejectSelf
    } else {
        match link_of(links, node) {
            Some(active) => if direction != preferred || active.direction == preferred {
                ConnectDecision::RejectDuplicate
            } else {
                ConnectDecision::Accept { replaced: Some(active.id) }
            },
            None => ConnectDecision::Accept { replaced: None },
        }
    }
}

/// What a message from the current session of `node` asks for. A node may
/// only speak for its own services, and may deliver only to this node.
pub open spec fn spec_incoming(local: Seq<char>, node: Seq<char>, msg: &PeerMessage) -> IncomingAction {
    match msg {
        PeerMessage::RegistrySnapshot { .. } => IncomingAction::ReplaceServices,
        PeerMessage::RegistryUp { service } => if service.pid@.node == node {
            IncomingAction::ServiceUp
        } else {
            IncomingAction::Ignore
        },
        PeerMessage::RegistryDown { pid, .. } => if pid@.node == node {
            IncomingAction::ServiceDown
        } else {
            IncomingAction::Ignore
        },
        PeerMessage::Deliver { pid, .. } => if pid@.node != local {
            IncomingAction::ForeignDelivery
        } else {
            IncomingAction::Deliver
        },
        _ => IncomingAction::Ignore,
    }
}

/// One node of a configuration: wanted endpoints afterwards, and whether it
/// was invalid, known or new.
pub open spec fn spec_configure_step(desired: Seq<EndpointView>, node: Seq<char>) -> (
    Seq<EndpointView>,
    int,
) {
    // 0: invalid, 1: known, 2: new
    match spec_parse_endpoint(node) {
        None => (desired, 0),
        Some(e) => if desired.contains(e) {
            (desired, 1)
        } else {
            (desired.push(e), 2)
        },
    }
}

/// The wanted endpoints after a configuration of `nodes`.
pub open spec fn spec_configure(desired: Seq<EndpointView>, nodes: Seq<Seq<char>>) -> Seq<
    EndpointView,
>
    decreases nodes.len(),
{
    if nodes.len() == 0 {
        desired
    } else {
        spec_configure_step(spec_configure(desired, nodes.drop_last()), nodes.last()).0
    }
}

/// The steps of a configuration of `nodes`.
pub open spec fn spec_configure_kinds(desired: Seq<EndpointView>, nodes: Seq<Seq<char>>) -> Seq<int>
    decreases nodes.len(),
{
    if nodes.len() == 0 {
        Seq::empty()
    } else {
        spec_configure_kinds(desired, nodes.drop_last()).push(
            spec_configure_step(spec_configure(desired, nodes.drop_last()), nodes.last()).1,
        )
    }
}

/// A configuration keeps every endpoint already wanted.
proof fn lemma_configure_keeps(desired: Seq<EndpointView>, nodes: Seq<Seq<char>>, e: EndpointView)
    requires
        desired.contains(e),
    ensures
        spec_configure(desired, nodes).contains(e),
    decreases nodes.len(),
{
    if nodes.len() > 0 {
        lemma_configure_keeps(desired, nodes.drop_last(), e);
        let before = spec_configure(desired, nodes.drop_last());
        if let Some(x) = spec_parse_endpoint(nodes.last()) {
            if !before.contains(x) {
                let j = choose|j: int| 0 <= j < before.len() && before[j] == e;
                assert(before.push(x)[j] == e);
            }
        }
    }
}

/// After a configuration, every endpoint it names is wanted.
proof fn lemma_configure_wants(desired: Seq<EndpointView>, nodes: Seq<Seq<char>>, i: int)
    requires
        0 <= i < nodes.len(),
        spec_parse_endpoint(nodes[i]) is Some,
    ensures
        spec_configure(desired, nodes).contains(spec_parse_endpoint(nodes[i])->0),
    decreases nodes.len(),
{
    let before = spec_configure(desired, nodes.drop_last());
    let e = spec_parse_endpoint(nodes[i])->0;
    if i == nodes.len() - 1 {
        if !before.contains(e) {
            assert(before.push(e)[before.len() as int] == e);
        }
    } else {
        assert(nodes.drop_last()[i] == nodes[i]);
        lemma_configure_wants(desired, nodes.drop_last(), i);
        if let Some(x) = spec_parse_endpoint(nodes.last()) {
            if !before.contains(x) {
                let j = choose|j: int| 0 <= j < before.len() && before[j] == e;
                assert(before.push(x)[j] == e);
            }
        }
    }
}

proof fn lemma_configure_kinds_len(desired: Seq<EndpointView>, nodes: Seq<Seq<char>>)
    ensures
        spec_configure_kinds(desired, nodes).len() == nodes.len(),
    decreases nodes.len(),
{
    if nodes.len() > 0 {
        lemma_configure_kinds_len(desired, nodes.drop_last());
    }
}

/// A configuration whose endpoints are all wanted changes nothing and
/// connects nowhere.
proof fn lemma_configure_known(desired: Seq<EndpointView>, nodes: Seq<Seq<char>>)
    requires
        forall|i: int|
            0 <= i < nodes.len() && (#[trigger] spec_parse_endpoint(nodes[i])) is Some
                ==> desired.contains(spec_parse_endpoint(nodes[i])->0),
    ensures
        spec_configure(desired, nodes) == desired,
        forall|k: int|
            0 <= k < nodes.len() ==> #[trigger] spec_configure_kinds(desired, nodes)[k] != 2,
    decreases nodes.len(),
{
    if nodes.len() > 0 {
        let front = nodes.drop_last();
        assert forall|i: int|
            0 <= i < front.len() && (#[trigger] spec_parse_endpoint(front[i])) is Some
                implies desired.contains(spec_parse_endpoint(front[i])->0) by {
            assert(front[i] == nodes[i]);
        }
        lemma_configure_known(desired, front);
        let last = nodes.len() - 1;
        assert(nodes[last] == nodes.last());
        if spec_parse_endpoint(nodes[last]) is Some {
            assert(desired.contains(spec_parse_endpoint(nodes[last])->0));
        }
        let kinds = spec_configure_kinds(desired, nodes);
        lemma_configure_kinds_len(desired, front);
        assert forall|k: int| 0 <= k < nodes.len() implies #[trigger] kinds[k] != 2 by {
            if k < last {
                assert(kinds[k] == spec_configure_kinds(desired, front)[k]);
            }
        }
    }
}

/// After a configuration, an endpoint is wanted exactly when it was wanted
/// before or one of the nodes names it.
proof fn lemma_configure_contains(desired: Seq<EndpointView>, nodes: Seq<Seq<char>>, e: EndpointView)
    ensures
        spec_configure(desired, nodes).contains(e) <==> (desired.contains(e) || exists|j: int|
            0 <= j < nodes.len() && spec_parse_endpoint(#[trigger] nodes[j]) == Some(e)),
    decreases nodes.len(),
{
    if nodes.len() > 0 {
        let front = nodes.drop_last();
        lemma_configure_contains(desired, front, e);
        let before = spec_configure(desired, front);
        let last = nodes.len() - 1;
        assert(nodes[last] == nodes.last());
        if let Some(x) = spec_parse_endpoint(nodes.last()) {
            if !before.contains(x) {
                assert(before.push(x)[before.len() as int] == x);
                if before.push(x).contains(e) && x != e {
                    let i = choose|i: int| 0 <= i < before.push(x).len() && before.push(x)[i] == e;
                    assert(before[i] == e);
                }
                if before.contains(e) {
                    let i = choose|i: int| 0 <= i < before.len() && before[i] == e;
                    assert(before.push(x)[i] == e);
                }
            }
        }
        if exists|j: int| 0 <= j < nodes.len() && spec_parse_endpoint(#[trigger] nodes[j]) == Some(e) {
            let j = choose|j: int| 0 <= j < nodes.len() && spec_parse_endpoint(#[trigger] nodes[j]) == Some(e);
            if j < last {
                assert(front[j] == nodes[j]);
            }
        }
        assert forall|j: int| 0 <= j < front.len() && spec_parse_endpoint(#[trigger] front[j]) == Some(e)
            implies (exists|j2: int| 0 <= j2 < nodes.len() && spec_parse_endpoint(#[trigger] nodes[j2]) == Some(e)) by {
            assert(nodes[j] == front[j]);
        }
    }
}

/// The step of node `k` is the one taken after the nodes before it.
proof fn lemma_configure_kind_at(desired: Seq<EndpointView>, nodes: Seq<Seq<char>>, k: int)
    requires
        0 <= k < nodes.len(),
    ensures
        spec_configure_kinds(desired, nodes)[k] == spec_configure_step(
            spec_configure(desired, nodes.take(k)),
            nodes[k],
        ).1,
    decreases nodes.len(),
{
    let front = nodes.drop_last();
    lemma_configure_kinds_len(desired, front);
    if k == nodes.len() - 1 {
        assert(nodes.take(k) =~= front);
    } else {
        lemma_configure_kind_at(desired, front, k);
        assert(front.take(k) =~= nodes.take(k));
        assert(front[k] == nodes[k]);
    }
}

/// Law: a configuration connects to each endpoint it names exactly once.
/// A node that is not an endpoint starts nothing; an endpoint starts a link
/// exactly at its first mention, when it was not wanted before; afterwards
/// the wanted endpoints are those wanted before and those named.
pub proof fn law_configure_connects_each_new_endpoint_once(
    desired: Seq<EndpointView>,
    nodes: Seq<Seq<char>>,
)
    ensures
        spec_configure_kinds(desired, nodes).len() == nodes.len(),
        forall|k: int|
            0 <= k < nodes.len() ==> (spec_parse_endpoint(nodes[k]) is None <==> #[trigger] spec_configure_kinds(
                desired,
                nodes,
            )[k] == 0),
        forall|k: int|
            0 <= k < nodes.len() ==> (#[trigger] spec_configure_kinds(desired, nodes)[k] == 2 <==> (
            spec_parse_endpoint(nodes[k]) matches Some(e) && !desired.contains(e) && forall|j: int|
                0 <= j < k ==> spec_parse_endpoint(nodes[j]) != Some(e))),
        forall|e: EndpointView|
            #![trigger spec_configure(desired, nodes).contains(e)]
            spec_configure(desired, nodes).contains(e) <==> (desired.contains(e) || exists|j: int|
                0 <= j < nodes.len() && spec_parse_endpoint(#[trigger] nodes[j]) == Some(e)),
{
    lemma_configure_kinds_len(desired, nodes);
    assert forall|k: int| 0 <= k < nodes.len() implies (spec_parse_endpoint(nodes[k]) is None
        <==> #[trigger] spec_configure_kinds(desired, nodes)[k] == 0) && (spec_configure_kinds(
        desired,
        nodes,
    )[k] == 2 <==> (spec_parse_endpoint(nodes[k]) matches Some(e) && !desired.contains(e)
        && forall|j: int| 0 <= j < k ==> spec_parse_endpoint(nodes[j]) != Some(e))) by {
        lemma_configure_kind_at(desired, nodes, k);
        if let Some(e) = spec_parse_endpoint(nodes[k]) {
            let pre = nodes.take(k);
            lemma_configure_contains(desired, pre, e);
            assert forall|j: int| 0 <= j < k implies pre[j] == nodes[j] by {}
            if exists|j: int| 0 <= j < pre.len() && spec_parse_endpoint(#[trigger] pre[j]) == Some(e) {
                let j = choose|j: int| 0 <= j < pre.len() && spec_parse_endpoint(#[trigger] pre[j]) == Some(e);
                assert(spec_parse_endpoint(nodes[j]) == Some(e));
            }
            if exists|j: int| 0 <= j < k && spec_parse_endpoint(#[trigger] nodes[j]) == Some(e) {
                let j = choose|j: int| 0 <= j < k && spec_parse_endpoint(#[trigger] nodes[j]) == Some(e);
                assert(spec_parse_endpoint(pre[j]) == Some(e));
            }
        }
    }
    assert forall|e: EndpointView|
        #![trigger spec_configure(desired, nodes).contains(e)]
        spec_configure(desired, nodes).contains(e) <==> (desired.contains(e) || exists|j: int|
            0 <= j < nodes.len() && spec_parse_endpoint(#[trigger] nodes[j]) == Some(e)) by {
        lemma_configure_contains(desired, nodes, e);
    }
}

/// Law: configuring the same list of nodes a second time wants no new
/// endpoint and starts no link.
pub proof fn law_configure_twice_connects_nowhere(desired: Seq<EndpointView>, nodes: Seq<Seq<char>>)
    ensures
        spec_configure(spec_configure(desired, nodes), nodes) == spec_configure(desired, nodes),
        forall|k: int|
            0 <= k < nodes.len() ==> #[trigger] spec_configure_kinds(
                spec_configure(desired, nodes),
                nodes,
            )[k] != 2,
{
    let once = spec_configure(desired, nodes);
    assert forall|i: int|
        0 <= i < nodes.len() && (#[trigger] spec_parse_endpoint(nodes[i])) is Some
            implies once.contains(spec_parse_endpoint(nodes[i])->0) by {
        lemma_configure_wants(desired, nodes, i);
    }
    lemma_configure_known(once, nodes);
}

pub open spec fn step_kind(s: ConfigureStep) -> int {
    match s {
        ConfigureStep::Invalid(_) => 0,
        ConfigureStep::Known => 1,
        ConfigureStep::Connect(_) => 2,
    }
}

fn same_endpoint(a: &NodeEndpoint, b: &NodeEndpoint) -> (r: bool)
    ensures
        r == (a@ == b@),
{
    match (a, b) {
        (NodeEndpoint::Tcp(x), NodeEndpoint::Tcp(y)) => *x == *y,
        (NodeEndpoint::Ssh { host: h1, port: p1 }, NodeEndpoint::Ssh { host: h2, port: p2 }) => *h1
            == *h2 && *p1 == *p2,
        _ => false,
    }
}

fn copy_endpoint(e: &NodeEndpoint) -> (r: NodeEndpoint)
    ensures
        r@ == e@,
{
    match e {
        NodeEndpoint::Tcp(a) => NodeEndpoint::Tcp(a.clone()),
        NodeEndpoint::Ssh { host, port } => NodeEndpoint::Ssh { host: host.clone(), port: *port },
    }
}

/// The text of a listen conflict.
pub fn listen_conflict_message(port: u16) -> (r: String)
    ensures
        r@ == "node listener is already using port "@ + decimal(port as nat),
{
    let mut s = String::from_str("node listener is already using port ");
    let p = format_u16(port);
    s.append(p.as_str());
    s
}

impl PeerManager {
    /// A manager for node `node_name` that wants no links and listens nowhere.
    pub fn new(node_name: &str) -> (r: PeerManager)
        ensures
            r@.node == node_name@,
            r@.desired.len() == 0,
            r@.links.len() == 0,
            r@.listening_on is None,
    {
        let r = PeerManager {
            node_name: String::from_str(node_name),
            desired: Vec::new(),
            links: Vec::new(),
            listening_on: None,
        };
        proof {
            assert(r@.desired =~= Seq::<EndpointView>::empty());
            assert(r@.links =~= Seq::<(Seq<char>, ActiveSession)>::empty());
        }
        r
    }

    /// The current link of `node`.
    pub fn link(&self, node: &str) -> (r: Option<ActiveSession>)
        ensures
            r == link_of(self@.links, node@),
    {
        let mut i: usize = self.links.len();
        proof {
            assert(self@.links.take(i as int) =~= self@.links);
        }
        while i > 0
            invariant
                i <= self.links.len(),
                link_of(self@.links, node@) == link_of(self@.links.take(i as int), node@),
            decreases i,
        {
            let l = &self.links[i - 1];
            proof {
                let t = self@.links.take(i as int);
                assert(t.last() == (l.0@, l.1));
                assert(t.drop_last() =~= self@.links.take(i - 1));
            }
            if str_eq(l.0.as_str(), node) {
                return Some(l.1);
            }
            i = i - 1;
        }
        None
    }

    /// Whether `endpoint` is wanted already.
    fn wants(&self, endpoint: &NodeEndpoint) -> (r: bool)
        ensures
            r == self@.desired.contains(endpoint@),
    {
        let mut i: usize = 0;
        while i < self.desired.len()
            invariant
                i <= self.desired.len(),
                forall|j: int| 0 <= j < i ==> self@.desired[j] != endpoint@,
            decreases self.desired.len() - i,
        {
            proof {
                assert(self@.desired[i as int] == self.desired@[i as int]@);
            }
            if same_endpoint(&self.desired[i], endpoint) {
                return true;
            }
            i = i + 1;
        }
        false
    }

    /// A request to listen on `port`.
    pub fn on_listen(&self, port: u16) -> (r: ListenDecision)
        ensures
            r == spec_listen(self@.listening_on, port),
    {
        match self.listening_on {
            Some(p) => if p == port {
                ListenDecision::Ready
            } else {
                ListenDecision::Conflict(p)
            },
            None => ListenDecision::Bind,
        }
    }

    /// The listener is bound to `port`.
    pub fn listening(&mut self, port: u16)
        ensures
            final(self)@ == (PeerView { listening_on: Some(port), ..old(self)@ }),
    {
        self.listening_on = Some(port);
    }

    /// Nodes to link with; each new valid endpoint is connected to once.
    pub fn on_configure(&mut self, nodes: &Vec<String>) -> (r: Vec<ConfigureStep>)
        ensures
            final(self)@ == (PeerView {
                desired: spec_configure(old(self)@.desired, crate::endpoint::strings_view(nodes@)),
                ..old(self)@
            }),
            r@.map_values(|s: ConfigureStep| step_kind(s)) == spec_configure_kinds(
                old(self)@.desired,
                crate::endpoint::strings_view(nodes@),
            ),
            forall|i: int| 0 <= i < r@.len() ==> match #[trigger] r@[i] {
                ConfigureStep::Connect(e) => spec_parse_endpoint(nodes@[i]@) == Some(e@),
                ConfigureStep::Invalid(n) => n@ == nodes@[i]@,
                ConfigureStep::Known => true,
            },
    {
        let ghost names = crate::endpoint::strings_view(nodes@);
        let ghost d0 = self@.desired;
        let mut steps: Vec<ConfigureStep> = Vec::new();
        let mut i: usize = 0;
        while i < nodes.len()
            invariant
                i <= nodes.len(),
                names == crate::endpoint::strings_view(nodes@),
                d0 == old(self)@.desired,
                self@ == (PeerView {
                    desired: spec_configure(d0, names.take(i as int)),
                    ..old(self)@
                }),
                steps@.len() == i,
                steps@.map_values(|s: ConfigureStep| step_kind(s)) =~= spec_configure_kinds(
                    d0,
                    names.take(i as int),
                ),
                forall|j: int| 0 <= j < i ==> match #[trigger] steps@[j] {
                    ConfigureStep::Connect(e) => spec_parse_endpoint(nodes@[j]@) == Some(e@),
                    ConfigureStep::Invalid(n) => n@ == nodes@[j]@,
                    ConfigureStep::Known => true,
                },
            decreases nodes.len() - i,
        {
            proof {
                assert(names.take(i + 1).drop_last() =~= names.take(i as int));
                assert(names.take(i + 1).last() == nodes@[i as int]@);
            }
            let ghost kinds = steps@.map_values(|s: ConfigureStep| step_kind(s));
            let step = match NodeEndpoint::parse(nodes[i].as_str()) {
                None => ConfigureStep::Invalid(nodes[i].clone()),
                Some(e) => {
                    if self.wants(&e) {
                        ConfigureStep::Known
                    } else {
                        let ghost before = self@.desired;
                        self.desired.push(copy_endpoint(&e));
                        proof {
                            assert(self@.desired =~= before.push(e@));
                        }
                        ConfigureStep::Connect(e)
                    }
                },
            };
            steps.push(step);
            proof {
                assert(steps@.map_values(|s: ConfigureStep| step_kind(s)) =~= kinds.push(
                    step_kind(steps@[i as int]),
                ));
            }
            i = i + 1;
        }
        proof {
            assert(names.take(nodes.len() as int) =~= names);
        }
        steps
    }

    /// Which session carries messages for node `node`, if it is linked.
    pub fn on_route(&self, node: &str) -> (r: Option<u64>)
        ensures
            match link_of(self@.links, node@) {
                Some(s) => r == Some(s.id),
                None => r is None,
            },
    {
        match self.link(node) {
            Some(s) => Some(s.id),
            None => None,
        }
    }

    /// What to do with `contents` for process `pid` of another node: a node
    /// without a link is refused at once, as is a message that cannot cross
    /// nodes; otherwise the message goes to the node's session.
    pub fn on_route_message(&self, pid: &ProcessId, contents: &Val) -> (r: RouteDecision)
        ensures
            match link_of(self@.links, pid@.node) {
                None => r matches RouteDecision::Refuse(RouteError::NotConnected(n)) && n@
                    == pid@.node,
                Some(s) => if crosses(contents@) {
                    r matches RouteDecision::Deliver {
                        session,
                        message: PeerMessage::Deliver { pid: p, contents: w },
                    } && session == s.id && p@ == pid@ && val_of(w@) == contents@
                } else {
                    r matches RouteDecision::Refuse(RouteError::Wire(WireError::CannotCrossNodes))
                },
            },
    {
        match self.on_route(pid.node()) {
            None => RouteDecision::Refuse(RouteError::NotConnected(String::from_str(pid.node()))),
            Some(session) => match WireVal::from_val(contents) {
                Ok(w) => RouteDecision::Deliver {
                    session,
                    message: PeerMessage::Deliver { pid: pid.duplicate(), contents: w },
                },
                Err(e) => RouteDecision::Refuse(RouteError::Wire(e)),
            },
        }
    }

    fn drop_link(&mut self, node: &str)
        ensures
            final(self)@ == (PeerView {
                links: old(self)@.links.filter(other_link(node@)),
                ..old(self)@
            }),
    {
        let ghost ov = self@.links;
        let mut kept: Vec<(String, ActiveSession)> = Vec::new();
        let mut i: usize = 0;
        while i < self.links.len()
            invariant
                self@ == old(self)@,
                ov == self@.links,
                i <= ov.len(),
                links_view(kept@) =~= ov.take(i as int).filter(other_link(node@)),
            decreases ov.len() - i,
        {
            let l = &self.links[i];
            proof {
                assert(ov[i as int] == (l.0@, l.1));
                reveal(Seq::filter);
                assert(ov.take(i + 1).drop_last() =~= ov.take(i as int));
                assert(ov.take(i + 1).last() == ov[i as int]);
            }
            let ghost before = links_view(kept@);
            if !str_eq(l.0.as_str(), node) {
                kept.push((l.0.clone(), l.1));
                proof {
                    assert(links_view(kept@) =~= before.push(ov[i as int]));
                }
            }
            i = i + 1;
        }
        proof {
            assert(ov.take(ov.len() as int) =~= ov);
        }
        self.links = kept;
    }

    /// A session `id` introduced its remote node `node`. Of two links
    /// between the same nodes, each side keeps the one opened by the node
    /// whose name sorts first.
    pub fn on_connected(&mut self, id: u64, node: &str, direction: Direction) -> (r: ConnectDecision)
        ensures
            r == spec_connect(old(self)@.node, old(self)@.links, node@, direction),
            r is Accept ==> final(self)@ == (PeerView {
                links: old(self)@.links.filter(other_link(node@)).push(
                    (node@, ActiveSession { id, direction }),
                ),
                ..old(self)@
            }),
            !(r is Accept) ==> final(self)@ == old(self)@,
    {
        if str_eq(node, self.node_name.as_str()) {
            return ConnectDecision::RejectSelf;
        }
        let preferred = preferred_direction(self.node_name.as_str(), node);
        let replaced = match self.link(node) {
            Some(active) => {
                if direction != preferred || active.direction == preferred {
                    return ConnectDecision::RejectDuplicate;
                }
                Some(active.id)
            },
            None => None,
        };
        self.drop_link(node);
        let ghost before = self@.links;
        self.links.push((String::from_str(node), ActiveSession { id, direction }));
        proof {
            assert(self@.links =~= before.push((node@, ActiveSession { id, direction })));
        }
        ConnectDecision::Accept { replaced }
    }

    /// A message from session `id` of node `node`.
    pub fn on_incoming(&self, id: u64, node: &str, msg: &PeerMessage) -> (r: IncomingAction)
        ensures
            r == (if current(self@.links, id, node@) {
                spec_incoming(self@.node, node@, msg)
            } else {
                IncomingAction::Ignore
            }),
    {
        match self.link(node) {
            Some(s) => {
                if s.id != id {
                    return IncomingAction::Ignore;
                }
            },
            None => {
                return IncomingAction::Ignore;
            },
        }
        match msg {
            PeerMessage::RegistrySnapshot { .. } => IncomingAction::ReplaceServices,
            PeerMessage::RegistryUp { service } => if str_eq(service.pid.node(), node) {
                IncomingAction::ServiceUp
            } else {
                IncomingAction::Ignore
            },
            PeerMessage::RegistryDown { pid, .. } => if str_eq(pid.node(), node) {
                IncomingAction::ServiceDown
            } else {
                IncomingAction::Ignore
            },
            PeerMessage::Deliver { pid, .. } => if !str_eq(pid.node(), self.node_name.as_str()) {
                IncomingAction::ForeignDelivery
            } else {
                IncomingAction::Deliver
            },
            _ => IncomingAction::Ignore,
        }
    }

    /// Session `id` of node `node` ended. Only the node's current session
    /// unlinks it, and then what was learned from it is to be forgotten.
    pub fn on_disconnected(&mut self, id: u64, node: &str) -> (r: bool)
        ensures
            r == current(old(self)@.links, id, node@),
            r ==> final(self)@ == (PeerView {
                links: old(self)@.links.filter(other_link(node@)),
                ..old(self)@
            }),
            !r ==> final(self)@ == old(self)@,
    {
        match self.link(node) {
            Some(s) => {
                if s.id == id {
                    self.drop_link(node);
                    true
                } else {
                    false
                }
            },
            None => false,
        }
    }
}

/// The manager's links are one per node at most, and none to this node.
pub open spec fn one_link_each(local: Seq<char>, links: Seq<(Seq<char>, ActiveSession)>) -> bool {
    &&& forall|i: int, j: int| 0 <= i < j < links.len() ==> #[trigger] links[i].0 != #[trigger] links[j].0
    &&& forall|i: int| 0 <= i < links.len() ==> #[trigger] links[i].0 != local
}

/// Dropping a node's links keeps the others one per node.
proof fn lemma_one_link_filter(
    local: Seq<char>,
    links: Seq<(Seq<char>, ActiveSession)>,
    node: Seq<char>,
)
    requires
        one_link_each(local, links),
    ensures
        one_link_each(local, links.filter(other_link(node))),
        forall|i: int|
            0 <= i < links.filter(other_link(node)).len() ==> #[trigger] links.filter(
                other_link(node),
            )[i].0 != node,
    decreases links.len(),
{
    reveal(Seq::filter);
    let f = links.filter(other_link(node));
    if links.len() > 0 {
        let front = links.drop_last();
        assert forall|i: int, j: int| 0 <= i < j < front.len() implies #[trigger] front[i].0
            != #[trigger] front[j].0 by {
            assert(front[i] == links[i] && front[j] == links[j]);
        }
        assert forall|i: int| 0 <= i < front.len() implies #[trigger] front[i].0 != local by {
            assert(front[i] == links[i]);
        }
        lemma_one_link_filter(local, front, node);
        let g = front.filter(other_link(node));
        if other_link(node)(links.last()) {
            assert(f == g.push(links.last()));
            assert forall|i: int| 0 <= i < g.len() implies #[trigger] g[i].0 != links.last().0 by {
                assert(g.contains(g[i]));
                front.lemma_filter_contains_rev(other_link(node), g[i]);
                let k = choose|k: int| 0 <= k < front.len() && front[k] == g[i];
                assert(links[k] == front[k]);
                assert(links.last() == links[links.len() - 1]);
            }
            assert forall|i: int, j: int| 0 <= i < j < f.len() implies #[trigger] f[i].0
                != #[trigger] f[j].0 by {
                if j == f.len() - 1 {
                    assert(f[i] == g[i]);
                } else {
                    assert(f[i] == g[i] && f[j] == g[j]);
                }
            }
            assert forall|i: int| 0 <= i < f.len() implies #[trigger] f[i].0 != local && f[i].0
                != node by {
                if i < g.len() {
                    assert(f[i] == g[i]);
                } else {
                    assert(links.last() == links[links.len() - 1]);
                }
            }
        } else {
            assert(f == g);
        }
    }
}

/// Law: the manager keeps at most one link per node, and none to itself,
/// whatever sessions connect and end: an accepted session replaces the
/// node's link, and an ending current session removes it.
pub proof fn law_one_link_each_kept(
    local: Seq<char>,
    links: Seq<(Seq<char>, ActiveSession)>,
    node: Seq<char>,
    id: u64,
    direction: Direction,
)
    requires
        one_link_each(local, links),
    ensures
        spec_connect(local, links, node, direction) is Accept ==> one_link_each(
            local,
            links.filter(other_link(node)).push((node, ActiveSession { id, direction })),
        ),
        one_link_each(local, links.filter(other_link(node))),
{
    lemma_one_link_filter(local, links, node);
    let f = links.filter(other_link(node));
    let after = f.push((node, ActiveSession { id, direction }));
    if spec_connect(local, links, node, direction) is Accept {
        assert forall|i: int, j: int| 0 <= i < j < after.len() implies #[trigger] after[i].0
            != #[trigger] after[j].0 by {
            assert(after[i] == f[i]);
            if j < f.len() {
                assert(after[j] == f[j]);
            }
        }
        assert forall|i: int| 0 <= i < after.len() implies #[trigger] after[i].0 != local by {
            if i < f.len() {
                assert(after[i] == f[i]);
            }
        }
    }
}

/// Linking is idempotent per node: after a session is accepted it is the
/// node's only current session, and a second session of the same node and
/// direction is never accepted while it is linked.
pub proof fn law_one_link_per_node(
    local: Seq<char>,
    links: Seq<(Seq<char>, ActiveSession)>,
    node: Seq<char>,
    id: u64,
    id2: u64,
    direction: Direction,
)
    requires
        spec_connect(local, links, node, direction) is Accept,
    ensures
        ({
            let after = links.filter(other_link(node)).push((node, ActiveSession { id, direction }));
            &&& link_of(after, node) == Some(ActiveSession { id, direction })
            &&& spec_connect(local, after, node, direction) is RejectDuplicate
        }),
{
    let after = links.filter(other_link(node)).push((node, ActiveSession { id, direction }));
    assert(after.last() == (node, ActiveSession { id, direction }));
}

} // verus!
