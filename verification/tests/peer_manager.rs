use libvrs::endpoint::{Direction, NodeEndpoint};
use libvrs::peer::{route_reply, RouteDecision, RouteError};
use libvrs::value::Val;
use libvrs::wire::WireError;
use libvrs::peer::{
    listen_conflict_message, ActiveSession, ConfigureStep, ConnectDecision, IncomingAction,
    ListenDecision, PeerManager, PeerMessage, Session, SessionStep, HEARTBEAT_INTERVAL_SECS,
    HEARTBEAT_TIMEOUT_SECS,
};
use libvrs::pid::ProcessId;
use libvrs::wire::WireVal;

#[test]
fn sessions_count_only_after_a_valid_hello() {
    let mut s = Session::new();
    assert_eq!(s.on_message(&PeerMessage::Heartbeat), SessionStep::Ignore);
    assert_eq!(
        s.on_message(&PeerMessage::RegistryDown { name: "x".into(), pid: ProcessId::new("beta", 1) }),
        SessionStep::Ignore
    );
    assert_eq!(
        s.on_message(&PeerMessage::Hello { node: "bad name!".into() }),
        SessionStep::Ignore
    );
    assert_eq!(s.on_end(), None);
    assert_eq!(
        s.on_message(&PeerMessage::Hello { node: "beta".into() }),
        SessionStep::Connected("beta".into())
    );
    assert_eq!(s.remote_node(), Some(&"beta".to_string()));
    assert_eq!(s.on_message(&PeerMessage::Heartbeat), SessionStep::Alive);
    assert_eq!(
        s.on_message(&PeerMessage::Hello { node: "gamma".into() }),
        SessionStep::Forward("beta".into())
    );
    assert_eq!(s.on_end(), Some("beta".into()));
    assert!(SessionStep::Alive.keeps_alive());
    assert!(SessionStep::Forward("beta".into()).keeps_alive());
    assert!(!SessionStep::Ignore.keeps_alive());
    assert!(HEARTBEAT_INTERVAL_SECS < HEARTBEAT_TIMEOUT_SECS);
}

#[test]
fn listening_happens_on_one_port() {
    let mut m = PeerManager::new("alpha");
    assert_eq!(m.on_listen(8773), ListenDecision::Bind);
    m.listening(8773);
    assert_eq!(m.on_listen(8773), ListenDecision::Ready);
    assert_eq!(m.on_listen(9000), ListenDecision::Conflict(8773));
    assert_eq!(
        listen_conflict_message(8773),
        "node listener is already using port 8773"
    );
}

#[test]
fn configured_endpoints_are_connected_once() {
    let mut m = PeerManager::new("alpha");
    let steps = m.on_configure(&vec![
        "tcp://127.0.0.1:9".to_string(),
        "bogus".to_string(),
        "tcp://127.0.0.1:9".to_string(),
    ]);
    assert_eq!(
        steps,
        vec![
            ConfigureStep::Connect(NodeEndpoint::Tcp("127.0.0.1:9".into())),
            ConfigureStep::Invalid("bogus".into()),
            ConfigureStep::Known,
        ]
    );
    assert_eq!(m.on_configure(&vec!["tcp://127.0.0.1:9".to_string()]), vec![ConfigureStep::Known]);
}

#[test]
fn one_link_per_node_by_name_order() {
    // "alpha" sorts before "beta": alpha keeps the link it opened.
    let mut m = PeerManager::new("alpha");
    assert_eq!(m.on_connected(1, "alpha", Direction::Incoming), ConnectDecision::RejectSelf);
    assert_eq!(
        m.on_connected(1, "beta", Direction::Incoming),
        ConnectDecision::Accept { replaced: None }
    );
    assert_eq!(m.on_route("beta"), Some(1));
    assert_eq!(
        m.on_connected(2, "beta", Direction::Outgoing),
        ConnectDecision::Accept { replaced: Some(1) }
    );
    assert_eq!(m.link("beta"), Some(ActiveSession { id: 2, direction: Direction::Outgoing }));
    assert_eq!(
        m.on_connected(3, "beta", Direction::Incoming),
        ConnectDecision::RejectDuplicate
    );
    assert_eq!(
        m.on_connected(4, "beta", Direction::Outgoing),
        ConnectDecision::RejectDuplicate
    );
    // Only the current session unlinks the node.
    assert!(!m.on_disconnected(1, "beta"));
    assert_eq!(m.on_route("beta"), Some(2));
    assert!(m.on_disconnected(2, "beta"));
    assert_eq!(m.on_route("beta"), None);
}

#[test]
fn nodes_speak_only_for_themselves() {
    let mut m = PeerManager::new("alpha");
    m.on_connected(5, "beta", Direction::Incoming);
    let down_own = PeerMessage::RegistryDown { name: "s".into(), pid: ProcessId::new("beta", 1) };
    let down_other = PeerMessage::RegistryDown { name: "s".into(), pid: ProcessId::new("gamma", 1) };
    assert_eq!(m.on_incoming(5, "beta", &down_own), IncomingAction::ServiceDown);
    assert_eq!(m.on_incoming(5, "beta", &down_other), IncomingAction::Ignore);
    assert_eq!(m.on_incoming(6, "beta", &down_own), IncomingAction::Ignore);
    let local = PeerMessage::Deliver { pid: ProcessId::new("alpha", 3), contents: WireVal::Nil };
    let foreign = PeerMessage::Deliver { pid: ProcessId::new("gamma", 3), contents: WireVal::Nil };
    assert_eq!(m.on_incoming(5, "beta", &local), IncomingAction::Deliver);
    assert_eq!(m.on_incoming(5, "beta", &foreign), IncomingAction::ForeignDelivery);
    assert_eq!(
        m.on_incoming(5, "beta", &PeerMessage::RegistrySnapshot { services: vec![] }),
        IncomingAction::ReplaceServices
    );
}

#[test]
fn sending_to_a_disconnected_node_fails_at_once() {
    let mut m = PeerManager::new("alpha");
    let pid = ProcessId::new("beta", 3);
    match m.on_route_message(&pid, &Val::Int(1)) {
        RouteDecision::Refuse(e) => {
            assert_eq!(e, RouteError::NotConnected("beta".to_string()));
            assert_eq!(e.message(), "node beta is not connected");
        }
        _ => panic!("no link to beta"),
    }
    m.on_connected(8, "beta", Direction::Outgoing);
    match m.on_route_message(&pid, &Val::Int(1)) {
        RouteDecision::Deliver { session, message: PeerMessage::Deliver { pid: p, contents } } => {
            assert_eq!(session, 8);
            assert_eq!(p, pid);
            assert_eq!(contents.into_val(), Val::Int(1));
        }
        _ => panic!("beta is linked"),
    }
    match m.on_route_message(&pid, &Val::Opaque(libvrs::value::Opaque::Lambda)) {
        RouteDecision::Refuse(e) => {
            assert_eq!(e, RouteError::Wire(WireError::CannotCrossNodes));
            assert_eq!(e.message(), "message contains a value that cannot cross nodes");
        }
        _ => panic!("runtime-only values stay on their node"),
    }
    assert_eq!(route_reply("beta", true), Ok(()));
    let e = route_reply("beta", false).unwrap_err();
    assert_eq!(e, RouteError::Disconnected("beta".to_string()));
    assert_eq!(e.message(), "node beta disconnected while routing message");
}

#[test]
fn sessions_greet_first_and_beat_on_every_tick() {
    match Session::greeting("alpha") {
        PeerMessage::Hello { node } => assert_eq!(node, "alpha"),
        _ => panic!("a session introduces this node first"),
    }
    let mut s = Session::new();
    assert!(matches!(s.on_tick(), PeerMessage::Heartbeat));
    s.on_message(&PeerMessage::Hello { node: "beta".into() });
    assert!(matches!(s.on_tick(), PeerMessage::Heartbeat));
}
