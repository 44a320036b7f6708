use libvrs::registry::RegistryError;
use libvrs::value::Val;
use libvrs::wire::WireVal;
use libvrs::remote::{EvalKey, RemoteAction, RemoteEvent, RemoteSessions, SessionKey};

const LINK: u64 = 7;

#[test]
fn evaluation_in_flight_is_not_started_twice() {
    let mut r = RemoteSessions::new();
    assert_eq!(
        r.incoming(LINK, RemoteEvent::Eval { id: 1 }, &vec![]),
        RemoteAction::SpawnEvaluation { id: 1 }
    );
    assert_eq!(
        r.incoming(LINK, RemoteEvent::Eval { id: 1 }, &vec![]),
        RemoteAction::Ignore
    );
    // Once it finished, the same number starts a new evaluation.
    assert_eq!(
        r.incoming(LINK, RemoteEvent::Eval { id: 1 }, &vec![EvalKey { link: LINK, id: 1 }]),
        RemoteAction::SpawnEvaluation { id: 1 }
    );
    // The same number on another link is another evaluation.
    assert_eq!(
        r.incoming(8, RemoteEvent::Eval { id: 1 }, &vec![]),
        RemoteAction::SpawnEvaluation { id: 1 }
    );
}

#[test]
fn cancel_aborts_a_running_evaluation_once() {
    let mut r = RemoteSessions::new();
    r.incoming(LINK, RemoteEvent::Eval { id: 3 }, &vec![]);
    assert_eq!(
        r.incoming(LINK, RemoteEvent::Cancel { id: 3 }, &vec![]),
        RemoteAction::AbortEvaluation { id: 3 }
    );
    assert_eq!(
        r.incoming(LINK, RemoteEvent::Cancel { id: 3 }, &vec![]),
        RemoteAction::Ignore
    );
}

#[test]
fn replies_are_released_after_their_checkpoint_and_only_once() {
    let mut r = RemoteSessions::new();
    r.start_eval(LINK, 5, true);
    assert_eq!(
        r.incoming(LINK, RemoteEvent::Evaluated { id: 5 }, &vec![]),
        RemoteAction::ApplySnapshotThenComplete { id: 5 }
    );
    assert!(r.complete_eval(LINK, 5));
    assert!(!r.complete_eval(LINK, 5));
}

#[test]
fn failed_send_or_cancel_leaves_no_reply_awaited() {
    let mut r = RemoteSessions::new();
    r.start_eval(LINK, 1, false);
    assert!(!r.complete_eval(LINK, 1));
    r.start_eval(LINK, 2, true);
    assert!(r.cancel_eval(LINK, 2), "peer is told to cancel");
    assert!(!r.cancel_eval(LINK, 2));
    assert!(!r.complete_eval(LINK, 2));
}

#[test]
fn sessions_are_opened_delivered_and_closed() {
    let mut r = RemoteSessions::new();
    let served = SessionKey { link: LINK, server: true, id: 4 };
    assert_eq!(
        r.incoming(LINK, RemoteEvent::Client { id: 4 }, &vec![]),
        RemoteAction::Ignore
    );
    assert_eq!(
        r.incoming(LINK, RemoteEvent::Open { id: 4 }, &vec![]),
        RemoteAction::OpenServerSession { id: 4 }
    );
    r.add_session(served);
    assert_eq!(
        r.incoming(LINK, RemoteEvent::Open { id: 4 }, &vec![]),
        RemoteAction::Ignore
    );
    assert_eq!(
        r.incoming(LINK, RemoteEvent::Client { id: 4 }, &vec![]),
        RemoteAction::Deliver { key: served }
    );
    // The peer closes its client end: the served session goes.
    assert_eq!(
        r.incoming(LINK, RemoteEvent::Close { id: 4, server: false }, &vec![]),
        RemoteAction::AbortSession { key: served }
    );
    assert!(!r.has_session(served));
}

#[test]
fn server_messages_reach_client_sessions() {
    let mut r = RemoteSessions::new();
    let client = SessionKey { link: LINK, server: false, id: 9 };
    r.open(LINK, 9);
    assert_eq!(
        r.incoming(LINK, RemoteEvent::Server { id: 9, has_snapshot: false }, &vec![]),
        RemoteAction::Deliver { key: client }
    );
    assert_eq!(
        r.incoming(LINK, RemoteEvent::Server { id: 9, has_snapshot: true }, &vec![]),
        RemoteAction::ApplySnapshotThenDeliver { key: client }
    );
    assert!(r.has_session(client));
    assert!(r.drop_session(client));
    assert!(!r.drop_session(client));
}

#[test]
fn disconnect_forgets_the_link_only() {
    let mut r = RemoteSessions::new();
    r.start_eval(LINK, 1, true);
    r.start_eval(8, 1, true);
    r.incoming(LINK, RemoteEvent::Eval { id: 2 }, &vec![]);
    r.incoming(8, RemoteEvent::Eval { id: 2 }, &vec![]);
    r.open(LINK, 3);
    r.open(8, 3);
    let (evals, sessions) = r.disconnect(LINK);
    assert_eq!(evals, vec![EvalKey { link: LINK, id: 2 }]);
    assert_eq!(sessions, vec![SessionKey { link: LINK, server: false, id: 3 }]);
    assert!(!r.complete_eval(LINK, 1), "no retry after a link failure");
    assert!(r.complete_eval(8, 1));
    assert!(r.has_session(SessionKey { link: 8, server: false, id: 3 }));
    assert_eq!(
        r.incoming(8, RemoteEvent::Eval { id: 2 }, &vec![]),
        RemoteAction::Ignore
    );
}

#[test]
fn evaluation_answer_waits_for_its_checkpoint() {
    let mut r = RemoteSessions::new();
    r.start_eval(LINK, 3, true);
    assert_eq!(
        r.evaluated(LINK, 3, Err(RegistryError::ForeignService), Ok(WireVal::Int(5))),
        Err(RegistryError::ForeignService)
    );
    assert_eq!(
        r.evaluated(LINK, 3, Ok(()), Ok(WireVal::Int(5))),
        Ok(Some(Ok(Val::Int(5))))
    );
    assert_eq!(r.evaluated(LINK, 3, Ok(()), Ok(WireVal::Int(5))), Ok(None));
    r.start_eval(LINK, 4, true);
    assert_eq!(
        r.evaluated(LINK, 4, Ok(()), Err("boom".to_string())),
        Ok(Some(Err("boom".to_string())))
    );
}
