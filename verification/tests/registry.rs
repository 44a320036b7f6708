use libvrs::pid::ProcessId;
use libvrs::value::Val;
use libvrs::registry::{
    query_service, Details, Registration, Registry, RegistryCmd, RegistryError, RegistryEvent,
    RegistryReply, RemoteChange, ServiceAnswer, ServiceDescription, ServiceQuery, Snapshot,
};

fn description(name: &str, id: usize) -> ServiceDescription {
    ServiceDescription {
        name: name.to_string(),
        pid: ProcessId::new("beta", id),
        details: Details::new(),
    }
}

fn remote(name: &str, node: &str, id: usize, interface: &[&str]) -> ServiceDescription {
    let mut details = Details::new();
    details.interface = interface.iter().map(|s| Val::Keyword(s.to_string())).collect();
    ServiceDescription {
        name: name.to_string(),
        pid: ProcessId::new(node, id),
        details,
    }
}

fn snapshot(revision: u64, services: Vec<ServiceDescription>) -> RemoteChange {
    RemoteChange::Snapshot(Snapshot { revision, services })
}

fn lookup_pid(registry: &Registry, name: &str) -> Option<ProcessId> {
    registry.lookup(name).map(|e| e.pid())
}

#[test]
fn versioned_checkpoint_prevents_stale_updates_and_resets_on_new_link() {
    let mut registry = Registry::new("alpha");
    registry
        .apply_remote_change("beta", snapshot(5, vec![description("probe", 2)]))
        .unwrap();
    registry
        .apply_remote_change("beta", RemoteChange::Up(4, description("probe", 1)))
        .unwrap();
    assert_eq!(lookup_pid(&registry, "probe"), Some(ProcessId::new("beta", 2)));
    registry
        .apply_remote_change(
            "beta",
            RemoteChange::Down(6, "probe".to_string(), ProcessId::new("beta", 2)),
        )
        .unwrap();
    registry
        .apply_remote_change("beta", snapshot(5, vec![description("probe", 2)]))
        .unwrap();
    assert!(registry.lookup("probe").is_none());
    registry.remove_node("beta");
    registry
        .apply_remote_change("beta", snapshot(1, vec![description("probe", 1)]))
        .unwrap();
    assert_eq!(lookup_pid(&registry, "probe"), Some(ProcessId::new("beta", 1)));
}

#[test]
fn checkpoint_refresh_does_not_republish_unchanged_service_over_another_node() {
    let mut registry = Registry::new("alpha");
    registry
        .apply_remote_change("beta", snapshot(1, vec![description("shared", 1)]))
        .unwrap();
    let mut other = description("shared", 8);
    other.pid = ProcessId::new("gamma", 8);
    registry
        .apply_remote_change("gamma", RemoteChange::Up(1, other))
        .unwrap();
    registry
        .apply_remote_change(
            "beta",
            snapshot(2, vec![description("shared", 1), description("unrelated", 2)]),
        )
        .unwrap();
    assert_eq!(lookup_pid(&registry, "shared"), Some(ProcessId::new("gamma", 8)));
}

#[test]
fn timed_out_snapshot_is_not_applied_when_registry_resumes() {
    let mut registry = Registry::new("alpha");
    let reply = registry.handle_cmd(RegistryCmd::ApplyRemote {
        node: "beta".to_string(),
        change: snapshot(1, vec![description("probe", 1)]),
        caller_waiting: false,
    });
    assert!(matches!(reply, RegistryReply::Applied(None)));
    assert_eq!(registry.len(), 0);
    assert_eq!(registry.revision("beta"), None);
}

#[test]
fn remote_registration_replaces_service_from_same_node() {
    let mut registry = Registry::new("here");
    let mut first = remote("replaceable", "remote", 1, &[]);
    first.details.interface = vec![Val::List(vec![
        Val::Keyword("first_hook".to_string()),
        Val::Symbol("cmd".to_string()),
    ])];
    let mut second = remote("replaceable", "remote", 2, &[]);
    second.details.interface = vec![Val::List(vec![
        Val::Keyword("second_hook".to_string()),
        Val::Symbol("expr".to_string()),
    ])];
    registry.remote_up(first);
    registry.remote_up(second);

    let entries = registry.all();
    assert_eq!(entries.len(), 1);
    assert_eq!(entries[0].pid(), ProcessId::new("remote", 2));
    assert_eq!(
        entries[0].interface(),
        &vec![Val::List(vec![
            Val::Keyword("second_hook".to_string()),
            Val::Symbol("expr".to_string()),
        ])]
    );

    registry.remove_remote("remote", "replaceable", &ProcessId::new("remote", 1));
    let entries = registry.all();
    assert_eq!(entries.len(), 1);
    assert_eq!(entries[0].pid(), ProcessId::new("remote", 2));
}

#[test]
fn latest_registration_wins_across_nodes() {
    let mut registry = Registry::new("here");
    registry.remote_up(remote("svc", "one", 1, &[]));
    registry.remote_up(remote("svc", "two", 2, &[]));
    let entries = registry.all();
    assert_eq!(entries.len(), 1);
    assert_eq!(entries[0].node(), "two");
    assert_eq!(registry.lookup("svc").unwrap().node(), "two");

    registry
        .register(Registration::new("svc"), ProcessId::new("here", 0))
        .unwrap();
    let entries = registry.all();
    assert_eq!(entries.len(), 1);
    assert!(entries[0].is_local());
    assert!(registry.lookup("svc").unwrap().is_local());

    registry.remote_up(remote("svc", "three", 3, &[]));
    let entries = registry.all();
    assert_eq!(entries.len(), 1);
    assert_eq!(entries[0].node(), "three");
    assert_eq!(registry.lookup("svc").unwrap().node(), "three");
}

#[test]
fn local_registration_is_exclusive_unless_overwriting() {
    let mut registry = Registry::new("here");
    let (event, first) = registry
        .register(Registration::new("echo"), ProcessId::new("here", 1))
        .unwrap();
    match event.unwrap() {
        RegistryEvent::Up { revision, service } => {
            assert_eq!(revision, 1);
            assert_eq!(service.name, "echo");
        }
        _ => panic!("registration announces the service"),
    }
    assert_eq!(
        registry
            .register(Registration::new("echo"), ProcessId::new("here", 2))
            .unwrap_err(),
        RegistryError::Exists("echo".to_string())
    );
    let mut replacing = Registration::new("echo");
    replacing.overwrite(true);
    let (_, second) = registry.register(replacing, ProcessId::new("here", 2)).unwrap();
    assert_eq!(registry.len(), 1);
    assert_eq!(lookup_pid(&registry, "echo"), Some(ProcessId::new("here", 2)));

    // the replaced entry is gone; its exit is not announced again
    assert!(registry.notify_exit("echo", first).is_none());
    match registry.notify_exit("echo", second) {
        Some(RegistryEvent::Down { revision, name, pid }) => {
            assert_eq!(revision, 3);
            assert_eq!(name, "echo");
            assert_eq!(pid, ProcessId::new("here", 2));
        }
        _ => panic!("exit of a registered process is announced"),
    }
    assert!(registry.lookup("echo").is_none());
}

#[test]
fn checkpoint_lists_local_services_in_registration_order() {
    let mut registry = Registry::new("here");
    registry.register(Registration::new("b"), ProcessId::new("here", 1)).unwrap();
    registry.remote_up(remote("x", "there", 9, &[]));
    let mut a = Registration::new("a");
    a.interface(vec![Val::List(vec![Val::Keyword("ping".to_string())])]);
    a.docs("ping".to_string(), "answers".to_string());
    registry.register(a, ProcessId::new("here", 2)).unwrap();
    let snap = registry.checkpoint().unwrap();
    assert_eq!(snap.revision, 2);
    let names: Vec<_> = snap.services.iter().map(|s| s.name.clone()).collect();
    assert_eq!(names, ["b", "a"]);
    assert_eq!(
        snap.services[1].details.interface,
        [Val::List(vec![Val::Keyword("ping".to_string())])]
    );
    let entry = registry.lookup("a").unwrap();
    assert_eq!(entry.doc("ping"), Some(&"answers".to_string()));
    assert_eq!(entry.doc("pong"), None);
}

#[test]
fn later_documentation_for_a_keyword_wins() {
    let mut registry = Registry::new("here");
    let mut reg = Registration::new("svc");
    reg.docs("ping".to_string(), "first".to_string());
    reg.docs("pong".to_string(), "other".to_string());
    reg.docs("ping".to_string(), "second".to_string());
    registry.register(reg, ProcessId::new("here", 1)).unwrap();
    let entry = registry.lookup("svc").unwrap();
    assert_eq!(entry.doc("ping"), Some(&"second".to_string()));
    assert_eq!(entry.doc("pong"), Some(&"other".to_string()));
}

#[test]
fn interface_that_is_not_data_is_not_announced_or_checkpointed() {
    let mut registry = Registry::new("here");
    let mut reg = Registration::new("svc");
    reg.interface(vec![Val::List(vec![Val::Keyword("ping".to_string()), Val::Ref(7)])]);
    let (event, _) = registry.register(reg, ProcessId::new("here", 1)).unwrap();
    assert!(event.is_none());
    assert!(registry.lookup("svc").unwrap().is_local());
    assert!(registry.checkpoint().is_none());
}

#[test]
fn registry_error_texts() {
    assert_eq!(
        RegistryError::Exists("echo".to_string()).message(),
        "Registered process exists for echo"
    );
    assert_eq!(RegistryError::ForeignService.message(), "foreign service in node update");
    assert_eq!(RegistryError::NoService.message(), "No service found");
}

#[test]
fn foreign_and_own_announcements() {
    let mut registry = Registry::new("alpha");
    assert_eq!(
        registry.apply_remote_change("beta", RemoteChange::Up(1, remote("s", "gamma", 1, &[]))),
        Err(RegistryError::ForeignService)
    );
    assert_eq!(registry.revision("beta"), None);
    registry.remote_up(remote("s", "alpha", 1, &[]));
    assert_eq!(registry.len(), 0);
    registry
        .apply_remote_change("beta", RemoteChange::Up(1, remote("s", "beta", 1, &[])))
        .unwrap();
    assert_eq!(registry.revision("beta"), Some(1));
    registry.remove_node("beta");
    assert_eq!(registry.len(), 0);
    assert_eq!(registry.revision("beta"), None);
}

#[test]
fn service_queries() {
    let mut registry = Registry::new("here");
    assert_eq!(ServiceQuery::parse("pid"), Some(ServiceQuery::Pid));
    assert_eq!(ServiceQuery::parse("interface"), Some(ServiceQuery::Interface));
    assert_eq!(ServiceQuery::parse("docs"), None);
    assert!(matches!(
        query_service(registry.lookup("svc"), ServiceQuery::Pid),
        Err(RegistryError::NoService)
    ));
    let mut reg = Registration::new("svc");
    reg.interface(vec![Val::Keyword("get".to_string())]);
    registry.register(reg, ProcessId::new("here", 4)).unwrap();
    match query_service(registry.lookup("svc"), ServiceQuery::Pid) {
        Ok(ServiceAnswer::Pid(p)) => assert_eq!(p, ProcessId::new("here", 4)),
        _ => panic!("pid expected"),
    }
    match query_service(registry.lookup("svc"), ServiceQuery::Interface) {
        Ok(ServiceAnswer::Interface(i)) => assert_eq!(i, [Val::Keyword("get".to_string())]),
        _ => panic!("interface expected"),
    }
}

#[test]
fn waits_end_once_the_service_is_registered() {
    let mut registry = Registry::new("here");
    assert!(registry.wait_answer("echo", None).is_none());
    registry
        .register(Registration::new("echo"), ProcessId::new("here", 4))
        .unwrap();
    let found = registry.wait_answer("echo", None).unwrap();
    assert!(found.same(&ProcessId::new("here", 4)));
    assert!(registry
        .wait_answer("echo", Some(&ProcessId::new("here", 5)))
        .is_none());
    assert!(registry
        .wait_answer("echo", Some(&ProcessId::new("here", 4)))
        .is_some());
}

#[test]
fn metadata_forms_by_keyword_latest_wins() {
    let mut registry = Registry::new("here");
    let mut reg = Registration::new("svc");
    reg.metadata("ping".to_string(), vec![Val::Int(1)]);
    reg.metadata("ping".to_string(), vec![Val::Int(2), Val::Keyword("fast".to_string())]);
    registry.register(reg, ProcessId::new("here", 1)).unwrap();
    let entry = registry.lookup("svc").unwrap();
    assert_eq!(entry.metadata("ping"), vec![Val::Int(2), Val::Keyword("fast".to_string())]);
    assert_eq!(entry.metadata("pong"), Vec::<Val>::new());
}
