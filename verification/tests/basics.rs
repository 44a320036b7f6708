use libvrs::pid::ProcessId;
use libvrs::runtime_socket_name;

#[test]
fn runtime_socket_names_by_build() {
    assert_eq!(runtime_socket_name(false), "vrsd.socket");
    assert_eq!(runtime_socket_name(true), "vrsd-debug.socket");
}

#[test]
fn process_ids_carry_node_and_number() {
    let pid = ProcessId::new("alpha", 3);
    assert_eq!(*pid.inner(), 3);
    assert_eq!(pid.node(), "alpha");
    assert!(pid.same(&ProcessId::new("alpha", 3)));
    assert!(!pid.same(&ProcessId::new("beta", 3)));
    assert!(!pid.same(&ProcessId::new("alpha", 4)));
    assert_eq!(pid.duplicate(), pid);
}
