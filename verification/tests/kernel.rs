use libvrs::kernel::{Kernel, KernelError};
use libvrs::pid::ProcessId;
use libvrs::process::{ProcessResult, SubscriptionId, Subscriptions};
use libvrs::value::Val;

#[test]
fn kernel_numbers_and_tracks_processes() {
    let mut k = Kernel::new("alpha");
    let p0 = k.next_pid();
    let p1 = k.next_pid();
    assert!(p0.same(&ProcessId::new("alpha", 0)));
    assert!(p1.same(&ProcessId::new("alpha", 1)));
    k.spawned(p0.duplicate());
    k.spawned(p1.duplicate());
    assert!(k.contains(&p0));
    assert_eq!(k.procs().len(), 2);
    assert_eq!(k.kill_proc(&p1), Ok(()));
    assert_eq!(k.dispatch_msg(&p0), Ok(()));
    k.handle_exit(&p0);
    assert!(!k.contains(&p0));
    assert_eq!(k.kill_proc(&p0), Err(KernelError::UnknownProcess));
    assert_eq!(k.dispatch_msg(&ProcessId::new("alpha", 9)), Err(KernelError::UnknownProcess));
    assert_eq!(k.list_processes().len(), 1);
}

#[test]
fn process_subscriptions_are_numbered_and_ended() {
    let mut subs = Subscriptions::new();
    let (a, replaced_a) = subs.add_subscription();
    let (b, replaced_b) = subs.add_subscription();
    assert_eq!(a, SubscriptionId::from(0));
    assert_eq!(b.inner(), 1);
    assert!(!replaced_a && !replaced_b);
    assert!(subs.contains(a));
    assert!(subs.remove_subscription(a));
    assert!(!subs.remove_subscription(a));
    assert!(!subs.is_shutdown());
    assert_eq!(subs.shutdown(), vec![b]);
    assert!(subs.is_shutdown());
    assert!(!subs.contains(b));
}

#[test]
fn process_results_hold_the_value_of_completed_processes() {
    assert_eq!(ProcessResult::Done(Val::Int(42)).unwrap(), Val::Int(42));
    assert_eq!(ProcessResult::Done(Val::Nil).value(), Some(Val::Nil));
    assert_eq!(ProcessResult::Cancelled.value(), None);
    assert_eq!(ProcessResult::Disconnected.value(), None);
}
