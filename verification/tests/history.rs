use libvrs::history::{History, CAPACITY};

#[test]
fn bounded_history_and_loss_are_explicit() {
    let mut history: History<String> = History::new();
    for i in 0..CAPACITY + 3 {
        history.observe("test".to_string(), i.to_string(), "running".to_string());
    }
    assert_eq!(history.len(), CAPACITY);
    assert_eq!(history.evicted(), 3);
    assert_eq!(history.record(0).id, "3");
    assert_eq!(history.cursor(), (CAPACITY + 3) as u64);
    history.observe_busy();
    assert_eq!(history.dropped(), 1);
}

#[test]
fn observing_an_event_again_replaces_its_record() {
    let mut history: History<&str> = History::new();
    assert_eq!(history.observe("p".into(), "a".into(), "running"), 1);
    assert_eq!(history.observe("p".into(), "b".into(), "running"), 2);
    assert_eq!(history.observe("p".into(), "a".into(), "returned"), 3);
    assert_eq!(history.len(), 2);
    assert_eq!(history.record(0).id, "a");
    assert_eq!(history.record(0).event, "returned");
    assert_eq!(history.record(0).sequence, 3);
    assert_eq!(history.record(1).id, "b");
    assert_eq!(history.evicted(), 0);
}
