use libvrs::pubsub::{Delivery, PubSub};

#[test]
fn publish_reaches_local_subscribers_and_peers() {
    let mut ps = PubSub::new();
    assert_eq!(ps.publish("my_topic"), Delivery { local: false, peers: true });
    ps.handle_subscribe("my_topic".to_string());
    assert_eq!(ps.publish("my_topic"), Delivery { local: true, peers: true });
    assert_eq!(ps.publish("other"), Delivery { local: false, peers: true });
}

#[test]
fn peer_publications_are_not_relayed() {
    let mut ps = PubSub::new();
    ps.handle_subscribe("my_topic".to_string());
    assert_eq!(
        ps.publish_from_peer("my_topic"),
        Delivery { local: true, peers: false }
    );
    assert_eq!(
        ps.publish_from_peer("other"),
        Delivery { local: false, peers: false }
    );
}

#[test]
fn clearing_topics() {
    let mut ps = PubSub::new();
    ps.handle_subscribe("a".to_string());
    ps.handle_subscribe("a".to_string());
    assert!(ps.handle_clear("a"));
    assert!(!ps.handle_clear("a"));
    assert_eq!(ps.publish("a"), Delivery { local: false, peers: true });
}
