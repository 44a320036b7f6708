use libvrs::term::Term;

#[derive(Debug, PartialEq)]
struct Request {
    id: u32,
    contents: String,
}

fn req(id: u32, contents: &str) -> Request {
    Request { id, contents: contents.to_string() }
}

#[test]
fn read_req_no_request() {
    let mut t: Term<Request> = Term::new();
    assert_eq!(t.on_read(), None, "reader waits");
}

#[test]
fn read_request_sequencing() {
    // A request that arrives before the read is queued for it.
    {
        let mut t = Term::new();
        assert_eq!(t.on_request(req(10, "Hello")), None);
        assert_eq!(t.on_read(), Some(req(10, "Hello")));
    }
    // A read that comes first waits for the request.
    {
        let mut t = Term::new();
        assert_eq!(t.on_read(), None);
        assert_eq!(t.on_request(req(10, "Hello")), Some(req(10, "Hello")));
    }
}

#[test]
fn read_request_in_sequence() {
    let mut t = Term::new();
    for i in 0..5 {
        assert_eq!(t.on_request(req(i, &i.to_string())), None);
    }
    let mut reqs = vec![];
    for _ in 0..5 {
        reqs.push(t.on_read().unwrap());
    }
    let expected = (0..5).map(|i| req(i, &i.to_string())).collect::<Vec<_>>();
    assert_eq!(reqs, expected, "Requests are returned in order");
}

#[test]
fn waiting_readers_are_served_in_order() {
    let mut t = Term::new();
    assert_eq!(t.on_read(), None);
    assert_eq!(t.on_read(), None);
    assert_eq!(t.on_request(req(1, "a")), Some(req(1, "a")));
    assert_eq!(t.on_request(req(2, "b")), Some(req(2, "b")));
    assert_eq!(t.on_request(req(3, "c")), None);
    assert_eq!(t.on_read(), Some(req(3, "c")));
}

#[test]
fn term_subscriptions_are_set_up_and_torn_down() {
    let mut t: Term<Request> = Term::new();
    assert!(t.setup_subscription("my_topic".to_string()));
    assert!(!t.setup_subscription("my_topic".to_string()));
    assert!(t.teardown_subscription("my_topic"));
    assert!(!t.teardown_subscription("my_topic"));
    assert!(!t.teardown_subscription("other"));
}
