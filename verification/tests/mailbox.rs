use libvrs::mailbox::Mailbox;
use libvrs::value::Val;

fn sym(s: &str) -> Val {
    Val::Symbol(s.to_string())
}

fn kw(s: &str) -> Val {
    Val::Keyword(s.to_string())
}

/// `(:name n)` or `(:name n n)`.
fn tagged(name: &str, n: i32, times: usize) -> Val {
    let mut items = vec![kw(name)];
    for _ in 0..times {
        items.push(Val::Int(n));
    }
    Val::List(items)
}

/// The patterns of these tests, matched as the runtime matches them.
enum Pat {
    /// `(:tag _)`
    Tagged(&'static str),
    /// A list of this many elements, such as `(a b)`.
    ListOf(usize),
}

fn is_match(pat: &Pat, v: &Val) -> bool {
    match (pat, v) {
        (Pat::Tagged(tag), Val::List(items)) => {
            items.len() == 2 && items[0] == kw(tag)
        }
        (Pat::ListOf(n), Val::List(items)) => items.len() == *n,
        _ => false,
    }
}

fn poll(mb: &mut Mailbox, pat: Option<&Pat>) -> Option<Val> {
    let matches = mb
        .all()
        .iter()
        .map(|m| pat.map_or(true, |p| is_match(p, m)))
        .collect::<Vec<_>>();
    mb.handle_poll(&matches)
}

fn push(mb: &mut Mailbox, pending: Option<&Pat>, msg: Val) -> Option<Val> {
    let fulfills = mb.is_pending() && pending.map_or(true, |p| is_match(p, &msg));
    mb.push(msg, fulfills)
}

#[test]
fn messages() {
    let mb = Mailbox::new();
    assert_eq!(mb.all(), vec![]);
}

#[test]
fn all() {
    let mut mb = Mailbox::new();
    assert_eq!(push(&mut mb, None, sym("one")), None);
    assert_eq!(push(&mut mb, None, sym("two")), None);
    assert_eq!(push(&mut mb, None, sym("three")), None);
    assert_eq!(
        mb.all(),
        vec![sym("one"), sym("two"), sym("three")],
        "Messages should be present in order it was received"
    );
}

#[test]
fn poll_after_push() {
    let mut mb = Mailbox::new();
    let msg = Val::List(vec![kw("hello"), Val::String("one".into()), Val::Int(2), kw("three")]);
    push(&mut mb, None, msg.duplicate());
    assert_eq!(poll(&mut mb, None), Some(msg));
}

#[test]
fn poll_before_push() {
    let mut mb = Mailbox::new();
    assert_eq!(poll(&mut mb, None), None, "poll should wait");
    assert!(mb.is_pending());
    assert_eq!(
        push(&mut mb, None, sym("hi")),
        Some(sym("hi")),
        "Poll should return with result"
    );
    assert!(!mb.is_pending());
    assert_eq!(mb.all(), vec![]);
}

#[test]
fn poll_after_push_pattern() {
    let mut mb = Mailbox::new();
    let msg1 = tagged("one", 1, 1);
    let msg2 = tagged("two", 2, 1);
    let msg3 = tagged("three", 3, 1);
    let msg4 = tagged("four", 4, 1);
    for m in [&msg1, &msg2, &msg3, &msg4] {
        push(&mut mb, None, m.duplicate());
    }
    assert_eq!(
        poll(&mut mb, Some(&Pat::Tagged("two"))),
        Some(msg2),
        "Should return with matching message"
    );
    assert_eq!(
        mb.all(),
        vec![msg1.duplicate(), msg3.duplicate(), msg4.duplicate()],
        "Should still have unmatched messages"
    );
    assert_eq!(
        poll(&mut mb, Some(&Pat::ListOf(2))),
        Some(msg1),
        "If multiple messages match, earlier messages one should be returned first"
    );
    assert_eq!(mb.all(), vec![msg3, msg4], "Should still have unmatched messages");
}

#[test]
fn poll_before_push_pattern() {
    let mut mb = Mailbox::new();
    let first = Pat::Tagged("four");
    let second = Pat::ListOf(2);
    let third = Pat::ListOf(3);

    let mut received = vec![];
    assert_eq!(poll(&mut mb, Some(&first)), None, "poll should wait");

    let msg1 = tagged("one", 1, 1); // matches 2nd poll
    let msg2 = tagged("two", 2, 2); // matches 3rd poll
    let msg3 = tagged("three", 3, 1); // ignored
    let msg4 = tagged("four", 4, 1); // matches 1st poll
    let msg5 = tagged("five", 5, 2); // ignored
    for m in [&msg1, &msg2, &msg3] {
        assert_eq!(push(&mut mb, Some(&first), m.duplicate()), None);
    }
    received.push(push(&mut mb, Some(&first), msg4.duplicate()).unwrap());
    received.push(poll(&mut mb, Some(&second)).unwrap());
    received.push(poll(&mut mb, Some(&third)).unwrap());
    assert_eq!(push(&mut mb, None, msg5.duplicate()), None);

    assert_eq!(received, vec![msg4, msg1, msg2]);
    assert_eq!(mb.all(), vec![msg3, msg5]);
}

#[test]
fn a_poll_that_gave_up_lets_later_polls_wait() {
    let mut m = Mailbox::new();
    m.push(Val::Int(1), false);
    assert_eq!(m.handle_poll(&vec![false]), None);
    assert!(m.is_pending());
    m.cancel_poll();
    assert!(!m.is_pending());
    assert_eq!(m.all(), vec![Val::Int(1)]);
    assert_eq!(m.handle_poll(&vec![false]), None);
    assert_eq!(m.push(Val::Int(2), true), Some(Val::Int(2)));
}
