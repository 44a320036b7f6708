use libvrs::client::{incoming_event, ClientError, ClientState, IncomingEvent, MessageKind};

/// What the client tells the runtime about subscriptions, in order.
#[derive(Debug, PartialEq)]
enum Sent {
    Start(String),
    End(String),
    Request(u32),
}

fn subscribe(state: &mut ClientState, sent: &mut Vec<Sent>, topic: &str) {
    if state.handle_subscribe(topic.to_string()) {
        sent.push(Sent::Start(topic.to_string()));
    }
}

fn drop_sub(state: &mut ClientState, sent: &mut Vec<Sent>, topic: &str) {
    if state.handle_sub_drop(topic) {
        sent.push(Sent::End(topic.to_string()));
    }
}

#[test]
fn subscription_drop_to_zero() {
    let mut state = ClientState::new();
    let mut sent = vec![];
    subscribe(&mut state, &mut sent, "my_topic");
    drop_sub(&mut state, &mut sent, "my_topic");
    assert_eq!(
        sent,
        vec![Sent::Start("my_topic".into()), Sent::End("my_topic".into())]
    );
    assert!(!state.handle_sub_update("my_topic"));
}

#[test]
fn subscription_drop_multi() {
    let mut state = ClientState::new();
    let mut sent = vec![];
    subscribe(&mut state, &mut sent, "my_topic");
    subscribe(&mut state, &mut sent, "my_topic");
    drop_sub(&mut state, &mut sent, "my_topic");
    drop_sub(&mut state, &mut sent, "my_topic");
    assert_eq!(
        sent,
        vec![Sent::Start("my_topic".into()), Sent::End("my_topic".into())]
    );
}

#[test]
fn subscription_drop_decrement() {
    let mut state = ClientState::new();
    let mut sent = vec![];
    subscribe(&mut state, &mut sent, "my_topic");
    subscribe(&mut state, &mut sent, "my_topic");
    drop_sub(&mut state, &mut sent, "my_topic");
    let id = state.handle_request();
    sent.push(Sent::Request(id));
    assert_eq!(sent, vec![Sent::Start("my_topic".into()), Sent::Request(0)]);
    assert!(state.handle_sub_update("my_topic"));
}

#[test]
fn client_requests_are_numbered_and_answered_once() {
    let mut state = ClientState::new();
    assert_eq!(state.handle_request(), 0);
    assert_eq!(state.handle_request(), 1);
    assert_eq!(state.handle_request(), 2);
    assert_eq!(state.handle_recv_response(1), Ok(()));
    assert_eq!(
        state.handle_recv_response(1),
        Err(ClientError::UnexpectedResponse(1))
    );
    assert_eq!(
        state.handle_recv_response(7),
        Err(ClientError::UnexpectedResponse(7))
    );
    assert_eq!(state.handle_recv_response(0), Ok(()));
    assert_eq!(state.handle_recv_response(2), Ok(()));
}

#[test]
fn client_updates_reach_only_subscribed_topics() {
    let mut state = ClientState::new();
    let mut sent = vec![];
    subscribe(&mut state, &mut sent, "topic1");
    subscribe(&mut state, &mut sent, "topic2");
    assert!(state.handle_sub_update("topic1"));
    assert!(state.handle_sub_update("topic2"));
    assert!(!state.handle_sub_update("not_my_topic"));
}

#[test]
fn client_takes_responses_and_updates_only() {
    assert_eq!(
        incoming_event(MessageKind::Response),
        Ok(IncomingEvent::RecvResponse)
    );
    assert_eq!(
        incoming_event(MessageKind::SubscriptionUpdate),
        Ok(IncomingEvent::RecvSubscriptionUpdate)
    );
    assert_eq!(
        incoming_event(MessageKind::Request),
        Err(ClientError::UnexpectedMessage)
    );
    assert_eq!(
        incoming_event(MessageKind::SubscriptionStart),
        Err(ClientError::UnexpectedMessage)
    );
    assert!(ClientError::UnexpectedMessage.message().starts_with("Internal inconsistency"));
}
