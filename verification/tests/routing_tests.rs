use trading_gui::component::{ComponentError, ComponentId};
use trading_gui::json::JsonValue;
use trading_gui::routing::{MessageRouter, MessageStats, ServiceMessage};
use trading_gui::service::{MessagePriority, ServiceId, ServiceMessageType};
use tokio::sync::mpsc::{unbounded_channel, UnboundedReceiver};

fn sid(s: &str) -> ServiceId {
    ServiceId::new(s.to_string())
}

fn names(v: &[ServiceId]) -> Vec<String> {
    v.iter().map(|s| s.0.clone()).collect()
}

type Inbox = UnboundedReceiver<ServiceMessage>;

fn router_with(channels: &[&str]) -> (MessageRouter, Vec<Inbox>) {
    let mut r = MessageRouter::new();
    let mut inboxes = Vec::new();
    for c in channels {
        let (tx, rx) = unbounded_channel();
        r.register_channel(sid(c), tx);
        inboxes.push(rx);
    }
    (r, inboxes)
}

fn received(inbox: &mut Inbox) -> Vec<String> {
    let mut topics = Vec::new();
    while let Ok(m) = inbox.try_recv() {
        topics.push(m.topic);
    }
    topics
}

#[test]
fn message_constructors() {
    let m = ServiceMessage::request(sid("a"), sid("b"), "t".to_string(), JsonValue::Null);
    assert_eq!(m.message_type, ServiceMessageType::Request);
    assert_eq!(m.receiver.as_ref().map(|r| r.0.as_str()), Some("b"));
    assert_eq!(m.priority, MessagePriority::Normal);
    assert_eq!(m.id.len(), 36);
    let r = ServiceMessage::response(sid("b"), sid("a"), "t".to_string(), JsonValue::Null);
    assert_eq!(r.message_type, ServiceMessageType::Response);
    let e = ServiceMessage::broadcast_event(sid("a"), "t".to_string(), JsonValue::Bool(true));
    assert_eq!(e.message_type, ServiceMessageType::Event);
    assert!(e.receiver.is_none());
    assert_ne!(m.id, r.id);
}

#[test]
fn message_builders_and_expiry() {
    let m = ServiceMessage::new(sid("a"), None, "t".to_string(), JsonValue::Null)
        .with_priority(MessagePriority::High)
        .with_component(ComponentId::new("c".to_string()))
        .with_expiry_at(1000, 500);
    assert_eq!(m.priority, MessagePriority::High);
    assert_eq!(m.component_id.as_ref().map(|c| c.0.as_str()), Some("c"));
    assert_eq!(m.expires_at, Some(1500));
    assert!(!m.is_expired_at(1500));
    assert!(m.is_expired_at(1501));
    let far = ServiceMessage::new(sid("a"), None, "t".to_string(), JsonValue::Null).with_expiry_at(u64::MAX - 1, 10);
    assert_eq!(far.expires_at, Some(u64::MAX));
    let plain = ServiceMessage::new(sid("a"), None, "t".to_string(), JsonValue::Null);
    assert!(!plain.is_expired());
    let soon = ServiceMessage::new(sid("a"), None, "t".to_string(), JsonValue::Null).with_expiry(60_000);
    assert!(soon.expires_at.is_some());
    assert!(!soon.is_expired());
}

#[test]
fn broadcast_skips_sender() {
    let (mut router, mut inboxes) = router_with(&["a", "b", "c"]);
    let m = ServiceMessage::broadcast_event(sid("b"), "t".to_string(), JsonValue::Null);
    let to = router.route_message_at(m.clone(), 0).unwrap();
    assert_eq!(names(&to), vec!["a", "c"]);
    let to = router.route_message(m).unwrap();
    assert_eq!(names(&to), vec!["a", "c"]);
    assert_eq!(received(&mut inboxes[0]), vec!["t", "t"]);
    assert!(received(&mut inboxes[1]).is_empty());
    assert_eq!(received(&mut inboxes[2]), vec!["t", "t"]);
    assert_eq!(router.get_stats().total_sent, 2);
}

#[test]
fn broadcast_counts_even_when_a_channel_is_closed() {
    let (mut router, mut inboxes) = router_with(&["a", "b", "c"]);
    let closed = inboxes.remove(1);
    drop(closed);
    let m = ServiceMessage::broadcast_event(sid("a"), "x".to_string(), JsonValue::Null);
    let to = router.route_message_at(m, 9).unwrap();
    assert_eq!(names(&to), vec!["b", "c"]);
    assert_eq!(received(&mut inboxes[1]), vec!["x"]);
    let s = router.get_stats();
    assert_eq!(s.total_sent, 1);
    assert_eq!(s.last_activity, Some(9));
}

#[test]
fn direct_message_needs_a_channel() {
    let (mut router, mut inboxes) = router_with(&["a", "b"]);
    let m = ServiceMessage::request(sid("a"), sid("b"), "t".to_string(), JsonValue::Null);
    assert_eq!(names(&router.route_message_at(m, 4).unwrap()), vec!["b"]);
    assert!(received(&mut inboxes[0]).is_empty());
    assert_eq!(received(&mut inboxes[1]), vec!["t"]);
    let s = router.get_stats();
    assert_eq!(s.total_sent, 1);
    assert_eq!(s.last_activity, Some(4));
    let lost = ServiceMessage::request(sid("a"), sid("z"), "t".to_string(), JsonValue::Null);
    match router.route_message_at(lost, 5) {
        Err(ComponentError::CommunicationError(t)) => assert_eq!(t, "服务 z 的消息通道未找到"),
        other => panic!("unexpected {:?}", other),
    }
    assert_eq!(router.get_stats(), s);
}

#[test]
fn direct_message_to_a_closed_channel_fails() {
    let (mut router, mut inboxes) = router_with(&["a", "b"]);
    drop(inboxes.pop());
    let m = ServiceMessage::request(sid("a"), sid("b"), "t".to_string(), JsonValue::Null);
    match router.route_message_at(m, 3) {
        Err(ComponentError::CommunicationError(t)) => assert_eq!(t, "发送消息到服务 b 失败"),
        other => panic!("unexpected {:?}", other),
    }
    assert_eq!(router.get_stats(), MessageStats::default());
}

#[test]
fn expired_messages_are_dropped_and_counted() {
    let (mut router, mut inboxes) = router_with(&["a", "b"]);
    let m = ServiceMessage::broadcast_event(sid("a"), "t".to_string(), JsonValue::Null).with_expiry_at(0, 10);
    match router.route_message_at(m.clone(), 11) {
        Err(ComponentError::CommunicationError(t)) => assert_eq!(t, "消息已过期"),
        other => panic!("unexpected {:?}", other),
    }
    assert_eq!(router.get_stats().total_dropped, 1);
    assert_eq!(router.get_stats().total_sent, 0);
    assert!(received(&mut inboxes[1]).is_empty());
    assert!(router.route_message_at(m, 10).is_ok());
    assert_eq!(router.get_stats().total_dropped, 1);
    assert_eq!(received(&mut inboxes[1]), vec!["t"]);
}

#[test]
fn registering_a_channel_again_replaces_it() {
    let (mut router, mut inboxes) = router_with(&["a", "a", "b"]);
    let m = ServiceMessage::broadcast_event(sid("z"), "t".to_string(), JsonValue::Null);
    assert_eq!(names(&router.route_message_at(m, 0).unwrap()), vec!["a", "b"]);
    assert!(received(&mut inboxes[0]).is_empty());
    assert_eq!(received(&mut inboxes[1]), vec!["t"]);
    assert_eq!(received(&mut inboxes[2]), vec!["t"]);
}

#[test]
fn completing_routes_counts_sends() {
    let (mut router, _inboxes) = router_with(&["a", "b"]);
    let direct = ServiceMessage::request(sid("a"), sid("b"), "t".to_string(), JsonValue::Null);
    match router.complete_route_at(&direct, true, 5) {
        Err(ComponentError::CommunicationError(t)) => assert_eq!(t, "发送消息到服务 b 失败"),
        other => panic!("unexpected {:?}", other),
    }
    assert_eq!(router.get_stats(), MessageStats::default());
    router.complete_route_at(&direct, false, 6).unwrap();
    let b = ServiceMessage::broadcast_event(sid("a"), "t".to_string(), JsonValue::Null);
    router.complete_route_at(&b, true, 7).unwrap();
    let s = router.get_stats();
    assert_eq!(s.total_sent, 2);
    assert_eq!(s.last_activity, Some(7));
    assert_eq!(s.total_dropped, 0);
}

#[test]
fn message_copies_keep_every_field() {
    let m = ServiceMessage::request(sid("a"), sid("b"), "t".to_string(), JsonValue::Bool(true))
        .with_priority(MessagePriority::High)
        .with_expiry_at(5, 5)
        .with_component(ComponentId::new("c".to_string()));
    let d = m.duplicate();
    assert_eq!(d.id, m.id);
    assert_eq!(d.receiver.as_ref().map(|r| r.0.as_str()), Some("b"));
    assert_eq!(d.sender.0, "a");
    assert_eq!(d.topic, "t");
    assert!(matches!(d.payload, JsonValue::Bool(true)));
    assert_eq!(d.priority, MessagePriority::High);
    assert_eq!(d.created_at, m.created_at);
    assert_eq!(d.expires_at, Some(10));
    assert_eq!(d.component_id.as_ref().map(|c| c.0.as_str()), Some("c"));
}
