use trading_gui::component::{ComponentError, ComponentId};
use trading_gui::json::JsonValue;
use trading_gui::messaging::{
    receive_error, CustomFilter, Dispatch, EventChannel, EventChannelConfig, EventFilter, EventKind,
    EventTypeFilter, MessageBus, MessageHandler, ReceiveFailure, SimpleMessageHandler,
};
use trading_gui::routing::ServiceMessage;
use trading_gui::service::ServiceId;

fn custom_kind(name: &str) -> EventKind {
    EventKind::Custom { event_type: name.to_string() }
}

#[test]
fn kind_filters_select_their_kind() {
    let f = EventFilter::EventType(EventTypeFilter::MouseClick);
    assert!(f.matches(&EventKind::MouseClick));
    assert!(!f.matches(&EventKind::KeyboardInput));
    let c = EventFilter::EventType(EventTypeFilter::Custom("tick".to_string()));
    assert!(c.matches(&custom_kind("tick")));
    assert!(!c.matches(&custom_kind("trade")));
    assert!(!c.matches(&EventKind::DataUpdate));
}

#[test]
fn component_and_custom_filters_pass_everything() {
    let f = EventFilter::ComponentId(ComponentId::new("x".to_string()));
    assert!(f.matches(&EventKind::WindowEvent));
    let g = EventFilter::Custom(CustomFilter { name: "any".to_string(), condition: JsonValue::Null });
    assert!(g.matches(&custom_kind("z")));
}

#[test]
fn combined_filters() {
    let click = || EventFilter::EventType(EventTypeFilter::MouseClick);
    let hover = || EventFilter::EventType(EventTypeFilter::MouseHover);
    let or = EventFilter::Or(vec![click(), hover()]);
    assert!(or.matches(&EventKind::MouseHover));
    assert!(!or.matches(&EventKind::StateChanged));
    let and = EventFilter::And(vec![click(), hover()]);
    assert!(!and.matches(&EventKind::MouseClick));
    let not = EventFilter::Not(Box::new(click()));
    assert!(not.matches(&EventKind::ConfigChanged));
    assert!(!not.matches(&EventKind::MouseClick));
}

#[test]
fn filter_algebra_on_concrete_events() {
    // Double negation selects the same events; empty And selects all, empty Or none.
    let f = EventFilter::EventType(EventTypeFilter::DataUpdate);
    let nn = EventFilter::Not(Box::new(EventFilter::Not(Box::new(EventFilter::EventType(EventTypeFilter::DataUpdate)))));
    for e in [EventKind::DataUpdate, EventKind::MouseClick, custom_kind("q")] {
        assert_eq!(nn.matches(&e), f.matches(&e));
        assert!(EventFilter::And(vec![]).matches(&e));
        assert!(!EventFilter::Or(vec![]).matches(&e));
    }
}

#[test]
fn receive_errors() {
    let text = |e: ComponentError| match e {
        ComponentError::CommunicationError(m) => m,
        other => panic!("unexpected {:?}", other),
    };
    assert_eq!(text(receive_error(ReceiveFailure::Empty)), "没有新事件");
    assert_eq!(text(receive_error(ReceiveFailure::Closed)), "事件通道已关闭");
    assert_eq!(text(receive_error(ReceiveFailure::Lagged(7))), "事件接收滞后 7 个事件");
}

#[test]
fn event_channel_counts_subscribers() {
    let mut ch = EventChannel::new(EventChannelConfig::default());
    assert_eq!(ch.subscriber_count(), 0);
    let id = ch.subscribe(ComponentId::new("a".to_string())).unwrap();
    assert_eq!(id.0, "a");
    ch.subscribe(ComponentId::new("b".to_string())).unwrap();
    assert_eq!(ch.subscriber_count(), 2);
    ch.add_filter(ComponentId::new("a".to_string()), EventFilter::EventType(EventTypeFilter::MouseClick));
    ch.add_filter(ComponentId::new("a".to_string()), EventFilter::EventType(EventTypeFilter::MouseHover));
    ch.remove_filters(&ComponentId::new("a".to_string()));
    ch.remove_filters(&ComponentId::new("nobody".to_string()));
    assert_eq!(ch.subscriber_count(), 2);
}

#[test]
fn event_channel_config_default() {
    let c = EventChannelConfig::default();
    assert_eq!(c.buffer_size, 1000);
    assert!(c.enable_history);
    assert_eq!(c.max_history_size, 100);
    assert_eq!(c.event_ttl, 60_000);
}

#[test]
fn bus_start_stop_and_dispatch() {
    let mut bus = MessageBus::new();
    assert_eq!(bus.dispatch("prices"), Dispatch::Stop);
    bus.start().unwrap();
    assert_eq!(bus.dispatch("prices"), Dispatch::NoHandler);
    bus.register_handler("prices".to_string());
    bus.register_handler("prices".to_string());
    assert_eq!(bus.dispatch("prices"), Dispatch::ToHandler);
    match bus.start() {
        Err(ComponentError::StateError(m)) => assert_eq!(m, "消息总线已在运行"),
        other => panic!("unexpected {:?}", other),
    }
    bus.unregister_handler("prices");
    assert_eq!(bus.dispatch("prices"), Dispatch::NoHandler);
    bus.stop().unwrap();
    assert_eq!(bus.dispatch("prices"), Dispatch::Stop);
    match bus.start() {
        Err(ComponentError::StateError(m)) => assert_eq!(m, "服务消息接收器已被获取"),
        other => panic!("unexpected {:?}", other),
    }
}

#[test]
fn bus_counters() {
    let mut bus = MessageBus::new();
    let s = bus.get_stats();
    assert_eq!(s.service_messages_processed, 0);
    assert_eq!(s.last_activity, None);
    bus.record_service_message(1000);
    bus.record_service_message(2000);
    bus.record_handler_error();
    let s = bus.get_stats();
    assert_eq!(s.service_messages_processed, 2);
    assert_eq!(s.errors_count, 1);
    assert_eq!(s.component_events_processed, 0);
    assert_eq!(s.last_activity, Some(2000));
}

#[test]
fn simple_message_handler_forwards_to_its_function() {
    use_handler();
}

fn use_handler() {
    let h = SimpleMessageHandler::new(
        "prices".to_string(),
        vec!["ticker".to_string(), "depth".to_string()],
        |m: ServiceMessage| {
            if m.topic == "depth" {
                Ok(())
            } else {
                Err(ComponentError::UpdateError(m.topic.clone()))
            }
        },
    );
    assert_eq!(h.name(), "prices");
    assert_eq!(h.supported_topics(), vec!["ticker".to_string(), "depth".to_string()]);
    let ok = ServiceMessage::broadcast_event(ServiceId::new("s".to_string()), "depth".to_string(), JsonValue::Null);
    assert!(h.handle_message(ok).is_ok());
    let bad = ServiceMessage::broadcast_event(ServiceId::new("s".to_string()), "ticker".to_string(), JsonValue::Null);
    match h.handle_message(bad) {
        Err(ComponentError::UpdateError(t)) => assert_eq!(t, "ticker"),
        other => panic!("unexpected {:?}", other),
    }
}
