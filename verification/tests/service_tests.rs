use trading_gui::component::ComponentError;
use trading_gui::service::{
    GUIServiceManager, GUIServiceManagerConfig, MessagePriority, ServiceConfig, ServiceId, ServiceState,
};

fn sid(s: &str) -> ServiceId {
    ServiceId::new(s.to_string())
}

fn ids(v: &[&str]) -> Vec<ServiceId> {
    v.iter().map(|s| sid(s)).collect()
}

fn config_text<T: std::fmt::Debug>(r: Result<T, ComponentError>) -> String {
    match r {
        Err(ComponentError::ConfigError(m)) => m,
        other => panic!("expected a configuration error, got {:?}", other),
    }
}

fn position(order: &[ServiceId], name: &str) -> usize {
    order.iter().position(|s| s.0 == name).expect("service missing from order")
}

#[test]
fn register_twice_is_refused() {
    let mut m = GUIServiceManager::new();
    m.register_service(sid("a"), vec![]).unwrap();
    assert_eq!(config_text(m.register_service(sid("a"), vec![])), "服务 a 已存在");
    assert_eq!(m.service_ids().len(), 1);
    assert!(matches!(m.get_service_state(&sid("a")), Some(ServiceState::Stopped)));
    assert!(m.get_service_state(&sid("b")).is_none());
}

#[test]
fn startup_order_puts_dependencies_first() {
    let mut m = GUIServiceManager::new();
    m.register_service(sid("ui"), ids(&["data", "config"])).unwrap();
    m.register_service(sid("data"), ids(&["config"])).unwrap();
    m.register_service(sid("config"), vec![]).unwrap();
    let order = m.calculate_startup_order().unwrap();
    assert_eq!(order.len(), 3);
    assert!(position(&order, "config") < position(&order, "data"));
    assert!(position(&order, "data") < position(&order, "ui"));
}

#[test]
fn startup_order_includes_unregistered_dependencies() {
    let mut m = GUIServiceManager::new();
    m.register_service(sid("ui"), ids(&["external"])).unwrap();
    let order = m.calculate_startup_order().unwrap();
    assert_eq!(order.len(), 2);
    assert!(position(&order, "external") < position(&order, "ui"));
}

#[test]
fn dependency_cycle_is_refused() {
    let mut m = GUIServiceManager::new();
    m.register_service(sid("a"), ids(&["b"])).unwrap();
    m.register_service(sid("b"), ids(&["c"])).unwrap();
    m.register_service(sid("c"), ids(&["a"])).unwrap();
    let msg = config_text(m.calculate_startup_order());
    assert!(msg.starts_with("检测到服务依赖环: "));
}

#[test]
fn self_dependency_is_a_cycle() {
    let mut m = GUIServiceManager::new();
    m.register_service(sid("a"), ids(&["a"])).unwrap();
    assert!(m.calculate_startup_order().is_err());
}

#[test]
fn empty_manager_has_empty_order() {
    let m = GUIServiceManager::new();
    assert!(m.calculate_startup_order().unwrap().is_empty());
}

#[test]
fn starting_needs_running_dependencies() {
    let mut m = GUIServiceManager::new();
    m.register_service(sid("ui"), ids(&["data"])).unwrap();
    assert_eq!(config_text(m.begin_start(&sid("ui"))), "依赖服务 data 未找到");
    m.register_service(sid("data"), vec![]).unwrap();
    assert_eq!(config_text(m.begin_start(&sid("ui"))), "依赖服务 data 未运行");
    m.begin_start(&sid("data")).unwrap();
    assert!(matches!(m.get_service_state(&sid("data")), Some(ServiceState::Starting)));
    m.finish_start(&sid("data"), Ok(())).unwrap();
    assert!(matches!(m.get_service_state(&sid("data")), Some(ServiceState::Running)));
    m.begin_start(&sid("ui")).unwrap();
    assert_eq!(config_text(m.begin_start(&sid("nothing"))), "服务 nothing 未找到");
}

#[test]
fn failed_start_records_error_text() {
    let mut m = GUIServiceManager::new();
    m.register_service(sid("a"), vec![]).unwrap();
    m.begin_start(&sid("a")).unwrap();
    let r = m.finish_start(&sid("a"), Err(ComponentError::ResourceError("no memory".to_string())));
    assert!(r.is_err());
    match m.get_service_state(&sid("a")) {
        Some(ServiceState::Error(msg)) => assert_eq!(msg, "资源错误: no memory"),
        other => panic!("unexpected {:?}", other),
    }
}

#[test]
fn stopping_services() {
    let mut m = GUIServiceManager::new();
    m.register_service(sid("a"), vec![]).unwrap();
    assert_eq!(config_text(m.begin_stop(&sid("b"))), "服务 b 未找到");
    m.begin_stop(&sid("a")).unwrap();
    assert!(matches!(m.get_service_state(&sid("a")), Some(ServiceState::Stopping)));
    m.finish_stop(&sid("a"), Ok(())).unwrap();
    assert!(matches!(m.get_service_state(&sid("a")), Some(ServiceState::Stopped)));
    m.set_running(true);
    m.set_running(false);
}

#[test]
fn service_ids_and_defaults() {
    let a = ServiceId::generate();
    assert_eq!(a.0.len(), 36);
    assert!(a.same_as(&a.duplicate()));
    let c = ServiceConfig::default_config();
    assert_eq!(c.name, "Unnamed Service");
    assert_eq!(c.description, "No description");
    assert_eq!(c.version, "1.0.0");
    assert_eq!(c.priority, 100);
    assert!(c.auto_start);
    assert_eq!(c.message_queue_size, 1000);
    let g = GUIServiceManagerConfig::default();
    assert_eq!(g.max_concurrent_starts, 5);
    assert_eq!(g.health_check_interval, 30_000);
    assert_eq!(g.message_timeout, 10_000);
    assert!(g.enable_stats);
}

#[test]
fn priority_ranks_are_ordered() {
    assert_eq!(MessagePriority::Low.rank(), 0);
    assert_eq!(MessagePriority::Normal.rank(), 1);
    assert_eq!(MessagePriority::High.rank(), 2);
    assert_eq!(MessagePriority::Critical.rank(), 3);
    assert!(MessagePriority::Low < MessagePriority::Critical);
}

#[test]
fn manager_routes_messages_between_services() {
    let mut m = GUIServiceManager::new();
    let b = trading_gui::routing::ServiceMessage::broadcast_event(
        ServiceId::new("a".to_string()),
        "t".to_string(),
        trading_gui::json::JsonValue::Null,
    );
    assert_eq!(m.send_message(b).unwrap().len(), 0);
    assert_eq!(m.message_stats().total_sent, 1);
    let d = trading_gui::routing::ServiceMessage::request(
        ServiceId::new("a".to_string()),
        ServiceId::new("b".to_string()),
        "t".to_string(),
        trading_gui::json::JsonValue::Null,
    );
    match m.send_message(d) {
        Err(ComponentError::CommunicationError(t)) => assert_eq!(t, "服务 b 的消息通道未找到"),
        other => panic!("unexpected {:?}", other),
    }
    assert_eq!(m.message_stats().total_sent, 1);
}
