use trading_gui::component::{ComponentError, ComponentId, ComponentType};
use trading_gui::lifecycle::{
    ComponentDependency, ComponentRegistration, ComponentRegistry, DependencyType, InitOutcome,
    LifecycleListener, LifecycleManager, LifecycleManagerConfig, LifecyclePhase, SimpleLifecycleListener,
};

type Callback = Box<dyn Fn(&ComponentId, &LifecyclePhase) -> Result<(), ComponentError>>;
type Manager = LifecycleManager<SimpleLifecycleListener<Callback>>;

fn id(s: &str) -> ComponentId {
    ComponentId::new(s.to_string())
}

fn registration(t: ComponentType, deps: Vec<ComponentDependency>) -> ComponentRegistration {
    ComponentRegistration { component_type: t, dependencies: deps, version: "1.0".to_string(), description: String::new() }
}

fn config_text(r: Result<(), ComponentError>) -> String {
    match r {
        Err(ComponentError::ConfigError(m)) => m,
        other => panic!("expected a configuration error, got {:?}", other),
    }
}

fn state_text(r: Result<(), ComponentError>) -> String {
    match r {
        Err(ComponentError::StateError(m)) => m,
        other => panic!("expected a state error, got {:?}", other),
    }
}

fn running_manager(name: &str) -> Manager {
    let mut reg = ComponentRegistry::new();
    reg.register_component_type(registration(ComponentType::Chart, vec![])).unwrap();
    reg.create_component(&ComponentType::Chart, id(name)).unwrap();
    let mut m = Manager::new(reg, LifecycleManagerConfig::default());
    m.initialize_component(&id(name)).unwrap();
    m.finish_initialization(&id(name), InitOutcome::Completed).unwrap();
    m.start_component(&id(name)).unwrap();
    m
}

#[test]
fn registering_a_kind_twice_is_refused() {
    let mut reg = ComponentRegistry::new();
    assert!(reg.register_component_type(registration(ComponentType::OrderBook, vec![])).is_ok());
    let again = reg.register_component_type(registration(ComponentType::OrderBook, vec![]));
    assert_eq!(config_text(again), "组件类型 OrderBook 已注册");
    let custom = reg.register_component_type(registration(ComponentType::Custom("x".to_string()), vec![]));
    assert!(custom.is_ok());
    let custom_again = reg.register_component_type(registration(ComponentType::Custom("x".to_string()), vec![]));
    assert_eq!(config_text(custom_again), "组件类型 Custom(\"x\") 已注册");
}

#[test]
fn creating_components() {
    let mut reg = ComponentRegistry::new();
    let unknown = reg.create_component(&ComponentType::Chart, id("c1"));
    assert_eq!(config_text(unknown.map(|_| ())), "组件类型 Chart 未注册");
    reg.register_component_type(registration(ComponentType::Chart, vec![])).unwrap();
    let made = reg.create_component(&ComponentType::Chart, id("c1")).unwrap();
    assert_eq!(made.0, "c1");
    assert!(reg.has_instance(&id("c1")));
    assert_eq!(reg.get_component_state(&id("c1")), Some(LifecyclePhase::Created));
    let dup = reg.create_component(&ComponentType::Chart, id("c1"));
    assert_eq!(config_text(dup.map(|_| ())), "组件 c1 已存在");
    assert!(reg.creation_check(&ComponentType::Chart, &id("c2")).is_ok());
}

#[test]
fn required_dependency_must_run() {
    let mut reg = ComponentRegistry::new();
    let dep = ComponentDependency {
        component_id: id("feed"),
        dependency_type: DependencyType::Required,
        optional: false,
        min_version: None,
    };
    reg.register_component_type(registration(ComponentType::OrderBook, vec![dep])).unwrap();
    reg.register_component_type(registration(ComponentType::StatusBar, vec![])).unwrap();
    reg.create_component(&ComponentType::OrderBook, id("book")).unwrap();
    assert_eq!(config_text(reg.check_dependencies(&id("book"))), "依赖组件 feed 不存在");
    reg.create_component(&ComponentType::StatusBar, id("feed")).unwrap();
    assert_eq!(config_text(reg.check_dependencies(&id("book"))), "依赖组件 feed 未运行");
    reg.set_component_state(&id("feed"), LifecyclePhase::Running).unwrap();
    assert!(reg.check_dependencies(&id("book")).is_ok());
}

#[test]
fn conflicting_and_optional_dependencies() {
    let mut reg = ComponentRegistry::new();
    let deps = vec![
        ComponentDependency { component_id: id("missing"), dependency_type: DependencyType::Required, optional: true, min_version: None },
        ComponentDependency { component_id: id("rival"), dependency_type: DependencyType::Conflicts, optional: false, min_version: None },
    ];
    reg.register_component_type(registration(ComponentType::Toolbar, deps)).unwrap();
    reg.create_component(&ComponentType::Toolbar, id("tb")).unwrap();
    assert!(reg.check_dependencies(&id("tb")).is_ok());
    reg.set_component_state(&id("rival"), LifecyclePhase::Running).unwrap();
    assert_eq!(config_text(reg.check_dependencies(&id("tb"))), "冲突组件 rival 正在运行");
    // No recorded dependencies: nothing to check.
    assert!(reg.check_dependencies(&id("nobody")).is_ok());
}

#[test]
fn full_lifecycle_runs_through_phases() {
    let mut m = running_manager("c");
    assert_eq!(m.registry().get_component_state(&id("c")), Some(LifecyclePhase::Running));
    m.pause_component(&id("c")).unwrap();
    assert_eq!(m.registry().get_component_state(&id("c")), Some(LifecyclePhase::Paused));
    m.resume_component(&id("c")).unwrap();
    assert_eq!(m.registry().get_component_state(&id("c")), Some(LifecyclePhase::Running));
    m.stop_component(&id("c")).unwrap();
    assert_eq!(m.registry().get_component_state(&id("c")), Some(LifecyclePhase::Stopped));
    m.start_component(&id("c")).unwrap();
    assert_eq!(m.registry().get_component_state(&id("c")), Some(LifecyclePhase::Running));
}

#[test]
fn pause_then_resume_restores_phases() {
    let mut m = running_manager("c");
    let plain = |v: Vec<(ComponentId, LifecyclePhase)>| v.into_iter().map(|(i, p)| (i.0, p)).collect::<Vec<_>>();
    let before = plain(m.registry().get_all_component_states());
    m.pause_component(&id("c")).unwrap();
    m.resume_component(&id("c")).unwrap();
    let after = plain(m.registry().get_all_component_states());
    assert_eq!(before, after);
}

#[test]
fn refused_transitions() {
    let mut m = running_manager("c");
    assert_eq!(state_text(m.start_component(&id("c"))), "组件 c 当前状态 Running 不能启动");
    assert_eq!(state_text(m.resume_component(&id("c"))), "组件 c 当前状态 Running 不能恢复");
    m.stop_component(&id("c")).unwrap();
    assert_eq!(state_text(m.pause_component(&id("c"))), "组件 c 当前状态 Stopped 不能暂停");
    assert_eq!(state_text(m.stop_component(&id("c"))), "组件 c 当前状态 Stopped 不能停止");
    assert_eq!(config_text(m.start_component(&id("ghost"))), "组件 ghost 不存在");
    // A refused request leaves the phase alone.
    assert_eq!(m.registry().get_component_state(&id("c")), Some(LifecyclePhase::Stopped));
}

#[test]
fn initialization_failures_are_recorded() {
    let mut reg = ComponentRegistry::new();
    reg.register_component_type(registration(ComponentType::Chart, vec![])).unwrap();
    reg.create_component(&ComponentType::Chart, id("a")).unwrap();
    reg.create_component(&ComponentType::Chart, id("b")).unwrap();
    let mut m = Manager::new(reg, LifecycleManagerConfig::default());

    m.initialize_component(&id("a")).unwrap();
    assert_eq!(m.registry().get_component_state(&id("a")), Some(LifecyclePhase::Initializing));
    let r = m.finish_initialization(&id("a"), InitOutcome::Failed(ComponentError::ResourceError("oom".to_string())));
    match r {
        Err(ComponentError::InitializationFailed(msg)) => assert_eq!(msg, "初始化失败: 资源错误: oom"),
        other => panic!("unexpected {:?}", other),
    }
    assert_eq!(
        m.registry().get_component_state(&id("a")),
        Some(LifecyclePhase::Error("初始化失败: 资源错误: oom".to_string()))
    );

    m.initialize_component(&id("b")).unwrap();
    let r = m.finish_initialization(&id("b"), InitOutcome::TimedOut);
    match r {
        Err(ComponentError::InitializationFailed(msg)) => assert_eq!(msg, "初始化超时"),
        other => panic!("unexpected {:?}", other),
    }
    assert_eq!(m.registry().get_component_state(&id("b")), Some(LifecyclePhase::Error("初始化超时".to_string())));
    assert_eq!(LifecyclePhase::Error("初始化超时".to_string()).debug_text(), "Error(\"初始化超时\")");
}

#[test]
fn initializing_an_unknown_component() {
    let reg = ComponentRegistry::new();
    let mut m = Manager::new(reg, LifecycleManagerConfig::default());
    assert_eq!(config_text(m.initialize_component(&id("x"))), "组件 x 不存在");
    // The phase was recorded before the instance check, as the manager does.
    assert_eq!(m.registry().get_component_state(&id("x")), Some(LifecyclePhase::Initializing));
}

#[test]
fn destroying_components() {
    let mut m = running_manager("c");
    let failed = m.registry_mut().destroy_component(&id("c"), Err(ComponentError::UpdateError("busy".to_string())));
    assert!(failed.is_err());
    assert_eq!(m.registry().get_component_state(&id("c")), Some(LifecyclePhase::Destroying));
    assert!(m.registry().has_instance(&id("c")));
    m.registry_mut().destroy_component(&id("c"), Ok(())).unwrap();
    assert_eq!(m.registry().get_component_state(&id("c")), Some(LifecyclePhase::Destroyed));
    assert!(!m.registry().has_instance(&id("c")));
}

#[test]
fn lifecycle_config_defaults() {
    let c = LifecycleManagerConfig::default();
    assert_eq!(c.startup_timeout, 30_000);
    assert_eq!(c.shutdown_timeout, 10_000);
    assert_eq!(c.max_concurrent_operations, 10);
    assert!(c.enable_dependency_check);
}

#[test]
fn listener_forwards_to_callback() {
    let l = SimpleLifecycleListener::new("log".to_string(), |c: &ComponentId, p: &LifecyclePhase| {
        if *p == LifecyclePhase::Error(String::new()) {
            Err(ComponentError::StateError(c.0.clone()))
        } else {
            Ok(())
        }
    });
    assert_eq!(l.name(), "log");
    assert!(l.on_lifecycle_change(&id("a"), &LifecyclePhase::Running).is_ok());
    assert!(l.on_lifecycle_change(&id("a"), &LifecyclePhase::Error(String::new())).is_err());
}

type Seen = std::rc::Rc<std::cell::RefCell<Vec<(String, String, LifecyclePhase)>>>;

fn recorder(name: &str, seen: &Seen) -> SimpleLifecycleListener<Callback> {
    let log = seen.clone();
    let who = name.to_string();
    let cb: Callback = Box::new(move |c: &ComponentId, p: &LifecyclePhase| {
        log.borrow_mut().push((who.clone(), c.0.clone(), p.clone()));
        Err(ComponentError::UpdateError("ignored".to_string()))
    });
    SimpleLifecycleListener::new(name.to_string(), cb)
}

#[test]
fn listeners_are_told_each_phase_in_order() {
    let mut reg = ComponentRegistry::new();
    reg.register_component_type(registration(ComponentType::Chart, vec![])).unwrap();
    reg.create_component(&ComponentType::Chart, id("c")).unwrap();
    let mut m = Manager::new(reg, LifecycleManagerConfig::default());
    let seen: Seen = Default::default();
    m.add_listener(recorder("one", &seen));
    m.add_listener(recorder("two", &seen));

    m.initialize_component(&id("c")).unwrap();
    m.finish_initialization(&id("c"), InitOutcome::Completed).unwrap();
    m.start_component(&id("c")).unwrap();
    assert!(m.start_component(&id("c")).is_err());
    let expected: Vec<(String, String, LifecyclePhase)> = [
        LifecyclePhase::Initializing,
        LifecyclePhase::Initialized,
        LifecyclePhase::Starting,
        LifecyclePhase::Running,
    ]
    .iter()
    .flat_map(|p| vec![("one".to_string(), "c".to_string(), p.clone()), ("two".to_string(), "c".to_string(), p.clone())])
    .collect();
    assert_eq!(*seen.borrow(), expected);

    seen.borrow_mut().clear();
    m.remove_listener("one");
    m.pause_component(&id("c")).unwrap();
    assert_eq!(
        *seen.borrow(),
        vec![
            ("two".to_string(), "c".to_string(), LifecyclePhase::Pausing),
            ("two".to_string(), "c".to_string(), LifecyclePhase::Paused),
        ]
    );
}

#[test]
fn failed_initialization_tells_only_the_first_phase() {
    let mut reg = ComponentRegistry::new();
    reg.register_component_type(registration(ComponentType::Chart, vec![])).unwrap();
    reg.create_component(&ComponentType::Chart, id("c")).unwrap();
    let mut m = Manager::new(reg, LifecycleManagerConfig::default());
    let seen: Seen = Default::default();
    m.add_listener(recorder("one", &seen));
    m.initialize_component(&id("c")).unwrap();
    assert!(m.finish_initialization(&id("c"), InitOutcome::TimedOut).is_err());
    assert_eq!(*seen.borrow(), vec![("one".to_string(), "c".to_string(), LifecyclePhase::Initializing)]);
    seen.borrow_mut().clear();
    assert!(m.initialize_component(&id("missing")).is_err());
    assert_eq!(*seen.borrow(), vec![("one".to_string(), "missing".to_string(), LifecyclePhase::Initializing)]);
}
