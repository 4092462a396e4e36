use trading_gui::component::{ComponentError, ComponentId};
use trading_gui::json::{get_path, split_path, JsonValue};
use trading_gui::state::{
    sort_newest_first, ComponentStateSnapshot, StateChangeEvent, StateChangeType, StateManager, StateManagerConfig,
};

fn cid(s: &str) -> ComponentId {
    ComponentId::new(s.to_string())
}

fn num(s: &str) -> JsonValue {
    JsonValue::Number(s.to_string())
}

fn obj(members: Vec<(&str, JsonValue)>) -> JsonValue {
    JsonValue::Object(members.into_iter().map(|(k, v)| (k.to_string(), v)).collect())
}

fn as_num(v: Option<&JsonValue>) -> Option<String> {
    match v {
        Some(JsonValue::Number(n)) => Some(n.clone()),
        _ => None,
    }
}

fn sample() -> JsonValue {
    obj(vec![
        ("price", num("100.5")),
        ("levels", JsonValue::Array(vec![num("1"), obj(vec![("qty", num("7"))])])),
        ("name", JsonValue::Str("book".to_string())),
    ])
}

#[test]
fn split_path_splits_on_dots() {
    assert_eq!(split_path("a.b.c"), vec!["a", "b", "c"]);
    assert_eq!(split_path("a..b"), vec!["a", "", "b"]);
    assert_eq!(split_path(""), vec![""]);
}

#[test]
fn get_field_follows_objects_and_arrays() {
    let snap = ComponentStateSnapshot::new_at(cid("c"), sample(), 1, 0);
    assert_eq!(as_num(snap.get_field("price")), Some("100.5".to_string()));
    assert_eq!(as_num(snap.get_field("levels.0")), Some("1".to_string()));
    assert_eq!(as_num(snap.get_field("levels.1.qty")), Some("7".to_string()));
    assert_eq!(as_num(snap.get_field("levels.+1.qty")), Some("7".to_string()));
    assert!(snap.get_field("levels.2").is_none());
    assert!(snap.get_field("levels.x").is_none());
    assert!(snap.get_field("missing").is_none());
    assert!(snap.get_field("name.inner").is_none());
    assert!(get_path(&sample(), "levels.1").is_some());
}

#[test]
fn set_then_get_reads_back_the_value() {
    let mut snap = ComponentStateSnapshot::new_at(cid("c"), sample(), 1, 0);
    snap.set_field("price", num("101")).unwrap();
    assert_eq!(as_num(snap.get_field("price")), Some("101".to_string()));
    snap.set_field("levels.1.qty", num("9")).unwrap();
    assert_eq!(as_num(snap.get_field("levels.1.qty")), Some("9".to_string()));
    // Missing members on the way are created.
    snap.set_field("extra.deep.value", num("3")).unwrap();
    assert_eq!(as_num(snap.get_field("extra.deep.value")), Some("3".to_string()));
    // Other fields are untouched.
    assert!(matches!(snap.get_field("name"), Some(JsonValue::Str(s)) if s == "book"));
    assert_eq!(snap.version, 1);
}

#[test]
fn set_field_errors() {
    let mut snap = ComponentStateSnapshot::new_at(cid("c"), sample(), 1, 0);
    assert_eq!(snap.set_field("levels.5", num("1")), Err("数组索引 5 超出范围".to_string()));
    assert_eq!(snap.set_field("levels.x", num("1")), Err("无效的数组索引".to_string()));
    assert_eq!(snap.set_field("name.inner", num("1")), Err("无法在非对象/数组类型上设置字段".to_string()));
    let mut scalar = ComponentStateSnapshot::new_at(cid("c"), num("1"), 1, 0);
    assert_eq!(scalar.set_field("a", num("2")), Err("无法在非对象/数组类型上设置字段".to_string()));
}

#[test]
fn tags_replace_by_key() {
    let snap = ComponentStateSnapshot::new_at(cid("c"), JsonValue::Null, 3, 9)
        .with_tag("type".to_string(), "manual".to_string())
        .with_tag("owner".to_string(), "me".to_string())
        .with_tag("type".to_string(), "auto".to_string());
    assert_eq!(snap.tags, vec![("type".to_string(), "auto".to_string()), ("owner".to_string(), "me".to_string())]);
    let copy = snap.duplicate();
    assert_eq!(copy.tags, snap.tags);
    assert_eq!(copy.timestamp, 9);
    assert_eq!(copy.version, 3);
}

#[test]
fn state_manager_config_default() {
    let c = StateManagerConfig::default();
    assert_eq!(c.auto_snapshot_interval, Some(300_000));
    assert_eq!(c.event_channel_buffer, 1000);
    assert!(c.enable_validation);
    assert_eq!(c.max_history_size, 100);
}

#[test]
fn set_state_versions_and_events() {
    let mut m = StateManager::new(StateManagerConfig::default());
    let (ev, snap) = m.set_state_at(cid("a"), num("1"), "init".to_string(), 1000).unwrap();
    assert_eq!(ev.change_type, StateChangeType::Created);
    assert!(ev.old_state.is_none());
    assert_eq!(snap.version, 1);
    assert_eq!(snap.timestamp, 1000);
    let (ev, snap) = m.set_state_at(cid("a"), num("2"), "tick".to_string(), 2000).unwrap();
    assert_eq!(ev.change_type, StateChangeType::Updated);
    assert_eq!(as_num(ev.old_state.as_ref()), Some("1".to_string()));
    assert_eq!(snap.version, 2);
    assert_eq!(m.current_version(&cid("a")), 2);
    assert_eq!(as_num(m.get_state(&cid("a")).as_ref()), Some("2".to_string()));
}

#[test]
fn null_state_is_refused_under_validation() {
    let mut m = StateManager::new(StateManagerConfig::default());
    match m.set_state_at(cid("a"), JsonValue::Null, "x".to_string(), 0) {
        Err(ComponentError::StateError(t)) => assert_eq!(t, "状态不能为null"),
        other => panic!("unexpected {:?}", other.map(|_| ())),
    }
    assert!(m.get_state(&cid("a")).is_none());
    let mut lax = StateManager::new(StateManagerConfig { enable_validation: false, ..StateManagerConfig::default() });
    assert!(lax.set_state_at(cid("a"), JsonValue::Null, "x".to_string(), 0).is_ok());
}

#[test]
fn remove_state_records_deletion() {
    let mut m = StateManager::new(StateManagerConfig::default());
    assert!(m.remove_state_at(&cid("a"), "gone".to_string(), 5).unwrap().is_none());
    m.set_state_at(cid("a"), num("1"), "init".to_string(), 1).unwrap();
    let ev = m.remove_state_at(&cid("a"), "gone".to_string(), 5).unwrap().unwrap();
    assert_eq!(ev.change_type, StateChangeType::Deleted);
    assert!(matches!(ev.new_state, JsonValue::Null));
    assert!(m.get_state(&cid("a")).is_none());
    assert_eq!(m.current_version(&cid("a")), 0);
}

#[test]
fn history_is_newest_first_filtered_and_limited() {
    let mut m = StateManager::new(StateManagerConfig::default());
    m.set_state_at(cid("a"), num("1"), "r1".to_string(), 10).unwrap();
    m.set_state_at(cid("b"), num("2"), "r2".to_string(), 30).unwrap();
    m.set_state_at(cid("a"), num("3"), "r3".to_string(), 20).unwrap();
    let all = m.get_change_history(None, None);
    let reasons: Vec<&str> = all.iter().map(|e| e.reason.as_str()).collect();
    assert_eq!(reasons, vec!["r2", "r3", "r1"]);
    let only_a = m.get_change_history(Some(&cid("a")), None);
    assert_eq!(only_a.iter().map(|e| e.reason.as_str()).collect::<Vec<_>>(), vec!["r3", "r1"]);
    let one = m.get_change_history(None, Some(1));
    assert_eq!(one.len(), 1);
    assert_eq!(one[0].reason, "r2");
}

#[test]
fn history_keeps_only_the_last_entries() {
    let mut m = StateManager::new(StateManagerConfig { max_history_size: 2, ..StateManagerConfig::default() });
    for (i, r) in ["r1", "r2", "r3"].iter().enumerate() {
        m.set_state_at(cid("a"), num("1"), r.to_string(), i as u64).unwrap();
    }
    let all = m.get_change_history(None, None);
    assert_eq!(all.iter().map(|e| e.reason.as_str()).collect::<Vec<_>>(), vec!["r3", "r2"]);
}

#[test]
fn snapshots_carry_tags() {
    let mut m = StateManager::new(StateManagerConfig::default());
    assert!(m.create_snapshot_at(&cid("a"), 0).unwrap().is_none());
    m.set_state_at(cid("a"), num("1"), "init".to_string(), 1).unwrap();
    let s = m.create_snapshot_at(&cid("a"), 12_345).unwrap().unwrap();
    assert_eq!(s.version, 1);
    assert_eq!(s.timestamp, 12_345);
    assert_eq!(s.tags, vec![("type".to_string(), "manual".to_string()), ("timestamp".to_string(), "12".to_string())]);
    let autos = m.auto_snapshots_at(7);
    assert_eq!(autos.len(), 1);
    assert_eq!(autos[0].tags, vec![("type".to_string(), "auto".to_string())]);
    assert!(m.create_snapshot(&cid("a")).unwrap().is_some());
}

#[test]
fn restore_and_reset() {
    let mut m = StateManager::new(StateManagerConfig::default());
    let saved = ComponentStateSnapshot::new_at(cid("a"), num("42"), 7, 0);
    let (ev, _) = m.restore_from_snapshot(&cid("a"), Some(saved), 100).unwrap().unwrap();
    assert_eq!(ev.reason, "从快照版本 7 恢复");
    assert_eq!(as_num(m.get_state(&cid("a")).as_ref()), Some("42".to_string()));
    assert!(m.restore_from_snapshot(&cid("a"), None, 100).unwrap().is_none());
    let initial = ComponentStateSnapshot::new_at(cid("a"), num("0"), 1, 0);
    m.reset_state(&cid("a"), Some(initial), "reset".to_string(), 200).unwrap();
    assert_eq!(as_num(m.get_state(&cid("a")).as_ref()), Some("0".to_string()));
    m.reset_state(&cid("a"), None, "clear".to_string(), 300).unwrap();
    assert!(m.get_state(&cid("a")).is_none());
}

#[test]
fn batch_updates() {
    let mut m = StateManager::new(StateManagerConfig::default());
    let out = m
        .set_states_at(vec![(cid("a"), num("1")), (cid("b"), num("2"))], "batch".to_string(), 50)
        .unwrap();
    assert_eq!(out.len(), 2);
    assert_eq!(m.get_all_states().len(), 2);
    let h = m.get_change_history(Some(&cid("__batch__")), None);
    assert_eq!(h.len(), 1);
    assert_eq!(h[0].component_id.0, "__batch__");
    assert_eq!(h[0].change_type, StateChangeType::BatchUpdate);
    assert!(matches!(&h[0].new_state, JsonValue::Object(ms) if ms.len() == 1 && ms[0].0 == "count"));
    let refused = m.set_states(vec![(cid("c"), num("1")), (cid("d"), JsonValue::Null)], "bad".to_string());
    assert!(refused.is_err());
}

#[test]
fn sorting_events_latest_first_keeps_ties_in_order() {
    let ev = |r: &str, t: u64| StateChangeEvent {
        component_id: cid("a"),
        change_type: StateChangeType::Updated,
        old_state: None,
        new_state: JsonValue::Null,
        timestamp: t,
        reason: r.to_string(),
    };
    let sorted = sort_newest_first(vec![ev("x", 1), ev("y", 3), ev("z", 1), ev("w", 2)]);
    assert_eq!(sorted.iter().map(|e| e.reason.as_str()).collect::<Vec<_>>(), vec!["y", "w", "x", "z"]);
}

#[test]
fn clock_based_changes() {
    let mut m = StateManager::new(StateManagerConfig::default());
    let (ev, snap) = m.set_state(cid("a"), num("5"), "now".to_string()).unwrap();
    assert_eq!(ev.change_type, StateChangeType::Created);
    assert_eq!(ev.reason, "now");
    assert_eq!(snap.version, 1);
    assert_eq!(snap.timestamp, ev.timestamp);
    assert!(ev.timestamp > 0);
    let gone = m.remove_state(&cid("a"), "bye".to_string()).unwrap().unwrap();
    assert_eq!(gone.change_type, StateChangeType::Deleted);
    assert!(m.remove_state(&cid("a"), "again".to_string()).unwrap().is_none());
}
