use trading_gui::component::{ComponentError, ComponentId};
use trading_gui::json::JsonValue;
use trading_gui::persistence::{join_path, sort_ascending, FileStatePersistence, MemoryStatePersistence};
use trading_gui::state::ComponentStateSnapshot;

fn cid(s: &str) -> ComponentId {
    ComponentId::new(s.to_string())
}

fn snap(id: &str, version: u64, timestamp: u64) -> ComponentStateSnapshot {
    ComponentStateSnapshot::new_at(cid(id), JsonValue::Number(version.to_string()), version, timestamp)
}

fn versions(v: &[ComponentStateSnapshot]) -> Vec<u64> {
    v.iter().map(|s| s.version).collect()
}

fn resource_text<T: std::fmt::Debug>(r: Result<T, ComponentError>) -> String {
    match r {
        Err(ComponentError::ResourceError(m)) => m,
        other => panic!("expected a resource error, got {:?}", other),
    }
}

#[test]
fn memory_store_keeps_version_order_and_limit() {
    let mut p = MemoryStatePersistence::new(3);
    for v in [5u64, 1, 3, 2] {
        p.save_snapshot(&snap("a", v, v * 10)).unwrap();
    }
    // Versions 1,2,3,5 sorted; the oldest (1) dropped by the limit of three.
    assert_eq!(versions(&p.list_snapshots(&cid("a")).unwrap()), vec![2, 3, 5]);
    assert_eq!(p.load_snapshot(&cid("a"), None).unwrap().unwrap().version, 5);
    assert_eq!(p.load_snapshot(&cid("a"), Some(3)).unwrap().unwrap().version, 3);
    assert!(p.load_snapshot(&cid("a"), Some(1)).unwrap().is_none());
    assert!(p.load_snapshot(&cid("b"), None).unwrap().is_none());
    assert!(p.list_snapshots(&cid("b")).unwrap().is_empty());
}

#[test]
fn memory_store_sorts_equal_versions_stably() {
    let mut p = MemoryStatePersistence::new(3);
    p.save_snapshot(&snap("a", 3, 1)).unwrap();
    p.save_snapshot(&snap("a", 1, 2)).unwrap();
    p.save_snapshot(&snap("a", 2, 3)).unwrap();
    p.save_snapshot(&snap("a", 1, 4)).unwrap();
    p.save_snapshot(&snap("b", 9, 5)).unwrap();
    // Sorted by version, the later version-1 snapshot after the earlier one; the
    // oldest of the four is cut by the limit.
    let kept = p.list_snapshots(&cid("a")).unwrap();
    assert_eq!(versions(&kept), vec![1, 2, 3]);
    assert_eq!(kept.iter().map(|s| s.timestamp).collect::<Vec<_>>(), vec![4, 3, 1]);
    assert_eq!(versions(&p.list_snapshots(&cid("b")).unwrap()), vec![9]);
}

#[test]
fn memory_store_reads_back_what_was_saved() {
    let mut p = MemoryStatePersistence::new(10);
    let s = snap("a", 4, 99).with_tag("type".to_string(), "manual".to_string());
    p.save_snapshot(&s).unwrap();
    let back = p.load_snapshot(&cid("a"), Some(4)).unwrap().unwrap();
    assert_eq!(back.timestamp, 99);
    assert_eq!(back.tags, s.tags);
    assert_eq!(back.component_id.0, "a");
    assert!(matches!(back.state_data, JsonValue::Number(n) if n == "4"));
}

#[test]
fn memory_store_delete_and_cleanup() {
    let mut p = MemoryStatePersistence::new(10);
    p.save_snapshot(&snap("a", 1, 100)).unwrap();
    p.save_snapshot(&snap("a", 2, 200)).unwrap();
    p.save_snapshot(&snap("b", 1, 300)).unwrap();
    p.delete_snapshot(&cid("a"), 1).unwrap();
    p.delete_snapshot(&cid("zzz"), 1).unwrap();
    assert_eq!(versions(&p.list_snapshots(&cid("a")).unwrap()), vec![2]);
    // At time 400 with a maximum age of 150, snapshots taken at or before 250 go.
    assert_eq!(p.cleanup_expired_snapshots_at(150, 400).unwrap(), 1);
    assert!(p.list_snapshots(&cid("a")).unwrap().is_empty());
    assert_eq!(versions(&p.list_snapshots(&cid("b")).unwrap()), vec![1]);
    // A maximum age beyond the present keeps everything.
    assert_eq!(p.cleanup_expired_snapshots_at(1000, 400).unwrap(), 0);
    assert!(p.cleanup_expired_snapshots(u64::MAX).unwrap() == 0);
}

#[test]
fn paths() {
    assert_eq!(join_path("state", "a_1.json"), "state/a_1.json");
    assert_eq!(join_path("state/", "a_1.json"), "state/a_1.json");
    assert_eq!(join_path("", "a_1.json"), "a_1.json");
    assert_eq!(join_path("state", "/abs"), "/abs");
    let f = FileStatePersistence::new("data".to_string(), 3);
    assert_eq!(f.get_snapshot_path(&cid("book"), 12), "data/book_12.json");
    assert_eq!(f.get_index_path(&cid("book")), "data/book_index.json");
}

#[test]
fn index_text_round_trip() {
    let f = FileStatePersistence::new("data".to_string(), 3);
    let text = f.write_index(&vec![1, 2, 30]).unwrap();
    assert_eq!(text, "[\n  1,\n  2,\n  30\n]");
    assert_eq!(f.read_index(&text).unwrap(), vec![1, 2, 30]);
    assert_eq!(f.write_index(&vec![]).unwrap(), "[]");
    let bad = resource_text(f.read_index("not json"));
    assert!(bad.starts_with("解析索引文件失败: "));
    assert!(bad.len() > "解析索引文件失败: ".len());
}

#[test]
fn index_update_adds_sorts_and_trims() {
    let f = FileStatePersistence::new("data".to_string(), 3);
    let u = f.update_index(None, 7).unwrap();
    assert_eq!(f.read_index(&u.index_text).unwrap(), vec![7]);
    assert!(u.removed.is_empty());
    let u = f.update_index(Some("[5, 9, 2]"), 4).unwrap();
    assert_eq!(f.read_index(&u.index_text).unwrap(), vec![4, 5, 9]);
    assert_eq!(u.removed, vec![2]);
    let u = f.update_index(Some("[1, 3]"), 3).unwrap();
    assert_eq!(f.read_index(&u.index_text).unwrap(), vec![1, 3]);
    assert!(resource_text(f.update_index(Some("{"), 1)).starts_with("解析索引文件失败: "));
}

#[test]
fn index_after_saving_a_version() {
    let f = FileStatePersistence::new("data".to_string(), 3);
    assert_eq!(f.index_after_saving(vec![], 7), (vec![7], vec![]));
    assert_eq!(f.index_after_saving(vec![5, 9, 2], 4), (vec![4, 5, 9], vec![2]));
    assert_eq!(f.index_after_saving(vec![1, 3], 3), (vec![1, 3], vec![]));
    assert_eq!(f.index_after_saving(vec![8, 6, 4, 2], 10), (vec![6, 8, 10], vec![2, 4]));
    let none = FileStatePersistence::new("data".to_string(), 0);
    assert_eq!(none.index_after_saving(vec![1], 2), (vec![], vec![1, 2]));
    let u = f.update_index(Some("[5, 9, 2]"), 4).unwrap();
    assert_eq!(u.index_text, "[\n  4,\n  5,\n  9\n]");
}

#[test]
fn index_choice_and_deletion_on_parsed_lists() {
    let f = FileStatePersistence::new("data".to_string(), 3);
    assert_eq!(f.version_to_load(&vec![1, 4, 6], None), Some(6));
    assert_eq!(f.version_to_load(&vec![1, 4, 6], Some(4)), Some(4));
    assert_eq!(f.version_to_load(&vec![1, 4, 6], Some(5)), None);
    assert_eq!(f.version_to_load(&vec![], None), None);
    assert_eq!(f.index_after_deleting(&vec![1, 4, 6, 4], 4), vec![1, 6]);
    assert_eq!(f.index_after_deleting(&vec![1, 6], 9), vec![1, 6]);
    assert_eq!(f.remove_from_index("[1, 4]", 4).unwrap(), "[\n  1\n]");
    assert_eq!(f.remove_from_index("[4]", 4).unwrap(), "[]");
}

#[test]
fn index_selection_and_removal() {
    let f = FileStatePersistence::new("data".to_string(), 3);
    assert_eq!(f.select_version("[1, 4, 6]", None).unwrap(), Some(6));
    assert_eq!(f.select_version("[1, 4, 6]", Some(4)).unwrap(), Some(4));
    assert_eq!(f.select_version("[1, 4, 6]", Some(5)).unwrap(), None);
    assert_eq!(f.select_version("[]", None).unwrap(), None);
    let t = f.remove_from_index("[1, 4, 6, 4]", 4).unwrap();
    assert_eq!(f.read_index(&t).unwrap(), vec![1, 6]);
}

#[test]
fn expired_versions_are_those_before_cutoff() {
    let f = FileStatePersistence::new("data".to_string(), 3);
    let list = vec![snap("a", 1, 10), snap("a", 2, 20), snap("a", 3, 30)];
    assert_eq!(f.expired_versions(&list, 25), vec![1, 2]);
    assert_eq!(f.expired_versions(&list, 10), Vec::<u64>::new());
}

#[test]
fn sorting_versions() {
    assert_eq!(sort_ascending(vec![5, 1, 4, 1, 3]), vec![1, 1, 3, 4, 5]);
    assert_eq!(sort_ascending(vec![]), Vec::<u64>::new());
}
