use trading_gui::depth::{depth_entries, field_string, AggregatedDepthManager, AggregatedPriceLevel};
use trading_gui::json::JsonValue;

fn s(t: &str) -> JsonValue {
    JsonValue::Str(t.to_string())
}

fn pair(p: &str, v: &str) -> JsonValue {
    JsonValue::Array(vec![s(p), s(v)])
}

fn obj(members: Vec<(&str, JsonValue)>) -> JsonValue {
    JsonValue::Object(members.into_iter().map(|(k, v)| (k.to_string(), v)).collect())
}

/// Whole-unit level and positive volume of each entry whose texts are numbers.
fn levels_of(entries: &[(String, String)]) -> Vec<(i64, Option<f64>)> {
    entries
        .iter()
        .filter_map(|(p, v)| match (p.parse::<f64>(), v.parse::<f64>()) {
            (Ok(p), Ok(v)) => Some((p.floor() as i64, if v > 0.0 { Some(v) } else { None })),
            _ => None,
        })
        .collect()
}

fn depth_message() -> JsonValue {
    obj(vec![
        ("e", s("depthUpdate")),
        ("s", s("BTCUSDT")),
        ("b", JsonValue::Array(vec![pair("50000.50", "1.5"), pair("49999.75", "2.0")])),
        ("a", JsonValue::Array(vec![pair("50001.25", "1.8"), pair("50002.00", "2.5")])),
    ])
}

#[test]
fn test_aggregated_depth_manager() {
    let mut manager: AggregatedDepthManager<f64> = AggregatedDepthManager::new("BTCUSDT".to_string());
    let data = depth_message();
    let bids = levels_of(&depth_entries(&data, "b"));
    let asks = levels_of(&depth_entries(&data, "a"));
    assert!(manager.apply_depth_update(&bids, &asks, 1000));

    assert_eq!(manager.best_bid_level(), Some(50000));
    assert_eq!(manager.best_ask_level(), Some(50001));
    assert_eq!(manager.best_ask_level().unwrap() - manager.best_bid_level().unwrap(), 1);

    let visible_depth = manager.get_visible_depth(10);
    assert!(!visible_depth.is_empty());
}

#[test]
fn depth_entries_skip_malformed_items() {
    let data = obj(vec![(
        "b",
        JsonValue::Array(vec![
            pair("1.0", "2.0"),
            JsonValue::Array(vec![s("3.0")]),
            JsonValue::Array(vec![s("4.0"), JsonValue::Number("5".to_string())]),
            JsonValue::Str("x".to_string()),
            JsonValue::Array(vec![s("6.0"), s("7.0"), s("extra")]),
        ]),
    )]);
    let e = depth_entries(&data, "b");
    assert_eq!(e, vec![("1.0".to_string(), "2.0".to_string()), ("6.0".to_string(), "7.0".to_string())]);
    assert!(depth_entries(&data, "a").is_empty());
    assert!(depth_entries(&JsonValue::Null, "b").is_empty());
    assert!(depth_entries(&obj(vec![("b", s("not a list"))]), "b").is_empty());
}

#[test]
fn ticker_fields() {
    let data = obj(vec![("b", s("43638.46")), ("B", s("7.474")), ("u", JsonValue::Number("1".to_string()))]);
    assert_eq!(field_string(&data, "b"), Some("43638.46".to_string()));
    assert_eq!(field_string(&data, "u"), None);
    assert_eq!(field_string(&data, "a"), None);
}

#[test]
fn zero_volume_removes_a_level() {
    let mut m: AggregatedDepthManager<f64> = AggregatedDepthManager::new("X".to_string());
    m.apply_depth_update(&vec![(100, Some(1.0)), (101, Some(2.0))], &vec![(105, Some(3.0))], 10);
    assert_eq!(m.get_total_levels(), 3);
    assert_eq!(m.best_bid_level(), Some(101));
    m.apply_depth_update(&vec![(101, None)], &vec![], 20);
    assert_eq!(m.get_total_levels(), 2);
    assert_eq!(m.best_bid_level(), Some(100));
    assert_eq!(m.best_ask_level(), Some(105));
    assert_eq!(m.get_last_update(), 20);
    // No entries: nothing changes.
    assert!(!m.apply_depth_update(&vec![], &vec![], 30));
    assert_eq!(m.get_last_update(), 20);
}

#[test]
fn book_ticker_updates_best_levels() {
    let mut m: AggregatedDepthManager<f64> = AggregatedDepthManager::new("ETHUSDT".to_string());
    assert_eq!(m.get_symbol(), "ETHUSDT");
    assert!(m.apply_book_ticker(Some((2000, Some(1.0))), Some((2001, Some(0.5))), 5));
    assert_eq!(m.best_bid_level(), Some(2000));
    assert_eq!(m.best_ask_level(), Some(2001));
    assert!(!m.apply_book_ticker(None, None, 6));
    assert_eq!(m.get_last_update(), 5);
}

#[test]
fn one_level_holds_both_sides() {
    let mut m: AggregatedDepthManager<f64> = AggregatedDepthManager::new("X".to_string());
    m.apply_depth_update(&vec![(7, Some(1.0))], &vec![(7, Some(2.0))], 1);
    assert_eq!(m.get_total_levels(), 1);
    let shown = m.get_visible_depth(0);
    assert_eq!(shown.len(), 1);
    assert_eq!(shown[0].price, 7);
    assert_eq!(shown[0].bid_volume, Some(1.0));
    assert_eq!(shown[0].ask_volume, Some(2.0));
    assert_eq!(shown[0].bid_count, 1);
    // Clearing one side keeps the level; clearing both drops it.
    m.apply_depth_update(&vec![(7, None)], &vec![], 2);
    assert_eq!(m.get_total_levels(), 1);
    assert_eq!(m.best_bid_level(), None);
    m.apply_depth_update(&vec![], &vec![(7, None)], 3);
    assert_eq!(m.get_total_levels(), 0);
    assert_eq!(m.best_ask_level(), None);
}

#[test]
fn visible_depth_window_highest_first() {
    let mut m: AggregatedDepthManager<f64> = AggregatedDepthManager::new("X".to_string());
    // Without best prices the window centres on 50000.
    let empty = m.get_visible_depth(4);
    assert_eq!(empty.iter().map(|l| l.price).collect::<Vec<_>>(), vec![50002, 50001, 50000, 49999, 49998]);
    assert!(empty.iter().all(|l| l.bid_volume.is_none() && l.ask_volume.is_none()));
    m.apply_depth_update(&vec![(10, Some(1.0))], &vec![(14, Some(1.0))], 1);
    let w = m.get_visible_depth(5);
    assert_eq!(w.iter().map(|l| l.price).collect::<Vec<_>>(), vec![14, 13, 12, 11, 10]);
    assert_eq!(w[0].ask_volume, Some(1.0));
    assert_eq!(w[4].bid_volume, Some(1.0));
}

#[test]
fn negative_middle_rounds_toward_zero() {
    let mut m: AggregatedDepthManager<f64> = AggregatedDepthManager::new("X".to_string());
    m.apply_depth_update(&vec![(-3, Some(1.0))], &vec![(0, Some(1.0))], 1);
    // (-3 + 0) / 2 == -1 in integer division.
    let w = m.get_visible_depth(0);
    assert_eq!(w[0].price, -1);
}

#[test]
fn cleanup_drops_old_levels() {
    let mut m: AggregatedDepthManager<f64> = AggregatedDepthManager::new("X".to_string());
    m.apply_depth_update(&vec![(1, Some(1.0))], &vec![], 100);
    m.apply_depth_update(&vec![(2, Some(1.0))], &vec![(5, Some(1.0))], 500);
    m.cleanup_expired_levels_at(300, 700);
    assert_eq!(m.get_total_levels(), 2);
    assert_eq!(m.best_bid_level(), Some(2));
    m.cleanup_expired_levels_at(100, 700);
    assert_eq!(m.get_total_levels(), 0);
    assert_eq!(m.best_bid_level(), None);
    assert_eq!(m.best_ask_level(), None);
    m.cleanup_expired_levels(1000);
}

#[test]
fn price_level_updates() {
    let mut l: AggregatedPriceLevel<f64> = AggregatedPriceLevel::new(42);
    assert!(l.is_empty());
    l.update_bid(Some(1.25), 9);
    assert_eq!(l.bid_count, 1);
    assert_eq!(l.last_update, 9);
    assert!(!l.is_empty());
    l.update_bid(None, 10);
    assert_eq!(l.bid_count, 0);
    assert!(l.is_empty());
    l.update_ask(Some(2.0), 11);
    assert_eq!(l.ask_count, 1);
}
