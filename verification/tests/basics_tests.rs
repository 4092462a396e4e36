use trading_gui::component::{ComponentCapabilities, ComponentError, ComponentId, ComponentType};
use trading_gui::health::{BasicHealthChecker, HealthChecker, ServiceHealth};
use trading_gui::perf::{PerformanceTracker, TimeSpan};
use trading_gui::text::{decimal_string, join2, join3, quote_text};
use trading_gui::widgets::signal_volume_text;
use trading_gui::widgets::{
    ConnectionQuality, ConnectionStatus, DebugWindow, PopupManager, PopupType, SignalRenderer, StatusBar,
    TradeCircleSize,
};

fn is_uuid_v4(s: &str) -> bool {
    let b: Vec<char> = s.chars().collect();
    if b.len() != 36 || b[14] != '4' {
        return false;
    }
    b.iter().enumerate().all(|(i, c)| {
        if i == 8 || i == 13 || i == 18 || i == 23 {
            *c == '-'
        } else {
            c.is_ascii_digit() || ('a'..='f').contains(c)
        }
    })
}

#[test]
fn generated_component_ids_are_uuid_v4_text() {
    let a = ComponentId::generate();
    let b = ComponentId::generate();
    assert!(is_uuid_v4(&a.0));
    assert!(is_uuid_v4(&b.0));
    assert!(!a.same_as(&b));
}

#[test]
fn component_id_copy_and_compare() {
    let a = ComponentId::new("order_book".to_string());
    let b = a.duplicate();
    assert_eq!(b.0, "order_book");
    assert!(a.same_as(&b));
    assert!(!a.same_as(&ComponentId::new("chart".to_string())));
}

#[test]
fn component_error_messages() {
    assert_eq!(ComponentError::InitializationFailed("x".to_string()).message(), "组件初始化失败: x");
    assert_eq!(ComponentError::RenderError("x".to_string()).message(), "组件渲染错误: x");
    assert_eq!(ComponentError::UpdateError("x".to_string()).message(), "组件更新错误: x");
    assert_eq!(ComponentError::ConfigError("x".to_string()).message(), "配置错误: x");
    assert_eq!(ComponentError::StateError("x".to_string()).message(), "状态错误: x");
    assert_eq!(ComponentError::CommunicationError("x".to_string()).message(), "通信错误: x");
    assert_eq!(ComponentError::ResourceError("x".to_string()).message(), "资源错误: x");
}

#[test]
fn component_type_debug_text_and_equality() {
    assert_eq!(ComponentType::OrderBook.debug_text(), "OrderBook");
    assert_eq!(ComponentType::PopupWindow.debug_text(), "PopupWindow");
    assert_eq!(ComponentType::Custom("a\"b".to_string()).debug_text(), "Custom(\"a\\\"b\")");
    assert_eq!(
        ComponentType::Custom("x".to_string()).debug_text(),
        format!("{:?}", ComponentType::Custom("x".to_string()))
    );
    assert!(ComponentType::Custom("x".to_string()).same_as(&ComponentType::Custom("x".to_string())));
    assert!(!ComponentType::Custom("x".to_string()).same_as(&ComponentType::Custom("y".to_string())));
    assert!(!ComponentType::Chart.same_as(&ComponentType::Toolbar));
    let d = ComponentType::Sidebar.duplicate();
    assert!(d.same_as(&ComponentType::Sidebar));
}

#[test]
fn default_capabilities_take_input_only() {
    let c = ComponentCapabilities::default();
    assert!(c.keyboard_input && c.mouse_input);
    assert!(!c.draggable && !c.resizable && !c.closable && !c.threaded_update);
}

#[test]
fn text_helpers() {
    assert_eq!(join2("ab", "cd"), "abcd");
    assert_eq!(join3("a", "-", "b"), "a-b");
    assert_eq!(decimal_string(0), "0");
    assert_eq!(decimal_string(1234567890), "1234567890");
    assert_eq!(decimal_string(u64::MAX), u64::MAX.to_string());
    assert_eq!(quote_text("plain"), "\"plain\"");
    assert_eq!(quote_text("a\nb\t\\"), format!("{:?}", "a\nb\t\\"));
}

#[test]
fn time_span_arithmetic() {
    let a = TimeSpan { secs: 1, nanos: 600_000_000 };
    let b = TimeSpan { secs: 2, nanos: 500_000_000 };
    assert_eq!(a.checked_add(b), Some(TimeSpan { secs: 4, nanos: 100_000_000 }));
    assert_eq!(TimeSpan { secs: u64::MAX, nanos: 999_999_999 }.checked_add(TimeSpan { secs: 0, nanos: 1 }), None);
    assert_eq!(TimeSpan { secs: 3, nanos: 0 }.div(2), TimeSpan { secs: 1, nanos: 500_000_000 });
    assert_eq!(TimeSpan { secs: 0, nanos: 10 }.div(3), TimeSpan { secs: 0, nanos: 3 });
    assert!(a.shorter_than(&b));
    assert!(!b.shorter_than(&a));
    assert_eq!(TimeSpan::zero(), TimeSpan { secs: 0, nanos: 0 });
}

#[test]
fn performance_tracker_keeps_last_samples() {
    let mut t = PerformanceTracker::new(3);
    assert_eq!(t.average_render_time(), TimeSpan::zero());
    assert_eq!(t.max_render_time(), TimeSpan::zero());
    assert_eq!(t.min_render_time(), TimeSpan::zero());
    for ms in [10u32, 20, 30, 40] {
        t.record_render_time(TimeSpan { secs: 0, nanos: ms * 1_000_000 });
    }
    // The first sample (10 ms) was dropped.
    assert_eq!(t.min_render_time(), TimeSpan { secs: 0, nanos: 20_000_000 });
    assert_eq!(t.max_render_time(), TimeSpan { secs: 0, nanos: 40_000_000 });
    assert_eq!(t.average_render_time(), TimeSpan { secs: 0, nanos: 30_000_000 });
}

#[test]
fn performance_average_rounds_down() {
    let mut t = PerformanceTracker::new(10);
    t.record_render_time(TimeSpan { secs: 0, nanos: 1 });
    t.record_render_time(TimeSpan { secs: 0, nanos: 2 });
    assert_eq!(t.average_render_time(), TimeSpan { secs: 0, nanos: 1 });
}

#[test]
fn health_checker_counts_and_status() {
    let mut h = BasicHealthChecker::new();
    assert_eq!(h.check_interval(), 60_000);
    let r = h.check_health_at(42);
    assert!(r.is_healthy);
    assert_eq!(r.status, "健康");
    assert_eq!(r.last_check, 42);
    assert_eq!(r.response_time_ms, 1);
    for _ in 0..10 {
        h.increment_error();
    }
    let r = h.check_health_at(43);
    assert!(!r.is_healthy);
    assert_eq!(r.status, "错误: 10");
    assert_eq!(r.error_count, 10);
    h.record_activity();
    let r = h.check_health();
    assert_eq!(r.error_count, 10);
}

#[test]
fn health_checker_counts_interleaved_calls() {
    let mut h = BasicHealthChecker::new();
    for i in 0..60 {
        if i % 6 == 0 {
            h.increment_error();
        } else {
            h.increment_warning();
        }
        h.record_activity();
    }
    let r = h.check_health_at(1);
    assert_eq!(r.error_count, 10);
    assert_eq!(r.warning_count, 50);
    assert!(!r.is_healthy);
    assert_eq!(r.status, "错误: 10");
}

#[test]
fn health_checker_warnings_only() {
    let mut h = BasicHealthChecker::new();
    for _ in 0..50 {
        h.increment_warning();
    }
    let r = h.check_health_at(0);
    assert!(!r.is_healthy);
    assert_eq!(r.status, "警告: 50");
    assert_eq!(r.warning_count, 50);
}

#[test]
fn healthy_report() {
    let r = ServiceHealth::healthy_at(7);
    assert!(r.is_healthy);
    assert_eq!(r.status, "健康");
    assert_eq!(r.last_check, 7);
    assert_eq!(r.error_count, 0);
}

#[test]
fn status_bar_and_signal_texts() {
    assert_eq!(StatusBar::buffer_text(12, 1000), "12/1000");
    assert_eq!(SignalRenderer::meter_bar(3, 5), "███░░");
    assert_eq!(SignalRenderer::meter_bar(6, 5), "██████");
    assert_eq!(SignalRenderer::meter_bar(0, 2), "░░");
    // 1970-01-01 12:34:56.789 UTC
    assert_eq!(SignalRenderer::time_of_day(45_296_789), "12:34:56");
    assert_eq!(SignalRenderer::time_of_day(86_400_000 + 3_661_000), "01:01:01");
}

#[test]
fn trade_markers() {
    assert_eq!(TradeCircleSize::Small.get_marker(true), "●");
    assert_eq!(TradeCircleSize::Medium.get_marker(false), "⬢");
    assert_eq!(TradeCircleSize::Large.get_marker(true), "⬣");
}

#[test]
fn debug_window_keeps_last_error() {
    let mut w = DebugWindow::new();
    assert!(!w.show);
    assert!(w.last_error().is_none());
    w.set_error("first".to_string());
    w.set_error("second".to_string());
    assert_eq!(w.last_error().map(|s| s.as_str()), Some("second"));
    let d = DebugWindow::default();
    assert!(d.last_error().is_none());
    assert!(!w.is_shown());
    w.set_shown(true);
    assert!(w.is_shown());
    assert!(w.show);
    assert_eq!(w.last_error().map(|s| s.as_str()), Some("second"));
}

#[test]
fn popups_open_and_close() {
    let mut p = PopupManager::new();
    assert!(!p.is_popup_open(PopupType::Settings));
    p.open_popup(PopupType::Settings);
    p.open_popup(PopupType::Help);
    assert!(p.is_popup_open(PopupType::Settings));
    p.close_popup(PopupType::Settings);
    assert!(!p.is_popup_open(PopupType::Settings));
    assert!(p.is_popup_open(PopupType::Help));
    p.close_popup(PopupType::About);
    assert!(!p.is_popup_open(PopupType::About));
    assert_eq!(PopupManager::window_title(PopupType::TradingSignal), "交易信号");
    assert_eq!(PopupManager::window_title(PopupType::Help), "帮助");
}

#[test]
fn connection_status_default() {
    let c = ConnectionStatus::default();
    assert!(!c.is_connected);
    assert!(!c.is_reconnecting);
    assert_eq!(c.connection_quality, ConnectionQuality::Poor);
    assert_eq!(c.last_message_time, None);
}

fn volume_of(signal: &str) -> f64 {
    signal_volume_text(signal).map(|t| t.parse::<f64>().unwrap_or(0.0)).unwrap_or(0.0)
}

#[test]
fn test_extract_total_volume_from_signal() {
    let signal1 = "[12:34:56] Ignition Detection - Buy Up 5 ticks Price 107000.00->107005.00 Volume 1.2345";
    assert_eq!(volume_of(signal1), 1.2345);

    let signal2 = "[12:34:56] Ignition Detection - Sell Down 5 ticks Price 107000.00->106995.00 Volume 1.5678";
    assert_eq!(volume_of(signal2), 1.5678);

    let signal3 = "[12:34:56] Momentum Follow - Buy Up 3 ticks Price 107000.00->107002.00 Volume 0.5678";
    assert_eq!(volume_of(signal3), 0.5678);

    let signal4 = "[12:34:56] Momentum Follow - Sell Down 3 ticks Price 107000.00->106995.00 Volume 0.3456";
    assert_eq!(volume_of(signal4), 0.3456);

    let signal5 = "[12:34:56] Ignition Detection - Buy Up 7 ticks Price 107000.00->107010.00 Volume 2";
    assert_eq!(volume_of(signal5), 2.0);

    let signal6 = "[12:34:56] Invalid Signal";
    assert_eq!(volume_of(signal6), 0.0);
}

#[test]
fn signal_volume_text_takes_the_number_after_the_word() {
    // The number follows the word and any spaces after it.
    assert_eq!(signal_volume_text("Volume12.5x"), Some("12.5".to_string()));
    assert_eq!(signal_volume_text("a Volume   3 lots"), Some("3".to_string()));
    assert_eq!(signal_volume_text("a Volume x3"), Some(String::new()));
    assert_eq!(signal_volume_text("VolumeVolume7"), Some(String::new()));
    assert_eq!(signal_volume_text("Volum"), None);
    assert_eq!(signal_volume_text("成交 Volume9"), Some("9".to_string()));
}
