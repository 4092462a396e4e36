use trading_gui::layout::{ColumnConstraint, LayoutManager};

#[test]
fn test_calculate_optimal_widths() {
    let manager = LayoutManager::new();

    let widths = manager.calculate_optimal_widths(100);
    assert_eq!(widths.len(), 4);

    let widths = manager.calculate_optimal_widths(30);
    assert_eq!(widths.len(), 4);
    if let ColumnConstraint::Length(w) = widths[0] {
        assert_eq!(w, 6);
    }
    if let ColumnConstraint::Percentage(p) = widths[1] {
        assert_eq!(p, 35);
    }
}

#[test]
fn test_merged_column_configuration() {
    let mut manager = LayoutManager::new();

    assert!(manager.is_merged_column_enabled());
    assert_eq!(manager.get_merged_column_width(), 60);

    manager.set_merged_column_width(100);
    assert_eq!(manager.get_merged_column_width(), 100);

    manager.set_show_merged_column(false);
    assert!(!manager.is_merged_column_enabled());
}

#[test]
fn test_layout_stats() {
    let manager = LayoutManager::new();
    let stats = manager.get_layout_stats();

    assert_eq!(stats.total_columns, 4);
    assert!(stats.total_fixed_width > 0);
    assert_eq!(stats.merged_column_width, 60);
    assert!(stats.merged_column_enabled);
}

#[test]
fn test_create_header_row() {
    let manager = LayoutManager::new();
    let header = manager.header_titles();
    assert_eq!(header.len(), manager.get_column_constraints().len());
}

#[test]
fn test_create_empty_row() {
    let manager = LayoutManager::new();
    let empty_row = manager.empty_row_texts("Loading...");
    assert_eq!(empty_row.len(), manager.get_column_constraints().len());
    assert!(empty_row.iter().any(|t| t == "Loading..."));
}

#[test]
fn wide_table_with_order_flow_keeps_default_columns() {
    let manager = LayoutManager::new();
    let widths = manager.calculate_optimal_widths(200);
    assert_eq!(
        widths,
        vec![
            ColumnConstraint::Length(8),
            ColumnConstraint::Percentage(70),
            ColumnConstraint::Length(12),
            ColumnConstraint::Length(12)
        ]
    );
    let compact = manager.calculate_optimal_widths(119);
    assert_eq!(
        compact,
        vec![
            ColumnConstraint::Length(6),
            ColumnConstraint::Percentage(35),
            ColumnConstraint::Percentage(32),
            ColumnConstraint::Percentage(33)
        ]
    );
}

#[test]
fn without_order_flow_two_columns() {
    let mut manager = LayoutManager::new();
    manager.set_show_order_flow(false);
    assert!(!manager.is_order_flow_enabled());
    assert_eq!(manager.get_column_constraints().len(), 2);
    assert_eq!(
        manager.calculate_optimal_widths(79),
        vec![ColumnConstraint::Length(6), ColumnConstraint::Percentage(100)]
    );
    assert_eq!(
        manager.calculate_optimal_widths(80),
        vec![ColumnConstraint::Length(8), ColumnConstraint::Percentage(100)]
    );
    let stats = manager.get_layout_stats();
    assert_eq!(stats.total_columns, 2);
    assert_eq!(stats.total_fixed_width, 8);
}

#[test]
fn default_layout_fixed_width_is_sum_of_lengths() {
    let manager = LayoutManager::default();
    assert_eq!(manager.get_layout_stats().total_fixed_width, 8 + 12 + 12);
}

#[test]
fn column_count_matches_stats_for_any_width() {
    for flow in [true, false] {
        let mut manager = LayoutManager::new();
        manager.set_show_order_flow(flow);
        let stats = manager.get_layout_stats();
        for w in [0u16, 50, 79, 80, 119, 120, 400] {
            assert_eq!(manager.calculate_optimal_widths(w).len(), stats.total_columns);
        }
    }
}

#[test]
fn custom_column_widths_count_in_stats() {
    let mut manager = LayoutManager::new();
    manager.set_column_widths(vec![
        ColumnConstraint::Length(5),
        ColumnConstraint::Min(3),
        ColumnConstraint::Length(7),
    ]);
    assert_eq!(manager.get_column_constraints().len(), 3);
    assert_eq!(manager.get_layout_stats().total_fixed_width, 12);
}

#[test]
fn configured_layouts() {
    let merged = LayoutManager::with_config(80, true, false);
    assert_eq!(merged.get_merged_column_width(), 80);
    assert!(merged.is_merged_column_enabled());
    assert!(!merged.is_order_flow_enabled());
    assert_eq!(merged.get_column_constraints().len(), 2);
    assert_eq!(merged.header_titles(), vec!["Price".to_string(), "Bid & Ask".to_string()]);
    assert_eq!(merged.separator_lengths(), vec![6, 30]);
    let flow = LayoutManager::with_config(40, false, true);
    assert_eq!(flow.get_column_constraints().len(), 4);
    assert_eq!(flow.header_titles(), vec!["Price", "Quantity", "Buy", "Sell"]);
    assert_eq!(flow.separator_lengths(), vec![6, 15, 10, 10]);
    let plain = LayoutManager::with_config(40, false, false);
    assert_eq!(plain.get_column_constraints().len(), 4);
}

#[test]
fn merged_width_sets_third_column() {
    let mut manager = LayoutManager::new();
    manager.set_merged_column_width(25);
    assert_eq!(manager.get_column_constraints()[2], ColumnConstraint::Length(25));
    manager.set_show_merged_column(false);
    manager.set_merged_column_width(30);
    assert_eq!(manager.get_column_constraints()[2], ColumnConstraint::Length(25));
    assert_eq!(manager.get_merged_column_width(), 30);
}
