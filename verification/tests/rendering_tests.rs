use trading_gui::component::{ComponentError, ComponentId};
use trading_gui::rendering::{
    group_commands, sort_commands, RenderCommand, RenderManager, RenderManagerConfig, RenderPipeline,
    RenderPipelineConfig, RenderQueue, RenderTarget,
};

fn comp(name: &str, z: i32) -> RenderCommand {
    RenderCommand::RenderComponent { component_id: ComponentId::new(name.to_string()), target: RenderTarget::MainWindow, z_index: z }
}

fn text_on(t: RenderTarget, s: &str) -> RenderCommand {
    RenderCommand::RenderText { text: s.to_string(), target: t }
}

fn label(c: &RenderCommand) -> String {
    match c {
        RenderCommand::RenderComponent { component_id, .. } => component_id.0.clone(),
        RenderCommand::RenderText { text, .. } => text.clone(),
        RenderCommand::Clear { .. } => "clear".to_string(),
        _ => "other".to_string(),
    }
}

fn labels(v: &[RenderCommand]) -> Vec<String> {
    v.iter().map(label).collect()
}

fn resource_text(r: Result<(), ComponentError>) -> String {
    match r {
        Err(ComponentError::ResourceError(m)) => m,
        other => panic!("expected a resource error, got {:?}", other),
    }
}

#[test]
fn queue_is_bounded() {
    let mut q = RenderQueue::new(2, 10);
    assert!(q.is_empty());
    q.push(comp("a", 0)).unwrap();
    q.push(comp("b", 0)).unwrap();
    assert_eq!(resource_text(q.push(comp("c", 0))), "渲染队列已满");
    assert_eq!(q.len(), 2);
    assert_eq!(q.max_capacity(), 2);
    assert_eq!(resource_text(q.push_batch(vec![comp("d", 0)])), "渲染队列容量不足");
    q.clear();
    q.push_batch(vec![comp("d", 0), comp("e", 0)]).unwrap();
    assert_eq!(q.len(), 2);
}

#[test]
fn batches_come_oldest_first_in_drawing_order() {
    let mut q = RenderQueue::new(10, 3);
    q.push_batch(vec![comp("a", 5), comp("b", 1), comp("c", 5), comp("d", 0)]).unwrap();
    // First three, sorted by z-index, equal ones keeping their order.
    assert_eq!(labels(&q.pop_batch()), vec!["b", "a", "c"]);
    assert_eq!(labels(&q.pop_batch()), vec!["d"]);
    assert!(q.pop_batch().is_empty());
}

#[test]
fn batches_without_sorting_keep_queue_order() {
    let mut q = RenderQueue::new(10, 10);
    q.set_z_sorting(false);
    q.reserve(5);
    q.push_batch(vec![comp("a", 5), comp("b", 1)]).unwrap();
    assert_eq!(labels(&q.pop_batch()), vec!["a", "b"]);
}

#[test]
fn sorting_commands_is_stable() {
    let sorted = sort_commands(vec![comp("x", 2), text_on(RenderTarget::MainWindow, "t"), comp("y", -1), comp("z", 2)]);
    assert_eq!(labels(&sorted), vec!["y", "t", "x", "z"]);
}

#[test]
fn target_helpers() {
    let t = RenderTarget::Texture("atlas".to_string());
    assert_eq!(t.label(), "纹理: atlas");
    assert_eq!(RenderTarget::MainWindow.label(), "主窗口");
    assert_eq!(RenderTarget::ChildWindow("w".to_string()).label(), "子窗口: w");
    assert_eq!(RenderTarget::OffscreenBuffer("b".to_string()).label(), "离屏缓冲: b");
    assert!(t.same_as(&t.duplicate()));
    assert!(!t.same_as(&RenderTarget::Texture("other".to_string())));
    let c = text_on(RenderTarget::ChildWindow("w".to_string()), "hi");
    assert!(c.target().same_as(&RenderTarget::ChildWindow("w".to_string())));
    assert_eq!(c.z_index(), 0);
    assert_eq!(comp("a", 9).z_index(), 9);
}

#[test]
fn pipeline_counts_commands_and_batches() {
    let mut p = RenderPipeline::new(RenderPipelineConfig::default());
    p.execute_command(&comp("a", 3)).unwrap();
    p.execute_batch(&vec![
        RenderCommand::BeginGroup { group_id: "g".to_string(), target: RenderTarget::MainWindow },
        comp("b", 1),
        RenderCommand::EndGroup { group_id: "g".to_string(), target: RenderTarget::MainWindow },
        RenderCommand::EndGroup { group_id: "g".to_string(), target: RenderTarget::MainWindow },
    ])
    .unwrap();
    let s = p.get_stats();
    assert_eq!(s.commands_processed, 5);
    assert_eq!(s.components_rendered, 2);
    assert_eq!(s.batches_processed, 1);
    p.reset_stats();
    let s = p.get_stats();
    assert_eq!(s.commands_processed, 0);
    assert_eq!(s.components_rendered, 0);
    assert_eq!(s.batches_processed, 0);
    assert_eq!(s.render_time_us, 0);
}

#[test]
fn manager_queues_per_target_and_processes() {
    let mut m = RenderManager::new(RenderManagerConfig { batch_size: 2, ..RenderManagerConfig::default() });
    m.start().unwrap();
    match m.start() {
        Err(ComponentError::StateError(t)) => assert_eq!(t, "渲染管理器已在运行"),
        other => panic!("unexpected {:?}", other),
    }
    m.submit_command(comp("a", 0)).unwrap();
    m.submit_command(text_on(RenderTarget::Texture("t".to_string()), "x")).unwrap();
    m.submit_commands(vec![comp("b", 0), comp("c", 0), text_on(RenderTarget::Texture("t".to_string()), "y")]).unwrap();
    let info = m.get_queue_info();
    assert_eq!(info.len(), 2);
    assert_eq!(info[0].0, "主窗口");
    assert_eq!(info[0].1.length, 3);
    assert_eq!(info[0].1.capacity, 10000);
    assert_eq!(info[1].0, "纹理: t");
    assert_eq!(info[1].1.length, 2);
    m.reserve_queue_capacity(&RenderTarget::MainWindow, 100);
    m.process_queues().unwrap();
    let s = m.get_stats();
    assert_eq!(s.commands_processed, 5);
    assert_eq!(s.components_rendered, 3);
    // Main window: batches of 2 and 1; texture: one batch of 2.
    assert_eq!(s.batches_processed, 3);
    assert!(m.get_queue_info().iter().all(|(_, i)| i.length == 0));
    m.reset_stats();
    assert_eq!(m.get_stats().commands_processed, 0);
    m.stop().unwrap();
}

#[test]
fn manager_refuses_full_queues() {
    let mut m = RenderManager::new(RenderManagerConfig { queue_max_capacity: 1, ..RenderManagerConfig::default() });
    m.submit_command(comp("a", 0)).unwrap();
    assert_eq!(resource_text(m.submit_command(comp("b", 0))), "渲染队列已满");
    assert_eq!(
        resource_text(m.submit_commands(vec![text_on(RenderTarget::Texture("t".to_string()), "x"), comp("c", 0)])),
        "渲染队列容量不足"
    );
    // The texture group went in before the main window group was refused.
    let info = m.get_queue_info();
    assert_eq!(info.len(), 2);
    assert_eq!(info[1].1.length, 1);
    m.clear_all_queues();
    assert!(m.get_queue_info().iter().all(|(_, i)| i.length == 0));
}

#[test]
fn grouping_keeps_first_appearance_order() {
    let groups = group_commands(vec![
        text_on(RenderTarget::Texture("t".to_string()), "1"),
        comp("a", 0),
        text_on(RenderTarget::Texture("t".to_string()), "2"),
    ]);
    assert_eq!(groups.len(), 2);
    assert!(groups[0].0.same_as(&RenderTarget::Texture("t".to_string())));
    assert_eq!(labels(&groups[0].1), vec!["1", "2"]);
    assert_eq!(labels(&groups[1].1), vec!["a"]);
}

#[test]
fn config_defaults() {
    let c = RenderManagerConfig::default();
    assert_eq!(c.queue_max_capacity, 10000);
    assert_eq!(c.batch_size, 100);
    assert_eq!(c.render_threads, 1);
    assert!(c.enable_profiling);
    let p = RenderPipelineConfig::default();
    assert_eq!(p.target_fps, 60);
    assert_eq!(p.msaa_samples, 4);
    assert!(!p.enable_msaa);
}
