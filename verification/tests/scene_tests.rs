use rs_wgpu_engine::app2d::{ActiveInfo, App2DOptions, ExampleShape, SyncCmd, SyncCmdType, SyncMethod};
use rs_wgpu_engine::id::IdGenerator;
use rs_wgpu_engine::material::Side;
use rs_wgpu_engine::node::{Node, NodeExecutor};
use rs_wgpu_engine::resource::ResourcePool;

#[test]
fn default_side_is_front() {
    assert!(matches!(Side::default(), Side::FrontSide));
}

#[test]
fn new_node_has_no_links() {
    let node = Node::new([1u8, 2, 3]);
    assert!(node.borrow_parent().is_none());
    assert!(node.borrow_children().is_empty());
    assert_eq!(node.borrow_transform(), &[1u8, 2, 3]);
}

#[test]
fn transform_can_be_changed() {
    let mut node = Node::new(5u32);
    *node.borrow_transform_mut() = 6;
    assert_eq!(*node.borrow_transform(), 6);
}

#[test]
fn leaf_root_is_collected_and_visited_alone() {
    let mut ids = IdGenerator::new();
    let mut pool: ResourcePool<Node<u32>> = ResourcePool::new();
    let other = pool.add(&mut ids, Node::new(0));
    let root = pool.add(&mut ids, Node::new(1));
    let mut nodes = vec![other];
    NodeExecutor::collect_nodes(&pool, &root, &mut nodes);
    assert_eq!(nodes.len(), 2);
    assert!(nodes[0] == other && nodes[1] == root);
    let order = NodeExecutor::visit_order(&pool, &vec![root, other]);
    assert_eq!(order.len(), 2);
    assert!(order[0] == other && order[1] == root);
}

#[test]
fn plain_records() {
    let options = App2DOptions { canvas_id: "canvas".to_string() };
    assert_eq!(options.canvas_id, "canvas");
    let shape = ExampleShape(1);
    assert_eq!(shape.0, 1);
}

#[test]
fn active_info_starts_with_ten_frames() {
    assert_eq!(ActiveInfo::new().remaining_frames, 10);
}

#[test]
fn sync_command_record() {
    let cmd = SyncCmd { t: SyncCmdType::Resize, d: "{\"x\":1,\"y\":2}".to_string() };
    assert!(matches!(cmd.t, SyncCmdType::Resize));
    assert!(matches!(SyncMethod::GetCmd, SyncMethod::GetCmd));
}
