use rs_wgpu_engine::id::IdGenerator;
use rs_wgpu_engine::pool::{ResourceId, ResourcePool};

#[test]
fn format_keeps_identifier() {
    let rid: ResourceId<u8> = ResourceId::format(42);
    assert_eq!(rid.id, 42);
}

#[test]
fn set_then_borrow() {
    let mut pool: ResourcePool<String> = ResourcePool::new();
    let rid = pool.set(7, "seven".to_string());
    assert_eq!(rid.id, 7);
    assert_eq!(pool.borrow(&ResourceId::format(7)).map(|s| s.as_str()), Some("seven"));
    pool.set(7, "SEVEN".to_string());
    assert_eq!(pool.borrow(&rid).map(|s| s.as_str()), Some("SEVEN"));
    assert!(pool.borrow(&ResourceId::format(8)).is_none());
}

#[test]
fn add_uses_counter_and_borrow_mut_writes() {
    let mut ids = IdGenerator::new();
    let mut pool: ResourcePool<i32> = ResourcePool::new();
    let a = pool.add(&mut ids, -1);
    let b = pool.add(&mut ids, -2);
    assert_eq!(b.id, a.id + 1);
    if let Some(v) = pool.borrow_mut(&b) {
        *v = 5;
    }
    assert_eq!(pool.borrow(&a), Some(&-1));
    assert_eq!(pool.borrow(&b), Some(&5));
    assert!(pool.borrow_mut(&ResourceId::format(99)).is_none());
}
