use rs_wgpu_engine::id::{generate_id, IdGenerator};
use rs_wgpu_engine::resource::{ResourceId, ResourceKind, ResourcePool, ResourcePools};

#[test]
fn add_then_borrow_gives_resource() {
    let mut ids = IdGenerator::new();
    let mut pool: ResourcePool<u32> = ResourcePool::new();
    let a = pool.add(&mut ids, 10);
    let b = pool.add(&mut ids, 20);
    assert_eq!(a.id, 0);
    assert_eq!(b.id, 1);
    assert!(!a.is_disposed);
    assert_eq!(pool.borrow(&a), Some(&10));
    assert_eq!(pool.borrow(&b), Some(&20));
    assert_eq!(generate_id(&mut ids), 2);
}

#[test]
fn borrow_mut_writes_back() {
    let mut ids = IdGenerator::new();
    let mut pool: ResourcePool<u32> = ResourcePool::new();
    let a = pool.add(&mut ids, 10);
    *pool.borrow_mut(&a).unwrap() = 11;
    assert_eq!(pool.borrow(&a), Some(&11));
}

#[test]
fn unknown_handle_gives_none() {
    let mut ids = IdGenerator::new();
    let mut other: ResourcePool<u32> = ResourcePool::new();
    let pool: ResourcePool<u32> = ResourcePool::new();
    let a = other.add(&mut ids, 1);
    assert_eq!(pool.borrow(&a), None);
    let mut pool = pool;
    assert!(pool.borrow_mut(&a).is_none());
}

#[test]
fn handles_compare_by_id() {
    let mut ids = IdGenerator::new();
    let mut pool: ResourcePool<u32> = ResourcePool::new();
    let a = pool.add(&mut ids, 1);
    let b = a.clone();
    let c = pool.add(&mut ids, 2);
    assert!(a == b);
    assert!(a != c);
}

#[test]
fn registry_has_an_empty_pool_per_kind() {
    let pools: ResourcePools<u32> = ResourcePools::new();
    let kinds = [
        ResourceKind::AttributeF32,
        ResourceKind::AttributeF64,
        ResourceKind::AttributeUsize,
        ResourceKind::Geometry,
        ResourceKind::Mesh,
        ResourceKind::Camera,
    ];
    let mut keys = Vec::new();
    for kind in kinds.iter() {
        keys.push(kind.type_key());
    }
    keys.sort();
    keys.dedup();
    assert_eq!(keys.len(), 6);
    let mut ids = IdGenerator::new();
    let probe: ResourceId<u32> = ResourcePool::<u32>::new().add(&mut ids, 0);
    for kind in kinds.iter() {
        assert_eq!(pools.borrow(*kind).borrow(&probe), None);
    }
}

#[test]
fn registry_pools_are_separate() {
    let mut ids = IdGenerator::new();
    let mut pools: ResourcePools<&'static str> = ResourcePools::new();
    let mesh = pools.borrow_mut(ResourceKind::Mesh).add(&mut ids, "mesh");
    let camera = pools.borrow_mut_unsafe(ResourceKind::Camera).add(&mut ids, "camera");
    assert_eq!(pools.borrow(ResourceKind::Mesh).borrow(&mesh), Some(&"mesh"));
    assert_eq!(pools.borrow(ResourceKind::Camera).borrow(&camera), Some(&"camera"));
    assert_eq!(pools.borrow(ResourceKind::Mesh).borrow(&camera), None);
    assert_eq!(pools.borrow(ResourceKind::Geometry).borrow(&mesh), None);
}
