use rs_wgpu_engine::attribute::{Attribute, AttributeUsize, Geometry};
use rs_wgpu_engine::id::IdGenerator;
use rs_wgpu_engine::resource::ResourcePool;

#[test]
fn attribute_counts_whole_items() {
    let attr = Attribute::new(3, vec![1.0_f32, 2.0, 3.0, 4.0, 5.0, 6.0]);
    assert_eq!(attr.get_count(), 2);
    assert!(attr.need_update);
    assert_eq!(attr.borrow_data(), &vec![1.0_f32, 2.0, 3.0, 4.0, 5.0, 6.0]);
    let attr: AttributeUsize = Attribute::new(2, vec![1_usize, 2, 3, 4, 5, 6, 7]);
    assert_eq!(attr.get_count(), 3);
    let attr = Attribute::new(1, vec![1.0_f64, 2.0, 3.0]);
    assert_eq!(attr.get_count(), 3);
    assert_eq!(attr.item_size, 1);
}

#[test]
fn geometry_stores_attributes_and_index() {
    let mut ids = IdGenerator::new();
    let mut attributes: ResourcePool<Attribute<f32>> = ResourcePool::new();
    let mut indices: ResourcePool<AttributeUsize> = ResourcePool::new();
    let position = attributes.add(&mut ids, Attribute::new(3, vec![0.0; 9]));
    let normal = attributes.add(&mut ids, Attribute::new(3, vec![1.0; 9]));
    let index = indices.add(&mut ids, Attribute::new(1, vec![0, 1, 2]));

    let mut geometry: Geometry<f32> = Geometry::new();
    assert!(geometry.borrow_index().is_none());
    geometry.set_attribute("position", position).set_index(index);
    assert!(*geometry.borrow_attribute("position").unwrap() == position);
    assert!(geometry.borrow_attribute("normal").is_none());
    assert!(*geometry.borrow_index().unwrap() == index);

    geometry.set_attribute("position", normal);
    assert!(*geometry.borrow_attribute("position").unwrap() == normal);
    geometry.remove_index();
    assert!(geometry.borrow_index().is_none());
}
