use rs_wgpu_engine::id::{generate_id, IdGenerator};

#[test]
fn test_generate_id() {
    let mut ids = IdGenerator::new();
    let id1 = generate_id(&mut ids);
    let id2 = generate_id(&mut ids);
    assert_eq!(id1 + 1, id2);
}

#[test]
fn generator_starts_at_zero_and_counts_up() {
    let mut ids = IdGenerator::new();
    for expected in 0..100usize {
        assert_eq!(generate_id(&mut ids), expected);
    }
}
