use roc_set::QuadBufferBuilder;

#[test]
fn new_builder_is_empty() {
    let b = QuadBufferBuilder::new();
    assert!(b.vertex_data().is_empty());
    assert!(b.index_data().is_empty());
    assert_eq!(b.index_count(), 0);
}

#[test]
fn quads_get_four_vertices_and_six_indices() {
    let red = (1.0f32.to_bits(), 0.0f32.to_bits(), 0.0f32.to_bits());
    let b = QuadBufferBuilder::new()
        .push_quad(1, 2, 3, 4, red)
        .push_quad(5, 6, 7, 8, red);
    let v = b.vertex_data();
    assert_eq!(v.len(), 8);
    let pos: Vec<(u32, u32)> = v.iter().map(|c| (c.x, c.y)).collect();
    assert_eq!(
        pos,
        vec![(1, 2), (3, 2), (3, 4), (1, 4), (5, 6), (7, 6), (7, 8), (5, 8)]
    );
    assert!(v.iter().all(|c| c.color == red));
    assert_eq!(b.index_data(), &vec![0, 1, 2, 0, 2, 3, 4, 5, 6, 4, 6, 7]);
    assert_eq!(b.index_count(), 12);
}
