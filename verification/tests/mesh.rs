use openpbr::mesh::triangle_soup;

#[test]
fn soup_lists_the_indexed_vertices_in_order() {
    let vertices = [[0.0f32, 0.0, 0.0], [1.0, 0.0, 0.0], [0.0, 1.0, 0.0], [1.0, 1.0, 0.0]];
    let indices = [0u16, 1, 2, 2, 1, 3];
    let soup = triangle_soup(&vertices, &indices);
    assert_eq!(
        soup,
        vec![
            [0.0, 0.0, 0.0],
            [1.0, 0.0, 0.0],
            [0.0, 1.0, 0.0],
            [0.0, 1.0, 0.0],
            [1.0, 0.0, 0.0],
            [1.0, 1.0, 0.0],
        ]
    );
}

#[test]
fn empty_index_buffer_gives_empty_soup() {
    let soup = triangle_soup(&[7u8, 8, 9], &[]);
    assert!(soup.is_empty());
}

#[test]
fn repeated_indices_repeat_vertices() {
    let soup = triangle_soup(&[10i32, 20], &[1, 1, 0]);
    assert_eq!(soup, vec![20, 20, 10]);
}
