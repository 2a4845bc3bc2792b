use educational_missile_physics::grid::{
    coarse_cell, grid_triangle_indices, neighbours, CONTOUR_SUBDIVISIONS, FILL_SUBDIVISIONS,
};

#[test]
fn triangle_indices_single_cell() {
    assert_eq!(grid_triangle_indices(1), vec![0, 2, 1, 1, 2, 3]);
}

#[test]
fn triangle_indices_two_by_two() {
    assert_eq!(
        grid_triangle_indices(2),
        vec![
            0, 3, 1, 1, 3, 4, //
            1, 4, 2, 2, 4, 5, //
            3, 6, 4, 4, 6, 7, //
            4, 7, 5, 5, 7, 8,
        ]
    );
}

#[test]
fn triangle_indices_empty_grid() {
    assert!(grid_triangle_indices(0).is_empty());
}

#[test]
fn triangle_indices_stay_inside_fill_grid() {
    let s = FILL_SUBDIVISIONS;
    let v = grid_triangle_indices(s);
    assert_eq!(v.len(), (6 * s * s) as usize);
    let verts = (s + 1) * (s + 1);
    assert!(v.iter().all(|&i| i < verts));
    assert_eq!(*v.iter().max().unwrap(), verts - 1);
}

#[test]
fn triangle_indices_textured_chunk_mesh() {
    let v = grid_triangle_indices(256);
    assert_eq!(v.len(), 6 * 256 * 256);
    assert_eq!(&v[0..6], &[0, 257, 1, 1, 257, 258]);
    assert_eq!(*v.iter().max().unwrap(), 257 * 257 - 1);
}

#[test]
fn coarse_cell_of_fill_samples() {
    let ratio = CONTOUR_SUBDIVISIONS / FILL_SUBDIVISIONS;
    assert_eq!(ratio, 2);
    assert_eq!(coarse_cell(0, ratio, CONTOUR_SUBDIVISIONS), (0, 0));
    assert_eq!(coarse_cell(13, ratio, CONTOUR_SUBDIVISIONS), (26, 0));
    assert_eq!(coarse_cell(31, ratio, CONTOUR_SUBDIVISIONS), (62, 0));
    assert_eq!(coarse_cell(32, ratio, CONTOUR_SUBDIVISIONS), (63, 1));
}

#[test]
fn coarse_cell_single_cell_axis() {
    assert_eq!(coarse_cell(5, 3, 1), (0, 15));
}

#[test]
fn neighbours_clamp_at_the_ends() {
    assert_eq!(neighbours(0, 33), (0, 1));
    assert_eq!(neighbours(5, 33), (4, 6));
    assert_eq!(neighbours(32, 33), (31, 32));
    assert_eq!(neighbours(0, 1), (0, 0));
}
