use oxvoid::mesh::{grid_indices, quad_indices};

/// The index list written out cell by cell.
fn expected_grid(rows: usize, cols: usize) -> Vec<u16> {
    let mut out = Vec::new();
    for i in 0..rows {
        for j in 0..cols {
            let a = (i * (cols + 1) + j) as u16;
            let b = a + (cols + 1) as u16;
            out.extend_from_slice(&[a, b, a + 1, a + 1, b, b + 1]);
        }
    }
    out
}

#[test]
fn single_cell() {
    assert_eq!(grid_indices(1, 1), vec![0, 2, 1, 1, 2, 3]);
}

#[test]
fn two_by_three_grid() {
    let v = grid_indices(2, 3);
    assert_eq!(v.len(), 36);
    assert_eq!(&v[..6], &[0, 4, 1, 1, 4, 5]);
    assert_eq!(&v[30..], &[6, 10, 7, 7, 10, 11]);
    assert_eq!(v, expected_grid(2, 3));
}

#[test]
fn empty_grids() {
    assert!(grid_indices(0, 5).is_empty());
    assert!(grid_indices(5, 0).is_empty());
}

#[test]
fn sphere_and_torus_grids() {
    assert_eq!(grid_indices(24, 24), expected_grid(24, 24));
    assert_eq!(grid_indices(32, 16), expected_grid(32, 16));
    assert_eq!(*grid_indices(32, 16).iter().max().unwrap(), 33 * 17 - 1);
}

#[test]
fn largest_grid_reaches_the_last_vertex() {
    let v = grid_indices(255, 255);
    assert_eq!(*v.iter().max().unwrap(), 65535);
}

#[test]
fn cube_faces() {
    let v = quad_indices(6);
    assert_eq!(v.len(), 36);
    assert_eq!(&v[..12], &[0, 1, 2, 0, 2, 3, 4, 5, 6, 4, 6, 7]);
    assert_eq!(&v[30..], &[20, 21, 22, 20, 22, 23]);
    assert!(quad_indices(0).is_empty());
}
