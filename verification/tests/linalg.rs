use porecrusher::linalg::{Matrix, Vec3};

#[test]
fn vec3_components() {
    let v = Vec3::from_array([1.5, -2.0, 3.25]);
    assert_eq!(v.x(), 1.5);
    assert_eq!(v.y(), -2.0);
    assert_eq!(v.z(), 3.25);
    assert_eq!(v.as_array(), [1.5, -2.0, 3.25]);
    assert_eq!(v.iter().copied().collect::<Vec<f64>>(), vec![1.5, -2.0, 3.25]);
}

#[test]
fn vec3_splat() {
    let v = Vec3::splat(7u32);
    assert_eq!(v.as_array(), [7, 7, 7]);
}

#[test]
fn matrix_entries_are_stored_by_column() {
    let m = Matrix::<i32, 2, 3>::from_arr(vec![1, 2, 3, 4, 5, 6]);
    assert_eq!(m.shape(), (2, 3));
    assert_eq!(*m.get(0, 0), 1);
    assert_eq!(*m.get(1, 0), 2);
    assert_eq!(*m.get(0, 1), 3);
    assert_eq!(*m.get(1, 2), 6);
    assert_eq!(m.iter().copied().collect::<Vec<i32>>(), vec![1, 2, 3, 4, 5, 6]);
    let cols = m.cols();
    assert_eq!(cols.len(), 3);
    assert_eq!(cols[0], &[1, 2][..]);
    assert_eq!(cols[1], &[3, 4][..]);
    assert_eq!(cols[2], &[5, 6][..]);
}

#[test]
fn matrix_set_replaces_one_entry() {
    let mut m = Matrix::<i32, 2, 2>::from_arr(vec![1, 2, 3, 4]);
    m.set(1, 0, 20);
    assert_eq!(m, Matrix::<i32, 2, 2>::from_arr(vec![1, 20, 3, 4]));
}

#[test]
fn transpose_swaps_rows_and_columns() {
    let m = Matrix::<i32, 3, 3>::from_arr(vec![1, 2, 3, 4, 5, 6, 7, 8, 9]);
    let t = m.transpose();
    assert_eq!(t, Matrix::<i32, 3, 3>::from_arr(vec![1, 4, 7, 2, 5, 8, 3, 6, 9]));
    assert_eq!(*t.get(0, 1), *m.get(1, 0));
}

#[test]
fn transposing_twice_gives_the_matrix_back() {
    let m = Matrix::<i64, 4, 4>::from_arr((0..16).map(|v| v * v - 3).collect());
    assert_eq!(m.transpose().transpose(), m);
}

#[test]
fn vec3_from_array() {
    let v: Vec3<i32> = Vec3::from([4, 5, 6]);
    assert_eq!(v.as_array(), [4, 5, 6]);
    assert_eq!((v.x(), v.y(), v.z()), (4, 5, 6));
}

#[test]
fn vec3_component_changed_in_place() {
    let mut v = Vec3::from_array([1.0, 2.0, 3.0]);
    *v.get_mut(2) = -4.5;
    *v.get_mut(0) += 1.0;
    assert_eq!(v.as_array(), [2.0, 2.0, -4.5]);
}

#[test]
fn transpose_of_a_matrix_without_rows_is_empty() {
    let m = Matrix::<i32, 0, 3>::from_arr(vec![]);
    let t = m.transpose();
    assert_eq!(t.shape(), (3, 0));
    assert_eq!(t.iter().count(), 0);
}
