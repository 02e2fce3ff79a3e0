use dzr::grid::radius::RadiusIter;

#[test]
fn start_with_center() {
    let mut r = RadiusIter::new(20, 6, 0);
    assert_eq!(20, r.next().unwrap());
}

#[test]
fn circle_around_center() {
    let mut r = RadiusIter::new(20, 6, 1);

    assert_eq!(Some(13), r.next());
    assert_eq!(Some(14), r.next());
    assert_eq!(Some(15), r.next());
    assert_eq!(Some(19), r.next());
    assert_eq!(Some(21), r.next());
    assert_eq!(Some(25), r.next());
    assert_eq!(Some(26), r.next());
    assert_eq!(Some(27), r.next());
    assert_eq!(None, r.next());
    r = RadiusIter::new(20, 6, 2);
    assert_eq!(Some(6), r.next());
    assert_eq!(Some(7), r.next());
    assert_eq!(Some(8), r.next());
    assert_eq!(Some(9), r.next());
    assert_eq!(Some(10), r.next());
    assert_eq!(Some(12), r.next());
    assert_eq!(Some(16), r.next());
    assert_eq!(Some(18), r.next());
    assert_eq!(Some(22), r.next());
    assert_eq!(Some(24), r.next());
    assert_eq!(Some(28), r.next());
    assert_eq!(Some(30), r.next());
    assert_eq!(Some(31), r.next());
    assert_eq!(Some(32), r.next());
    assert_eq!(Some(33), r.next());
    assert_eq!(Some(34), r.next());
}

#[test]
fn leave_out_indices_for_edge_cells_x_direction() {
    let mut r = RadiusIter::new(17, 6, 1);
    assert_eq!(Some(10), r.next());
    assert_eq!(Some(11), r.next());
    assert_eq!(Some(16), r.next());
    assert_eq!(Some(22), r.next());
    assert_eq!(Some(23), r.next());
}

#[test]
fn leave_out_indices_for_edge_cells_y_direction() {
    let mut r = RadiusIter::new(35, 6, 1);
    assert_eq!(28, r.next().unwrap());
    assert_eq!(29, r.next().unwrap());
    assert_eq!(34, r.next().unwrap());
    assert_eq!(None, r.next());
}

#[test]
fn hop_over_negative_cell_indices() {
    let mut r = RadiusIter::new(0, 3, 1);
    assert_eq!(1, r.next().unwrap());
    assert_eq!(3, r.next().unwrap());
    assert_eq!(4, r.next().unwrap());
    r = RadiusIter::new(0, 3, 2);
    assert_eq!(2, r.next().unwrap());
    assert_eq!(5, r.next().unwrap());
    assert_eq!(6, r.next().unwrap());
    assert_eq!(7, r.next().unwrap());
    assert_eq!(8, r.next().unwrap());
    r = RadiusIter::new(0, 3, 3);
    assert_eq!(None, r.next());
}
