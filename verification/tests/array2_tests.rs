use rpeg::array2::Array2;

#[test]
fn new_fills_every_element() {
    let a: Array2<u16> = Array2::new(3, 2, 7);
    assert_eq!(a.width(), 3);
    assert_eq!(a.height(), 2);
    assert_eq!(a.elements_row_major(), &vec![7u16; 6]);
}

#[test]
fn from_row_major_checks_count() {
    let ok = Array2::from_row_major(2, 2, vec![1u16, 2, 3, 4]);
    assert!(ok.is_ok());
    let a = ok.unwrap();
    assert_eq!(a.get(0, 0), Some(&1));
    assert_eq!(a.get(1, 0), Some(&2));
    assert_eq!(a.get(0, 1), Some(&3));
    assert_eq!(a.get(1, 1), Some(&4));

    let bad = Array2::from_row_major(2, 2, vec![1u16, 2, 3]);
    assert!(bad.is_err());
}

#[test]
fn get_out_of_bounds_is_none() {
    let a = Array2::from_row_major(2, 3, vec![0u16, 1, 2, 3, 4, 5]).unwrap();
    assert_eq!(a.get(2, 0), None);
    assert_eq!(a.get(0, 3), None);
    assert_eq!(a.get(1, 2), Some(&5));
}

#[test]
fn get_mut_writes_in_place() {
    let mut a = Array2::from_row_major(2, 2, vec![0u16, 1, 2, 3]).unwrap();
    if let Some(v) = a.get_mut(1, 0) {
        *v = 42;
    }
    assert_eq!(a.get(1, 0), Some(&42));
    assert!(a.get_mut(2, 0).is_none());
}

#[test]
fn iter_row_major_orders_by_rows() {
    let a = Array2::from_row_major(3, 2, vec![10u16, 11, 12, 13, 14, 15]).unwrap();
    let items = a.iter_row_major();
    let expected = vec![
        (0, 0, 10u16),
        (1, 0, 11),
        (2, 0, 12),
        (0, 1, 13),
        (1, 1, 14),
        (2, 1, 15),
    ];
    assert_eq!(items, expected);
}

#[test]
fn iter_col_major_orders_by_columns() {
    let a = Array2::from_row_major(3, 2, vec![10u16, 11, 12, 13, 14, 15]).unwrap();
    let items = a.iter_col_major();
    let expected = vec![
        (0, 0, 10u16),
        (0, 1, 13),
        (1, 0, 11),
        (1, 1, 14),
        (2, 0, 12),
        (2, 1, 15),
    ];
    assert_eq!(items, expected);
}
