use nucleon::tensor::{checked_element_count, element_count, flat_index, next_index, row_span};

#[test]
fn checked_element_count_is_reusable_by_the_crate() {
    assert_eq!(checked_element_count(&[2, 3, 4]), Some(24));
    assert_eq!(checked_element_count(&[usize::MAX, 2]), None);
}

#[test]
fn rank_zero_shape_has_one_element() {
    assert_eq!(checked_element_count(&[]), Some(1));
    assert_eq!(element_count(&[]), 1);
    assert_eq!(flat_index(&[], &[]), 0);
}

#[test]
fn overflow_is_seen_even_before_a_zero_axis() {
    // the partial product overflows before the zero arrives
    assert_eq!(checked_element_count(&[usize::MAX, 2, 0]), None);
    assert_eq!(checked_element_count(&[0, usize::MAX, 2]), Some(0));
}

#[test]
fn flat_index_is_row_major() {
    assert_eq!(flat_index(&[2, 3], &[0, 0]), 0);
    assert_eq!(flat_index(&[2, 3], &[0, 2]), 2);
    assert_eq!(flat_index(&[2, 3], &[1, 0]), 3);
    assert_eq!(flat_index(&[2, 3, 4], &[1, 2, 3]), 23);
}

#[test]
fn rows_are_contiguous_spans() {
    assert_eq!(row_span(&[2, 3], 0), (0, 3));
    assert_eq!(row_span(&[2, 3], 1), (3, 6));
    assert_eq!(row_span(&[2, 0], 1), (0, 0));
}

#[test]
fn odometer_walks_every_index_in_row_major_order() {
    let shape = [2usize, 3, 4];
    let mut index = vec![0usize; 3];
    for k in 0..24 {
        assert_eq!(flat_index(&shape, &index), k);
        next_index(&shape, &mut index);
    }
    // past the last position it wraps to zeros
    assert_eq!(index, vec![0, 0, 0]);
}
