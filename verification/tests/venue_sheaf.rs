use lau_bridge_pattern_math::venue_sheaf::{cohomology_dimensions, stalk_offsets};

#[test]
fn offsets_are_prefix_sums() {
    assert_eq!(stalk_offsets(&vec![3, 2, 4]), vec![0, 3, 5, 9]);
    assert_eq!(stalk_offsets(&vec![]), vec![0]);
    assert_eq!(stalk_offsets(&vec![0, 1]), vec![0, 0, 1]);
}

#[test]
fn consistent_sheaf_has_first_stalk_sections() {
    // Two maps into 3-dimensional stalks, stalks of dimension 3.
    assert_eq!(cohomology_dimensions(true, &vec![3, 3], &vec![3, 3]), (3, 3));
}

#[test]
fn inconsistent_sheaf_has_no_global_sections() {
    assert_eq!(cohomology_dimensions(false, &vec![3, 3], &vec![3, 3]), (0, 6));
}

#[test]
fn h1_is_floored_at_zero() {
    // No restriction maps: H¹ would be negative, so it is 0.
    assert_eq!(cohomology_dimensions(true, &vec![4], &vec![]), (4, 0));
    assert_eq!(cohomology_dimensions(true, &vec![], &vec![2]), (0, 2));
}
