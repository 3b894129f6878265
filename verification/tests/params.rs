use aether::error::AetherError;
use aether::params::split_flat_params;
use aether::shape::flatten_rows;

#[test]
fn blocks_flatten_and_split_back() {
    let blocks = vec![vec![1, 2, 3], vec![], vec![4], vec![5, 6]];
    let flat = flatten_rows(&blocks);
    assert_eq!(flat, vec![1, 2, 3, 4, 5, 6]);
    let lens: Vec<usize> = blocks.iter().map(|b| b.len()).collect();
    assert_eq!(split_flat_params(&flat, &lens).unwrap(), blocks);
}

#[test]
fn a_changed_buffer_splits_into_changed_blocks() {
    let lens = vec![2, 3];
    let q = vec![10, 1, 2, 3, 4];
    let parts = split_flat_params(&q, &lens).unwrap();
    assert_eq!(parts, vec![vec![10, 1], vec![2, 3, 4]]);
    assert_eq!(flatten_rows(&parts), q);
}

#[test]
fn a_buffer_of_the_wrong_length_is_refused() {
    match split_flat_params(&[1, 2, 3, 4], &[2, 3]) {
        Err(AetherError::ShapeMismatch(m)) => assert_eq!(m, "set_flat_params needs 5 values, got 4"),
        other => panic!("unexpected {other:?}"),
    }
    assert!(split_flat_params::<u8>(&[], &[]).unwrap().is_empty());
}
