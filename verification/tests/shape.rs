use aether::error::AetherError;
use aether::shape::{
    check_count, check_from_vec, check_mask_shape, check_matmul, check_row_len, check_rows, check_same_dim, check_same_shape,
    cyclic_shift, flatten_rows, transposed,
};

fn shape_msg(r: Result<(), AetherError>) -> String {
    match r {
        Err(AetherError::ShapeMismatch(m)) => m,
        other => panic!("expected ShapeMismatch, got {other:?}"),
    }
}

#[test]
fn buffer_must_fill_the_matrix() {
    assert!(check_from_vec(2, 3, 6).is_ok());
    assert_eq!(shape_msg(check_from_vec(2, 3, 5)), "from_vec needs 6 values for 2x3, got 5");
    assert!(check_from_vec(0, 7, 0).is_ok());
}

#[test]
fn rows_must_be_rectangular() {
    let ok = vec![vec![1, 2], vec![3, 4], vec![5, 6]];
    assert_eq!(check_rows(&ok).unwrap(), 2);
    assert_eq!(flatten_rows(&ok), vec![1, 2, 3, 4, 5, 6]);
    match check_rows::<i32>(&vec![]) {
        Err(AetherError::EmptyInput(m)) => assert_eq!(m, "from_rows got no rows"),
        other => panic!("unexpected {other:?}"),
    }
    match check_rows::<i32>(&vec![vec![]]) {
        Err(AetherError::EmptyInput(m)) => assert_eq!(m, "from_rows got empty rows"),
        other => panic!("unexpected {other:?}"),
    }
    let ragged = vec![vec![1, 2], vec![3, 4], vec![5]];
    match check_rows(&ragged) {
        Err(AetherError::ShapeMismatch(m)) => assert_eq!(m, "row 0 has 2 cols but row 2 has 1"),
        other => panic!("unexpected {other:?}"),
    }
}

#[test]
fn shapes_must_line_up() {
    assert!(check_same_shape("add", 2, 3, 2, 3).is_ok());
    assert_eq!(shape_msg(check_same_shape("add", 2, 3, 4, 5)), "add: 2x3 vs 4x5");
    assert!(check_matmul(2, 3, 3, 2).is_ok());
    assert_eq!(shape_msg(check_matmul(2, 3, 2, 3)), "matmul: 2x3 @ 2x3");
    assert!(check_row_len(4, 4).is_ok());
    assert_eq!(shape_msg(check_row_len(4, 3)), "set_row needs 4 values, got 3");
}

#[test]
fn transpose_moves_entries_and_is_an_involution() {
    // [[1, 2, 3], [4, 5, 6]] -> [[1, 4], [2, 5], [3, 6]]
    let m = vec![1.0f32, 2.0, 3.0, 4.0, 5.0, 6.0];
    let t = transposed(&m, 2, 3);
    assert_eq!(t, vec![1.0, 4.0, 2.0, 5.0, 3.0, 6.0]);
    assert_eq!(transposed(&t, 3, 2), m);
    assert_eq!(transposed::<u8>(&vec![], 0, 5), Vec::<u8>::new());
}

#[test]
fn vector_dimensions_must_agree() {
    assert!(check_same_dim("bind", 8, 8).is_ok());
    assert_eq!(shape_msg(check_same_dim("bind", 8, 5)), "bind: dim 8 vs 5");
    assert_eq!(
        shape_msg(check_same_dim("HoloMemory::store", 1024, 0)),
        "HoloMemory::store: dim 1024 vs 0"
    );
}

#[test]
fn cyclic_shift_rotates_to_the_right() {
    assert_eq!(cyclic_shift(&vec![1, 2, 3], 1), vec![3, 1, 2]);
    assert_eq!(cyclic_shift(&vec![1, 2, 3], 0), vec![1, 2, 3]);
    assert_eq!(cyclic_shift(&vec![1, 2, 3], 3), vec![1, 2, 3]);
    assert_eq!(cyclic_shift(&vec![1, 2, 3, 4], 6), vec![3, 4, 1, 2]);
    assert_eq!(cyclic_shift::<u8>(&vec![], 5), Vec::<u8>::new());
    let v = vec![10, 20, 30, 40, 50];
    assert_eq!(cyclic_shift(&cyclic_shift(&v, 2), 3), v);
}

#[test]
fn supplied_counts_must_match() {
    assert!(check_count("expert needs", 16, "inputs", 16).is_ok());
    assert_eq!(shape_msg(check_count("expert needs", 16, "inputs", 15)), "expert needs 16 inputs, got 15");
    assert_eq!(
        shape_msg(check_count("resonant step needs", 8, "drive values", 0)),
        "resonant step needs 8 drive values, got 0"
    );
}

#[test]
fn masks_must_cover_the_matrix() {
    assert!(check_mask_shape(2, 3, &[3, 3]).is_ok());
    assert_eq!(shape_msg(check_mask_shape(2, 3, &[3])), "mask has 1 rows, matrix has 2");
    assert_eq!(shape_msg(check_mask_shape(3, 3, &[3, 2, 4])), "mask row 1 has 2 cols, matrix has 3");
    assert!(check_mask_shape(0, 5, &[]).is_ok());
}
