use nd_tictactoe::board::{Board, Cell, IndexError, ShapeError};

#[test]
fn new_board_is_empty_with_size_pow_dimension_cells() {
    let b = Board::new(3, 2).unwrap();
    assert_eq!(b.cells.len(), 9);
    assert!(b.cells.iter().all(|c| *c == Cell::Empty));
    let b = Board::new(4, 3).unwrap();
    assert_eq!(b.cells.len(), 64);
    assert!(b.cells.iter().all(|c| *c == Cell::Empty));
    let b = Board::new(1, 5).unwrap();
    assert_eq!(b.cells.len(), 1);
}

#[test]
fn new_board_rejects_bad_shapes() {
    assert!(matches!(Board::new(0, 2), Err(ShapeError::ZeroSize)));
    assert!(matches!(Board::new(3, 0), Err(ShapeError::ZeroDimension)));
    assert!(matches!(Board::new(1 << 32, 3), Err(ShapeError::TooLarge)));
}

#[test]
fn index_of_is_mixed_radix() {
    let b = Board::new(3, 2).unwrap();
    assert_eq!(b.index_of(&[0, 0]), Ok(0));
    assert_eq!(b.index_of(&[1, 2]), Ok(7));
    assert_eq!(b.index_of(&[2, 2]), Ok(8));
    let b = Board::new(4, 3).unwrap();
    assert_eq!(b.index_of(&[1, 2, 3]), Ok(1 + 2 * 4 + 3 * 16));
}

#[test]
fn index_of_rejects_wrong_length() {
    let b = Board::new(3, 2).unwrap();
    assert_eq!(b.index_of(&[0, 0, 0]), Err(IndexError::DimensionMismatch));
    assert_eq!(b.index_of(&[0]), Err(IndexError::DimensionMismatch));
    assert_eq!(b.index_of(&[]), Err(IndexError::DimensionMismatch));
}

#[test]
fn index_of_rejects_out_of_range() {
    let b = Board::new(3, 2).unwrap();
    assert_eq!(b.index_of(&[3, 0]), Err(IndexError::OutOfRange));
    assert_eq!(b.index_of(&[0, 7]), Err(IndexError::OutOfRange));
    let b = Board::new(2, 4).unwrap();
    assert_eq!(b.index_of(&[1, 1, 2, 0]), Err(IndexError::OutOfRange));
    assert_eq!(b.index_of(&[9, 9, 9]), Err(IndexError::DimensionMismatch));
}

#[test]
fn index_of_is_a_bijection_on_a_cube() {
    let b = Board::new(3, 3).unwrap();
    let mut seen = vec![false; 27];
    for z in 0..3 {
        for y in 0..3 {
            for x in 0..3 {
                let i = b.index_of(&[x, y, z]).unwrap();
                assert!(i < 27);
                assert!(!seen[i]);
                seen[i] = true;
            }
        }
    }
    assert!(seen.iter().all(|s| *s));
}

#[test]
fn set_then_get_touches_one_cell() {
    let mut b = Board::new(3, 2).unwrap();
    assert_eq!(b.set(&[1, 2], Cell::X), Ok(()));
    assert_eq!(b.get(&[1, 2]), Ok(Cell::X));
    for y in 0..3 {
        for x in 0..3 {
            if (x, y) != (1, 2) {
                assert_eq!(b.get(&[x, y]), Ok(Cell::Empty));
            }
        }
    }
    assert_eq!(b.set(&[1, 2], Cell::O), Ok(()));
    assert_eq!(b.get(&[1, 2]), Ok(Cell::O));
}

#[test]
fn failed_set_leaves_board_unchanged() {
    let mut b = Board::new(3, 2).unwrap();
    assert_eq!(b.set(&[3, 0], Cell::X), Err(IndexError::OutOfRange));
    assert_eq!(b.set(&[0, 0, 0], Cell::X), Err(IndexError::DimensionMismatch));
    assert!(b.cells.iter().all(|c| *c == Cell::Empty));
    assert_eq!(b.get(&[0, 0, 1]), Err(IndexError::DimensionMismatch));
    assert_eq!(b.get(&[0, 5]), Err(IndexError::OutOfRange));
}
