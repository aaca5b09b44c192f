use connect_four::board::{Board, Cell, Column, MoveError, Player};

fn all_columns() -> [Column; 7] {
    [
        Column::A,
        Column::B,
        Column::C,
        Column::D,
        Column::E,
        Column::F,
        Column::G,
    ]
}

#[test]
fn column_token_round_trip() {
    for c in all_columns() {
        let tok = c.token();
        assert_eq!(Column::from_token(tok), Ok(c));
    }
    assert_eq!(Column::A.token(), "A");
    assert_eq!(Column::G.token(), "G");
}

#[test]
fn column_parse_rejects_other_tokens() {
    for bad in ["", "H", "AA", "a", "1", " A", "A ", "Z", "ab"] {
        assert_eq!(Column::from_token(bad), Err(()));
    }
}

#[test]
fn column_index_round_trip() {
    for (i, c) in all_columns().iter().enumerate() {
        assert_eq!(c.index() as usize, i);
        assert_eq!(Column::from_index(i as u8), *c);
    }
}

#[test]
fn player_other_flips() {
    assert_eq!(Player::Red.other(), Player::Yellow);
    assert_eq!(Player::Yellow.other(), Player::Red);
}

#[test]
fn empty_board_cells_and_moves() {
    let b = Board::default();
    for r in 0..6u8 {
        for c in 0..7u8 {
            assert_eq!(b.cell(r, c), Cell::Empty);
        }
    }
    let moves = b.possible_moves();
    assert_eq!(moves, all_columns().to_vec());
}

#[test]
fn placement_fills_lowest_row_and_masks_stay_disjoint() {
    let b = Board::default();
    let (b1, r1) = b.apply_move(Column::D, Player::Red).unwrap();
    assert_eq!(r1, 0);
    assert_eq!(b1.cell(0, 3), Cell::Occupied(Player::Red));
    let (b2, r2) = b1.apply_move(Column::D, Player::Yellow).unwrap();
    assert_eq!(r2, 1);
    assert_eq!(b2.cell(0, 3), Cell::Occupied(Player::Red));
    assert_eq!(b2.cell(1, 3), Cell::Occupied(Player::Yellow));
    assert_eq!(b2.red & b2.yellow, 0);
}

#[test]
fn masks_never_intersect_over_many_placements() {
    let mut b = Board::default();
    let mut p = Player::Yellow;
    let seq = [0u8, 1, 2, 3, 4, 5, 6, 0, 1, 2, 3, 4, 5, 6, 6, 5, 4, 3, 2, 1, 0];
    for ci in seq {
        let c = Column::from_index(ci);
        let (nb, _row) = b.apply_move(c, p).unwrap();
        b = nb;
        assert_eq!(b.red & b.yellow, 0);
        p = p.other();
    }
}

#[test]
fn full_column_is_rejected_and_leaves_legal_moves() {
    let mut b = Board::default();
    let mut p = Player::Yellow;
    for _ in 0..6 {
        let (nb, _) = b.apply_move(Column::A, p).unwrap();
        b = nb;
        p = p.other();
    }
    // the column with six occupied rows is never offered
    assert!(!b.is_possible(&Column::A));
    assert_eq!(b.apply_move(Column::A, p), Err(MoveError::InvalidMove));
    let moves = b.possible_moves();
    assert!(!moves.contains(&Column::A));
    // every column with an empty cell is offered
    for c in [Column::B, Column::C, Column::D, Column::E, Column::F, Column::G] {
        assert!(moves.contains(&c));
    }
    assert_eq!(moves.len(), 6);
}
