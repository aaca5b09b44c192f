use connect_four::board::{Column, MoveError, Player};
use connect_four::lines::LineTable;
use connect_four::state::{GameState, State};

fn col(ch: char) -> Column {
    let mut buf = [0u8; 4];
    Column::from_token(ch.encode_utf8(&mut buf)).unwrap()
}

fn play(s: &mut GameState, t: &LineTable, seq: &str) {
    for ch in seq.chars() {
        s.apply_move(col(ch), t).unwrap();
    }
}

#[test]
fn line_table_has_69_lines_of_4_cells_in_one_direction() {
    let t = LineTable::new();
    assert_eq!(t.lines.len(), 69);
    for &m in &t.lines {
        assert_eq!(m.count_ones(), 4);
        // the four cells are contiguous in one of the four directions
        let k = m.trailing_zeros() as u64;
        let found = [1u64, 6, 7, 8].iter().any(|&s| {
            k + 3 * s < 42 && m == (1 << k) | (1 << (k + s)) | (1 << (k + 2 * s)) | (1 << (k + 3 * s))
        });
        assert!(found);
    }
}

#[test]
fn line_table_cell_index_matches_lines() {
    let t = LineTable::new();
    assert_eq!(t.cells.len(), 42);
    for k in 0..42usize {
        for i in 0..69usize {
            let through = t.lines[i] & (1u64 << k) != 0;
            let marked = t.cells[k] & (1u128 << i) != 0;
            assert_eq!(through, marked);
        }
    }
}

#[test]
fn at_most_13_lines_pass_through_any_cell() {
    let t = LineTable::new();
    for k in 0..42usize {
        assert!(t.cells[k].count_ones() <= 13);
    }
    // a central cell reaches the maximum
    assert_eq!(t.cells[3 * 7 + 3].count_ones(), 13);
}

#[test]
fn default_state_is_fresh() {
    let s = GameState::default();
    assert_eq!(s.current_player, Player::Yellow);
    assert_eq!(s.state, State::InProgress);
    assert_eq!(s.board.red, 0);
    assert_eq!(s.board.yellow, 0);
    assert_eq!(s.possible_reds, (1u128 << 69) - 1);
    assert_eq!(s.possible_yellows, (1u128 << 69) - 1);
    assert!(!s.state.is_over());
}

#[test]
fn four_in_the_bottom_row_wins_immediately() {
    let t = LineTable::new();
    let mut s = GameState::default();
    // Yellow plays high columns; Red builds A-D along row 0
    for (mv, expect) in [
        ("EA", State::InProgress),
        ("EB", State::InProgress),
        ("FC", State::InProgress),
        ("GD", State::Win(Player::Red)),
    ] {
        play(&mut s, &t, mv);
        assert_eq!(s.state, expect);
    }
}

#[test]
fn win_stops_further_moves() {
    let t = LineTable::new();
    let mut s = GameState::default();
    play(&mut s, &t, "EAEBFCGD");
    assert_eq!(s.state, State::Win(Player::Red));
    assert!(s.state.is_over());
    let frozen = s;
    assert_eq!(s.apply_move(Column::A, &t), Err(MoveError::IllegalState));
    assert_eq!(s, frozen);
}

#[test]
fn full_column_is_an_invalid_move() {
    let t = LineTable::new();
    let mut s = GameState::default();
    play(&mut s, &t, "AAAAAA");
    assert_eq!(s.state, State::InProgress);
    let frozen = s;
    assert_eq!(s.apply_move(Column::A, &t), Err(MoveError::InvalidMove));
    assert_eq!(s, frozen);
    assert!(!s.possible_moves().contains(&Column::A));
}

#[test]
fn vertical_horizontal_and_diagonal_wins_are_detected() {
    let t = LineTable::new();
    // vertical: Yellow stacks column A
    let mut s = GameState::default();
    play(&mut s, &t, "ABABABA");
    assert_eq!(s.state, State::Win(Player::Yellow));
    // diagonal-up: Yellow at (0,A),(1,B),(2,C),(3,D)
    let mut d = GameState::default();
    play(&mut d, &t, "ABBCCDCDDGD");
    assert_eq!(d.state, State::Win(Player::Yellow));
}

#[test]
fn filling_the_board_without_a_line_is_a_draw() {
    let t = LineTable::new();
    let mut s = GameState::default();
    let seq = "ACACAABABABBDBDBDCCDCDCDEFEFEEGEGEGFFGFGFG";
    for (i, ch) in seq.chars().enumerate() {
        assert_eq!(s.state, State::InProgress, "terminal before move {}", i);
        s.apply_move(col(ch), &t).unwrap();
    }
    assert_eq!(s.state, State::Draw);
    assert!(s.possible_moves().is_empty());
    assert_eq!(s.apply_move(Column::A, &t), Err(MoveError::IllegalState));
}

#[test]
fn achievable_lines_shrink_as_the_opponent_blocks() {
    let t = LineTable::new();
    let mut s = GameState::default();
    // Yellow's first piece blocks every red line through that cell
    s.apply_move(Column::D, &t).unwrap();
    let blocked = t.cells[3];
    assert_eq!(s.possible_reds, ((1u128 << 69) - 1) & !blocked);
    assert_eq!(s.possible_yellows, (1u128 << 69) - 1);
}
