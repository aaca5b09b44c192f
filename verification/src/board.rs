//! The 6×7 bitboard: two disjoint 64-bit occupancy masks (bit index
//! `row * 7 + column`), legality checks, and gravity-respecting placement.

use vstd::prelude::*;
use crate::bits::{occ64, lemma_bit64_01, lemma_disjoint_after_set, lemma_range_after_set,
    lemma_set64_get};

verus! {

pub const ROWS: u64 = 6;

pub const COLS: u64 = 7;

/// One of the seven columns, leftmost to rightmost.
#[derive(Clone, Copy, PartialEq, Eq, Structural, Debug)]
pub enum Column {
    A,
    B,
    C,
    D,
    E,
    F,
    G,
}

/// One of the two players.
#[derive(Clone, Copy, PartialEq, Eq, Structural, Debug)]
pub enum Player {
    Red,
    Yellow,
}

/// A read-only view of one board cell.
#[derive(Clone, Copy, PartialEq, Eq, Structural, Debug)]
pub enum Cell {
    Empty,
    Occupied(Player),
}

/// The two contract violations the engine reports instead of panicking:
/// a placement into a full column, and a decision request on a finished game.
#[derive(Clone, Copy, PartialEq, Eq, Structural, Debug)]
pub enum MoveError {
    InvalidMove,
    IllegalState,
}

/// The column at position `i` of the canonical (left-to-right) order.
pub open spec fn spec_column_of(i: int) -> Column {
    if i == 0 {
        Column::A
    } else if i == 1 {
        Column::B
    } else if i == 2 {
        Column::C
    } else if i == 3 {
        Column::D
    } else if i == 4 {
        Column::E
    } else if i == 5 {
        Column::F
    } else {
        Column::G
    }
}

/// The canonical column order, as a sequence.
pub open spec fn all_columns_seq() -> Seq<Column> {
    Seq::new(7, |i: int| spec_column_of(i))
}

impl Column {
    /// The position of this column in the canonical order.
    pub open spec fn spec_index(self) -> int {
        match self {
            Column::A => 0,
            Column::B => 1,
            Column::C => 2,
            Column::D => 3,
            Column::E => 4,
            Column::F => 5,
            Column::G => 6,
        }
    }

    /// The single-letter token of this column.
    pub open spec fn spec_token(self) -> Seq<char> {
        match self {
            Column::A => seq!['A'],
            Column::B => seq!['B'],
            Column::C => seq!['C'],
            Column::D => seq!['D'],
            Column::E => seq!['E'],
            Column::F => seq!['F'],
            Column::G => seq!['G'],
        }
    }

    pub fn index(self) -> (r: u8)
        ensures
            r as int == self.spec_index(),
            r < 7,
    {
        match self {
            Column::A => 0,
            Column::B => 1,
            Column::C => 2,
            Column::D => 3,
            Column::E => 4,
            Column::F => 5,
            Column::G => 6,
        }
    }

    pub fn from_index(i: u8) -> (r: Column)
        requires
            i < 7,
        ensures
            r == spec_column_of(i as int),
    {
        if i == 0 {
            Column::A
        } else if i == 1 {
            Column::B
        } else if i == 2 {
            Column::C
        } else if i == 3 {
            Column::D
        } else if i == 4 {
            Column::E
        } else if i == 5 {
            Column::F
        } else {
            Column::G
        }
    }

    /// What a single-letter token parses to: one of `A`..`G`, or a
    /// rejection for every other string.
    pub open spec fn spec_parse(s: Seq<char>) -> Result<Column, ()> {
        if s =~= seq!['A'] {
            Ok(Column::A)
        } else if s =~= seq!['B'] {
            Ok(Column::B)
        } else if s =~= seq!['C'] {
            Ok(Column::C)
        } else if s =~= seq!['D'] {
            Ok(Column::D)
        } else if s =~= seq!['E'] {
            Ok(Column::E)
        } else if s =~= seq!['F'] {
            Ok(Column::F)
        } else if s =~= seq!['G'] {
            Ok(Column::G)
        } else {
            Err(())
        }
    }

    /// Parses a single-letter column token; every other token is rejected.
    pub fn from_token(s: &str) -> (r: Result<Column, ()>)
        ensures
            r == Self::spec_parse(s@),
    {
        if s.unicode_len() == 1 {
            let ch = s.get_char(0);
            proof {
                assert(s@ =~= seq![s@[0]]);
            }
            if ch == 'A' {
                Ok(Column::A)
            } else if ch == 'B' {
                Ok(Column::B)
            } else if ch == 'C' {
                Ok(Column::C)
            } else if ch == 'D' {
                Ok(Column::D)
            } else if ch == 'E' {
                Ok(Column::E)
            } else if ch == 'F' {
                Ok(Column::F)
            } else if ch == 'G' {
                Ok(Column::G)
            } else {
                Err(())
            }
        } else {
            Err(())
        }
    }

    /// The single-letter token of this column, `"A"`..`"G"`.
    pub fn token(self) -> (r: &'static str)
        ensures
            r@ == self.spec_token(),
    {
        proof {
            reveal_strlit("A");
            reveal_strlit("B");
            reveal_strlit("C");
            reveal_strlit("D");
            reveal_strlit("E");
            reveal_strlit("F");
            reveal_strlit("G");
        }
        match self {
            Column::A => "A",
            Column::B => "B",
            Column::C => "C",
            Column::D => "D",
            Column::E => "E",
            Column::F => "F",
            Column::G => "G",
        }
    }

    /// Every column in canonical order.
    pub fn all() -> (r: Vec<Column>)
        ensures
            r@ == all_columns_seq(),
    {
        let v = vec![
            Column::A,
            Column::B,
            Column::C,
            Column::D,
            Column::E,
            Column::F,
            Column::G,
        ];
        proof {
            assert(v@ =~= all_columns_seq());
        }
        v
    }
}

/// Parsing a column's own token gives the column back, and a token is
/// only ever parsed to the column it belongs to.
pub proof fn lemma_column_token_round_trip(c: Column, s: Seq<char>)
    ensures
        Column::spec_parse(c.spec_token()) == Ok::<Column, ()>(c),
        Column::spec_parse(s) == Ok::<Column, ()>(c) ==> s =~= c.spec_token(),
{
    assert(seq!['A'][0] == 'A' && seq!['B'][0] == 'B' && seq!['C'][0] == 'C' && seq!['D'][0] == 'D'
        && seq!['E'][0] == 'E' && seq!['F'][0] == 'F' && seq!['G'][0] == 'G');
    assert(seq!['A'].len() == 1 && seq!['B'].len() == 1 && seq!['C'].len() == 1 && seq!['D'].len()
        == 1 && seq!['E'].len() == 1 && seq!['F'].len() == 1 && seq!['G'].len() == 1);
}

impl Player {
    /// The other player.
    pub open spec fn spec_other(self) -> Player {
        match self {
            Player::Red => Player::Yellow,
            Player::Yellow => Player::Red,
        }
    }

    /// The total "other player" flip.
    pub fn other(self) -> (r: Player)
        ensures
            r == self.spec_other(),
    {
        match self {
            Player::Red => Player::Yellow,
            Player::Yellow => Player::Red,
        }
    }
}

/// The 6×7 board as one occupancy mask per player.
#[derive(Clone, Copy, PartialEq, Eq, Structural, Debug)]
pub struct Board {
    pub red: u64,
    pub yellow: u64,
}

/// The bit index of the cell at `row`, `col`.
pub open spec fn bit_index(row: int, col: int) -> int {
    row * 7 + col
}

impl Board {
    /// The occupancy mask of one player.
    pub open spec fn mask_of(self, p: Player) -> u64 {
        match p {
            Player::Red => self.red,
            Player::Yellow => self.yellow,
        }
    }

    /// The union of both occupancy masks.
    pub open spec fn both(self) -> u64 {
        self.red | self.yellow
    }

    /// Whether the cell at `row`, `col` holds a piece of player `p`.
    pub open spec fn occupied_by(self, p: Player, row: int, col: int) -> bool {
        occ64(self.mask_of(p), bit_index(row, col))
    }

    /// Whether the cell at `row`, `col` holds any piece.
    pub open spec fn occupied(self, row: int, col: int) -> bool {
        occ64(self.both(), bit_index(row, col))
    }

    /// The cell at `row`, `col`, as a read-only view.
    pub open spec fn spec_cell(self, row: int, col: int) -> Cell {
        if self.occupied_by(Player::Red, row, col) {
            Cell::Occupied(Player::Red)
        } else if self.occupied_by(Player::Yellow, row, col) {
            Cell::Occupied(Player::Yellow)
        } else {
            Cell::Empty
        }
    }

    /// Well-formedness: the two masks are disjoint, no bit lies outside
    /// the 42 cells, and each column's pieces form a contiguous run
    /// starting at row 0 (gravity).
    pub open spec fn wf(self) -> bool {
        &&& self.red & self.yellow == 0
        &&& self.both() >> 42 == 0
        &&& forall|row: int, col: int|
            0 <= row < 5 && 0 <= col < 7 && self.occupied(row + 1, col) ==> #[trigger] self.occupied(
                row,
                col,
            )
    }

    /// A column is legal exactly when its topmost cell is empty.
    pub open spec fn spec_legal(self, c: Column) -> bool {
        !self.occupied(5, c.spec_index())
    }

    /// The legal columns, in canonical order.
    pub open spec fn spec_possible_moves(self) -> Seq<Column> {
        all_columns_seq().filter(|c: Column| self.spec_legal(c))
    }

    /// The lowest empty row of a column, scanning from `row` up; 6 when
    /// every row from `row` on is occupied.
    pub open spec fn first_free_row(self, col: int, row: int) -> int
        decreases 6 - row,
    {
        if row >= 6 {
            6
        } else if !self.occupied(row, col) {
            row
        } else {
            self.first_free_row(col, row + 1)
        }
    }

    /// The row a piece dropped into column `c` comes to rest in.
    pub open spec fn spec_drop_row(self, c: Column) -> int {
        self.first_free_row(c.spec_index(), 0)
    }

    pub fn default() -> (r: Board)
        ensures
            r.red == 0,
            r.yellow == 0,
            r.wf(),
    {
        let r = Board { red: 0, yellow: 0 };
        proof {
            assert(0u64 | 0u64 == 0u64) by (bit_vector);
            assert(0u64 & 0u64 == 0u64) by (bit_vector);
            assert(forall|k: u64| (0u64 >> k) & 1u64 == 0u64) by (bit_vector);
            assert(0u64 >> 42 == 0u64) by (bit_vector);
        }
        r
    }

    /// The cell at `row`, `col`.
    pub fn cell(&self, row: u8, col: u8) -> (r: Cell)
        requires
            row < 6,
            col < 7,
        ensures
            r == self.spec_cell(row as int, col as int),
    {
        let k: u64 = row as u64 * 7 + col as u64;
        if (self.red >> k) & 1u64 == 1u64 {
            Cell::Occupied(Player::Red)
        } else if (self.yellow >> k) & 1u64 == 1u64 {
            Cell::Occupied(Player::Yellow)
        } else {
            Cell::Empty
        }
    }

    /// Whether the topmost cell of column `c` is empty.
    pub fn is_possible(&self, c: &Column) -> (r: bool)
        ensures
            r == self.spec_legal(*c),
    {
        let k: u64 = 35 + c.index() as u64;
        proof {
            lemma_bit64_01(self.both(), k);
        }
        ((self.red | self.yellow) >> k) & 1u64 == 0u64
    }

    /// The legal columns in canonical order; empty exactly when the
    /// board is full.
    pub fn possible_moves(&self) -> (r: Vec<Column>)
        ensures
            r@ == self.spec_possible_moves(),
    {
        let mut v: Vec<Column> = Vec::new();
        proof {
            reveal(Seq::filter);
            assert(v@ =~= all_columns_seq().take(0).filter(|c: Column| self.spec_legal(c)));
        }
        for i in 0..7u8
            invariant
                v@ == all_columns_seq().take(i as int).filter(|c: Column| self.spec_legal(c)),
        {
            let c = Column::from_index(i);
            let ghost prev = all_columns_seq().take(i as int);
            proof {
                reveal(Seq::filter);
                assert(all_columns_seq().take(i as int + 1) =~= prev.push(c));
                assert(prev.push(c).drop_last() =~= prev);
            }
            if self.is_possible(&c) {
                v.push(c);
            }
        }
        proof {
            assert(all_columns_seq().take(7) =~= all_columns_seq());
        }
        v
    }

    /// Drops a piece of player `p` into column `c`: the piece lands in
    /// the lowest empty row. A full column is reported as `InvalidMove`
    /// and changes nothing.
    pub fn apply_move(&self, c: Column, p: Player) -> (res: Result<(Board, u8), MoveError>)
        requires
            self.wf(),
        ensures
            res is Ok <==> self.spec_legal(c),
            res is Err ==> res == Err::<(Board, u8), MoveError>(MoveError::InvalidMove),
            res matches Ok((b, row)) ==> {
                &&& row as int == self.spec_drop_row(c)
                &&& row < 6
                &&& !self.occupied(row as int, c.spec_index())
                &&& b.mask_of(p) == self.mask_of(p) | (1u64 << ((row as u64) * 7 + (
                    c.spec_index() as u64)))
                &&& b.mask_of(p.spec_other()) == self.mask_of(p.spec_other())
                &&& b.wf()
                &&& free_count(b) + 1 == free_count(*self)
            },
    {
        let ci: u64 = c.index() as u64;
        let both = self.red | self.yellow;
        for r in 0..6u64
            invariant
                self.wf(),
                both == self.both(),
                ci == c.spec_index(),
                forall|rr: int| 0 <= rr < r ==> self.occupied(rr, ci as int),
                self.first_free_row(ci as int, 0) == self.first_free_row(ci as int, r as int),
        {
            let k: u64 = r * 7 + ci;
            proof {
                lemma_bit64_01(both, k);
            }
            if (both >> k) & 1u64 == 0u64 {
                let b = match p {
                    Player::Red => Board { red: self.red | (1u64 << k), yellow: self.yellow },
                    Player::Yellow => Board { red: self.red, yellow: self.yellow | (1u64 << k) },
                };
                proof {
                    self.lemma_place_wf(b, p, r as int, ci as int);
                    assert(self.first_free_row(ci as int, r as int) == r);
                    self.lemma_free_above(ci as int, r as int);
                    lemma_free_upto_after_set(*self, b, k as int, 42);
                }
                return Ok((b, r as u8));
            }
        }
        proof {
            assert(self.occupied(5, ci as int));
        }
        Err(MoveError::InvalidMove)
    }

    /// On a well-formed board an occupied cell sits on an occupied run:
    /// every cell below it in the column is occupied too.
    pub proof fn lemma_occupied_down(self, col: int, r1: int, r2: int)
        requires
            self.wf(),
            0 <= col < 7,
            0 <= r1 <= r2 < 6,
            self.occupied(r2, col),
        ensures
            self.occupied(r1, col),
        decreases r2 - r1,
    {
        if r1 < r2 {
            assert(self.occupied(r2 - 1, col));
            self.lemma_occupied_down(col, r1, r2 - 1);
        }
    }

    /// From an empty cell anywhere in a column, gravity gives an empty
    /// cell at the top.
    pub proof fn lemma_free_above(self, col: int, row: int)
        requires
            self.wf(),
            0 <= col < 7,
            0 <= row < 6,
            !self.occupied(row, col),
        ensures
            !self.occupied(5, col),
    {
        if self.occupied(5, col) {
            self.lemma_occupied_down(col, row, 5);
        }
    }

    /// Placing one piece in the lowest empty row preserves the board's
    /// well-formedness, and in particular the two masks stay disjoint.
    proof fn lemma_place_wf(self, b: Board, p: Player, row: int, col: int)
        requires
            self.wf(),
            0 <= row < 6,
            0 <= col < 7,
            !self.occupied(row, col),
            forall|rr: int| 0 <= rr < row ==> self.occupied(rr, col),
            b.mask_of(p) == self.mask_of(p) | (1u64 << ((row * 7 + col) as u64)),
            b.mask_of(p.spec_other()) == self.mask_of(p.spec_other()),
        ensures
            b.wf(),
            forall|k: int|
                0 <= k < 64 ==> (occ64(b.both(), k) <==> (occ64(self.both(), k) || k == row * 7
                    + col)),
    {
        let k = (row * 7 + col) as u64;
        assert(k < 42);
        assert(forall|x: u64, y: u64| x & y == y & x && x | y == y | x) by (bit_vector);
        lemma_bit64_01(self.both(), k);
        lemma_disjoint_after_set(self.mask_of(p), self.mask_of(p.spec_other()), k);
        assert(b.red & b.yellow == 0);
        assert(b.both() == self.both() | (1u64 << k)) by {
            assert(forall|x: u64, y: u64, m: u64|
                ((x | m) | y == (x | y) | m) && (x | (y | m) == (x | y) | m)) by (bit_vector);
        }
        lemma_range_after_set(self.red, self.yellow, k);
        assert(b.both() >> 42 == 0) by {
            assert(forall|x: u64, y: u64, m: u64| (x | y) | m == (x | m) | y) by (bit_vector);
        }
        assert forall|j: int|
            0 <= j < 64 implies (occ64(b.both(), j) <==> (occ64(self.both(), j) || j == row * 7
            + col)) by {
            lemma_set64_get(self.both(), k, j as u64);
            lemma_bit64_01(self.both(), j as u64);
        }
        assert forall|r2: int, c2: int|
            0 <= r2 < 5 && 0 <= c2 < 7 && b.occupied(r2 + 1, c2) implies #[trigger] b.occupied(
            r2,
            c2,
        ) by {
            let k2 = bit_index(r2 + 1, c2);
            let k3 = bit_index(r2, c2);
            assert(0 <= k2 < 64 && 0 <= k3 < 64);
            if k2 == row * 7 + col {
                assert(r2 + 1 == row && c2 == col) by {
                    assert(r2 * 7 + 7 + c2 == row * 7 + col && 0 <= c2 < 7 && 0 <= col < 7 ==> r2
                        + 1 == row && c2 == col) by (nonlinear_arith);
                }
                assert(self.occupied(r2, c2));
            } else {
                if !occ64(self.both(), k2) {
                    assert(false);
                }
                assert(self.occupied(r2, c2));
                if k3 == row * 7 + col {
                    assert(r2 == row && c2 == col) by {
                        assert(r2 * 7 + c2 == row * 7 + col && 0 <= c2 < 7 && 0 <= col < 7 ==> r2
                            == row && c2 == col) by (nonlinear_arith);
                    }
                    assert(false);
                }
            }
        }
    }
}

/// Whether the cell with bit index `k` is empty.
pub open spec fn free_at(b: Board, k: int) -> bool {
    !occ64(b.both(), k)
}

/// How many of the cells with bit index below `n` are empty.
pub open spec fn free_upto(b: Board, n: int) -> nat
    decreases n,
{
    if n <= 0 {
        0
    } else {
        free_upto(b, n - 1) + if free_at(b, n - 1) {
            1nat
        } else {
            0nat
        }
    }
}

/// How many of the 42 cells are empty.
pub open spec fn free_count(b: Board) -> nat {
    free_upto(b, 42)
}

/// Occupying one empty cell lowers the count of empty cells by one.
pub proof fn lemma_free_upto_after_set(b: Board, b2: Board, k: int, n: int)
    requires
        0 <= k < 42,
        n <= 64,
        free_at(b, k),
        !free_at(b2, k),
        forall|j: int| 0 <= j < 64 && j != k ==> (free_at(b, j) <==> free_at(b2, j)),
    ensures
        n <= k ==> free_upto(b2, n) == free_upto(b, n),
        n > k ==> free_upto(b2, n) + 1 == free_upto(b, n),
    decreases
            if n > 0 {
                n
            } else {
                0
            },
{
    if n > 0 {
        lemma_free_upto_after_set(b, b2, k, n - 1);
    }
}

/// A column never enters the legal moves with all six rows occupied,
/// and always enters them with an empty row.
pub proof fn lemma_possible_moves_occupancy(b: Board, c: Column)
    requires
        b.wf(),
    ensures
        b.spec_possible_moves().contains(c) <==> exists|r: int|
            0 <= r < 6 && !b.occupied(r, c.spec_index()),
{
    let pred = |cc: Column| b.spec_legal(cc);
    let all = all_columns_seq();
    assert(all[c.spec_index()] == c);
    if b.spec_legal(c) {
        all.lemma_filter_contains(pred, c.spec_index());
        assert(!b.occupied(5, c.spec_index()));
    }
    if b.spec_possible_moves().contains(c) {
        let i = choose|i: int| 0 <= i < all.filter(pred).len() && all.filter(pred)[i] == c;
        all.lemma_filter_pred(pred, i);
        assert(!b.occupied(5, c.spec_index()));
    }
    if exists|r: int| 0 <= r < 6 && !b.occupied(r, c.spec_index()) {
        let r = choose|r: int| 0 <= r < 6 && !b.occupied(r, c.spec_index());
        b.lemma_free_above(c.spec_index(), r);
        all.lemma_filter_contains(pred, c.spec_index());
    }
}

/// A legal column is among the possible moves.
pub proof fn lemma_legal_in_possible_moves(b: Board, c: Column)
    requires
        b.spec_legal(c),
    ensures
        b.spec_possible_moves().contains(c),
        b.spec_possible_moves().len() >= 1,
{
    let pred = |cc: Column| b.spec_legal(cc);
    let all = all_columns_seq();
    assert(all[c.spec_index()] == c);
    all.lemma_filter_contains(pred, c.spec_index());
}

/// Every possible move is legal.
pub proof fn lemma_possible_moves_legal(b: Board, i: int)
    requires
        0 <= i < b.spec_possible_moves().len(),
    ensures
        b.spec_legal(b.spec_possible_moves()[i]),
{
    all_columns_seq().lemma_filter_pred(|cc: Column| b.spec_legal(cc), i);
}

} // verus!
