//! The game-state machine: board plus turn tracking, the two per-player
//! "still-achievable lines" bitsets, and the terminal states. Win
//! detection is incremental: one move only inspects the lines passing
//! through the cell it filled.

use vstd::prelude::*;
use vstd::pervasive::unreached;
use crate::bits::{occ64, occ128, lemma_bit128_01, lemma_all69_bit, lemma_andnot128_bit,
    lemma_and128_bit, lemma_clear_after_set, lemma_cover_after_set, lemma_disjoint_no_shared_cover,
    ALL_LINES};
use crate::board::{Board, Column, Player, MoveError, bit_index, free_count,
    lemma_legal_in_possible_moves, lemma_possible_moves_legal};
use crate::lines::{LineTable, table_line, lemma_line_nonzero};

verus! {

/// The progress of a game: still running, drawn, or won by one player.
#[derive(Clone, Copy, PartialEq, Eq, Structural, Debug)]
pub enum State {
    InProgress,
    Draw,
    Win(Player),
}

impl State {
    /// Whether the game has reached a terminal state.
    pub open spec fn spec_is_over(self) -> bool {
        self != State::InProgress
    }

    pub fn is_over(&self) -> (r: bool)
        ensures
            r == self.spec_is_over(),
    {
        match self {
            State::InProgress => false,
            State::Draw => true,
            State::Win(_) => true,
        }
    }
}

/// Whether a mask holds every cell of a line.
pub open spec fn covers(mask: u64, line: u64) -> bool {
    mask & line == line
}

/// Whether a mask holds all four cells of some winning line.
pub open spec fn has_win(mask: u64) -> bool {
    exists|i: int| 0 <= i < 69 && covers(mask, table_line(i))
}

/// Whether no column has room left.
pub open spec fn board_full(b: Board) -> bool {
    forall|c: Column| !(#[trigger] b.spec_legal(c))
}

/// A board that is not full has at least one possible move.
pub proof fn lemma_not_full_has_move(b: Board)
    requires
        !board_full(b),
    ensures
        b.spec_possible_moves().len() >= 1,
{
    let c = choose|c: Column| b.spec_legal(c);
    lemma_legal_in_possible_moves(b, c);
}

/// A full game state: board, player to move, the two achievable-line
/// bitsets, and the terminal-state machine.
#[derive(Clone, Copy, PartialEq, Eq, Structural, Debug)]
pub struct GameState {
    pub board: Board,
    pub current_player: Player,
    pub possible_reds: u128,
    pub possible_yellows: u128,
    pub state: State,
}

impl GameState {
    /// The achievable-line bitset of one player.
    pub open spec fn spec_achievable(self, p: Player) -> u128 {
        match p {
            Player::Red => self.possible_reds,
            Player::Yellow => self.possible_yellows,
        }
    }

    /// The achievable-line bitset of `p` holds bit `i` exactly when
    /// line `i` carries no piece of the opponent.
    pub open spec fn achievable_ok(self, p: Player) -> bool {
        forall|i: int|
            0 <= i < 128 ==> (#[trigger] occ128(self.spec_achievable(p), i) <==> (i < 69
                && self.board.mask_of(p.spec_other()) & table_line(i) == 0))
    }

    /// Well-formedness: the board is well-formed, both achievable
    /// bitsets are exact, and the terminal state is faithful to the
    /// board — `InProgress` has no completed line and a free column,
    /// `Draw` has no completed line and no free column, and `Win(p)`
    /// has a line completed by `p`.
    pub open spec fn wf(self) -> bool {
        &&& self.board.wf()
        &&& self.achievable_ok(Player::Red)
        &&& self.achievable_ok(Player::Yellow)
        &&& match self.state {
            State::InProgress => !has_win(self.board.red) && !has_win(self.board.yellow)
                && !board_full(self.board),
            State::Draw => !has_win(self.board.red) && !has_win(self.board.yellow) && board_full(
                self.board,
            ),
            State::Win(p) => has_win(self.board.mask_of(p)),
        }
    }

    /// The legal columns of the current board, in canonical order.
    pub fn possible_moves(&self) -> (r: Vec<Column>)
        ensures
            r@ == self.board.spec_possible_moves(),
    {
        self.board.possible_moves()
    }

    /// The state one legal move leads to: the piece placed for the
    /// mover, the opponent's achievable lines pruned by the filled
    /// cell, the terminal state recomputed, and the turn switched.
    pub open spec fn spec_apply(self, t: LineTable, c: Column) -> GameState {
        let mover = self.current_player;
        let opp = mover.spec_other();
        let row = self.board.spec_drop_row(c);
        let k = bit_index(row, c.spec_index());
        let newmask = self.board.mask_of(mover) | (1u64 << (k as u64));
        let b2 = Board {
            red: if mover == Player::Red {
                newmask
            } else {
                self.board.red
            },
            yellow: if mover == Player::Yellow {
                newmask
            } else {
                self.board.yellow
            },
        };
        let pruned = self.spec_achievable(opp) & !t.cells@[k];
        let won = exists|i: int| 0 <= i < 69 && covers(newmask, table_line(i));
        GameState {
            board: b2,
            current_player: opp,
            possible_reds: if mover == Player::Yellow {
                pruned
            } else {
                self.possible_reds
            },
            possible_yellows: if mover == Player::Red {
                pruned
            } else {
                self.possible_yellows
            },
            state: if won {
                State::Win(mover)
            } else if board_full(b2) {
                State::Draw
            } else {
                State::InProgress
            },
        }
    }

    /// Applies one move of the current player: rejects a finished game
    /// as `IllegalState` and a full column as `InvalidMove`, leaving
    /// the state untouched; otherwise the state advances to
    /// `spec_apply` — in particular the mover wins exactly when the
    /// piece completes a still-achievable line.
    pub fn apply_move(&mut self, c: Column, t: &LineTable) -> (r: Result<(), MoveError>)
        requires
            old(self).wf(),
            t.wf(),
        ensures
            final(self).wf(),
            old(self).state.spec_is_over() ==> r == Err::<(), MoveError>(MoveError::IllegalState)
                && *final(self) == *old(self),
            !old(self).state.spec_is_over() && !old(self).board.spec_legal(c) ==> r == Err::<
                (),
                MoveError,
            >(MoveError::InvalidMove) && *final(self) == *old(self),
            !old(self).state.spec_is_over() && old(self).board.spec_legal(c) ==> r == Ok::<
                (),
                MoveError,
            >(()) && *final(self) == old(self).spec_apply(*t, c),
            r is Ok ==> free_count(final(self).board) + 1 == free_count(old(self).board),
    {
        if self.state.is_over() {
            return Err(MoveError::IllegalState);
        }
        if !self.board.is_possible(&c) {
            return Err(MoveError::InvalidMove);
        }
        let mover = self.current_player;
        let (b2, row) = match self.board.apply_move(c, mover) {
            Ok(p) => p,
            Err(_) => unreached(),
        };
        let ci = c.index();
        let k: usize = row as usize * 7 + ci as usize;
        let ghost kk = k as int;
        let ghost oldmask = self.board.mask_of(mover);
        let ghost newmask = b2.mask_of(mover);
        let ghost oppmask = self.board.mask_of(mover.spec_other());
        let cellmask: u128 = t.cells[k];
        // prune the opponent's achievable lines: the mover has just
        // blocked every line through the filled cell
        match mover {
            Player::Yellow => {
                self.possible_reds = self.possible_reds & !cellmask;
            },
            Player::Red => {
                self.possible_yellows = self.possible_yellows & !cellmask;
            },
        }
        self.board = b2;
        // check the mover's still-achievable lines through the cell
        let pmask: u64 = match mover {
            Player::Red => b2.red,
            Player::Yellow => b2.yellow,
        };
        let candidates: u128 = (match mover {
            Player::Red => self.possible_reds,
            Player::Yellow => self.possible_yellows,
        }) & cellmask;
        proof {
            assert(newmask == oldmask | (1u64 << (kk as u64)));
            assert(pmask == newmask);
            assert(forall|x: u64, y: u64| x & y == y & x) by (bit_vector);
        }
        let mut won = false;
        for i in 0..69usize
            invariant
                !won ==> forall|j: int|
                    0 <= j < i ==> !(#[trigger] occ128(candidates, j) && covers(
                        pmask,
                        table_line(j),
                    )),
                won ==> exists|j: int| 0 <= j < 69 && covers(pmask, table_line(j)),
                t.wf(),
                pmask == newmask,
        {
            proof {
                lemma_bit128_01(candidates, i as u128);
            }
            if (candidates >> (i as u128)) & 1u128 == 1u128 {
                let line = t.lines[i];
                if pmask & line == line {
                    proof {
                        assert(covers(pmask, table_line(i as int)));
                    }
                    won = true;
                }
            }
        }
        proof {
            // a completed line is always found by the incremental scan:
            // it is achievable (the opponent is disjoint from the mover)
            // and it passes through the new cell (it was not completed
            // before the move, the game being in progress)
            if !won && exists|i: int| 0 <= i < 69 && covers(newmask, table_line(i)) {
                let i = choose|i: int| 0 <= i < 69 && covers(newmask, table_line(i));
                lemma_line_nonzero(i);
                lemma_disjoint_no_shared_cover(oppmask, newmask, table_line(i));
                lemma_cover_after_set(oldmask, table_line(i), kk as u64);
                assert(!covers(oldmask, table_line(i)));
                assert(occ64(table_line(i), kk));
                assert(occ128(cellmask, i));
                assert(occ128(old(self).spec_achievable(mover), i));
                lemma_and128_bit(old(self).spec_achievable(mover), cellmask, i as u128);
                assert(occ128(candidates, i));
                assert(false);
            }
        }
        if won {
            self.state = State::Win(mover);
        } else {
            let moves = self.board.possible_moves();
            if moves.len() == 0 {
                proof {
                    if !board_full(b2) {
                        lemma_not_full_has_move(b2);
                    }
                }
                self.state = State::Draw;
            } else {
                proof {
                    lemma_possible_moves_legal(b2, 0);
                }
            }
        }
        self.current_player = mover.other();
        proof {
            lemma_apply_frame(*old(self), *self, *t, c, mover, kk);
        }
        Ok(())
    }
}

/// After a legal move the updated fields agree with `spec_apply`, and
/// the updated state is well-formed.
proof fn lemma_apply_frame(pre: GameState, post: GameState, t: LineTable, c: Column, mover: Player, kk: int)
    requires
        pre.wf(),
        t.wf(),
        pre.state == State::InProgress,
        pre.board.spec_legal(c),
        mover == pre.current_player,
        kk == bit_index(pre.board.spec_drop_row(c), c.spec_index()),
        0 <= kk < 42,
        post.board == pre.spec_apply(t, c).board,
        post.current_player == pre.spec_apply(t, c).current_player,
        post.possible_reds == pre.spec_apply(t, c).possible_reds,
        post.possible_yellows == pre.spec_apply(t, c).possible_yellows,
        post.state == pre.spec_apply(t, c).state,
        post.board.wf(),
    ensures
        post == pre.spec_apply(t, c),
        post.wf(),
{
    let res = pre.spec_apply(t, c);
    assert(post == res);
    let opp = mover.spec_other();
    let newmask = pre.board.mask_of(mover) | (1u64 << (kk as u64));
    let cellmask = t.cells@[kk];
    assert(opp.spec_other() == mover);
    // the mover's bitset is untouched and the opponent's mask is
    // untouched, so the mover's bitset stays exact
    assert forall|i: int|
        0 <= i < 128 implies (#[trigger] occ128(post.spec_achievable(mover), i) <==> (i < 69
        && post.board.mask_of(opp) & table_line(i) == 0)) by {
        assert(occ128(pre.spec_achievable(mover), i) <==> (i < 69 && pre.board.mask_of(opp)
            & table_line(i) == 0));
    }
    // the opponent's bitset was pruned by exactly the lines through the
    // new cell, which is exactly what the mover's new mask blocks
    assert forall|i: int|
        0 <= i < 128 implies (#[trigger] occ128(post.spec_achievable(opp), i) <==> (i < 69
        && post.board.mask_of(mover) & table_line(i) == 0)) by {
        lemma_andnot128_bit(pre.spec_achievable(opp), cellmask, i as u128);
        lemma_bit128_01(cellmask, i as u128);
        assert(occ128(pre.spec_achievable(opp), i) <==> (i < 69 && pre.board.mask_of(mover)
            & table_line(i) == 0));
        if 0 <= i < 69 {
            lemma_clear_after_set(pre.board.mask_of(mover), table_line(i), kk as u64);
            assert(occ128(cellmask, i) <==> occ64(table_line(i), kk));
        }
    }
    // the terminal state stays faithful to the board
    let won = exists|i: int| 0 <= i < 69 && covers(newmask, table_line(i));
    if won {
        assert(post.state == State::Win(mover));
        assert(has_win(post.board.mask_of(mover)));
    } else {
        assert(!has_win(post.board.mask_of(mover)));
        assert forall|i: int| 0 <= i < 69 implies !covers(post.board.mask_of(opp), table_line(i)) by {
            assert(!covers(pre.board.mask_of(opp), table_line(i)));
        }
        assert(!has_win(post.board.red) && !has_win(post.board.yellow)) by {
            assert(post.board.mask_of(mover) == if mover == Player::Red {
                post.board.red
            } else {
                post.board.yellow
            });
        }
    }
}

/// Over any sequence of legal placements the two occupancy masks never
/// intersect: the starting state is well-formed, `apply_move` preserves
/// well-formedness, and well-formedness pins the masks disjoint.
pub proof fn lemma_masks_never_intersect(s: GameState)
    requires
        s.wf(),
    ensures
        s.board.red & s.board.yellow == 0,
{
}

impl Default for GameState {
    /// The empty starting position: Yellow to move, every line still
    /// achievable for both players, game in progress.
    fn default() -> (r: GameState)
        ensures
            r.board.red == 0 && r.board.yellow == 0,
            r.current_player == Player::Yellow,
            r.state == State::InProgress,
            r.wf(),
    {
        let r = GameState {
            board: Board::default(),
            current_player: Player::Yellow,
            possible_reds: ALL_LINES,
            possible_yellows: ALL_LINES,
            state: State::InProgress,
        };
        proof {
            assert(forall|l: u64| 0u64 & l == 0u64) by (bit_vector);
            assert forall|i: int|
                0 <= i < 128 implies (#[trigger] occ128(ALL_LINES, i) <==> (i < 69 && 0u64
                & table_line(i) == 0)) by {
                lemma_all69_bit(i as u128);
                lemma_bit128_01(ALL_LINES, i as u128);
            }
            assert forall|i: int| 0 <= i < 69 implies !covers(0u64, table_line(i)) by {
                lemma_line_nonzero(i);
            }
            assert(0u64 | 0u64 == 0u64) by (bit_vector);
            assert(forall|j: u64| (0u64 >> j) & 1u64 == 0u64) by (bit_vector);
            assert(r.board.spec_legal(Column::A));
        }
        r
    }
}

} // verus!
