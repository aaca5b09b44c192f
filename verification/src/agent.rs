//! The agent capability — produce a legal column for a game still in
//! progress — its uniform-random implementation used inside rollouts,
//! and the rollout itself.

use vstd::prelude::*;
use crate::board::{Column, MoveError, lemma_possible_moves_legal, lemma_legal_in_possible_moves,
    free_count};
use crate::state::{GameState, State, lemma_not_full_has_move};
use crate::lines::LineTable;
use crate::rng::{rng_from_seed, rng_below, entropy_seed};

verus! {

/// A move chooser: given a game still in progress, it produces a column
/// among the legal moves of the state.
pub trait Agent {
    /// The agent's own invariant, kept across calls.
    spec fn inv(&self) -> bool;

    fn next_move(&mut self, state: &GameState, t: &LineTable) -> (r: Column)
        requires
            old(self).inv(),
            state.wf(),
            t.wf(),
            !state.state.spec_is_over(),
        ensures
            final(self).inv(),
            state.board.spec_legal(r),
            state.board.spec_possible_moves().contains(r),
    ;
}

/// Chooses uniformly among the legal moves; the rollout policy.
pub struct RandomAgent {
    rng: rand::rngs::StdRng,
}

impl RandomAgent {
    /// A policy whose move stream is determined by the seed.
    pub fn new(seed: u64) -> RandomAgent {
        RandomAgent { rng: rng_from_seed(seed) }
    }

    /// A policy seeded from the thread-local generator.
    pub fn from_entropy() -> RandomAgent {
        RandomAgent { rng: rng_from_seed(entropy_seed()) }
    }
}

impl Agent for RandomAgent {
    open spec fn inv(&self) -> bool {
        true
    }

    fn next_move(&mut self, state: &GameState, t: &LineTable) -> (r: Column) {
        let moves = state.possible_moves();
        proof {
            lemma_not_full_has_move(state.board);
        }
        let i = rng_below(&mut self.rng, moves.len());
        let c = moves[i];
        proof {
            lemma_possible_moves_legal(state.board, i as int);
            lemma_legal_in_possible_moves(state.board, c);
        }
        c
    }
}

/// Whether `u` is reached from `s` by a play of at most `k` legal
/// moves, each made by the player to move in a game still in progress.
pub open spec fn play_reaches(t: LineTable, s: GameState, u: GameState, k: nat) -> bool
    decreases k,
{
    u == s || (k > 0 && s.state == State::InProgress && exists|c: Column|
        s.board.spec_legal(c) && play_reaches(t, s.spec_apply(t, c), u, (k - 1) as nat))
}

/// A play can be extended by one more legal move at its end.
pub proof fn lemma_play_reaches_step(t: LineTable, s: GameState, u: GameState, c: Column, k: nat)
    requires
        play_reaches(t, s, u, k),
        u.state == State::InProgress,
        u.board.spec_legal(c),
    ensures
        play_reaches(t, s, u.spec_apply(t, c), k + 1),
    decreases k,
{
    if u == s {
        assert(play_reaches(t, u.spec_apply(t, c), u.spec_apply(t, c), k));
    } else {
        let c0 = choose|c0: Column|
            s.board.spec_legal(c0) && play_reaches(t, s.spec_apply(t, c0), u, (k - 1) as nat);
        lemma_play_reaches_step(t, s.spec_apply(t, c0), u, c, (k - 1) as nat);
    }
}

/// Plays the agent's moves from `start` until the game ends, and
/// returns the terminal state reached (the start itself if already
/// over). Terminates: every move fills one of the empty cells.
pub fn simulate<T: Agent>(start: &GameState, agent: &mut T, t: &LineTable) -> (r: State)
    requires
        old(agent).inv(),
        start.wf(),
        t.wf(),
    ensures
        final(agent).inv(),
        r.spec_is_over(),
        start.state.spec_is_over() ==> r == start.state,
        exists|u: GameState, k: nat|
            #[trigger] play_reaches(*t, *start, u, k) && u.state == r && u.wf(),
{
    let mut s: GameState = *start;
    let ghost mut steps: nat = 0;
    while !s.state.is_over()
        invariant
            agent.inv(),
            s.wf(),
            t.wf(),
            play_reaches(*t, *start, s, steps),
        decreases free_count(s.board),
    {
        let c = agent.next_move(&s, t);
        let ghost s_pre = s;
        let res = s.apply_move(c, t);
        proof {
            assert(res == Ok::<(), MoveError>(()));
            lemma_play_reaches_step(*t, *start, s_pre, c, steps);
            steps = steps + 1;
        }
    }
    proof {
        assert(play_reaches(*t, *start, s, steps) && s.state == s.state && s.wf());
    }
    s.state
}

} // verus!
