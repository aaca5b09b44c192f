use connect_four::agent::{simulate, Agent, RandomAgent};
use connect_four::board::{Column, MoveError, Player};
use connect_four::lines::LineTable;
use connect_four::mcts::MctsAgent;
use connect_four::state::{GameState, State};
use connect_four::uct::{bit_length, isqrt};

fn col(ch: char) -> Column {
    let mut buf = [0u8; 4];
    Column::from_token(ch.encode_utf8(&mut buf)).unwrap()
}

fn play(s: &mut GameState, t: &LineTable, seq: &str) {
    for ch in seq.chars() {
        s.apply_move(col(ch), t).unwrap();
    }
}

#[test]
fn fixed_point_helpers_compute_exact_values() {
    assert_eq!(isqrt(0), 0);
    assert_eq!(isqrt(1), 1);
    assert_eq!(isqrt(48), 6);
    assert_eq!(isqrt(49), 7);
    assert_eq!(isqrt(1125899906842623), 33554431);
    assert_eq!(bit_length(0), 0);
    assert_eq!(bit_length(1), 1);
    assert_eq!(bit_length(255), 8);
    assert_eq!(bit_length(256), 9);
    assert_eq!(bit_length(u64::MAX), 64);
}

#[test]
fn random_agent_only_plays_legal_moves() {
    let t = LineTable::new();
    let mut agent = RandomAgent::new(11);
    let mut s = GameState::default();
    play(&mut s, &t, "AAAAAA");
    // column A is full: the agent must pick among the other six
    for _ in 0..50 {
        let c = agent.next_move(&s, &t);
        assert_ne!(c, Column::A);
        assert!(s.possible_moves().contains(&c));
    }
}

#[test]
fn rollouts_always_terminate() {
    let t = LineTable::new();
    let mut agent = RandomAgent::new(5);
    let s = GameState::default();
    for _ in 0..20 {
        let outcome = simulate(&s, &mut agent, &t);
        assert!(outcome.is_over());
    }
}

#[test]
fn decision_on_a_finished_game_is_an_illegal_state() {
    let t = LineTable::new();
    let mut s = GameState::default();
    play(&mut s, &t, "ABABABA");
    assert_eq!(s.state, State::Win(Player::Yellow));
    let mut agent = MctsAgent::with_seed(100, GameState::default(), 1);
    assert_eq!(s.state.is_over(), true);
    assert_eq!(agent.decide(&s), Err(MoveError::IllegalState));
}

#[test]
fn engine_finds_the_winning_move() {
    let t = LineTable::new();
    let mut s = GameState::default();
    // Yellow holds three pieces in column A and is to move
    play(&mut s, &t, "ABABAC");
    assert_eq!(s.state, State::InProgress);
    assert_eq!(s.current_player, Player::Yellow);
    let mut agent = MctsAgent::with_seed(3000, s, 42);
    let chosen = agent.decide(&s).unwrap();
    assert_eq!(chosen, Column::A);
}

#[test]
fn same_seed_gives_the_same_decision() {
    let s = GameState::default();
    let mut a = MctsAgent::with_seed(800, s, 9);
    let mut b = MctsAgent::with_seed(800, s, 9);
    assert_eq!(a.decide(&s).unwrap(), b.decide(&s).unwrap());
}

#[test]
fn tree_reuse_keeps_the_matching_child_statistics() {
    let t = LineTable::new();
    let mut s = GameState::default();
    let mut agent = MctsAgent::with_seed(600, s, 3);
    let m1 = agent.decide(&s).unwrap();
    s.apply_move(m1, &t).unwrap();
    // the engine pre-advanced its root to the child holding `s`
    assert_eq!(agent.root_state(), s);
    // the opponent replies with some legal move the engine explored
    let reply = s.possible_moves()[0];
    let prior = agent
        .root_child_stats()
        .into_iter()
        .find(|&(c, _, _)| c == reply)
        .map(|(_, v, _)| v)
        .unwrap();
    assert!(prior > 0, "the explored child must have been visited");
    s.apply_move(reply, &t).unwrap();
    agent.reroot(&s);
    // the matching child became the root with its visit count intact
    assert_eq!(agent.root_state(), s);
    assert_eq!(agent.root_visits(), prior);
}

#[test]
fn root_visits_cover_children_visits() {
    let t = LineTable::new();
    let mut s = GameState::default();
    let mut agent = MctsAgent::with_seed(500, s, 21);
    let m = agent.decide(&s).unwrap();
    s.apply_move(m, &t).unwrap();
    // the root advanced to the chosen child: its visit count covers
    // the visits accumulated by its own children
    let total: u64 = agent.root_child_stats().iter().map(|&(_, v, _)| v).sum();
    assert!(agent.root_visits() >= total);
}

#[test]
fn a_decision_is_always_a_legal_move() {
    let t = LineTable::new();
    let mut s = GameState::default();
    play(&mut s, &t, "AAAAAA");
    let mut agent = MctsAgent::with_seed(200, s, 17);
    let c = agent.decide(&s).unwrap();
    assert_ne!(c, Column::A);
    assert!(s.possible_moves().contains(&c));
}
