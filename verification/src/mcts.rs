//! The Monte Carlo tree search engine: an arena of nodes addressed by
//! indices, lazy expansion, random rollouts, negamax backpropagation
//! over the recorded selection path, and cross-move tree reuse.

use vstd::prelude::*;
use crate::board::{Column, MoveError, lemma_possible_moves_legal};
use crate::state::{GameState, State, lemma_not_full_has_move};
use crate::lines::LineTable;
use crate::uct::{uct_key, uct_key_exec, UNVISITED_KEY, VISIT_CAP};
use crate::agent::{Agent, RandomAgent, simulate};

verus! {

/// One search-tree node: a state snapshot, its visit count, its
/// accumulated negamax score, and its children (one per legal move,
/// present only after expansion) as arena indices.
pub struct Node {
    pub state: GameState,
    pub visits: u64,
    pub score: i64,
    pub children: Vec<(Column, usize)>,
}

/// The statistics bounds every node keeps: the accumulated score never
/// exceeds the visit count in magnitude, and visits stay below the cap.
pub open spec fn node_stats_ok(n: Node) -> bool {
    &&& -(n.visits as int) <= n.score as int <= n.visits as int
    &&& n.visits <= VISIT_CAP
}

/// Well-formedness of node `i` within the arena: its state is valid,
/// its statistics are bounded, and when expanded its children are
/// exactly the legal moves, each pointing further down the arena at the
/// state that move leads to.
pub open spec fn node_wf(a: Seq<Node>, i: int, t: LineTable) -> bool {
    let n = a[i];
    &&& n.state.wf()
    &&& node_stats_ok(n)
    &&& n.children@.len() > 0 ==> {
        &&& n.state.state == State::InProgress
        &&& n.children@.map_values(|p: (Column, usize)| p.0) == n.state.board.spec_possible_moves()
        &&& forall|j: int|
            0 <= j < n.children@.len() ==> i < (#[trigger] n.children@[j]).1 as int
                && (n.children@[j].1 as int) < a.len()
                && a[n.children@[j].1 as int].state == n.state.spec_apply(t, n.children@[j].0)
    }
}

/// Every node of the arena is well-formed.
pub open spec fn nodes_ok(a: Seq<Node>, t: LineTable) -> bool {
    forall|i: int| 0 <= i < a.len() ==> node_wf(a, i, t)
}

/// The search tree: an arena of nodes and the index of the root.
pub struct SearchTree {
    pub arena: Vec<Node>,
    pub root: usize,
}

impl SearchTree {
    /// The node the root index points at.
    pub open spec fn root_node(self) -> Node {
        self.arena@[self.root as int]
    }

    /// The node a root child points at.
    pub open spec fn child_of_root(self, j: int) -> Node {
        self.arena@[self.root_node().children@[j].1 as int]
    }

    pub open spec fn wf(self, t: LineTable) -> bool {
        &&& (self.root as int) < self.arena@.len()
        &&& nodes_ok(self.arena@, t)
    }
}

/// The UCT key of child `j` of node `i`.
pub open spec fn child_key(a: Seq<Node>, i: int, j: int) -> int {
    uct_key(
        a[a[i].children@[j].1 as int].score as int,
        a[a[i].children@[j].1 as int].visits as int,
        a[i].visits as int,
    )
}

/// The visit count of child `j` of node `i`.
pub open spec fn child_visits(a: Seq<Node>, i: int, j: int) -> int {
    a[a[i].children@[j].1 as int].visits as int
}

/// The UCT key of child `j` of node `i`: maximal for an unvisited
/// child, the fixed-point formula otherwise.
fn child_key_exec(arena: &Vec<Node>, i: usize, j: usize) -> (k: u128)
    requires
        (i as int) < arena@.len(),
        (j as int) < arena@[i as int].children@.len(),
        (arena@[i as int].children@[j as int].1 as int) < arena@.len(),
        node_stats_ok(arena@[arena@[i as int].children@[j as int].1 as int]),
    ensures
        k as int == child_key(arena@, i as int, j as int),
{
    let ci = arena[i].children[j].1;
    let v = arena[ci].visits;
    if v == 0 {
        UNVISITED_KEY
    } else {
        uct_key_exec(arena[ci].score, v, arena[i].visits)
    }
}

/// The child of `i` with the highest UCT key; ties go to the first in
/// canonical order. An unvisited child always outranks visited ones.
fn best_child_pos(arena: &Vec<Node>, i: usize) -> (pos: usize)
    requires
        (i as int) < arena@.len(),
        arena@[i as int].children@.len() > 0,
        forall|j: int|
            0 <= j < arena@[i as int].children@.len() ==> ((#[trigger] arena@[i as int].children@[j]).1 as int)
                < arena@.len() && node_stats_ok(arena@[arena@[i as int].children@[j].1 as int]),
    ensures
        (pos as int) < arena@[i as int].children@.len(),
        forall|j: int|
            0 <= j < arena@[i as int].children@.len() ==> child_key(arena@, i as int, j)
                <= child_key(arena@, i as int, pos as int),
        forall|j: int|
            0 <= j < pos as int ==> child_key(arena@, i as int, j) < child_key(
                arena@,
                i as int,
                pos as int,
            ),
{
    let n = arena[i].children.len();
    let mut pos: usize = 0;
    let mut best: u128 = child_key_exec(arena, i, 0);
    for j in 1..n
        invariant
            (i as int) < arena@.len(),
            n == arena@[i as int].children@.len(),
            (pos as int) < j,
            forall|jj: int|
                0 <= jj < arena@[i as int].children@.len() ==> ((
                #[trigger] arena@[i as int].children@[jj]).1 as int) < arena@.len()
                    && node_stats_ok(arena@[arena@[i as int].children@[jj].1 as int]),
            best as int == child_key(arena@, i as int, pos as int),
            forall|jj: int|
                0 <= jj < j ==> child_key(arena@, i as int, jj) <= child_key(
                    arena@,
                    i as int,
                    pos as int,
                ),
            forall|jj: int|
                0 <= jj < pos as int ==> child_key(arena@, i as int, jj) < child_key(
                    arena@,
                    i as int,
                    pos as int,
                ),
    {
        let k = child_key_exec(arena, i, j);
        if k > best {
            pos = j;
            best = k;
        }
    }
    pos
}

/// The child of `i` with the highest visit count (the robust child);
/// ties go to the first in canonical order.
fn best_move_pos(arena: &Vec<Node>, i: usize) -> (pos: usize)
    requires
        (i as int) < arena@.len(),
        arena@[i as int].children@.len() > 0,
        forall|j: int|
            0 <= j < arena@[i as int].children@.len() ==> ((#[trigger] arena@[i as int].children@[j]).1 as int)
                < arena@.len(),
    ensures
        (pos as int) < arena@[i as int].children@.len(),
        forall|j: int|
            0 <= j < arena@[i as int].children@.len() ==> child_visits(arena@, i as int, j)
                <= child_visits(arena@, i as int, pos as int),
        forall|j: int|
            0 <= j < pos as int ==> child_visits(arena@, i as int, j) < child_visits(
                arena@,
                i as int,
                pos as int,
            ),
{
    let n = arena[i].children.len();
    let mut pos: usize = 0;
    let mut best: u64 = arena[arena[i].children[0].1].visits;
    for j in 1..n
        invariant
            (i as int) < arena@.len(),
            n == arena@[i as int].children@.len(),
            (pos as int) < j,
            forall|jj: int|
                0 <= jj < arena@[i as int].children@.len() ==> ((
                #[trigger] arena@[i as int].children@[jj]).1 as int) < arena@.len(),
            best as int == child_visits(arena@, i as int, pos as int),
            forall|jj: int|
                0 <= jj < j ==> child_visits(arena@, i as int, jj) <= child_visits(
                    arena@,
                    i as int,
                    pos as int,
                ),
            forall|jj: int|
                0 <= jj < pos as int ==> child_visits(arena@, i as int, jj) < child_visits(
                    arena@,
                    i as int,
                    pos as int,
                ),
    {
        let ci = arena[i].children[j].1;
        let v = arena[ci].visits;
        if v > best {
            pos = j;
            best = v;
        }
    }
    pos
}

/// Transfers node well-formedness across an arena whose states and
/// children are untouched and whose statistics stay bounded.
proof fn lemma_nodes_ok_stats_update(a: Seq<Node>, b: Seq<Node>, t: LineTable)
    requires
        a.len() == b.len(),
        nodes_ok(a, t),
        forall|i: int|
            0 <= i < b.len() ==> (#[trigger] b[i]).state == a[i].state && b[i].children
                == a[i].children && node_stats_ok(b[i]),
    ensures
        nodes_ok(b, t),
{
    assert forall|i: int| 0 <= i < b.len() implies node_wf(b, i, t) by {
        assert(node_wf(a, i, t));
        if b[i].children@.len() > 0 {
            assert forall|j: int|
                0 <= j < b[i].children@.len() implies i < (#[trigger] b[i].children@[j]).1 as int
                && (b[i].children@[j].1 as int) < b.len()
                && b[b[i].children@[j].1 as int].state == b[i].state.spec_apply(
                t,
                b[i].children@[j].0,
            ) by {
                assert(a[i].children@[j] == b[i].children@[j]);
                assert(b[a[i].children@[j].1 as int].state == a[a[i].children@[j].1 as int].state);
            }
        }
    }
}

/// Expands a leaf: one child per legal move, each a fresh unvisited
/// node holding the state that move leads to, appended to the arena.
/// The expanded node keeps its state and statistics.
#[verifier::loop_isolation(false)]
fn expand_node(tree: &mut SearchTree, i: usize, t: &LineTable)
    requires
        t.wf(),
        old(tree).wf(*t),
        (i as int) < old(tree).arena@.len(),
        old(tree).arena@[i as int].children@.len() == 0,
        old(tree).arena@[i as int].state.state == State::InProgress,
    ensures
        final(tree).wf(*t),
        final(tree).root == old(tree).root,
        final(tree).arena@.len() >= old(tree).arena@.len(),
        forall|j: int|
            0 <= j < old(tree).arena@.len() && j != i as int ==> final(tree).arena@[j] == old(tree).arena@[j],
        final(tree).arena@[i as int].state == old(tree).arena@[i as int].state,
        final(tree).arena@[i as int].visits == old(tree).arena@[i as int].visits,
        final(tree).arena@[i as int].score == old(tree).arena@[i as int].score,
        final(tree).arena@[i as int].children@.len() > 0,
        final(tree).arena@[i as int].children@.map_values(|p: (Column, usize)| p.0) == old(tree).arena@[i as int].state.board.spec_possible_moves(),
        final(tree).arena@.len() == old(tree).arena@.len() + final(tree).arena@[i as int].children@.len(),
        forall|j: int|
            0 <= j < final(tree).arena@[i as int].children@.len() ==> (#[trigger] final(tree).arena@[i as int].children@[j]).1 as int == old(tree).arena@.len() + j,
        forall|j: int|
            old(tree).arena@.len() <= j < final(tree).arena@.len() ==> (#[trigger] final(tree).arena@[j]).visits == 0 && final(tree).arena@[j].score == 0 && final(tree).arena@[j].children@.len() == 0,
{
    let ghost a0 = tree.arena@;
    let ghost n0 = tree.arena@.len() as int;
    let st = tree.arena[i].state;
    proof {
        assert(node_wf(a0, i as int, *t));
        lemma_not_full_has_move(st.board);
    }
    let moves = st.possible_moves();
    let mut children: Vec<(Column, usize)> = Vec::new();
    let nmoves = moves.len();
    for j in 0..nmoves
        invariant
            t.wf(),
            st.wf(),
            st.state == State::InProgress,
            moves@ == st.board.spec_possible_moves(),
            nmoves == moves@.len(),
            tree.root == old(tree).root,
            tree.arena@.len() == n0 + j,
            forall|jj: int| 0 <= jj < n0 ==> tree.arena@[jj] == a0[jj],
            children@.len() == j,
            forall|jj: int|
                0 <= jj < j ==> (#[trigger] children@[jj]).0 == moves@[jj] && children@[jj].1 as int
                    == n0 + jj,
            forall|jj: int|
                n0 <= jj < n0 + j ==> (#[trigger] tree.arena@[jj]).state == st.spec_apply(
                    *t,
                    moves@[jj - n0],
                ) && tree.arena@[jj].visits == 0 && tree.arena@[jj].score == 0
                    && tree.arena@[jj].children@.len() == 0 && tree.arena@[jj].state.wf(),
    {
        let c = moves[j];
        let mut s2 = st;
        proof {
            lemma_possible_moves_legal(st.board, j as int);
        }
        let res = s2.apply_move(c, t);
        proof {
            assert(res == Ok::<(), MoveError>(()));
        }
        let idx = tree.arena.len();
        let ghost a_prev = tree.arena@;
        tree.arena.push(Node { state: s2, visits: 0, score: 0, children: Vec::new() });
        children.push((c, idx));
        proof {
            assert(forall|q: int| 0 <= q < n0 + j ==> (#[trigger] tree.arena@[q]) == a_prev[q]);
            assert(tree.arena@[n0 + j].state == st.spec_apply(*t, moves@[j as int]));
        }
    }
    let ghost ch = children@;
    tree.arena[i].children = children;
    proof {
        let a2 = tree.arena@;
        assert(a2[i as int].children@ == ch);
        assert(a2[i as int].state == a0[i as int].state && a2[i as int].visits == a0[i as int].visits
            && a2[i as int].score == a0[i as int].score);
        assert(ch.map_values(|p: (Column, usize)| p.0) =~= st.board.spec_possible_moves());
        assert forall|q: int| 0 <= q < a2.len() implies node_wf(a2, q, *t) by {
            if q == i as int {
                assert forall|j: int|
                    0 <= j < a2[q].children@.len() implies q < (#[trigger] a2[q].children@[j]).1 as int
                    && (a2[q].children@[j].1 as int) < a2.len()
                    && a2[a2[q].children@[j].1 as int].state == a2[q].state.spec_apply(
                    *t,
                    a2[q].children@[j].0,
                ) by {
                    assert(a2[q].children@[j].1 as int == n0 + j);
                }
            } else if q < n0 {
                assert(node_wf(a0, q, *t));
                if a2[q].children@.len() > 0 {
                    assert forall|j: int|
                        0 <= j < a2[q].children@.len() implies q < (
                    #[trigger] a2[q].children@[j]).1 as int && (a2[q].children@[j].1 as int)
                        < a2.len() && a2[a2[q].children@[j].1 as int].state
                        == a2[q].state.spec_apply(*t, a2[q].children@[j].0) by {
                        assert(a0[q].children@[j] == a2[q].children@[j]);
                        let target = a0[q].children@[j].1 as int;
                        assert(a2[target].state == a0[target].state);
                    }
                }
            } else {
                // a fresh leaf: a valid state, zeroed statistics, no children
            }
        }
    }
}

/// Along a chain that rises step by step, any later entry is larger.
proof fn lemma_path_increasing(p: Seq<usize>, i: int, j: int)
    requires
        forall|d: int| 0 <= d < p.len() - 1 ==> #[trigger] p[d] < p[d + 1],
        0 <= i < j < p.len(),
    ensures
        p[i] < p[j],
    decreases j - i,
{
    if i + 1 < j {
        lemma_path_increasing(p, i + 1, j);
    }
}

/// The requirements of a selection step at node `i`: every child index
/// is in bounds and every child's statistics are bounded.
proof fn lemma_children_ready(a: Seq<Node>, i: int, t: LineTable)
    requires
        nodes_ok(a, t),
        0 <= i < a.len(),
    ensures
        forall|j: int|
            0 <= j < a[i].children@.len() ==> ((#[trigger] a[i].children@[j]).1 as int) < a.len()
                && node_stats_ok(a[a[i].children@[j].1 as int]),
{
    assert forall|j: int|
        0 <= j < a[i].children@.len() implies ((#[trigger] a[i].children@[j]).1 as int) < a.len()
        && node_stats_ok(a[a[i].children@[j].1 as int]) by {
        assert(node_wf(a, i, t));
        assert(node_wf(a, a[i].children@[j].1 as int, t));
    }
}

/// Summarises one iteration: `a_start` is the arena at entry, `a_mid`
/// after the possible expansion, `a_end` after backpropagation along
/// the path `p`. The conclusions are exactly the per-iteration facts
/// the engine promises of the nodes that existed at entry.
proof fn lemma_iteration_summary(
    a_start: Seq<Node>,
    a_mid: Seq<Node>,
    a_end: Seq<Node>,
    p: Seq<usize>,
    rw: int,
    leaf: int,
)
    requires
        a_mid.len() == a_end.len(),
        a_start.len() <= a_mid.len(),
        a_mid.len() <= usize::MAX,
        p.len() >= 1,
        -1 <= rw <= 1,
        0 <= leaf < a_start.len(),
        forall|d: int| 0 <= d < p.len() - 1 ==> #[trigger] p[d] < p[d + 1],
        forall|d: int| 0 <= d < p.len() ==> ((#[trigger] p[d]) as int) < a_mid.len(),
        p.contains(leaf as usize),
        forall|j: int| 0 <= j < a_start.len() && j != leaf ==> a_mid[j] == a_start[j],
        a_mid[leaf].state == a_start[leaf].state,
        a_mid[leaf].visits == a_start[leaf].visits,
        a_mid[leaf].score == a_start[leaf].score,
        a_start[leaf].children@.len() > 0 ==> a_mid[leaf].children == a_start[leaf].children,
        forall|d: int|
            0 <= d < p.len() ==> stats_updated(a_mid, a_end, (#[trigger] p[d]) as int, d, rw),
        forall|j: int|
            0 <= j < a_mid.len() && (forall|dd: int| 0 <= dd < p.len() ==> p[dd] != j) ==> (
            #[trigger] a_end[j]) == a_mid[j],
        forall|j: int|
            0 <= j < a_mid.len() ==> (#[trigger] a_end[j]).state == a_mid[j].state
                && a_end[j].children == a_mid[j].children && a_end[j].visits >= a_mid[j].visits,
    ensures
        forall|d: int|
            0 <= d < p.len() && ((#[trigger] p[d]) as int) < a_start.len() ==> stats_updated(
                a_start,
                a_end,
                p[d] as int,
                d,
                rw,
            ),
        forall|j: int|
            0 <= j < a_start.len() && !p.contains(j as usize) ==> #[trigger] a_end[j]
                == a_start[j],
        forall|j: int|
            0 <= j < a_start.len() ==> (#[trigger] a_end[j]).state == a_start[j].state
                && a_end[j].visits >= a_start[j].visits && a_end[j].visits <= a_start[j].visits + 1
                && a_start[j].score - 1 <= a_end[j].score <= a_start[j].score + 1,
        forall|j: int|
            0 <= j < a_start.len() && a_start[j].children@.len() > 0 ==> (#[trigger] a_end[j]).children
                == a_start[j].children,
        forall|j: int|
            0 <= j < a_start.len() && (#[trigger] a_end[j]).children@.len()
                != a_start[j].children@.len() ==> j == leaf,
{
    assert forall|d: int|
        0 <= d < p.len() && ((#[trigger] p[d]) as int) < a_start.len() implies stats_updated(
        a_start,
        a_end,
        p[d] as int,
        d,
        rw,
    ) by {
        assert(a_mid[p[d] as int].visits == a_start[p[d] as int].visits && a_mid[p[d] as int].score
            == a_start[p[d] as int].score);
    }
    assert forall|j: int|
        0 <= j < a_start.len() && !p.contains(j as usize) implies #[trigger] a_end[j]
        == a_start[j] by {
        assert(j != leaf);
        assert(a_mid[j] == a_start[j]);
        assert forall|dd: int| 0 <= dd < p.len() implies p[dd] != j as usize by {
            assert(p[dd] != j as usize || p.contains(j as usize));
        }
    }
    assert forall|j: int|
        0 <= j < a_start.len() implies (#[trigger] a_end[j]).state == a_start[j].state
        && a_end[j].visits >= a_start[j].visits && a_end[j].visits <= a_start[j].visits + 1
        && a_start[j].score - 1 <= a_end[j].score <= a_start[j].score + 1 by {
        assert(a_mid[j].state == a_start[j].state && a_mid[j].visits == a_start[j].visits
            && a_mid[j].score == a_start[j].score);
        if p.contains(j as usize) {
            let dd = choose|dd: int| 0 <= dd < p.len() && p[dd] == j as usize;
            assert(0 <= dd < p.len());
            assert(p[dd] == j as usize);
            assert(p[dd] as int == j);
            assert(stats_updated(a_mid, a_end, (p[dd]) as int, dd, rw));
            assert(stats_updated(a_mid, a_end, j, dd, rw));
        } else {
            assert forall|dd: int| 0 <= dd < p.len() implies p[dd] != j as usize by {
                assert(p[dd] != j as usize || p.contains(j as usize));
            }
            assert(a_end[j] == a_mid[j]);
        }
    }
    assert forall|j: int|
        0 <= j < a_start.len() && a_start[j].children@.len() > 0 implies (#[trigger] a_end[j]).children
        == a_start[j].children by {
        if j != leaf {
            assert(a_mid[j] == a_start[j]);
        }
    }
    assert forall|j: int|
        0 <= j < a_start.len() && (#[trigger] a_end[j]).children@.len()
        != a_start[j].children@.len() implies j == leaf by {
        if j != leaf {
            assert(a_mid[j] == a_start[j]);
        }
    }
}

/// One backpropagation touch of the node at `j`, at depth `d` of the
/// selection path: below the visit cap it gains exactly one visit and
/// the signed reward of its depth parity (negamax: the sign alternates
/// level by level); at the cap it is left untouched.
pub open spec fn stats_updated(a: Seq<Node>, b: Seq<Node>, j: int, d: int, rw: int) -> bool {
    &&& (a[j].visits < VISIT_CAP ==> b[j].visits == a[j].visits + 1 && b[j].score == a[j].score + (
    if d % 2 == 0 {
        rw
    } else {
        -rw
    }))
    &&& (a[j].visits >= VISIT_CAP ==> b[j].visits == a[j].visits && b[j].score == a[j].score)
}

/// One UCT descent step in the arena `a`: `child` is the child of
/// `parent` holding the maximal UCT key, first in canonical order
/// among the maxima.
pub open spec fn uct_step(a: Seq<Node>, parent: int, child: int) -> bool {
    exists|j: int|
        0 <= j < a[parent].children@.len() && (#[trigger] a[parent].children@[j]).1 as int == child
            && (forall|q: int|
            0 <= q < a[parent].children@.len() ==> child_key(a, parent, q) <= child_key(
                a,
                parent,
                j,
            )) && (forall|q: int| 0 <= q < j ==> child_key(a, parent, q) < child_key(a, parent, j))
}

/// The decision a finished search takes: in arena `a` the node at
/// `parent` holds the searched state `s`, and its child at position
/// `j` — the first with the maximal visit count among its siblings
/// (the robust child) — is the new root, reached by the move `c`.
pub open spec fn robust_pick(
    a: Seq<Node>,
    parent: int,
    j: int,
    root: usize,
    c: Column,
    s: GameState,
) -> bool {
    &&& 0 <= parent < a.len()
    &&& a[parent].state == s
    &&& 0 <= j < a[parent].children@.len()
    &&& a[parent].children@[j].1 == root
    &&& a[parent].children@[j].0 == c
    &&& forall|q: int|
        0 <= q < a[parent].children@.len() ==> child_visits(a, parent, q) <= child_visits(
            a,
            parent,
            j,
        )
    &&& forall|q: int| 0 <= q < j ==> child_visits(a, parent, q) < child_visits(a, parent, j)
}

/// The Monte Carlo tree search agent: a persistent tree, a rollout
/// policy, the precomputed line table, and a fixed iteration budget per
/// decision.
pub struct MctsAgent {
    pub iterations: usize,
    pub table: LineTable,
    pub policy: RandomAgent,
    pub tree: SearchTree,
}

impl MctsAgent {
    /// The engine's invariant: the line table is exact and the tree is
    /// well-formed against it.
    pub open spec fn wf(self) -> bool {
        &&& self.table.wf()
        &&& self.tree.wf(self.table)
    }

    pub open spec fn spec_iterations(self) -> usize {
        self.iterations
    }

    /// The state of the current root node.
    pub open spec fn spec_root(self) -> Node {
        self.tree.root_node()
    }

    /// A fresh engine rooted at `game_state`, with a rollout policy
    /// whose stream is determined by `seed`; the root is expanded
    /// eagerly when the game is not over.
    pub fn with_seed(iterations: usize, game_state: GameState, seed: u64) -> (r: MctsAgent)
        requires
            game_state.wf(),
        ensures
            r.wf(),
            r.spec_iterations() == iterations,
            r.spec_root().state == game_state,
            forall|n: int|
                0 <= n < r.tree.arena@.len() ==> (#[trigger] r.tree.arena@[n]).visits == 0
                    && r.tree.arena@[n].score == 0,
            !game_state.state.spec_is_over() ==> r.spec_root().children@.map_values(
                |p: (Column, usize)| p.0,
            ) == game_state.board.spec_possible_moves(),
            game_state.state.spec_is_over() ==> r.spec_root().children@.len() == 0,
    {
        let table = LineTable::new();
        let mut arena: Vec<Node> = Vec::new();
        arena.push(Node { state: game_state, visits: 0, score: 0, children: Vec::new() });
        let mut tree = SearchTree { arena, root: 0 };
        if !game_state.state.is_over() {
            expand_node(&mut tree, 0, &table);
        }
        MctsAgent { iterations, table, policy: RandomAgent::new(seed), tree }
    }

    /// A fresh engine rooted at `game_state`, with an entropy-seeded
    /// rollout policy.
    pub fn new(iterations: usize, game_state: GameState) -> (r: MctsAgent)
        requires
            game_state.wf(),
        ensures
            r.wf(),
            r.spec_iterations() == iterations,
            r.spec_root().state == game_state,
            forall|n: int|
                0 <= n < r.tree.arena@.len() ==> (#[trigger] r.tree.arena@[n]).visits == 0
                    && r.tree.arena@[n].score == 0,
            !game_state.state.spec_is_over() ==> r.spec_root().children@.map_values(
                |p: (Column, usize)| p.0,
            ) == game_state.board.spec_possible_moves(),
            game_state.state.spec_is_over() ==> r.spec_root().children@.len() == 0,
    {
        let table = LineTable::new();
        let mut arena: Vec<Node> = Vec::new();
        arena.push(Node { state: game_state, visits: 0, score: 0, children: Vec::new() });
        let mut tree = SearchTree { arena, root: 0 };
        if !game_state.state.is_over() {
            expand_node(&mut tree, 0, &table);
        }
        MctsAgent { iterations, table, policy: RandomAgent::from_entropy(), tree }
    }

    /// The visit count of the current root.
    pub fn root_visits(&self) -> (r: u64)
        requires
            self.wf(),
        ensures
            r == self.spec_root().visits,
    {
        self.tree.arena[self.tree.root].visits
    }

    /// The state of the current root.
    pub fn root_state(&self) -> (r: GameState)
        requires
            self.wf(),
        ensures
            r == self.spec_root().state,
    {
        self.tree.arena[self.tree.root].state
    }

    /// The move, visit count and accumulated score of every root child,
    /// in canonical move order.
    pub fn root_child_stats(&self) -> (r: Vec<(Column, u64, i64)>)
        requires
            self.wf(),
        ensures
            r@.len() == self.spec_root().children@.len(),
            forall|j: int|
                0 <= j < r@.len() ==> (#[trigger] r@[j]).0 == self.spec_root().children@[j].0
                    && r@[j].1 == self.tree.child_of_root(j).visits && r@[j].2
                    == self.tree.child_of_root(j).score,
    {
        let rt = self.tree.root;
        let n = self.tree.arena[rt].children.len();
        let mut r: Vec<(Column, u64, i64)> = Vec::new();
        proof {
            assert(node_wf(self.tree.arena@, rt as int, self.table));
        }
        for j in 0..n
            invariant
                (rt as int) == self.tree.root as int,
                (rt as int) < self.tree.arena@.len(),
                self.wf(),
                n == self.spec_root().children@.len(),
                r@.len() == j,
                forall|jj: int|
                    0 <= jj < j ==> (#[trigger] r@[jj]).0 == self.spec_root().children@[jj].0
                        && r@[jj].1 == self.tree.child_of_root(jj).visits && r@[jj].2
                        == self.tree.child_of_root(jj).score,
        {
            proof {
                assert(node_wf(self.tree.arena@, rt as int, self.table));
            }
            let (c, ci) = self.tree.arena[rt].children[j];
            r.push((c, self.tree.arena[ci].visits, self.tree.arena[ci].score));
        }
        r
    }

    /// The selection phase of one iteration: descend along maximal
    /// UCT keys to a leaf and, when the leaf has been visited before
    /// and its game still runs, expand it one ply and step into the
    /// first fresh child. No statistics change; only the reached leaf
    /// may gain children.
    #[verifier::rlimit(100)]
    fn select_expand(&mut self) -> (path: Vec<usize>)
        requires
            old(self).wf(),
        ensures
            final(self).wf(),
            final(self).table == old(self).table,
            final(self).iterations == old(self).iterations,
            final(self).tree.root == old(self).tree.root,
            final(self).tree.arena@.len() >= old(self).tree.arena@.len(),
            path@.len() >= 1,
            path@[0] == old(self).tree.root,
            forall|d: int| 0 <= d < path@.len() - 1 ==> #[trigger] path@[d] < path@[d + 1],
            forall|d: int|
                0 <= d < path@.len() ==> ((#[trigger] path@[d]) as int) < final(self).tree.arena@.len(),
            forall|j: int|
                0 <= j < old(self).tree.arena@.len() ==> (#[trigger] final(self).tree.arena@[j]).state == old(self).tree.arena@[j].state && final(self).tree.arena@[j].visits
                    == old(self).tree.arena@[j].visits && final(self).tree.arena@[j].score == old(self).tree.arena@[j].score,
            forall|j: int|
                old(self).tree.arena@.len() <= j < final(self).tree.arena@.len() ==> (
                #[trigger] final(self).tree.arena@[j]).visits == 0 && final(self).tree.arena@[j].score == 0,
            forall|d: int|
                0 <= d < path@.len() - 1 && old(self).tree.arena@[path@[d] as int].children@.len()
                    > 0 ==> uct_step(
                    old(self).tree.arena@,
                    (#[trigger] path@[d]) as int,
                    path@[d + 1] as int,
                ),
            final(self).tree.arena@.len() == old(self).tree.arena@.len() ==> final(self).tree.arena@ =~= old(self).tree.arena@ && (path@[path@.len() - 1] as int) < old(self).tree.arena@.len() && old(self).tree.arena@[path@[path@.len()
                - 1] as int].children@.len() == 0 && (old(self).tree.arena@[path@[path@.len()
                - 1] as int].visits == 0 || old(self).tree.arena@[path@[path@.len()
                - 1] as int].state.state.spec_is_over()),
            final(self).tree.arena@.len() > old(self).tree.arena@.len() ==> path@.len() >= 2 && (
            path@[path@.len() - 1] as int) >= old(self).tree.arena@.len() && (path@[path@.len()
                - 2] as int) < old(self).tree.arena@.len() && old(self).tree.arena@[path@[path@.len() - 2] as int].children@.len() == 0 && old(self).tree.arena@[path@[path@.len() - 2] as int].visits > 0 && old(self).tree.arena@[path@[path@.len()
                - 2] as int].state.state == State::InProgress && (forall|j: int|
                0 <= j < old(self).tree.arena@.len() && j != path@[path@.len() - 2] as int
                    ==> final(self).tree.arena@[j] == old(self).tree.arena@[j]),
    {
        let ghost a_start = self.tree.arena@;
        let mut path: Vec<usize> = Vec::new();
        let mut cur: usize = self.tree.root;
        path.push(cur);
        // select: descend along maximal UCT keys to a leaf
        while self.tree.arena[cur].children.len() > 0
            invariant
                *self == *old(self),
                self.tree.arena@ == a_start,
                self.wf(),
                (cur as int) < self.tree.arena@.len(),
                path@.len() >= 1,
                path@[path@.len() - 1] == cur,
                path@[0] == old(self).tree.root,
                forall|d: int| 0 <= d < path@.len() ==> ((#[trigger] path@[d]) as int)
                    < self.tree.arena@.len(),
                forall|d: int| 0 <= d < path@.len() - 1 ==> #[trigger] path@[d] < path@[d + 1],
                forall|d: int|
                    0 <= d < path@.len() - 1 ==> uct_step(
                        a_start,
                        (#[trigger] path@[d]) as int,
                        path@[d + 1] as int,
                    ),
            decreases self.tree.arena@.len() - cur,
        {
            proof {
                assert(node_wf(self.tree.arena@, cur as int, self.table));
                lemma_children_ready(self.tree.arena@, cur as int, self.table);
            }
            let pos = best_child_pos(&self.tree.arena, cur);
            let child = self.tree.arena[cur].children[pos].1;
            proof {
                assert(a_start[cur as int].children@[pos as int].1 == child);
                assert(uct_step(a_start, cur as int, child as int));
            }
            path.push(child);
            cur = child;
        }
        // lazy expansion: only a leaf already visited, with the game
        // still running, is expanded; then descend one more ply
        let cur_visits = self.tree.arena[cur].visits;
        let cur_over = self.tree.arena[cur].state.state.is_over();
        if cur_visits != 0 && !cur_over {
            proof {
                assert(node_wf(self.tree.arena@, cur as int, self.table));
            }
            expand_node(&mut self.tree, cur, &self.table);
            proof {
                lemma_children_ready(self.tree.arena@, cur as int, self.table);
            }
            let pos = best_child_pos(&self.tree.arena, cur);
            let child = self.tree.arena[cur].children[pos].1;
            proof {
                assert(node_wf(self.tree.arena@, cur as int, self.table));
                assert(child as int >= a_start.len());
            }
            path.push(child);
        }
        path
    }

    /// The backpropagation phase: walk the recorded path from the root
    /// down, giving each node below the visit cap one visit and the
    /// reward with alternating sign (negamax); nothing off the path
    /// changes.
    #[verifier::rlimit(100)]
    fn backprop(&mut self, path: &Vec<usize>, reward: i64)
        requires
            old(self).wf(),
            -1 <= reward as int <= 1,
            path@.len() >= 1,
            forall|d: int|
                0 <= d < path@.len() ==> ((#[trigger] path@[d]) as int) < old(self).tree.arena@.len(),
            forall|d: int| 0 <= d < path@.len() - 1 ==> #[trigger] path@[d] < path@[d + 1],
        ensures
            final(self).wf(),
            final(self).table == old(self).table,
            final(self).iterations == old(self).iterations,
            final(self).tree.root == old(self).tree.root,
            final(self).policy == old(self).policy,
            final(self).tree.arena@.len() == old(self).tree.arena@.len(),
            forall|d: int|
                0 <= d < path@.len() ==> stats_updated(
                    old(self).tree.arena@,
                    final(self).tree.arena@,
                    (#[trigger] path@[d]) as int,
                    d,
                    reward as int,
                ),
            forall|j: int|
                0 <= j < old(self).tree.arena@.len() && (forall|dd: int|
                    0 <= dd < path@.len() ==> path@[dd] != j) ==> (#[trigger] final(self).tree.arena@[j]) == old(self).tree.arena@[j],
            forall|j: int|
                0 <= j < old(self).tree.arena@.len() ==> (#[trigger] final(self).tree.arena@[j]).state == old(self).tree.arena@[j].state && final(self).tree.arena@[j].children
                    == old(self).tree.arena@[j].children && final(self).tree.arena@[j].visits
                    >= old(self).tree.arena@[j].visits,
    {
        let ghost a_mid = self.tree.arena@;
        let ghost rw0 = reward as int;
        let mut reward = reward;
        let plen = path.len();
        for d in 0..plen
            invariant
                self.table.wf(),
                nodes_ok(self.tree.arena@, self.table),
                self.tree.root == old(self).tree.root,
                self.iterations == old(self).iterations,
                self.table == old(self).table,
                self.policy == old(self).policy,
                self.tree.arena@.len() == a_mid.len(),
                (self.tree.root as int) < self.tree.arena@.len(),
                plen == path@.len(),
                forall|dd: int| 0 <= dd < path@.len() ==> ((#[trigger] path@[dd]) as int)
                    < a_mid.len(),
                forall|dd: int| 0 <= dd < path@.len() - 1 ==> #[trigger] path@[dd] < path@[dd + 1],
                -1 <= rw0 <= 1,
                reward as int == if d % 2 == 0 {
                    rw0
                } else {
                    -rw0
                },
                forall|j: int|
                    0 <= j < a_mid.len() && (forall|dd: int| 0 <= dd < d ==> path@[dd] != j) ==> (
                    #[trigger] self.tree.arena@[j]) == a_mid[j],
                forall|dd: int|
                    0 <= dd < d ==> stats_updated(
                        a_mid,
                        self.tree.arena@,
                        (#[trigger] path@[dd]) as int,
                        dd,
                        rw0,
                    ),
                forall|j: int|
                    0 <= j < a_mid.len() ==> (#[trigger] self.tree.arena@[j]).state
                        == a_mid[j].state && self.tree.arena@[j].children == a_mid[j].children
                        && self.tree.arena@[j].visits >= a_mid[j].visits,
        {
            let ghost a_before = self.tree.arena@;
            let idx = path[d];
            let v = self.tree.arena[idx].visits;
            proof {
                assert(forall|dd: int| 0 <= dd < d ==> #[trigger] path@[dd] < path@[d as int]) by {
                    assert forall|dd: int| 0 <= dd < d implies #[trigger] path@[dd]
                        < path@[d as int] by {
                        lemma_path_increasing(path@, dd, d as int);
                    }
                }
                assert(self.tree.arena@[idx as int] == a_mid[idx as int]);
            }
            if v < VISIT_CAP {
                proof {
                    assert(node_wf(self.tree.arena@, idx as int, self.table));
                }
                let sc = self.tree.arena[idx].score;
                self.tree.arena[idx].visits = v + 1;
                self.tree.arena[idx].score = sc + reward;
            }
            reward = if reward == i64::MIN {
                proof {
                    assert(false);
                }
                0
            } else {
                -reward
            };
            proof {
                assert forall|q: int|
                    0 <= q < self.tree.arena@.len() implies (#[trigger] self.tree.arena@[q]).state
                    == a_before[q].state && self.tree.arena@[q].children == a_before[q].children
                    && node_stats_ok(self.tree.arena@[q]) by {
                    assert(node_wf(a_before, q, self.table));
                }
                lemma_nodes_ok_stats_update(a_before, self.tree.arena@, self.table);
                assert(stats_updated(a_mid, self.tree.arena@, idx as int, d as int, rw0));
                assert forall|dd: int|
                    0 <= dd < d + 1 implies stats_updated(
                    a_mid,
                    self.tree.arena@,
                    (#[trigger] path@[dd]) as int,
                    dd,
                    rw0,
                ) by {
                    if dd < d {
                        lemma_path_increasing(path@, dd, d as int);
                        assert(self.tree.arena@[path@[dd] as int] == a_before[path@[dd] as int]);
                    }
                }
            }
        }
    }

    /// One search iteration: select by UCT to a leaf, lazily expand a
    /// visited non-terminal leaf one ply, roll the leaf out to a
    /// terminal outcome, and backpropagate the signed reward up the
    /// recorded path with alternating sign (negamax). The ghost result
    /// is the selection path and the reward seen at the root: exactly
    /// the path's nodes change, each once, and only the reached leaf
    /// may gain children.
    #[verifier::rlimit(100)]
    fn run_iteration(&mut self) -> (sel: Ghost<(Seq<usize>, int)>)
        requires
            old(self).wf(),
        ensures
            final(self).wf(),
            final(self).table == old(self).table,
            final(self).iterations == old(self).iterations,
            final(self).tree.root == old(self).tree.root,
            final(self).tree.arena@.len() >= old(self).tree.arena@.len(),
            forall|j: int|
                0 <= j < old(self).tree.arena@.len() ==> (#[trigger] final(self).tree.arena@[j]).state
                    == old(self).tree.arena@[j].state && final(self).tree.arena@[j].visits >= old(self).tree.arena@[j].visits && (old(self).tree.arena@[j].children@.len() > 0 ==> final(self).tree.arena@[j].children == old(self).tree.arena@[j].children),
            // the root lies on every selection path: below the cap it
            // gains exactly one visit per iteration
            old(self).spec_root().visits < VISIT_CAP ==> final(self).spec_root().visits == old(self).spec_root().visits + 1,
            // per node: at most one visit gained, score moved by at most one
            forall|j: int|
                0 <= j < old(self).tree.arena@.len() ==> (#[trigger] final(self).tree.arena@[j]).visits <= old(self).tree.arena@[j].visits + 1 && old(self).tree.arena@[j].score - 1
                    <= final(self).tree.arena@[j].score <= old(self).tree.arena@[j].score + 1,
            ({
                let p = sel@.0;
                let rw = sel@.1;
                let n0 = old(self).tree.arena@.len() as int;
                &&& 1 <= p.len()
                &&& p[0] == old(self).tree.root
                &&& forall|d: int| 0 <= d < p.len() - 1 ==> #[trigger] p[d] < p[d + 1]
                &&& forall|d: int|
                    0 <= d < p.len() ==> ((#[trigger] p[d]) as int) < final(self).tree.arena@.len()
                &&& -1 <= rw <= 1
                // exact bookkeeping along the path
                &&& forall|d: int|
                    0 <= d < p.len() && ((#[trigger] p[d]) as int) < n0 ==> stats_updated(
                        old(self).tree.arena@,
                        final(self).tree.arena@,
                        p[d] as int,
                        d,
                        rw,
                    )
                // nothing off the path changes at all
                &&& forall|j: int|
                    0 <= j < n0 && !p.contains(j as usize) ==> final(self).tree.arena@[j] == old(self).tree.arena@[j]
                // the descent is UCT-guided wherever children existed
                &&& forall|d: int|
                    0 <= d < p.len() - 1 && old(self).tree.arena@[p[d] as int].children@.len() > 0
                        ==> uct_step(
                        old(self).tree.arena@,
                        (#[trigger] p[d]) as int,
                        p[d + 1] as int,
                    )
                // lazy expansion: the reached leaf is expanded exactly when
                // it was visited before and its game is still running, and
                // the path then extends one ply into a fresh child
                &&& (final(self).tree.arena@.len() > n0 ==> p.len() >= 2 && (p[p.len()
                    - 1] as int) >= n0 && (p[p.len() - 2] as int) < n0 && old(self).tree.arena@[p[p.len() - 2] as int].children@.len() == 0 && old(self).tree.arena@[p[p.len() - 2] as int].visits > 0 && old(self).tree.arena@[p[p.len()
                    - 2] as int].state.state == State::InProgress)
                &&& (final(self).tree.arena@.len() == n0 ==> (p[p.len() - 1] as int) < n0 && old(self).tree.arena@[p[p.len() - 1] as int].children@.len() == 0 && (old(self).tree.arena@[p[p.len() - 1] as int].visits == 0 || old(self).tree.arena@[p[p.len() - 1] as int].state.state.spec_is_over()))
                // only the reached leaf gains children
                &&& forall|j: int|
                    0 <= j < n0 && (#[trigger] final(self).tree.arena@[j]).children@.len() != old(self).tree.arena@[j].children@.len() ==> final(self).tree.arena@.len() > n0 && p.len()
                        >= 2 && j == p[p.len() - 2] as int
            }),
    {
        let ghost a_start = self.tree.arena@;
        let ghost n0 = self.tree.arena@.len() as int;
        let path = self.select_expand();
        let ghost a_mid = self.tree.arena@;
        let ghost leaf: int = if a_mid.len() > n0 {
            path@[path@.len() - 2] as int
        } else {
            path@[path@.len() - 1] as int
        };
        let last = path[path.len() - 1];
        // simulate: roll the reached node's state out to a terminal outcome
        proof {
            assert(node_wf(self.tree.arena@, last as int, self.table));
        }
        let leaf_state = self.tree.arena[last].state;
        let outcome = simulate(&leaf_state, &mut self.policy, &self.table);
        // the reward seen from the root's player to move, negated at
        // each level on the way down
        proof {
            assert(node_wf(self.tree.arena@, self.tree.root as int, self.table));
        }
        let root_player = self.tree.arena[self.tree.root].state.current_player;
        let reward: i64 = match outcome {
            State::Draw => 0,
            State::Win(p) => if p == root_player {
                -1
            } else {
                1
            },
            State::InProgress => {
                proof {
                    assert(false);
                }
                0
            },
        };
        let ghost rw0 = reward as int;
        // reading the length ties it to `usize` for the summary lemma
        let alen = self.tree.arena.len();
        proof {
            assert(a_mid.len() == alen as int);
        }
        self.backprop(&path, reward);
        proof {
            if a_mid.len() > n0 {
                assert(path@[path@.len() - 2] == leaf as usize);
            } else {
                assert(a_mid =~= a_start);
                assert(path@[path@.len() - 1] == leaf as usize);
            }
            assert(path@.contains(leaf as usize));
            lemma_iteration_summary(a_start, a_mid, final(self).tree.arena@, path@, rw0, leaf);
            assert(stats_updated(a_start, final(self).tree.arena@, path@[0] as int, 0, rw0));
            assert forall|j: int|
                0 <= j < n0 && (#[trigger] final(self).tree.arena@[j]).children@.len()
                != a_start[j].children@.len() implies final(self).tree.arena@.len() > n0
                && path@.len() >= 2 && j == path@[path@.len() - 2] as int by {
                if a_mid.len() == n0 {
                    assert(final(self).tree.arena@[j].children == a_mid[j].children);
                    assert(a_mid[j] == a_start[j]);
                }
            }
        }
        Ghost((path@, rw0))
    }

    /// Re-roots the engine's tree at `state`: when the remembered root
    /// already holds it, or one of the root's children does, that node
    /// becomes the root with its statistics and subtree preserved and
    /// the stale root drops its edges (the siblings are discarded);
    /// otherwise the tree is discarded and a fresh zero-statistics root
    /// is built. The root is expanded on exit.
    pub fn reroot(&mut self, state: &GameState)
        requires
            old(self).wf(),
            state.wf(),
            state.state == State::InProgress,
        ensures
            final(self).wf(),
            final(self).iterations == old(self).iterations,
            final(self).table == old(self).table,
            final(self).spec_root().state == *state,
            final(self).spec_root().children@.len() > 0,
            old(self).spec_root().state == *state ==> final(self).spec_root().visits == old(self).spec_root().visits && final(self).spec_root().score == old(self).spec_root().score,
            old(self).spec_root().state != *state ==> forall|j: int|
                0 <= j < old(self).spec_root().children@.len() && (#[trigger] old(self).tree.child_of_root(j)).state == *state && (forall|q: int|
                    0 <= q < j ==> old(self).tree.child_of_root(q).state != *state) ==> final(self).spec_root().visits == old(self).tree.child_of_root(j).visits && final(self).spec_root().score == old(self).tree.child_of_root(j).score,
            (old(self).spec_root().state != *state && (forall|j: int|
                0 <= j < old(self).spec_root().children@.len() ==> (#[trigger] old(self).tree.child_of_root(j)).state != *state)) ==> (forall|n: int|
                0 <= n < final(self).tree.arena@.len() ==> (#[trigger] final(self).tree.arena@[n]).visits == 0 && final(self).tree.arena@[n].score == 0),
    {
        let rt = self.tree.root;
        proof {
            assert(node_wf(self.tree.arena@, rt as int, self.table));
        }
        let same = {
            let rs = &self.tree.arena[rt].state;
            *rs == *state
        };
        if same {
            if self.tree.arena[rt].children.len() == 0 {
                expand_node(&mut self.tree, rt, &self.table);
            }
        } else {
            let nch = self.tree.arena[rt].children.len();
            let mut found = false;
            let mut match_idx: usize = 0;
            for jj in 0..nch
                invariant
                    self.wf(),
                    *self == *old(self),
                    rt == self.tree.root,
                    (rt as int) < self.tree.arena@.len(),
                    nch == self.tree.arena@[rt as int].children@.len(),
                    !found ==> forall|q: int| 0 <= q < jj ==> self.tree.child_of_root(q).state
                        != *state,
                    found ==> (match_idx as int) < nch as int && self.tree.child_of_root(
                        match_idx as int,
                    ).state == *state && (forall|q: int|
                        0 <= q < match_idx as int ==> self.tree.child_of_root(q).state != *state),
            {
                if !found {
                    proof {
                        assert(node_wf(self.tree.arena@, rt as int, self.table));
                    }
                    let ci = self.tree.arena[rt].children[jj].1;
                    let matches = {
                        let cs = &self.tree.arena[ci].state;
                        *cs == *state
                    };
                    if matches {
                        found = true;
                        match_idx = jj;
                    }
                }
            }
            if found {
                proof {
                    assert(node_wf(self.tree.arena@, rt as int, self.table));
                }
                let ci = self.tree.arena[rt].children[match_idx].1;
                let ghost a_pre = self.tree.arena@;
                // discard the siblings: the stale root keeps no edge into
                // the transferred subtree
                self.tree.arena[rt].children = Vec::new();
                proof {
                    assert forall|q: int| 0 <= q < self.tree.arena@.len() implies node_wf(
                        self.tree.arena@,
                        q,
                        self.table,
                    ) by {
                        assert(node_wf(a_pre, q, self.table));
                        if q != rt as int && self.tree.arena@[q].children@.len() > 0 {
                            assert forall|j: int|
                                0 <= j < self.tree.arena@[q].children@.len() implies q < (
                            #[trigger] self.tree.arena@[q].children@[j]).1 as int && (
                            self.tree.arena@[q].children@[j].1 as int) < self.tree.arena@.len()
                                && self.tree.arena@[self.tree.arena@[q].children@[j].1 as int].state
                                == self.tree.arena@[q].state.spec_apply(
                                self.table,
                                self.tree.arena@[q].children@[j].0,
                            ) by {
                                assert(a_pre[q].children@[j] == self.tree.arena@[q].children@[j]);
                                let x = a_pre[q].children@[j].1 as int;
                                assert(self.tree.arena@[x].state == a_pre[x].state);
                            }
                        }
                    }
                }
                self.tree.root = ci;
                if self.tree.arena[ci].children.len() == 0 {
                    expand_node(&mut self.tree, ci, &self.table);
                }
            } else {
                let mut arena: Vec<Node> = Vec::new();
                arena.push(Node { state: *state, visits: 0, score: 0, children: Vec::new() });
                self.tree = SearchTree { arena, root: 0 };
                expand_node(&mut self.tree, 0, &self.table);
            }
        }
        proof {
            assert(node_wf(self.tree.arena@, self.tree.root as int, self.table));
            if self.spec_root().children@.len() == 0 {
                lemma_not_full_has_move(state.board);
                assert(false);
            }
        }
    }

    /// The engine's decision: an `IllegalState` error on a finished
    /// game; otherwise re-roots at `state`, runs the iteration budget,
    /// returns the column of the root child with the most visits, and
    /// advances the root to that child. The returned column is always
    /// among the legal moves of `state`.
    pub fn decide(&mut self, state: &GameState) -> (r: Result<Column, MoveError>)
        requires
            old(self).wf(),
            state.wf(),
        ensures
            final(self).wf(),
            final(self).table == old(self).table,
            final(self).iterations == old(self).iterations,
            state.state.spec_is_over() ==> r == Err::<Column, MoveError>(MoveError::IllegalState)
                && *final(self) == *old(self),
            !state.state.spec_is_over() ==> (r matches Ok(c)
                && state.board.spec_possible_moves().contains(c) && state.board.spec_legal(c)
                && final(self).spec_root().state == state.spec_apply(final(self).table, c)),
            // the robust child: the returned column leads to the root
            // child with the most visits, first in canonical order
            !state.state.spec_is_over() ==> (r matches Ok(c) && exists|parent: int, j: int|
                robust_pick(final(self).tree.arena@, parent, j, final(self).tree.root, c, *state)),
            // tree reuse at the decision API: the node carrying the
            // searched state keeps at least the visits it had before
            (!state.state.spec_is_over() && old(self).spec_root().state == *state) ==> exists|
                n: int,
            |
                0 <= n < final(self).tree.arena@.len() && (#[trigger] final(self).tree.arena@[n]).state == *state && final(self).tree.arena@[n].visits >= old(self).spec_root().visits,
            (!state.state.spec_is_over() && old(self).spec_root().state != *state) ==> forall|
                j: int,
            |
                (0 <= j < old(self).spec_root().children@.len() && (#[trigger] old(self).tree.child_of_root(j)).state == *state && (forall|q: int|
                    0 <= q < j ==> old(self).tree.child_of_root(q).state != *state)) ==> exists|
                    n: int,
                |
                    0 <= n < final(self).tree.arena@.len() && (#[trigger] final(self).tree.arena@[n]).state == *state && final(self).tree.arena@[n].visits >= old(self).tree.child_of_root(j).visits,
    {
        if state.state.is_over() {
            return Err(MoveError::IllegalState);
        }
        self.reroot(state);
        let ghost rt0 = self.tree.root;
        let ghost v0 = self.spec_root().visits;
        let iters = self.iterations;
        for _q in 0..iters
            invariant
                self.wf(),
                self.table == old(self).table,
                self.iterations == old(self).iterations,
                self.spec_root().state == *state,
                self.spec_root().children@.len() > 0,
                self.tree.root == rt0,
                self.spec_root().visits >= v0,
        {
            self.run_iteration();
        }
        let rt = self.tree.root;
        proof {
            assert(node_wf(self.tree.arena@, rt as int, self.table));
        }
        let pos = best_move_pos(&self.tree.arena, rt);
        let chosen = self.tree.arena[rt].children[pos];
        self.tree.root = chosen.1;
        proof {
            let a = self.tree.arena@;
            let moves = state.board.spec_possible_moves();
            assert(a[rt as int].children@.map_values(|p: (Column, usize)| p.0)[pos as int]
                == chosen.0);
            assert(moves[pos as int] == chosen.0);
            assert(moves.contains(chosen.0));
            lemma_possible_moves_legal(state.board, pos as int);
            assert(robust_pick(a, rt as int, pos as int, chosen.1, chosen.0, *state));
            assert(a[rt0 as int].state == *state && a[rt0 as int].visits >= v0);
        }
        Ok(chosen.0)
    }
}

impl Agent for MctsAgent {
    open spec fn inv(&self) -> bool {
        self.wf()
    }

    fn next_move(&mut self, state: &GameState, t: &LineTable) -> (r: Column) {
        let res = self.decide(state);
        match res {
            Ok(c) => c,
            Err(_) => {
                proof {
                    assert(false);
                }
                Column::A
            },
        }
    }
}

} // verus!
