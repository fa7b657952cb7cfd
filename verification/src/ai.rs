//! Depth-bounded adversarial search: tree building and minimax with
//! alpha-beta pruning over integer scores.

use crate::game::{
    Board, BoardView, Direction, combined_line, edge_x, edge_y, lemma_grid_index,
    lemma_grid_split, lemma_pow2_mono, lemma_pow2_pos, line_count, merge_pairs,
    occupied_values, oriented_line, pow2, shifted, shifted_cell, with_tile,
};
use vstd::prelude::*;

verus! {

/// A leaf evaluator: anything that scores a board snapshot.  The
/// search calls `evaluate`; every implementation must return exactly
/// the value its own `spec_eval` names, so search contracts can speak
/// of scores mathematically.
pub trait Evaluator {
    /// The value this evaluator gives a board.
    spec fn spec_eval(&self, b: BoardView) -> int;

    /// Scores one board snapshot.
    fn evaluate(&self, b: &Board) -> (r: i64)
        ensures
            r as int == self.spec_eval(b@),
    ;
}

/// An evaluator that scores every board the same; with it a search
/// resolves purely by enumeration order.
pub struct ConstantEvaluator {
    pub value: i64,
}

impl Evaluator for ConstantEvaluator {
    open spec fn spec_eval(&self, b: BoardView) -> int {
        self.value as int
    }

    fn evaluate(&self, b: &Board) -> (r: i64)
        ensures
            r as int == self.spec_eval(b@),
    {
        self.value
    }
}

/// Who moves at a node.  At a `Decision` node the player picks a
/// shift direction and the score is the maximum over the children; at
/// a `Chance(d)` node (reached by shifting along `d`) the adversary
/// picks a tile placement and the score is the minimum.
#[derive(Clone, Copy, Debug, PartialEq, Eq, Structural)]
pub enum Role {
    Decision,
    Chance(Direction),
}

/// The direction a `Chance` node was reached by.
pub open spec fn role_dir(r: Role) -> Option<Direction> {
    match r {
        Role::Chance(d) => Some(d),
        Role::Decision => None,
    }
}

/// One node of the bounded search tree: a board snapshot, its ply
/// counter, its role, and its fully built child list (empty at a
/// leaf, whether the ply limit was hit or no expansion is legal).
pub struct AINode {
    board: Board,
    layer: u32,
    role: Role,
    options: Vec<AINode>,
}

impl AINode {
    pub closed spec fn spec_board(&self) -> BoardView {
        self.board@
    }

    pub closed spec fn spec_layer(&self) -> u32 {
        self.layer
    }

    pub closed spec fn spec_role(&self) -> Role {
        self.role
    }

    pub closed spec fn children(&self) -> Seq<AINode> {
        self.options@
    }
}

/// The exact minimax value of a node: the evaluator's score at a
/// leaf, the best child for the player at a `Decision` node, the
/// worst child for the player at a `Chance` node.
pub open spec fn node_score<E: Evaluator>(n: AINode, e: E) -> int
    decreases n, 1int, 0int,
{
    if n.children().len() == 0 {
        e.spec_eval(n.spec_board())
    } else if n.spec_role() is Decision {
        best_score_prefix(n, e, n.children().len() as int)
    } else {
        worst_score_prefix(n, e, n.children().len() as int)
    }
}

/// The maximum score among the first `k` children.
pub open spec fn best_score_prefix<E: Evaluator>(n: AINode, e: E, k: int) -> int
    recommends
        1 <= k <= n.children().len(),
    decreases n, 0int, k,
        when 1 <= k <= n.children().len()
        via best_score_prefix_decreases::<E>
{
    if k <= 1 {
        node_score(n.children()[0], e)
    } else {
        let prev = best_score_prefix(n, e, k - 1);
        let cur = node_score(n.children()[k - 1], e);
        if cur > prev {
            cur
        } else {
            prev
        }
    }
}

/// The minimum score among the first `k` children.
pub open spec fn worst_score_prefix<E: Evaluator>(n: AINode, e: E, k: int) -> int
    recommends
        1 <= k <= n.children().len(),
    decreases n, 0int, k,
        when 1 <= k <= n.children().len()
        via worst_score_prefix_decreases::<E>
{
    if k <= 1 {
        node_score(n.children()[0], e)
    } else {
        let prev = worst_score_prefix(n, e, k - 1);
        let cur = node_score(n.children()[k - 1], e);
        if cur < prev {
            cur
        } else {
            prev
        }
    }
}

/// The first index achieving the maximum among the first `k`
/// children: on ties the earlier child in enumeration order wins.
pub open spec fn best_index_prefix<E: Evaluator>(n: AINode, e: E, k: int) -> int
    recommends
        1 <= k <= n.children().len(),
    decreases n, 0int, k,
        when 1 <= k <= n.children().len()
        via best_index_prefix_decreases::<E>
{
    if k <= 1 {
        0
    } else {
        let prev = best_index_prefix(n, e, k - 1);
        if node_score(n.children()[k - 1], e) > best_score_prefix(n, e, k - 1) {
            k - 1
        } else {
            prev
        }
    }
}

/// Any child is structurally below its node, for termination.
proof fn lemma_child_decreases(n: AINode, i: int)
    requires
        0 <= i < n.children().len(),
    ensures
        decreases_to!(n => n.children()[i]),
{
    assert(decreases_to!(n => n.options));
    assert(decreases_to!(n.options => n.options@));
    assert(decreases_to!(n.options@ => n.options@[i]));
}

#[via_fn]
proof fn best_score_prefix_decreases<E: Evaluator>(n: AINode, e: E, k: int) {
    if k <= 1 {
        lemma_child_decreases(n, 0);
    } else {
        lemma_child_decreases(n, k - 1);
    }
}

#[via_fn]
proof fn worst_score_prefix_decreases<E: Evaluator>(n: AINode, e: E, k: int) {
    if k <= 1 {
        lemma_child_decreases(n, 0);
    } else {
        lemma_child_decreases(n, k - 1);
    }
}

#[via_fn]
proof fn best_index_prefix_decreases<E: Evaluator>(n: AINode, e: E, k: int) {
    if k > 1 {
        lemma_child_decreases(n, k - 1);
    }
}

/// The direction the search recommends at a node: the direction of
/// the first best child of a `Decision` node, `None` when there is no
/// legal move (or the node is not the player's turn).
pub open spec fn node_direction<E: Evaluator>(n: AINode, e: E) -> Option<Direction> {
    if n.spec_role() is Decision && n.children().len() > 0 {
        role_dir(n.children()[best_index_prefix(n, e, n.children().len() as int)].spec_role())
    } else {
        None
    }
}

/// The prefix maximum never decreases as more children are seen.
proof fn lemma_best_prefix_mono<E: Evaluator>(n: AINode, e: E, j: int, k: int)
    requires
        1 <= j <= k,
        k <= n.children().len(),
    ensures
        best_score_prefix(n, e, j) <= best_score_prefix(n, e, k),
    decreases k,
{
    if j < k {
        lemma_best_prefix_mono(n, e, j, k - 1);
    }
}

/// The prefix minimum never increases as more children are seen.
proof fn lemma_worst_prefix_mono<E: Evaluator>(n: AINode, e: E, j: int, k: int)
    requires
        1 <= j <= k,
        k <= n.children().len(),
    ensures
        worst_score_prefix(n, e, j) >= worst_score_prefix(n, e, k),
    decreases k,
{
    if j < k {
        lemma_worst_prefix_mono(n, e, j, k - 1);
    }
}

/// The first best index is in range, achieves the prefix maximum, and
/// every earlier child scores strictly less.
pub proof fn lemma_best_index<E: Evaluator>(n: AINode, e: E, k: int)
    requires
        1 <= k <= n.children().len(),
    ensures
        0 <= best_index_prefix(n, e, k) < k,
        node_score(n.children()[best_index_prefix(n, e, k)], e) == best_score_prefix(n, e, k),
        forall|m: int| 0 <= m < k ==> node_score(#[trigger] n.children()[m], e)
            <= best_score_prefix(n, e, k),
        forall|m: int| 0 <= m < best_index_prefix(n, e, k) ==> node_score(
            #[trigger] n.children()[m],
            e,
        ) < best_score_prefix(n, e, k),
    decreases k,
{
    if k > 1 {
        lemma_best_index(n, e, k - 1);
    }
}

/// A search outcome: a score paired with the root-level direction
/// that achieves it (`None` when the player has no legal move).
pub struct MinMaxResult {
    score: i64,
    direction: Option<Direction>,
}

impl MinMaxResult {
    pub closed spec fn spec_score(&self) -> i64 {
        self.score
    }

    pub closed spec fn spec_direction(&self) -> Option<Direction> {
        self.direction
    }

    fn new(score: i64, direction: Option<Direction>) -> (r: MinMaxResult)
        ensures
            r.spec_score() == score,
            r.spec_direction() == direction,
    {
        MinMaxResult { score, direction }
    }

    pub fn get_score(&self) -> (s: i64)
        ensures
            s == self.spec_score(),
    {
        self.score
    }

    pub fn get_direction(&self) -> (d: Option<Direction>)
        ensures
            d == self.spec_direction(),
    {
        self.direction
    }
}

/// `x` clears the running lower bound.
pub open spec fn above(x: int, alpha: Option<i64>) -> bool {
    match alpha {
        None => true,
        Some(a) => x > a,
    }
}

/// `x` clears the running upper bound.
pub open spec fn below(x: int, beta: Option<i64>) -> bool {
    match beta {
        None => true,
        Some(b) => x < b,
    }
}

/// What pruned search guarantees about a reported score `r` against
/// the true minimax value `t`: exact strictly inside the window, and
/// outside it, on the same side of the bound that `t` fails.
pub open spec fn ab_ok(r: int, t: int, alpha: Option<i64>, beta: Option<i64>) -> bool {
    &&& (above(t, alpha) && below(t, beta)) ==> r == t
    &&& !above(t, alpha) ==> !above(r, alpha)
    &&& !below(t, beta) ==> !below(r, beta)
}

/// The direction carried by a child's role.
fn role_direction(r: &Role) -> (d: Option<Direction>)
    ensures
        d == role_dir(*r),
{
    match r {
        Role::Chance(dd) => Some(*dd),
        Role::Decision => None,
    }
}

/// The search engines.
pub struct AI {
    board: Board,
    depth: u32,
    root: Option<AINode>,
}

impl AI {
    /// Exhaustive minimax without pruning: scores every node of the
    /// tree and picks, at a decision node, the first best child in
    /// enumeration order.
    pub fn minimax_plain<E: Evaluator>(node: &AINode, heuristic: &E) -> (r: MinMaxResult)
        ensures
            r.spec_score() as int == node_score(*node, *heuristic),
            r.spec_direction() == node_direction(*node, *heuristic),
        decreases *node,
    {
        let k = node.options.len();
        if k == 0 {
            let s = heuristic.evaluate(&node.board);
            return MinMaxResult::new(s, None);
        }
        proof {
            lemma_child_decreases(*node, 0);
        }
        match node.role {
            Role::Decision => {
                let v0 = AI::minimax_plain(&node.options[0], heuristic);
                let mut best = v0.score;
                let mut best_dir = role_direction(&node.options[0].role);
                let mut j: usize = 1;
                while j < k
                    invariant
                        1 <= j <= k,
                        k == node.children().len(),
                        node.spec_role() is Decision,
                        best as int == best_score_prefix(*node, *heuristic, j as int),
                        best_dir == role_dir(
                            node.children()[best_index_prefix(
                                *node,
                                *heuristic,
                                j as int,
                            )].spec_role(),
                        ),
                    decreases k - j,
                {
                    proof {
                        lemma_child_decreases(*node, j as int);
                        lemma_best_index(*node, *heuristic, j as int);
                    }
                    let val = AI::minimax_plain(&node.options[j], heuristic);
                    if val.score > best {
                        best = val.score;
                        best_dir = role_direction(&node.options[j].role);
                    }
                    j += 1;
                }
                MinMaxResult::new(best, best_dir)
            }
            Role::Chance(_) => {
                let v0 = AI::minimax_plain(&node.options[0], heuristic);
                let mut best = v0.score;
                let mut j: usize = 1;
                while j < k
                    invariant
                        1 <= j <= k,
                        k == node.children().len(),
                        !(node.spec_role() is Decision),
                        best as int == worst_score_prefix(*node, *heuristic, j as int),
                    decreases k - j,
                {
                    proof {
                        lemma_child_decreases(*node, j as int);
                    }
                    let val = AI::minimax_plain(&node.options[j], heuristic);
                    if val.score < best {
                        best = val.score;
                    }
                    j += 1;
                }
                MinMaxResult::new(best, None)
            }
        }
    }

    /// The alpha-beta engine.  Called with both bounds open it
    /// returns the exact minimax score of `node` and, at a decision
    /// node, the first best direction in enumeration order; under
    /// bounds its score still satisfies `ab_ok` against the true
    /// value, which is what lets a caller prune safely.
    pub fn minimaxfn<E: Evaluator>(
        node: &AINode,
        alpha: Option<i64>,
        beta: Option<i64>,
        heuristic: &E,
    ) -> (r: MinMaxResult)
        requires
            alpha is Some && beta is Some ==> alpha->0 <= beta->0,
        ensures
            ab_ok(r.spec_score() as int, node_score(*node, *heuristic), alpha, beta),
            !(node.spec_role() is Decision && node.children().len() > 0)
                ==> r.spec_direction() is None,
            alpha is None && beta is None ==> r.spec_score() as int == node_score(
                *node,
                *heuristic,
            ) && r.spec_direction() == node_direction(*node, *heuristic),
        decreases *node,
    {
        let k = node.options.len();
        if k == 0 {
            let s = heuristic.evaluate(&node.board);
            return MinMaxResult::new(s, None);
        }
        proof {
            lemma_child_decreases(*node, 0);
        }
        match node.role {
            Role::Decision => {
                let v0 = AI::minimaxfn(&node.options[0], alpha, beta, heuristic);
                let mut best = v0.score;
                let mut best_dir = role_direction(&node.options[0].role);
                let mut cur_alpha = match alpha {
                    None => Some(v0.score),
                    Some(a) => if v0.score > a {
                        Some(v0.score)
                    } else {
                        Some(a)
                    },
                };
                let mut pruned = match (cur_alpha, beta) {
                    (Some(a), Some(b)) => a > b,
                    _ => false,
                };
                proof {
                    if pruned {
                        lemma_decision_prune(
                            *node,
                            *heuristic,
                            alpha,
                            beta,
                            alpha,
                            v0.score as int,
                            best as int,
                            1,
                            k as int,
                        );
                    }
                }
                let mut j: usize = 1;
                while j < k && !pruned
                    invariant
                        1 <= j <= k,
                        k == node.children().len(),
                        node.spec_role() is Decision,
                        alpha is Some && beta is Some ==> alpha->0 <= beta->0,
                        cur_alpha == (if above(best as int, alpha) {
                            Some(best)
                        } else {
                            alpha
                        }),
                        !pruned ==> (cur_alpha is Some && beta is Some ==> cur_alpha->0
                            <= beta->0),
                        (above(best_score_prefix(*node, *heuristic, j as int), alpha) && below(
                            best_score_prefix(*node, *heuristic, j as int),
                            beta,
                        )) ==> best as int == best_score_prefix(*node, *heuristic, j as int),
                        !above(best_score_prefix(*node, *heuristic, j as int), alpha) ==> !above(
                            best as int,
                            alpha,
                        ),
                        !below(best_score_prefix(*node, *heuristic, j as int), beta) ==> !below(
                            best as int,
                            beta,
                        ),
                        beta is None ==> !pruned,
                        pruned ==> ab_ok(
                            best as int,
                            best_score_prefix(*node, *heuristic, k as int),
                            alpha,
                            beta,
                        ),
                        alpha is None && beta is None ==> best_dir == role_dir(
                            node.children()[best_index_prefix(
                                *node,
                                *heuristic,
                                j as int,
                            )].spec_role(),
                        ),
                    decreases k - j,
                {
                    proof {
                        lemma_child_decreases(*node, j as int);
                        lemma_best_index(*node, *heuristic, j as int);
                    }
                    let ghost a0 = cur_alpha;
                    let ghost old_best = best;
                    let ghost tj = best_score_prefix(*node, *heuristic, j as int);
                    let ghost tc = node_score(node.children()[j as int], *heuristic);
                    let val = AI::minimaxfn(&node.options[j], cur_alpha, beta, heuristic);
                    proof {
                        assert(best_score_prefix(*node, *heuristic, j + 1) == (if tc > tj {
                            tc
                        } else {
                            tj
                        }));
                        assert(best_index_prefix(*node, *heuristic, j + 1) == (if tc > tj {
                            j as int
                        } else {
                            best_index_prefix(*node, *heuristic, j as int)
                        }));
                    }
                    if val.score > best {
                        best = val.score;
                        best_dir = role_direction(&node.options[j].role);
                    }
                    match cur_alpha {
                        None => {
                            cur_alpha = Some(val.score);
                        }
                        Some(a) => {
                            if val.score > a {
                                cur_alpha = Some(val.score);
                            }
                        }
                    }
                    let do_prune = match (cur_alpha, beta) {
                        (Some(a), Some(b)) => a > b,
                        _ => false,
                    };
                    if do_prune {
                        pruned = true;
                        proof {
                            lemma_decision_prune(
                                *node,
                                *heuristic,
                                a0,
                                beta,
                                alpha,
                                val.score as int,
                                best as int,
                                j + 1,
                                k as int,
                            );
                        }
                    }
                    j += 1;
                }
                MinMaxResult::new(best, best_dir)
            }
            Role::Chance(_) => {
                let v0 = AI::minimaxfn(&node.options[0], alpha, beta, heuristic);
                let mut best = v0.score;
                let mut cur_beta = match beta {
                    None => Some(v0.score),
                    Some(b) => if v0.score < b {
                        Some(v0.score)
                    } else {
                        Some(b)
                    },
                };
                let mut pruned = match (alpha, cur_beta) {
                    (Some(a), Some(b)) => a > b,
                    _ => false,
                };
                proof {
                    if pruned {
                        lemma_chance_prune(
                            *node,
                            *heuristic,
                            alpha,
                            beta,
                            beta,
                            v0.score as int,
                            best as int,
                            1,
                            k as int,
                        );
                    }
                }
                let mut j: usize = 1;
                while j < k && !pruned
                    invariant
                        1 <= j <= k,
                        k == node.children().len(),
                        !(node.spec_role() is Decision),
                        alpha is Some && beta is Some ==> alpha->0 <= beta->0,
                        cur_beta == (if below(best as int, beta) {
                            Some(best)
                        } else {
                            beta
                        }),
                        !pruned ==> (alpha is Some && cur_beta is Some ==> alpha->0
                            <= cur_beta->0),
                        (above(worst_score_prefix(*node, *heuristic, j as int), alpha) && below(
                            worst_score_prefix(*node, *heuristic, j as int),
                            beta,
                        )) ==> best as int == worst_score_prefix(*node, *heuristic, j as int),
                        !above(worst_score_prefix(*node, *heuristic, j as int), alpha) ==> !above(
                            best as int,
                            alpha,
                        ),
                        !below(worst_score_prefix(*node, *heuristic, j as int), beta) ==> !below(
                            best as int,
                            beta,
                        ),
                        alpha is None ==> !pruned,
                        pruned ==> ab_ok(
                            best as int,
                            worst_score_prefix(*node, *heuristic, k as int),
                            alpha,
                            beta,
                        ),
                    decreases k - j,
                {
                    proof {
                        lemma_child_decreases(*node, j as int);
                    }
                    let ghost b0 = cur_beta;
                    let ghost tj = worst_score_prefix(*node, *heuristic, j as int);
                    let ghost tc = node_score(node.children()[j as int], *heuristic);
                    let val = AI::minimaxfn(&node.options[j], alpha, cur_beta, heuristic);
                    proof {
                        assert(worst_score_prefix(*node, *heuristic, j + 1) == (if tc < tj {
                            tc
                        } else {
                            tj
                        }));
                    }
                    if val.score < best {
                        best = val.score;
                    }
                    match cur_beta {
                        None => {
                            cur_beta = Some(val.score);
                        }
                        Some(b) => {
                            if val.score < b {
                                cur_beta = Some(val.score);
                            }
                        }
                    }
                    let do_prune = match (alpha, cur_beta) {
                        (Some(a), Some(b)) => a > b,
                        _ => false,
                    };
                    if do_prune {
                        pruned = true;
                        proof {
                            lemma_chance_prune(
                                *node,
                                *heuristic,
                                alpha,
                                b0,
                                beta,
                                val.score as int,
                                best as int,
                                j + 1,
                                k as int,
                            );
                        }
                    }
                    j += 1;
                }
                MinMaxResult::new(best, None)
            }
        }
    }
}

/// Why pruning at a decision node is sound: once the running lower
/// bound passes `beta`, the node's true value also fails `beta`, so
/// the reported best-so-far satisfies `ab_ok` for the full node.
proof fn lemma_decision_prune<E: Evaluator>(
    n: AINode,
    e: E,
    a0: Option<i64>,
    beta: Option<i64>,
    alpha: Option<i64>,
    val: int,
    best: int,
    j1: int,
    k: int,
)
    requires
        1 <= j1 <= k,
        k == n.children().len(),
        beta is Some,
        a0 is Some ==> a0->0 <= beta->0,
        alpha is Some ==> (a0 is Some && alpha->0 <= a0->0),
        alpha is Some && beta is Some ==> alpha->0 <= beta->0,
        ab_ok(val, node_score(n.children()[j1 - 1], e), a0, beta),
        best >= val,
        val > beta->0,
        best_score_prefix(n, e, j1) >= node_score(n.children()[j1 - 1], e),
    ensures
        ab_ok(best, best_score_prefix(n, e, k), alpha, beta),
{
    let tc = node_score(n.children()[j1 - 1], e);
    // the child's true value already fails the upper bound
    if below(tc, beta) {
        if above(tc, a0) {
            assert(val == tc);
            assert(false);
        } else {
            assert(!above(val, a0));
            assert(false);
        }
    }
    assert(!below(tc, beta));
    lemma_best_prefix_mono(n, e, j1, k);
    let t = best_score_prefix(n, e, k);
    assert(t >= tc);
    assert(!below(t, beta));
    assert(!below(best, beta));
    // the exact-window clause is vacuous, and the lower-bound clause
    // cannot fire: it would force every bound to coincide, which the
    // child's own contract rules out
    if !above(t, alpha) {
        assert(alpha is Some);
        assert(t <= alpha->0);
        assert(tc <= t);
        assert(tc == alpha->0 && alpha->0 == beta->0);
        assert(!above(tc, a0));
        assert(!above(val, a0));
        assert(val <= a0->0 <= beta->0);
        assert(false);
    }
}

/// The mirror image for a chance node: once the running upper bound
/// falls under `alpha`, the node's true value also fails `alpha`.
proof fn lemma_chance_prune<E: Evaluator>(
    n: AINode,
    e: E,
    alpha: Option<i64>,
    b0: Option<i64>,
    beta: Option<i64>,
    val: int,
    best: int,
    j1: int,
    k: int,
)
    requires
        1 <= j1 <= k,
        k == n.children().len(),
        alpha is Some,
        b0 is Some ==> alpha->0 <= b0->0,
        beta is Some ==> (b0 is Some && b0->0 <= beta->0),
        alpha is Some && beta is Some ==> alpha->0 <= beta->0,
        ab_ok(val, node_score(n.children()[j1 - 1], e), alpha, b0),
        best <= val,
        val < alpha->0,
        worst_score_prefix(n, e, j1) <= node_score(n.children()[j1 - 1], e),
    ensures
        ab_ok(best, worst_score_prefix(n, e, k), alpha, beta),
{
    let tc = node_score(n.children()[j1 - 1], e);
    if above(tc, alpha) {
        if below(tc, b0) {
            assert(val == tc);
            assert(false);
        } else {
            assert(!below(val, b0));
            assert(false);
        }
    }
    assert(!above(tc, alpha));
    lemma_worst_prefix_mono(n, e, j1, k);
    let t = worst_score_prefix(n, e, k);
    assert(t <= tc);
    assert(!above(t, alpha));
    assert(!above(best, alpha));
    if !below(t, beta) {
        assert(beta is Some);
        assert(t >= beta->0);
        assert(tc == beta->0 && alpha->0 == beta->0);
        assert(!below(tc, b0));
        assert(!below(val, b0));
        assert(val >= b0->0 >= alpha->0);
        assert(false);
    }
}


/// The fixed enumeration order of directions at a decision level.
pub open spec fn dir_order() -> Seq<Direction> {
    seq![Direction::DOWN, Direction::LEFT, Direction::RIGHT, Direction::UP]
}

/// Of the directions in `ds`, those whose shift changes the board.
pub open spec fn changed_dirs_from(b: BoardView, ds: Seq<Direction>) -> Seq<Direction>
    decreases ds.len(),
{
    if ds.len() == 0 {
        Seq::empty()
    } else {
        let rest = changed_dirs_from(b, ds.skip(1));
        if shifted(b, ds[0]).cells != b.cells {
            seq![ds[0]] + rest
        } else {
            rest
        }
    }
}

/// The legal player moves: the directions whose shift-and-merge
/// changes the board, in enumeration order DOWN, LEFT, RIGHT, UP.
pub open spec fn legal_dirs(b: BoardView) -> Seq<Direction> {
    changed_dirs_from(b, dir_order())
}

/// The empty slots of the insertion edge for `d`, from slot `i` on.
pub open spec fn empty_slots_from(b: BoardView, d: Direction, i: int) -> Seq<int>
    decreases line_count(b, d) - i,
{
    if i < 0 || i >= line_count(b, d) {
        Seq::empty()
    } else {
        let rest = empty_slots_from(b, d, i + 1);
        if b.cell(edge_x(b, d, i), edge_y(b, d, i)) is None {
            seq![i] + rest
        } else {
            rest
        }
    }
}

/// The adversary's legal placements after a shift along `d`.
pub open spec fn empty_slots(b: BoardView, d: Direction) -> Seq<int> {
    empty_slots_from(b, d, 0)
}

/// Every legal placement slot lies on the insertion edge.
proof fn lemma_empty_slots_range(b: BoardView, d: Direction, i: int)
    ensures
        forall|j: int| 0 <= j < empty_slots_from(b, d, i).len()
            ==> i <= #[trigger] empty_slots_from(b, d, i)[j] < line_count(b, d)
                && b.cell(
                edge_x(b, d, empty_slots_from(b, d, i)[j]),
                edge_y(b, d, empty_slots_from(b, d, i)[j]),
            ) is None,
    decreases line_count(b, d) - i,
{
    if 0 <= i < line_count(b, d) {
        lemma_empty_slots_range(b, d, i + 1);
    }
}

/// Every tile exponent still has `slack` merges of headroom.
pub open spec fn exponents_bounded(b: BoardView, slack: int) -> bool {
    forall|i: int|
        0 <= i < b.cells.len() && b.cells[i] is Some ==> b.cells[i]->0 + slack < u32::MAX
}

/// Merging raises each value by at most one and never lengthens.
proof fn lemma_merge_values_bound(s: Seq<u32>, m: int)
    requires
        forall|j: int| 0 <= j < s.len() ==> s[j] < m,
    ensures
        merge_pairs(s).len() <= s.len(),
        forall|j: int| 0 <= j < merge_pairs(s).len() ==> merge_pairs(s)[j] < m + 1,
    decreases s.len(),
{
    if s.len() >= 2 && s[0] == s[1] {
        assert(forall|j: int| 0 <= j < s.skip(2).len() ==> s.skip(2)[j] < m);
        lemma_merge_values_bound(s.skip(2), m);
    } else if s.len() >= 1 {
        assert(forall|j: int| 0 <= j < s.skip(1).len() ==> s.skip(1)[j] < m);
        lemma_merge_values_bound(s.skip(1), m);
    }
}

/// The occupied values of a line stay within the line's bound.
proof fn lemma_occupied_values_bound(s: Seq<Option<u32>>, m: int)
    requires
        forall|j: int| 0 <= j < s.len() && s[j] is Some ==> s[j]->0 < m,
    ensures
        occupied_values(s).len() <= s.len(),
        forall|j: int| 0 <= j < occupied_values(s).len() ==> occupied_values(s)[j] < m,
    decreases s.len(),
{
    if s.len() > 0 {
        assert(forall|j: int| 0 <= j < s.skip(1).len() && s.skip(1)[j] is Some
            ==> s.skip(1)[j]->0 < m);
        lemma_occupied_values_bound(s.skip(1), m);
    }
}

/// A combined line keeps its exponents under the bound plus one.
proof fn lemma_combined_bound(l: Seq<Option<u32>>, m: int)
    requires
        forall|j: int| 0 <= j < l.len() && l[j] is Some ==> l[j]->0 < m,
    ensures
        forall|j: int|
            0 <= j < combined_line(l).len() && combined_line(l)[j] is Some
                ==> combined_line(l)[j]->0 < m + 1,
{
    lemma_occupied_values_bound(l, m);
    lemma_merge_values_bound(occupied_values(l), m);
}

/// An oriented line of a bounded board is itself bounded.
proof fn lemma_oriented_bound(b: BoardView, dir: Direction, i: int, m: int)
    requires
        b.wf(),
        0 <= i < line_count(b, dir),
        forall|k: int| 0 <= k < b.cells.len() && b.cells[k] is Some ==> b.cells[k]->0 < m,
    ensures
        forall|j: int|
            0 <= j < oriented_line(b, dir, i).len() && oriented_line(b, dir, i)[j] is Some
                ==> oriented_line(b, dir, i)[j]->0 < m,
{
    let l = oriented_line(b, dir, i);
    assert forall|j: int| 0 <= j < l.len() && l[j] is Some implies l[j]->0 < m by {
        match dir {
            Direction::LEFT => {
                assert(l[j] == b.cell(j, i));
                lemma_grid_index(b.width, b.height, j, i);
            }
            Direction::RIGHT => {
                assert(l[j] == b.row(i)[b.width - 1 - j]);
                assert(l[j] == b.cell(b.width - 1 - j, i));
                lemma_grid_index(b.width, b.height, b.width - 1 - j, i);
            }
            Direction::UP => {
                assert(l[j] == b.cell(i, j));
                lemma_grid_index(b.width, b.height, i, j);
            }
            Direction::DOWN => {
                assert(l[j] == b.col(i)[b.height - 1 - j]);
                assert(l[j] == b.cell(i, b.height - 1 - j));
                lemma_grid_index(b.width, b.height, i, b.height - 1 - j);
            }
        }
    }
}

/// One shift eats at most one unit of exponent headroom.
#[verifier::rlimit(50)]
pub proof fn lemma_shifted_bounded(b: BoardView, dir: Direction, slack: int)
    requires
        b.wf(),
        exponents_bounded(b, slack),
        slack >= 1,
    ensures
        exponents_bounded(shifted(b, dir), slack - 1),
{
    let sh = shifted(b, dir);
    let m = u32::MAX - slack;
    assert(forall|k: int| 0 <= k < b.cells.len() && b.cells[k] is Some ==> b.cells[k]->0 < m);
    assert(sh.cells.len() == b.cells.len());
    assert forall|k: int| 0 <= k < sh.cells.len() && sh.cells[k] is Some
        implies sh.cells[k]->0 + slack - 1 < u32::MAX by {
        assert(0 <= k < b.width * b.height);
        if b.width > 0 {
            lemma_grid_split(b.width, b.height, k);
            let x = k % (b.width as int);
            let y = k / (b.width as int);
            assert(sh.cells[k] == shifted_cell(b, dir, x, y));
            match dir {
                Direction::LEFT => {
                    let l = oriented_line(b, dir, y);
                    lemma_oriented_bound(b, dir, y, m);
                    lemma_combined_bound(l, m);
                    assert(l.len() == b.width);
                    assert(sh.cells[k] == combined_line(l)[x]);
                    assert(combined_line(l)[x] is Some ==> combined_line(l)[x]->0 < m + 1);
                }
                Direction::RIGHT => {
                    let l = oriented_line(b, dir, y);
                    lemma_oriented_bound(b, dir, y, m);
                    lemma_combined_bound(l, m);
                    assert(l.len() == b.width);
                    assert(sh.cells[k] == combined_line(l)[b.width - 1 - x]);
                    assert(combined_line(l)[b.width - 1 - x] is Some ==> combined_line(
                        l,
                    )[b.width - 1 - x]->0 < m + 1);
                }
                Direction::UP => {
                    let l = oriented_line(b, dir, x);
                    lemma_oriented_bound(b, dir, x, m);
                    lemma_combined_bound(l, m);
                    assert(l.len() == b.height);
                    assert(sh.cells[k] == combined_line(l)[y]);
                    assert(combined_line(l)[y] is Some ==> combined_line(l)[y]->0 < m + 1);
                }
                Direction::DOWN => {
                    let l = oriented_line(b, dir, x);
                    lemma_oriented_bound(b, dir, x, m);
                    lemma_combined_bound(l, m);
                    assert(l.len() == b.height);
                    assert(sh.cells[k] == combined_line(l)[b.height - 1 - y]);
                    assert(combined_line(l)[b.height - 1 - y] is Some ==> combined_line(
                        l,
                    )[b.height - 1 - y]->0 < m + 1);
                }
            }
            assert(sh.cells[k]->0 < m + 1);
        } else {
            assert(b.cells.len() == b.width * b.height);
            assert(b.width * b.height == 0) by (nonlinear_arith)
                requires b.width == 0;
            assert(false);
        }
    }
}

/// Placing a fresh tile of exponent 0 keeps the board bounded.
pub proof fn lemma_with_tile_bounded(b: BoardView, x: int, y: int, slack: int)
    requires
        b.wf(),
        0 <= x < b.width,
        0 <= y < b.height,
        exponents_bounded(b, slack),
        1 <= slack <= u32::MAX,
    ensures
        exponents_bounded(with_tile(b, x, y, 0), slack - 1),
{
    lemma_grid_index(b.width, b.height, x, y);
}

/// How a node's children must look, one level down: a `Decision` node
/// has one `Chance(d)` child per legal direction `d`, in enumeration
/// order; a `Chance(d)` node has one `Decision` child per empty slot
/// on the insertion edge for `d`, in slot order.
pub open spec fn children_shape(n: AINode) -> bool {
    match n.spec_role() {
        Role::Decision => {
            let ds = legal_dirs(n.spec_board());
            &&& n.children().len() == ds.len()
            &&& forall|i: int|
                0 <= i < ds.len() ==> {
                    let c = #[trigger] n.children()[i];
                    &&& c.spec_role() == Role::Chance(ds[i])
                    &&& c.spec_board() == shifted(n.spec_board(), ds[i])
                    &&& c.spec_layer() == n.spec_layer() + 1
                }
        },
        Role::Chance(d) => {
            let ss = empty_slots(n.spec_board(), d);
            &&& n.children().len() == ss.len()
            &&& forall|i: int|
                0 <= i < ss.len() ==> {
                    let c = #[trigger] n.children()[i];
                    &&& c.spec_role() == Role::Decision
                    &&& c.spec_board() == with_tile(
                        n.spec_board(),
                        edge_x(n.spec_board(), d, ss[i]),
                        edge_y(n.spec_board(), d, ss[i]),
                        0,
                    )
                    &&& c.spec_layer() == n.spec_layer() + 1
                }
        },
    }
}

/// A properly built search tree, bounded by `max_ply`: every node
/// below the ply limit is expanded exactly as `children_shape` says,
/// and every node at the limit is a leaf.
pub open spec fn wf_node(n: AINode, max_ply: u32) -> bool
    decreases n,
        via wf_node_decreases
{
    &&& n.spec_board().wf()
    &&& n.spec_board().width > 0
    &&& n.spec_board().height > 0
    &&& n.spec_layer() <= max_ply
    &&& exponents_bounded(n.spec_board(), max_ply - n.spec_layer())
    &&& if n.spec_layer() == max_ply {
        n.children().len() == 0
    } else {
        &&& children_shape(n)
        &&& forall|i: int|
            0 <= i < n.children().len() ==> wf_node(#[trigger] n.children()[i], max_ply)
    }
}

#[via_fn]
proof fn wf_node_decreases(n: AINode, max_ply: u32) {
    assert forall|i: int| 0 <= i < n.children().len() implies decreases_to!(
        n => n.children()[i]
    ) by {
        lemma_child_decreases(n, i);
    }
}

/// The directions carried by a list of chance children.
pub open spec fn child_dirs(cs: Seq<AINode>) -> Seq<Direction> {
    Seq::new(
        cs.len(),
        |j: int|
            match cs[j].spec_role() {
                Role::Chance(dd) => dd,
                Role::Decision => Direction::DOWN,
            },
    )
}

/// The direction at position `i` of the enumeration order.
fn dir_at(i: usize) -> (d: Direction)
    requires
        i < 4,
    ensures
        d == dir_order()[i as int],
{
    match i {
        0 => Direction::DOWN,
        1 => Direction::LEFT,
        2 => Direction::RIGHT,
        _ => Direction::UP,
    }
}

impl AINode {
    fn new(board: Board, layer: u32, role: Role) -> (n: AINode)
        ensures
            n.spec_board() == board@,
            n.spec_layer() == layer,
            n.spec_role() == role,
            n.children().len() == 0,
    {
        AINode { board, layer, role, options: Vec::new() }
    }

    fn add_option(&mut self, node: AINode)
        ensures
            final(self).children() == old(self).children().push(node),
            final(self).spec_board() == old(self).spec_board(),
            final(self).spec_layer() == old(self).spec_layer(),
            final(self).spec_role() == old(self).spec_role(),
    {
        self.options.push(node);
    }

    /// Expands one level, as `children_shape` prescribes.
    fn add_layer(&mut self)
        requires
            old(self).children().len() == 0,
            old(self).spec_board().wf(),
            old(self).spec_board().width > 0,
            old(self).spec_board().height > 0,
            old(self).spec_board().ok(),
            old(self).spec_layer() < u32::MAX,
        ensures
            final(self).spec_board() == old(self).spec_board(),
            final(self).spec_layer() == old(self).spec_layer(),
            final(self).spec_role() == old(self).spec_role(),
            children_shape(*final(self)),
            forall|i: int|
                0 <= i < final(self).children().len()
                    ==> #[trigger] final(self).children()[i].children().len() == 0,
    {
        let ghost b = self.spec_board();
        match self.role {
            Role::Decision => {
                proof {
                    assert(dir_order().skip(0) =~= dir_order());
                    assert(Seq::<Direction>::empty() + changed_dirs_from(b, dir_order())
                        =~= changed_dirs_from(b, dir_order()));
                }
                let mut i: usize = 0;
                while i < 4
                    invariant
                        self.spec_board() == b,
                        b.wf(),
                        b.width > 0,
                        b.height > 0,
                        b.ok(),
                        self.spec_layer() == old(self).spec_layer(),
                        self.spec_role() == old(self).spec_role(),
                        self.spec_role() is Decision,
                        old(self).spec_layer() < u32::MAX,
                        i <= 4,
                        legal_dirs(b) == child_dirs(self.children()) + changed_dirs_from(
                            b,
                            dir_order().skip(i as int),
                        ),
                        forall|j: int|
                            0 <= j < self.children().len() ==> {
                                let c = #[trigger] self.children()[j];
                                &&& c.spec_role() == Role::Chance(
                                    child_dirs(self.children())[j],
                                )
                                &&& c.spec_board() == shifted(b, child_dirs(self.children())[j])
                                &&& c.spec_layer() == old(self).spec_layer() + 1
                                &&& c.children().len() == 0
                            },
                    decreases 4 - i,
                {
                    let d = dir_at(i);
                    proof {
                        assert(dir_order().skip(i as int)[0] == dir_order()[i as int]);
                        assert(dir_order().skip(i as int).skip(1) =~= dir_order().skip(i + 1));
                    }
                    let ghost prev_children = self.children();
                    let mut nb = self.board.clone();
                    let changed = nb.step_rows(d);
                    if changed {
                        let child = AINode::new(nb, self.layer + 1, Role::Chance(d));
                        self.add_option(child);
                        proof {
                            assert(child_dirs(self.children()) =~= child_dirs(
                                prev_children,
                            ).push(d));
                            assert(legal_dirs(b) =~= child_dirs(self.children())
                                + changed_dirs_from(b, dir_order().skip(i + 1)));
                        }
                    }
                    i += 1;
                }
                proof {
                    assert(dir_order().skip(4).len() == 0);
                    assert(legal_dirs(b) =~= child_dirs(self.children()));
                }
            }
            Role::Chance(d) => {
                let max = match d {
                    Direction::LEFT | Direction::RIGHT => self.board.height(),
                    Direction::UP | Direction::DOWN => self.board.width(),
                };
                let ghost mut slots: Seq<int> = Seq::empty();
                proof {
                    assert(Seq::<int>::empty() + empty_slots_from(b, d, 0) =~= empty_slots_from(
                        b,
                        d,
                        0,
                    ));
                }
                let mut i: usize = 0;
                while i < max
                    invariant
                        self.spec_board() == b,
                        b.wf(),
                        b.width > 0,
                        b.height > 0,
                        self.spec_layer() == old(self).spec_layer(),
                        self.spec_role() == old(self).spec_role(),
                        self.spec_role() == Role::Chance(d),
                        old(self).spec_layer() < u32::MAX,
                        i <= max,
                        max == line_count(b, d),
                        slots.len() == self.children().len(),
                        empty_slots(b, d) == slots + empty_slots_from(b, d, i as int),
                        forall|j: int|
                            0 <= j < self.children().len() ==> {
                                let c = #[trigger] self.children()[j];
                                &&& c.spec_role() == Role::Decision
                                &&& c.spec_board() == with_tile(
                                    b,
                                    edge_x(b, d, slots[j]),
                                    edge_y(b, d, slots[j]),
                                    0,
                                )
                                &&& c.spec_layer() == old(self).spec_layer() + 1
                                &&& c.children().len() == 0
                            },
                    decreases max - i,
                {
                    let ghost prev_slots = slots;
                    let mut nb = self.board.clone();
                    let added = nb.step_add_index(d, i);
                    if added {
                        let child = AINode::new(nb, self.layer + 1, Role::Decision);
                        self.add_option(child);
                        proof {
                            slots = slots.push(i as int);
                            assert(empty_slots(b, d) =~= slots + empty_slots_from(b, d, i + 1));
                        }
                    }
                    i += 1;
                }
                proof {
                    assert(empty_slots_from(b, d, max as int).len() == 0);
                    assert(empty_slots(b, d) =~= slots);
                }
            }
        }
    }

    /// Builds the whole bounded tree below this node.
    fn build_tree(&mut self, max_ply: u32)
        requires
            old(self).children().len() == 0,
            old(self).spec_board().wf(),
            old(self).spec_board().width > 0,
            old(self).spec_board().height > 0,
            old(self).spec_layer() <= max_ply,
            exponents_bounded(
                old(self).spec_board(),
                max_ply - old(self).spec_layer(),
            ),
        ensures
            wf_node(*final(self), max_ply),
            final(self).spec_board() == old(self).spec_board(),
            final(self).spec_layer() == old(self).spec_layer(),
            final(self).spec_role() == old(self).spec_role(),
        decreases max_ply - self.spec_layer(),
    {
        if self.layer == max_ply {
            return ;
        }
        let ghost b = self.spec_board();
        let ghost slack = max_ply - old(self).spec_layer();
        proof {
            assert(b.ok()) by {
                assert(forall|i: int|
                    0 <= i < b.cells.len() && b.cells[i] is Some ==> b.cells[i]->0 + slack
                        < u32::MAX);
            }
        }
        self.add_layer();
        let n = self.options.len();
        let mut j: usize = 0;
        while j < n
            invariant
                n == self.children().len(),
                self.spec_board() == b,
                self.spec_layer() == old(self).spec_layer(),
                self.spec_role() == old(self).spec_role(),
                self.spec_layer() < max_ply,
                b.wf(),
                b.width > 0,
                b.height > 0,
                slack == max_ply - old(self).spec_layer(),
                exponents_bounded(b, slack),
                j <= n,
                children_shape(*self),
                forall|m: int|
                    0 <= m < j ==> wf_node(#[trigger] self.children()[m], max_ply),
                forall|m: int|
                    j <= m < n ==> #[trigger] self.children()[m].children().len() == 0,
            decreases n - j,
        {
            proof {
                match self.spec_role() {
                    Role::Decision => {
                        lemma_shifted_bounded(b, legal_dirs(b)[j as int], slack);
                    }
                    Role::Chance(d) => {
                        lemma_empty_slots_range(b, d, 0);
                        let s = empty_slots(b, d)[j as int];
                        lemma_with_tile_bounded(b, edge_x(b, d, s), edge_y(b, d, s), slack);
                        crate::game::lemma_with_tile_lines(
                            b,
                            edge_x(b, d, s),
                            edge_y(b, d, s),
                            0,
                        );
                    }
                }
            }
            let child = &mut self.options[j];
            child.build_tree(max_ply);
            j += 1;
        }
    }
}


/// The numeric anchor for the scaling cap.
proof fn lemma_pow2_40()
    ensures
        pow2(40) == 0x100_0000_0000,
{
    reveal_with_fuel(pow2, 41);
}

/// Addition clamped to the `i64` range.
pub open spec fn sat_add(a: int, b: int) -> int {
    if a + b > i64::MAX {
        i64::MAX as int
    } else if a + b < i64::MIN {
        i64::MIN as int
    } else {
        a + b
    }
}

/// Saturating `i64` addition.
fn sat_add_i64(a: i64, b: i64) -> (r: i64)
    ensures
        r as int == sat_add(a as int, b as int),
{
    if b >= 0 {
        if a > i64::MAX - b {
            i64::MAX
        } else {
            a + b
        }
    } else {
        if a < i64::MIN - b {
            i64::MIN
        } else {
            a + b
        }
    }
}

/// The exponential tile scaling used by the default heuristic,
/// capped so that a weighted cell always fits comfortably in `i64`.
pub open spec fn scaled_value(e: u32) -> int {
    if e <= 40 {
        pow2(e as nat)
    } else {
        pow2(40)
    }
}

/// The capped exponential scaling, computed by repeated doubling.
fn scaled_i64(e: u32) -> (r: i64)
    ensures
        r as int == scaled_value(e),
        1 <= r <= 0x100_0000_0000,
{
    let cap: u32 = if e > 40 {
        40
    } else {
        e
    };
    proof {
        lemma_pow2_40();
    }
    let mut r: i64 = 1;
    let mut i: u32 = 0;
    while i < cap
        invariant
            i <= cap <= 40,
            r as int == pow2(i as nat),
            pow2(40) == 0x100_0000_0000,
        decreases cap - i,
    {
        proof {
            lemma_pow2_mono((i + 1) as nat, 40);
        }
        r = r * 2;
        i += 1;
    }
    proof {
        lemma_pow2_mono(cap as nat, 40);
        lemma_pow2_mono(0, cap as nat);
    }
    r
}

/// The default heuristic: a weighted sum over occupied cells of an
/// exponentially scaled tile value, where corners weigh most, edges
/// less and interior cells least; plus the single largest weighted
/// cell once more as a bonus; minus a capped quadratic penalty on the
/// occupied-cell count, which rewards sparsity.  The three weights
/// are configuration, not contract.
pub struct HeuristicEvaluator {
    pub corner_weight: u16,
    pub edge_weight: u16,
    pub interior_weight: u16,
}

/// The heuristic the search falls back to when a caller supplies no
/// evaluator of its own.
pub open spec fn default_evaluator() -> HeuristicEvaluator {
    HeuristicEvaluator { corner_weight: 8, edge_weight: 4, interior_weight: 1 }
}

impl Default for HeuristicEvaluator {
    fn default() -> (e: HeuristicEvaluator)
        ensures
            e == default_evaluator(),
    {
        HeuristicEvaluator { corner_weight: 8, edge_weight: 4, interior_weight: 1 }
    }
}

impl HeuristicEvaluator {
    /// The position multiplier of coordinate `(x, y)` on a `w` by `h`
    /// grid.
    pub open spec fn spec_weight(&self, w: int, h: int, x: int, y: int) -> int {
        if (x == 0 || x == w - 1) && (y == 0 || y == h - 1) {
            self.corner_weight as int
        } else if x == 0 || x == w - 1 || y == 0 || y == h - 1 {
            self.edge_weight as int
        } else {
            self.interior_weight as int
        }
    }

    /// What the cell at flat index `k` contributes.
    pub open spec fn cell_value(&self, b: BoardView, k: int) -> int {
        match b.cells[k] {
            Some(e) => self.spec_weight(
                b.width as int,
                b.height as int,
                k % (b.width as int),
                k / (b.width as int),
            ) * scaled_value(e),
            None => 0,
        }
    }

    /// The saturating sum of the first `k` cell contributions.
    pub open spec fn sum_to(&self, b: BoardView, k: int) -> int
        decreases k,
    {
        if k <= 0 {
            0
        } else {
            sat_add(self.sum_to(b, k - 1), self.cell_value(b, k - 1))
        }
    }

    /// The largest contribution among the first `k` cells.
    pub open spec fn max_to(&self, b: BoardView, k: int) -> int
        decreases k,
    {
        if k <= 0 {
            0
        } else {
            let m = self.max_to(b, k - 1);
            let c = self.cell_value(b, k - 1);
            if c > m {
                c
            } else {
                m
            }
        }
    }

    /// The occupied cells among the first `k`.
    pub open spec fn count_to(&self, b: BoardView, k: int) -> int
        decreases k,
    {
        if k <= 0 {
            0
        } else {
            self.count_to(b, k - 1) + (if b.cells[k - 1] is Some {
                1int
            } else {
                0int
            })
        }
    }

    /// The whole heuristic value of a board.
    pub open spec fn spec_value(&self, b: BoardView) -> int {
        let n = b.cells.len() as int;
        let cnt = self.count_to(b, n);
        let capped = if cnt > 0xffff {
            0xffff
        } else {
            cnt
        };
        sat_add(sat_add(self.sum_to(b, n), self.max_to(b, n)), -(capped * capped))
    }

    /// The position multiplier, executably.
    fn weight_at(&self, w: usize, h: usize, x: usize, y: usize) -> (r: u16)
        requires
            x < w,
            y < h,
        ensures
            r as int == self.spec_weight(w as int, h as int, x as int, y as int),
    {
        let on_x_edge = x == 0 || x == w - 1;
        let on_y_edge = y == 0 || y == h - 1;
        if on_x_edge && on_y_edge {
            self.corner_weight
        } else if on_x_edge || on_y_edge {
            self.edge_weight
        } else {
            self.interior_weight
        }
    }
}

impl Evaluator for HeuristicEvaluator {
    open spec fn spec_eval(&self, b: BoardView) -> int {
        if b.wf() && b.width > 0 && b.height > 0 {
            self.spec_value(b)
        } else {
            0
        }
    }

    fn evaluate(&self, b: &Board) -> (r: i64)
        ensures
            r as int == self.spec_eval(b@),
    {
        let w = b.width();
        let h = b.height();
        let n = b.board_data().len();
        if w == 0 || h == 0 {
            return 0;
        }
        if n / w != h || n % w != 0 {
            proof {
                if b@.wf() {
                    assert(n as int == (h as int) * (w as int) + 0) by (nonlinear_arith)
                        requires n as int == (w as int) * (h as int);
                    vstd::arithmetic::div_mod::lemma_fundamental_div_mod_converse(
                        n as int,
                        w as int,
                        h as int,
                        0,
                    );
                }
            }
            return 0;
        }
        proof {
            vstd::arithmetic::div_mod::lemma_fundamental_div_mod(n as int, w as int);
            assert(n as int == (w as int) * (h as int)) by (nonlinear_arith)
                requires n as int == (w as int) * (n as int / w as int), n as int / w as int == h as int;
            assert(b@.wf());
        }
        let mut sum: i64 = 0;
        let mut maxv: i64 = 0;
        let mut cnt: usize = 0;
        let mut k: usize = 0;
        while k < n
            invariant
                n == b@.cells.len(),
                w == b@.width,
                h == b@.height,
                k <= n,
                sum as int == self.sum_to(b@, k as int),
                maxv as int == self.max_to(b@, k as int),
                cnt as int == self.count_to(b@, k as int),
                cnt <= k,
                maxv >= 0,
                b@.wf(),
            decreases n - k,
        {
            let c = *&b.board_data()[k];
            match c.get_score() {
                Some(e) => {
                    proof {
                        if b@.width > 0 {
                            lemma_grid_split(b@.width, b@.height, k as int);
                        }
                    }
                    let x = k % w;
                    let y = k / w;
                    let wt = self.weight_at(w, h, x, y);
                    let sv = scaled_i64(e);
                    proof {
                        assert((wt as int) * (sv as int) <= 0xffff * 0x100_0000_0000 && (wt
                            as int) * (sv as int) >= 0) by (nonlinear_arith)
                            requires
                                0 <= wt <= 0xffff,
                                1 <= sv <= 0x100_0000_0000,
                        ;
                    }
                    let cv = (wt as i64) * sv;
                    sum = sat_add_i64(sum, cv);
                    if cv > maxv {
                        maxv = cv;
                    }
                    cnt = cnt + 1;
                }
                None => {
                }
            }
            k += 1;
        }
        let capped: i64 = if cnt > 0xffff {
            0xffff
        } else {
            cnt as i64
        };
        proof {
            assert(capped * capped <= 0xffff * 0xffff && capped * capped >= 0)
                by (nonlinear_arith)
                requires
                    0 <= capped <= 0xffff,
            ;
        }
        sat_add_i64(sat_add_i64(sum, maxv), -(capped * capped))
    }
}

impl AI {
    pub closed spec fn spec_board(&self) -> BoardView {
        self.board@
    }

    pub closed spec fn spec_depth(&self) -> u32 {
        self.depth
    }

    pub closed spec fn spec_root(&self) -> Option<AINode> {
        self.root
    }

    /// A new search over a snapshot of `board`, bounded at `depth`
    /// plies; the live board is never touched.
    pub fn new(board: &Board, depth: u32) -> (ai: AI)
        ensures
            ai.spec_board() == board@,
            ai.spec_depth() == depth,
            ai.spec_root() is None,
    {
        AI { board: board.clone(), depth, root: None }
    }

    /// Builds the whole bounded search tree for the snapshot.
    pub fn build_tree(&mut self)
        requires
            old(self).spec_board().wf(),
            old(self).spec_board().width > 0,
            old(self).spec_board().height > 0,
            exponents_bounded(old(self).spec_board(), old(self).spec_depth() as int),
        ensures
            final(self).spec_board() == old(self).spec_board(),
            final(self).spec_depth() == old(self).spec_depth(),
            final(self).spec_root() is Some,
            wf_node(final(self).spec_root()->0, final(self).spec_depth()),
            final(self).spec_root()->0.spec_board() == old(self).spec_board(),
            final(self).spec_root()->0.spec_layer() == 0,
            final(self).spec_root()->0.spec_role() == Role::Decision,
    {
        let mut root = AINode::new(self.board.clone(), 0, Role::Decision);
        root.build_tree(self.depth);
        self.root = Some(root);
    }

    /// Whether a tree has been built and the search may run.
    pub fn has_tree(&self) -> (r: bool)
        ensures
            r == (self.spec_root() is Some),
    {
        self.root.is_some()
    }

    /// Runs plain exhaustive minimax over the built tree, with no
    /// pruning: the reference the alpha-beta engine is held against.
    /// Same contract as `minimax`, so the two must agree.
    pub fn minimax_exhaustive<E: Evaluator>(&self, heuristic: Option<&E>) -> (r: MinMaxResult)
        requires
            self.spec_root() is Some,
        ensures
            heuristic is Some ==> r.spec_score() as int == node_score(
                self.spec_root()->0,
                *heuristic->0,
            ) && r.spec_direction() == node_direction(self.spec_root()->0, *heuristic->0),
            heuristic is None ==> r.spec_score() as int == node_score(
                self.spec_root()->0,
                default_evaluator(),
            ) && r.spec_direction() == node_direction(
                self.spec_root()->0,
                default_evaluator(),
            ),
    {
        match &self.root {
            Some(root) => match heuristic {
                Some(e) => AI::minimax_plain(root, e),
                None => {
                    let d = HeuristicEvaluator::default();
                    AI::minimax_plain(root, &d)
                },
            },
            None => {
                proof {
                    assert(false);
                }
                MinMaxResult::new(0, None)
            },
        }
    }

    /// Runs the alpha-beta search over the built tree.  The caller's
    /// evaluator scores the leaves when one is given, the default
    /// heuristic otherwise.  A `None` direction in the result is the
    /// explicit no-legal-move outcome.
    pub fn minimax<E: Evaluator>(&self, heuristic: Option<&E>) -> (r: MinMaxResult)
        requires
            self.spec_root() is Some,
        ensures
            heuristic is Some ==> r.spec_score() as int == node_score(
                self.spec_root()->0,
                *heuristic->0,
            ) && r.spec_direction() == node_direction(self.spec_root()->0, *heuristic->0),
            heuristic is None ==> r.spec_score() as int == node_score(
                self.spec_root()->0,
                default_evaluator(),
            ) && r.spec_direction() == node_direction(
                self.spec_root()->0,
                default_evaluator(),
            ),
    {
        match &self.root {
            Some(root) => match heuristic {
                Some(e) => AI::minimaxfn(root, None, None, e),
                None => {
                    let d = HeuristicEvaluator::default();
                    AI::minimaxfn(root, None, None, &d)
                },
            },
            None => {
                proof {
                    assert(false);
                }
                MinMaxResult::new(0, None)
            },
        }
    }
}


/// Pruned and exhaustive search agree: whatever the alpha-beta engine
/// returns with both bounds open, and whatever plain minimax returns,
/// on the same tree with the same evaluator the two results carry the
/// same score and the same direction.
pub proof fn lemma_search_agreement<E: Evaluator>(
    node: &AINode,
    e: &E,
    pruned: MinMaxResult,
    plain: MinMaxResult,
)
    requires
        call_ensures(AI::minimaxfn::<E>, (node, None, None, e), pruned),
        call_ensures(AI::minimax_plain::<E>, (node, e), plain),
    ensures
        pruned.spec_score() == plain.spec_score(),
        pruned.spec_direction() == plain.spec_direction(),
{
}

/// Among equal-scoring siblings the first in enumeration order wins:
/// when child `i` of a decision node scores at least as well as every
/// sibling, the index the search picks is never later than `i`.
pub proof fn lemma_tie_break<E: Evaluator>(n: AINode, e: E, i: int)
    requires
        n.spec_role() is Decision,
        0 <= i < n.children().len(),
        forall|m: int|
            0 <= m < n.children().len() ==> node_score(#[trigger] n.children()[m], e)
                <= node_score(n.children()[i], e),
    ensures
        best_index_prefix(n, e, n.children().len() as int) <= i,
        node_score(
            n.children()[best_index_prefix(n, e, n.children().len() as int)],
            e,
        ) == node_score(n.children()[i], e),
        node_direction(n, e) == role_dir(
            n.children()[best_index_prefix(n, e, n.children().len() as int)].spec_role(),
        ),
{
    let k = n.children().len() as int;
    lemma_best_index(n, e, k);
    let bip = best_index_prefix(n, e, k);
    assert(node_score(n.children()[i], e) <= best_score_prefix(n, e, k));
    assert(node_score(n.children()[bip], e) <= node_score(n.children()[i], e));
    if bip > i {
        assert(node_score(n.children()[i], e) < best_score_prefix(n, e, k));
    }
}

/// A constant evaluator scores every subtree with its constant.
pub proof fn lemma_constant_score(n: AINode, c: i64)
    ensures
        node_score(n, ConstantEvaluator { value: c }) == c,
    decreases n, 1int, 0int,
{
    if n.children().len() > 0 {
        lemma_constant_prefix(n, c, n.children().len() as int);
    }
}

proof fn lemma_constant_prefix(n: AINode, c: i64, k: int)
    requires
        1 <= k <= n.children().len(),
    ensures
        best_score_prefix(n, ConstantEvaluator { value: c }, k) == c,
        worst_score_prefix(n, ConstantEvaluator { value: c }, k) == c,
        best_index_prefix(n, ConstantEvaluator { value: c }, k) == 0,
    decreases n, 0int, k,
{
    lemma_child_decreases(n, k - 1);
    if k == 1 {
        lemma_constant_score(n.children()[0], c);
    } else {
        lemma_constant_prefix(n, c, k - 1);
        lemma_constant_score(n.children()[k - 1], c);
    }
}

/// On a properly built tree a constant evaluator resolves the search
/// purely by enumeration order: the score is the constant and the
/// direction is the first legal one in the order DOWN, LEFT, RIGHT,
/// UP.
pub proof fn lemma_constant_search_tree(n: AINode, c: i64, max_ply: u32)
    requires
        wf_node(n, max_ply),
        n.spec_role() is Decision,
        n.children().len() > 0,
    ensures
        node_score(n, ConstantEvaluator { value: c }) == c,
        node_direction(n, ConstantEvaluator { value: c }) == Some(
            legal_dirs(n.spec_board())[0],
        ),
{
    lemma_constant_search(n, c);
    assert(n.spec_layer() != max_ply);
    assert(children_shape(n));
    assert(n.children()[0].spec_role() == Role::Chance(legal_dirs(n.spec_board())[0]));
}

/// A constant evaluator forces every leaf to tie, so the search
/// resolves purely by enumeration order: the score is the constant
/// and the recommended direction comes from the very first child.
pub proof fn lemma_constant_search(n: AINode, c: i64)
    requires
        n.spec_role() is Decision,
        n.children().len() > 0,
    ensures
        node_score(n, ConstantEvaluator { value: c }) == c,
        node_direction(n, ConstantEvaluator { value: c }) == role_dir(
            n.children()[0].spec_role(),
        ),
{
    lemma_constant_score(n, c);
    lemma_constant_prefix(n, c, n.children().len() as int);
}

} // verus!
