// The adversarial search: tree building, minimax and alpha-beta.

use auto2048::ai::{ConstantEvaluator, Evaluator, HeuristicEvaluator, AI};
use auto2048::game::{Board, Direction};

fn set(b: &mut Board, x: usize, y: usize, e: u32) {
    b.get_mut_cell(x, y).set_score(e);
}

/// A full board with no adjacent equal tiles: no direction is legal.
fn stuck_board() -> Board {
    let mut b = Board::new();
    for y in 0..4 {
        for x in 0..4 {
            set(&mut b, x, y, ((x + y) % 2 + 1) as u32);
        }
    }
    b
}

#[test]
fn constant_evaluator_returns_its_constant() {
    let b = Board::new();
    let e = ConstantEvaluator { value: -3 };
    assert_eq!(e.evaluate(&b), -3);
}

#[test]
fn default_heuristic_scores_a_corner_tile() {
    // One tile of exponent 2 in a corner: 8 * 4 weighted sum, the
    // same cell again as the largest-cell bonus, minus 1 * 1 for one
    // occupied cell.
    let mut b = Board::new();
    set(&mut b, 0, 0, 2);
    let e = HeuristicEvaluator::default();
    assert_eq!(e.evaluate(&b), 8 * 4 + 8 * 4 - 1);
}

#[test]
fn default_heuristic_weighs_positions() {
    // An edge (non-corner) tile weighs less than a corner tile.
    let e = HeuristicEvaluator::default();
    let mut corner = Board::new();
    set(&mut corner, 0, 0, 3);
    let mut edge = Board::new();
    set(&mut edge, 1, 0, 3);
    let mut interior = Board::new();
    set(&mut interior, 1, 1, 3);
    assert!(e.evaluate(&corner) > e.evaluate(&edge));
    assert!(e.evaluate(&edge) > e.evaluate(&interior));
    assert_eq!(e.evaluate(&edge), 4 * 8 + 4 * 8 - 1);
}

#[test]
fn empty_heuristic_score_is_zero() {
    let b = Board::new();
    let e = HeuristicEvaluator::default();
    assert_eq!(e.evaluate(&b), 0);
}

#[test]
fn constant_evaluator_ties_resolve_in_enumeration_order() {
    // A single middle tile can move every way; with every leaf tied
    // the search must pick DOWN, the first direction in enumeration
    // order DOWN, LEFT, RIGHT, UP.
    let mut b = Board::new();
    set(&mut b, 1, 1, 1);
    let mut ai = AI::new(&b, 2);
    ai.build_tree();
    let e = ConstantEvaluator { value: 0 };
    let r = ai.minimax(Some(&e));
    assert_eq!(r.get_score(), 0);
    assert_eq!(r.get_direction(), Some(Direction::DOWN));
}

#[test]
fn supplied_evaluator_overrides_the_default() {
    // The default heuristic would score these boards apart; the
    // constant evaluator forces the tie, so the direction must fall
    // back to enumeration order and the score to the constant.
    let mut b = Board::new();
    set(&mut b, 1, 1, 3);
    set(&mut b, 2, 2, 3);
    let mut ai = AI::new(&b, 2);
    ai.build_tree();
    let e = ConstantEvaluator { value: 42 };
    let r = ai.minimax(Some(&e));
    assert_eq!(r.get_score(), 42);
    assert_eq!(r.get_direction(), Some(Direction::DOWN));
}

#[test]
fn stuck_board_reports_no_legal_move() {
    let b = stuck_board();
    let mut ai = AI::new(&b, 3);
    ai.build_tree();
    let e = ConstantEvaluator { value: 5 };
    let r = ai.minimax(Some(&e));
    assert_eq!(r.get_direction(), None);
    // The root is a leaf, scored by the evaluator itself.
    assert_eq!(r.get_score(), 5);
}

#[test]
fn alpha_beta_matches_exhaustive_minimax() {
    // The pruned and the unpruned search must agree on score and
    // direction, here checked at every ply depth up to 4.
    let mut b = Board::new();
    set(&mut b, 0, 0, 2);
    set(&mut b, 1, 0, 1);
    set(&mut b, 2, 2, 1);
    set(&mut b, 3, 3, 3);
    for depth in 0..5 {
        let mut ai = AI::new(&b, depth);
        ai.build_tree();
        let pruned = ai.minimax::<HeuristicEvaluator>(None);
        let plain = ai.minimax_exhaustive::<HeuristicEvaluator>(None);
        assert_eq!(pruned.get_score(), plain.get_score());
        assert_eq!(pruned.get_direction(), plain.get_direction());
    }
}

#[test]
fn alpha_beta_matches_exhaustive_under_custom_evaluator() {
    let mut b = Board::new();
    set(&mut b, 1, 2, 1);
    set(&mut b, 2, 1, 2);
    for depth in 0..5 {
        let mut ai = AI::new(&b, depth);
        ai.build_tree();
        let e = ConstantEvaluator { value: 17 };
        let pruned = ai.minimax(Some(&e));
        let plain = ai.minimax_exhaustive(Some(&e));
        assert_eq!(pruned.get_score(), plain.get_score());
        assert_eq!(pruned.get_direction(), plain.get_direction());
        assert_eq!(pruned.get_score(), 17);
    }
}

#[test]
fn search_result_is_a_legal_direction() {
    let mut b = Board::new();
    set(&mut b, 0, 0, 1);
    let mut ai = AI::new(&b, 4);
    ai.build_tree();
    let r = ai.minimax::<HeuristicEvaluator>(None);
    // A lone corner tile cannot move LEFT or UP without an effect
    // elsewhere, but every direction changes some line here; at the
    // very least the search must return one of the four.
    let d = r.get_direction().expect("a lone tile leaves legal moves");
    assert!(matches!(
        d,
        Direction::DOWN | Direction::LEFT | Direction::RIGHT | Direction::UP
    ));
}

#[test]
fn deeper_search_still_agrees_with_exhaustive() {
    let mut b = Board::new();
    set(&mut b, 0, 0, 3);
    set(&mut b, 0, 1, 2);
    set(&mut b, 1, 0, 1);
    let mut ai = AI::new(&b, 4);
    ai.build_tree();
    let pruned = ai.minimax::<HeuristicEvaluator>(None);
    let plain = ai.minimax_exhaustive::<HeuristicEvaluator>(None);
    assert_eq!(pruned.get_score(), plain.get_score());
    assert_eq!(pruned.get_direction(), plain.get_direction());
}
