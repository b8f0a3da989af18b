//! Properties of the rules over runs of moves: capacity, determinism and
//! monotonicity.

use vstd::prelude::*;
use crate::model::{consumes, fits, game_wf, Action, ActionKind, GameView};
use crate::rules::{
    added, apply, has_ingredients, lemma_legal_move_ok, legal_actions, lemma_apply_wf,
};

verus! {

/// The state reached from `g` by applying the moves of `path` in order.
pub open spec fn run(g: GameView, path: Seq<Action>) -> GameView
    decreases path.len(),
{
    if path.len() == 0 {
        g
    } else {
        apply(path.last(), run(g, path.drop_last()))
    }
}

/// Each move of `path` is legal in the state that the moves before it reach.
pub open spec fn is_run(g: GameView, path: Seq<Action>) -> bool
    decreases path.len(),
{
    path.len() == 0 || (is_run(g, path.drop_last()) && legal_actions(run(g, path.drop_last())).contains(
        path.last(),
    ))
}

/// Applying any legal move of a well-formed state leaves an inventory with
/// no negative tier and at most `CAPACITY` ingredients.
pub proof fn lemma_legal_move_fits(g: GameView, a: Action)
    requires
        game_wf(g),
        legal_actions(g).contains(a),
    ensures
        fits(apply(a, g).inventory),
{
    lemma_legal_move_ok(g, a);
    match a.kind {
        ActionKind::Brew => {
            assert(consumes(a.delta) && has_ingredients(g.inventory, a.delta));
            assert(fits(added(g.inventory, a.delta)));
        },
        _ => {},
    }
}

/// Generating moves depends on the state alone: states with equal content
/// have equal move lists.
pub proof fn lemma_generation_deterministic(g1: GameView, g2: GameView)
    requires
        g1 == g2,
    ensures
        legal_actions(g1) == legal_actions(g2),
{
}

/// A prefix of a run of legal moves is a run of legal moves.
pub proof fn lemma_run_prefix(g: GameView, path: Seq<Action>, k: int)
    requires
        is_run(g, path),
        0 <= k <= path.len(),
    ensures
        is_run(g, path.take(k)),
    decreases path.len(),
{
    if k < path.len() {
        assert(path.drop_last().take(k) =~= path.take(k));
        lemma_run_prefix(g, path.drop_last(), k);
    } else {
        assert(path.take(k) =~= path);
    }
}

/// Along any run of legal moves from a well-formed state, every state
/// reached is well-formed, and from an earlier state to a later one the
/// count of served orders never falls and the pending orders never grow.
pub proof fn lemma_run_monotone(g: GameView, path: Seq<Action>, i: int, j: int)
    requires
        game_wf(g),
        is_run(g, path),
        0 <= i <= j <= path.len(),
    ensures
        game_wf(run(g, path.take(j))),
        run(g, path.take(j)).served >= run(g, path.take(i)).served,
        run(g, path.take(j)).orders.len() <= run(g, path.take(i)).orders.len(),
    decreases j,
{
    if j == 0 {
        assert(path.take(0) =~= Seq::<Action>::empty());
    } else {
        let p = path.take(j);
        lemma_run_prefix(g, path, j);
        assert(p.drop_last() =~= path.take(j - 1));
        let i2 = if i == j {
            j - 1
        } else {
            i
        };
        lemma_run_monotone(g, path, i2, j - 1);
        lemma_apply_wf(run(g, path.take(j - 1)), p.last());
    }
}

} // verus!
