//! The rollout search and the decision policy that turns its scores into
//! one move.

use vstd::prelude::*;
use rand::Rng;
use std::time::Instant;
use crate::model::{
    game_wf, non_negative, rest_action, tier_sum, Action, ActionKind, Game, GameView, LAST_TURN,
};
use crate::rules::{any_spent, get_neighbors, has_spent_spell, legal_actions, simulate};
use crate::laws::{is_run, lemma_run_monotone, run};
use crate::rules::{apply, lemma_apply_wf};

verus! {

/// Lets `std::time::Instant` stand in signatures; its value is opaque here.
#[verifier::external_type_specification]
#[verifier::external_body]
pub struct ExInstant(std::time::Instant);

/// Relies on `Instant::elapsed`: the time since the instant. Nothing is
/// promised of the value.
pub assume_specification[ std::time::Instant::elapsed ](i: &std::time::Instant) -> std::time::Duration;

/// Relies on `Duration::as_millis`: the whole milliseconds of a duration.
/// Nothing is promised of the value.
pub assume_specification[ core::time::Duration::as_millis ](d: &core::time::Duration) -> u128;

/// Relies on rand's `Rng::gen_range` on the thread-local generator: a value
/// in `[0, n)` (it panics on an empty range, which `requires` rules out).
#[verifier::external_body]
fn random_index(n: usize) -> (r: usize)
    requires
        n > 0,
    ensures
        r < n,
{
    rand::thread_rng().gen_range(0, n)
}

/// A candidate first move with the rollouts made from it.
#[derive(Clone, Debug)]
pub struct Node {
    pub action: Action,
    /// The state that `action` leads to.
    pub state: Game,
    /// Sum of the scores of the rollouts.
    pub score: i128,
    /// Number of rollouts.
    pub n: u32,
}

impl Node {
    /// A candidate with no rollout yet.
    pub fn new(action: Action, state: Game) -> (r: Node)
        ensures
            r.action == action,
            r.state@ == state@,
            r.score == 0,
            r.n == 0,
    {
        Node { action: action, state: state, score: 0, n: 0 }
    }
}

/// A rollout from `start` (the state after the first move) ends where no
/// move is legal, and holds at most one move per turn left.
pub open spec fn complete_rollout(first: Action, start: GameView, path: Seq<Action>) -> bool {
    &&& path.len() >= 1
    &&& path[0] == first
    &&& is_run(start, path.drop_first())
    &&& legal_actions(run(start, path.drop_first())).len() == 0
    &&& path.len() <= 1 + (if start.calc_turn < LAST_TURN { LAST_TURN - start.calc_turn } else { 0 })
}

/// Along every path the search explores from a well-formed state (a legal
/// first move, then a rollout from the state it leads to), the count of
/// served orders never falls and the pending orders never grow.
pub proof fn lemma_rollout_monotone(root: GameView, first: Action, path: Seq<Action>, i: int, j: int)
    requires
        game_wf(root),
        legal_actions(root).contains(first),
        complete_rollout(first, apply(first, root), path),
        0 <= i <= j < path.len(),
    ensures
        apply(first, root).served >= root.served,
        apply(first, root).orders.len() <= root.orders.len(),
        run(apply(first, root), path.drop_first().take(j)).served >= run(
            apply(first, root),
            path.drop_first().take(i),
        ).served,
        run(apply(first, root), path.drop_first().take(j)).orders.len() <= run(
            apply(first, root),
            path.drop_first().take(i),
        ).orders.len(),
{
    lemma_apply_wf(root, first);
    lemma_run_monotone(apply(first, root), path.drop_first(), i, j);
}

/// One random rollout from a candidate: after its move, legal moves drawn
/// uniformly at random are applied until none is left. `None` when more than
/// `budget_ms` milliseconds have passed since `start_time`.
pub fn playout(current: &Node, start_time: &Instant, budget_ms: u128) -> (r: Option<Vec<Action>>)
    requires
        game_wf(current.state@),
    ensures
        match r {
            Some(path) => complete_rollout(current.action, current.state@, path@),
            None => true,
        },
        budget_ms == u128::MAX ==> r is Some,
{
    let ghost start = current.state@;
    let mut path: Vec<Action> = Vec::new();
    path.push(current.action);
    let mut simulation = current.state.copy();
    assert(path@.drop_first() =~= Seq::<Action>::empty());
    loop
        invariant
            start == current.state@,
            budget_ms == budget_ms,
            game_wf(simulation@),
            path@.len() >= 1,
            path@[0] == current.action,
            is_run(start, path@.drop_first()),
            simulation@ == run(start, path@.drop_first()),
            simulation@.calc_turn == start.calc_turn + path@.len() - 1,
            path@.len() == 1 || simulation@.calc_turn <= LAST_TURN,
        decreases LAST_TURN + 1 - simulation.calc_turn + (if path@.len() == 1 { i32::MAX as int } else { 0 }),
    {
        if start_time.elapsed().as_millis() > budget_ms {
            return None;
        }
        let neighbors = get_neighbors(&simulation);
        if neighbors.len() == 0 {
            return Some(path);
        }
        let k = random_index(neighbors.len());
        let action = neighbors[k];
        assert(legal_actions(simulation@).contains(action)) by {
            assert(neighbors@[k as int] == action);
        }
        let ghost before = path@;
        path.push(action);
        assert(path@.drop_first().drop_last() =~= before.drop_first());
        assert(path@.drop_first().last() == action);
        simulation = simulate(&action, &simulation);
    }
}

// ----- scoring -----

/// Weight of a brew one move after the first: a rupee there counts this much.
/// A brew `i` moves after the first counts `SCORE_SCALE / i` per rupee.
pub const SCORE_SCALE: i128 = 1000;

/// Weight of a brew made by the first move itself. It is larger than the six
/// brews a game allows can add later at weight `SCORE_SCALE` or less, so an
/// order that can be served now outweighs any later plan.
pub const IMMEDIATE_WEIGHT: i128 = 1_000_000;

/// Largest absolute score of one rollout: a rollout holds fewer than 2^32
/// moves, each worth at most `128 * IMMEDIATE_WEIGHT`.
pub const ROLLOUT_BOUND: i128 = 576_460_752_303_423_488;

/// Largest absolute total score of a candidate that the decision accepts.
pub const SCORE_BOUND: i128 = 1_208_925_819_614_629_174_706_176;

/// Most rounds of rollouts in one search (one rollout per candidate each).
pub const MAX_ROUNDS: u32 = 1_000_000;

/// Weight of a brew `i` moves after the first.
pub open spec fn step_weight(i: int) -> int {
    if i == 0 {
        IMMEDIATE_WEIGHT as int
    } else {
        SCORE_SCALE as int / i
    }
}

/// Score of move `i` of a rollout: its price, weighted, for a brew.
pub open spec fn step_score(a: Action, i: int) -> int {
    if a.kind == ActionKind::Brew {
        a.price * step_weight(i)
    } else {
        0
    }
}

/// Score of a rollout: the weighted prices of its brews, earlier brews
/// weighted more.
pub open spec fn rollout_score(path: Seq<Action>) -> int
    decreases path.len(),
{
    if path.len() == 0 {
        0
    } else {
        rollout_score(path.drop_last()) + step_score(path.last(), path.len() - 1)
    }
}

/// One move of a rollout scores at most `128 * IMMEDIATE_WEIGHT` either way.
pub proof fn lemma_step_score_bound(a: Action, i: int)
    requires
        0 <= i,
    ensures
        -128 * IMMEDIATE_WEIGHT <= step_score(a, i) <= 128 * IMMEDIATE_WEIGHT,
{
    if a.kind == ActionKind::Brew {
        let w = step_weight(i);
        if i > 0 {
            let sc = SCORE_SCALE as int;
            assert(0 <= sc / i <= sc) by (nonlinear_arith)
                requires
                    i > 0,
                    sc == 1000,
            ;
        }
        assert(0 <= w <= IMMEDIATE_WEIGHT);
        let p = a.price as int;
        assert(-128 * 1_000_000 <= p * w <= 128 * 1_000_000) by (nonlinear_arith)
            requires
                -128 <= p <= 127,
                0 <= w <= 1_000_000,
        ;
    }
}

/// A rollout scores at most `128 * IMMEDIATE_WEIGHT` (128,000,000) per move
/// either way.
pub proof fn lemma_rollout_score_bound(path: Seq<Action>)
    ensures
        -128_000_000 * path.len() <= rollout_score(path) <= 128_000_000 * path.len(),
    decreases path.len(),
{
    if path.len() > 0 {
        lemma_rollout_score_bound(path.drop_last());
        lemma_step_score_bound(path.last(), path.len() - 1);
    }
}

/// Score of a rollout.
pub fn path_score(path: &Vec<Action>) -> (r: i128)
    ensures
        r == rollout_score(path@),
{
    let mut score: i128 = 0;
    let mut i: usize = 0;
    while i < path.len()
        invariant
            i <= path@.len(),
            score == rollout_score(path@.subrange(0, i as int)),
        decreases path.len() - i,
    {
        let action = path[i];
        proof {
            assert(path@.subrange(0, i + 1).drop_last() =~= path@.subrange(0, i as int));
            lemma_rollout_score_bound(path@.subrange(0, i as int));
            lemma_step_score_bound(action, i as int);
        }
        if action.kind == ActionKind::Brew {
            let weight: i128 = if i == 0 {
                IMMEDIATE_WEIGHT
            } else {
                SCORE_SCALE / (i as i128)
            };
            score = score + action.price as i128 * weight;
        }
        i = i + 1;
    }
    assert(path@.subrange(0, i as int) =~= path@);
    score
}

// ----- decision -----

/// Turns during which a weak best move gives way to learning.
pub const EARLY_TURNS: i32 = 3;

/// Mean rollout score under which a best move counts as weak in the early
/// turns: one rupee one move after the first.
pub const EARLY_MEAN: i128 = SCORE_SCALE;

/// Inventory total under which the fallback grows the inventory first.
pub const MIN_FILL: i32 = 5;

/// The candidate's total score is within the range the decision handles.
pub open spec fn node_wf(x: Node) -> bool {
    -SCORE_BOUND <= x.score <= SCORE_BOUND
}

/// Candidate `a` is preferred to `b`: its mean rollout score is higher, or
/// equal while `a` learns and `b` does not.
pub open spec fn preferred(a: Node, b: Node) -> bool {
    ||| a.score * b.n > b.score * a.n
    ||| (a.score * b.n == b.score * a.n && a.action.kind == ActionKind::Learn && b.action.kind
        != ActionKind::Learn)
}

/// The best candidate with at least one rollout: candidates are taken in
/// order and each replaces the best so far when it is preferred to it.
pub open spec fn best_node(nodes: Seq<Node>) -> Option<int>
    decreases nodes.len(),
{
    if nodes.len() == 0 {
        None
    } else {
        let k = nodes.len() - 1;
        match best_node(nodes.drop_last()) {
            None => if nodes[k].n > 0 {
                Some(k)
            } else {
                None
            },
            Some(j) => if nodes[k].n > 0 && preferred(nodes[k], nodes[j]) {
                Some(k)
            } else {
                Some(j)
            },
        }
    }
}

/// The first candidate that learns.
pub open spec fn first_learn(nodes: Seq<Node>) -> Option<int>
    decreases nodes.len(),
{
    if nodes.len() == 0 {
        None
    } else {
        match first_learn(nodes.drop_last()) {
            Some(j) => Some(j),
            None => if nodes.last().action.kind == ActionKind::Learn {
                Some(nodes.len() - 1)
            } else {
                None
            },
        }
    }
}

/// A cast that only adds ingredients.
pub open spec fn grows(a: Action) -> bool {
    a.kind == ActionKind::Cast && non_negative(a.delta)
}

/// The first of the casts that only add ingredients with the largest growth.
pub open spec fn growth_node(nodes: Seq<Node>) -> Option<int>
    decreases nodes.len(),
{
    if nodes.len() == 0 {
        None
    } else {
        let k = nodes.len() - 1;
        match growth_node(nodes.drop_last()) {
            None => if grows(nodes[k].action) {
                Some(k)
            } else {
                None
            },
            Some(j) => if grows(nodes[k].action) && tier_sum(nodes[k].action.delta) > tier_sum(
                nodes[j].action.delta,
            ) {
                Some(k)
            } else {
                Some(j)
            },
        }
    }
}

/// Some candidate has a rollout.
pub open spec fn any_visited(nodes: Seq<Node>) -> bool {
    exists|i: int| 0 <= i < nodes.len() && (#[trigger] nodes[i]).n > 0
}

/// The move when no candidate has a positive score: with no rollout at all,
/// the first learn; otherwise grow a thin inventory, else rest if a spell
/// is spent, else learn, else rest.
pub open spec fn fallback(g: GameView, nodes: Seq<Node>) -> Action {
    if !any_visited(nodes) && first_learn(nodes) is Some {
        nodes[first_learn(nodes)->0].action
    } else if tier_sum(g.inventory) < MIN_FILL && growth_node(nodes) is Some {
        nodes[growth_node(nodes)->0].action
    } else if has_spent_spell(g.spells) {
        rest_action()
    } else if first_learn(nodes) is Some {
        nodes[first_learn(nodes)->0].action
    } else {
        rest_action()
    }
}

/// The move chosen from scored candidates: the best one when its score is
/// positive, unless in the first `EARLY_TURNS` turns its mean is under
/// `EARLY_MEAN` and a learn is offered; otherwise the fallback.
pub open spec fn decision(g: GameView, nodes: Seq<Node>) -> Action {
    match best_node(nodes) {
        Some(b) => if nodes[b].score > 0 {
            if g.turn <= EARLY_TURNS && nodes[b].score < EARLY_MEAN * nodes[b].n && first_learn(
                nodes,
            ) is Some {
                nodes[first_learn(nodes)->0].action
            } else {
                nodes[b].action
            }
        } else {
            fallback(g, nodes)
        },
        None => fallback(g, nodes),
    }
}

/// Mean `x1 / n1` is at least `x2 / n2`, which is at least `x3 / n3`, so the
/// first is at least the third, strictly if either step is strict.
proof fn lemma_mean_trans(x1: int, n1: int, x2: int, n2: int, x3: int, n3: int)
    requires
        n1 > 0,
        n2 > 0,
        n3 > 0,
        x1 * n2 >= x2 * n1,
        x2 * n3 >= x3 * n2,
    ensures
        x1 * n3 >= x3 * n1,
        x1 * n2 > x2 * n1 || x2 * n3 > x3 * n2 ==> x1 * n3 > x3 * n1,
{
    assert(x1 * n2 * n3 >= x2 * n1 * n3) by (nonlinear_arith)
        requires
            x1 * n2 >= x2 * n1,
            n3 > 0,
    ;
    assert(x2 * n3 * n1 >= x3 * n2 * n1) by (nonlinear_arith)
        requires
            x2 * n3 >= x3 * n2,
            n1 > 0,
    ;
    assert(x1 * n3 * n2 >= x3 * n1 * n2) by (nonlinear_arith)
        requires
            x1 * n2 * n3 >= x2 * n1 * n3,
            x2 * n3 * n1 >= x3 * n2 * n1,
    ;
    assert(x1 * n3 >= x3 * n1) by (nonlinear_arith)
        requires
            x1 * n3 * n2 >= x3 * n1 * n2,
            n2 > 0,
    ;
    if x1 * n2 > x2 * n1 || x2 * n3 > x3 * n2 {
        assert(x1 * n2 * n3 > x2 * n1 * n3 || x2 * n3 * n1 > x3 * n2 * n1) by (nonlinear_arith)
            requires
                x1 * n2 > x2 * n1 || x2 * n3 > x3 * n2,
                n1 > 0,
                n3 > 0,
        ;
        assert(x1 * n3 * n2 > x3 * n1 * n2) by (nonlinear_arith)
            requires
                x1 * n2 * n3 >= x2 * n1 * n3,
                x2 * n3 * n1 >= x3 * n2 * n1,
                x1 * n2 * n3 > x2 * n1 * n3 || x2 * n3 * n1 > x3 * n2 * n1,
        ;
        assert(x1 * n3 > x3 * n1) by (nonlinear_arith)
            requires
                x1 * n3 * n2 > x3 * n1 * n2,
                n2 > 0,
        ;
    }
}

/// The best candidate has the highest mean rollout score among the
/// candidates with rollouts, and when another of them with the same mean
/// learns, so does the best: ties go to learning. With no best candidate,
/// no candidate has a rollout.
pub proof fn lemma_best_node(nodes: Seq<Node>)
    ensures
        best_node(nodes) matches Some(b) ==> {
            &&& 0 <= b < nodes.len()
            &&& nodes[b].n > 0
            &&& forall|i: int|
                0 <= i < nodes.len() && (#[trigger] nodes[i]).n > 0 ==> {
                    &&& nodes[b].score * nodes[i].n >= nodes[i].score * nodes[b].n
                    &&& (nodes[i].action.kind == ActionKind::Learn && nodes[b].score * nodes[i].n
                        == nodes[i].score * nodes[b].n ==> nodes[b].action.kind
                        == ActionKind::Learn)
                }
        },
        best_node(nodes) is None ==> forall|i: int| 0 <= i < nodes.len() ==> (#[trigger] nodes[i]).n == 0,
    decreases nodes.len(),
{
    if nodes.len() > 0 {
        let front = nodes.drop_last();
        let k = nodes.len() - 1;
        lemma_best_node(front);
        assert forall|i: int| 0 <= i < k implies #[trigger] nodes[i] == front[i] by {}
        match best_node(front) {
            None => {},
            Some(j) => {
                let nk = nodes[k];
                let nj = nodes[j];
                if nk.n > 0 && preferred(nk, nj) {
                    assert forall|i: int| 0 <= i < nodes.len() && (#[trigger] nodes[i]).n > 0 implies {
                        &&& nk.score * nodes[i].n >= nodes[i].score * nk.n
                        &&& (nodes[i].action.kind == ActionKind::Learn && nk.score * nodes[i].n
                            == nodes[i].score * nk.n ==> nk.action.kind == ActionKind::Learn)
                    } by {
                        if i < k {
                            assert(front[i] == nodes[i]);
                            let ni = nodes[i];
                            lemma_mean_trans(nk.score as int, nk.n as int, nj.score as int, nj.n as int, ni.score as int, ni.n as int);
                            if ni.action.kind == ActionKind::Learn && nk.score * ni.n == ni.score * nk.n {
                                lemma_mean_trans(ni.score as int, ni.n as int, nk.score as int, nk.n as int, nj.score as int, nj.n as int);
                            }
                        }
                    }
                } else {
                    assert forall|i: int| 0 <= i < nodes.len() && (#[trigger] nodes[i]).n > 0 implies {
                        &&& nj.score * nodes[i].n >= nodes[i].score * nj.n
                        &&& (nodes[i].action.kind == ActionKind::Learn && nj.score * nodes[i].n
                            == nodes[i].score * nj.n ==> nj.action.kind == ActionKind::Learn)
                    } by {
                        if i < k {
                            assert(front[i] == nodes[i]);
                        }
                    }
                }
            },
        }
    }
}

/// Whether candidate `a` is preferred to `b`, computed without overflow.
fn prefers(a: &Node, b: &Node) -> (r: bool)
    requires
        node_wf(*a),
        node_wf(*b),
    ensures
        r == preferred(*a, *b),
{
    let sa = a.score;
    let sb = b.score;
    let na = a.n as i128;
    let nb = b.n as i128;
    proof {
        let bound = SCORE_BOUND as int;
        assert(-bound * 0x1_0000_0000 <= sa * nb <= bound * 0x1_0000_0000) by (nonlinear_arith)
            requires
                -bound <= sa <= bound,
                0 <= nb <= 0x1_0000_0000,
                bound >= 0,
        ;
        assert(-bound * 0x1_0000_0000 <= sb * na <= bound * 0x1_0000_0000) by (nonlinear_arith)
            requires
                -bound <= sb <= bound,
                0 <= na <= 0x1_0000_0000,
                bound >= 0,
        ;
    }
    let left = sa * nb;
    let right = sb * na;
    left > right || (left == right && a.action.kind == ActionKind::Learn && b.action.kind
        != ActionKind::Learn)
}

/// The move chosen from scored candidates (see `decision`).
pub fn choose_action(game: &Game, nodes: &Vec<Node>) -> (r: Action)
    requires
        forall|i: int| 0 <= i < nodes@.len() ==> node_wf(#[trigger] nodes@[i]),
    ensures
        r == decision(game@, nodes@),
{
    let mut best: Option<usize> = None;
    let mut learn: Option<usize> = None;
    let mut growth: Option<usize> = None;
    let mut visited = false;
    let mut i: usize = 0;
    while i < nodes.len()
        invariant
            forall|i: int| 0 <= i < nodes@.len() ==> node_wf(#[trigger] nodes@[i]),
            i <= nodes@.len(),
            best_node(nodes@.subrange(0, i as int)) == (match best {
                Some(b) => Some(b as int),
                None => None,
            }),
            first_learn(nodes@.subrange(0, i as int)) == (match learn {
                Some(b) => Some(b as int),
                None => None,
            }),
            growth_node(nodes@.subrange(0, i as int)) == (match growth {
                Some(b) => Some(b as int),
                None => None,
            }),
            visited == any_visited(nodes@.subrange(0, i as int)),
            best matches Some(b) ==> b < i,
            growth matches Some(b) ==> b < i,
            learn matches Some(b) ==> b < i,
        decreases nodes.len() - i,
    {
        let ghost front = nodes@.subrange(0, i as int);
        let ghost upto = nodes@.subrange(0, i + 1);
        assert(upto.drop_last() =~= front);
        let node = &nodes[i];
        match best {
            None => {
                if node.n > 0 {
                    best = Some(i);
                }
            },
            Some(b) => {
                assert(upto[b as int] == nodes@[b as int]);
                if node.n > 0 && prefers(node, &nodes[b]) {
                    best = Some(i);
                }
            },
        }
        if learn.is_none() && node.action.kind == ActionKind::Learn {
            learn = Some(i);
        }
        let adds = node.action.kind == ActionKind::Cast && node.action.delta[0] >= 0
            && node.action.delta[1] >= 0 && node.action.delta[2] >= 0 && node.action.delta[3] >= 0;
        match growth {
            None => {
                if adds {
                    growth = Some(i);
                }
            },
            Some(c) => {
                assert(upto[c as int] == nodes@[c as int]);
                let d = nodes[c].action.delta;
                let e = node.action.delta;
                if adds && e[0] as i32 + e[1] as i32 + e[2] as i32 + e[3] as i32 > d[0] as i32
                    + d[1] as i32 + d[2] as i32 + d[3] as i32 {
                    growth = Some(i);
                }
            },
        }
        proof {
            if visited {
                let w = choose|w: int| 0 <= w < front.len() && (#[trigger] front[w]).n > 0;
                assert(upto[w] == front[w]);
            }
            if node.n > 0 {
                assert(upto[i as int] == nodes@[i as int]);
            }
            if any_visited(upto) && !visited {
                let w = choose|w: int| 0 <= w < upto.len() && (#[trigger] upto[w]).n > 0;
                if w < i {
                    assert(front[w] == upto[w]);
                }
            }
        }
        visited = visited || node.n > 0;
        i = i + 1;
    }
    assert(nodes@.subrange(0, i as int) =~= nodes@);
    let first_learn_move = match learn {
        Some(l) => Some(nodes[l].action),
        None => None,
    };
    if let Some(b) = best {
        let top = &nodes[b];
        if top.score > 0 {
            if game.turn <= EARLY_TURNS && top.score < EARLY_MEAN * (top.n as i128) {
                if let Some(a) = first_learn_move {
                    return a;
                }
            }
            return top.action;
        }
    }
    if !visited {
        if let Some(a) = first_learn_move {
            return a;
        }
    }
    let total = game.inventory[0] as i32 + game.inventory[1] as i32 + game.inventory[2] as i32
        + game.inventory[3] as i32;
    if total < MIN_FILL {
        if let Some(c) = growth {
            return nodes[c].action;
        }
    }
    if any_spent(&game.spells) {
        return Action::new(ActionKind::Rest);
    }
    if let Some(a) = first_learn_move {
        return a;
    }
    Action::new(ActionKind::Rest)
}

// ----- search -----

/// Time for the first turn, in milliseconds.
pub const FIRST_TURN_BUDGET_MS: u128 = 998;

/// Time for every later turn, in milliseconds.
pub const TURN_BUDGET_MS: u128 = 48;

/// Time the search may take on a turn: longer on the first.
pub open spec fn turn_budget(turn: i32) -> u128 {
    if turn == 1 {
        FIRST_TURN_BUDGET_MS
    } else {
        TURN_BUDGET_MS
    }
}

/// Time the search may take on a turn.
pub fn time_budget_ms(turn: i32) -> (r: u128)
    ensures
        r == turn_budget(turn),
{
    if turn == 1 {
        FIRST_TURN_BUDGET_MS
    } else {
        TURN_BUDGET_MS
    }
}

proof fn lemma_best_in_range(nodes: Seq<Node>)
    ensures
        best_node(nodes) matches Some(b) ==> 0 <= b < nodes.len(),
    decreases nodes.len(),
{
    if nodes.len() > 0 {
        lemma_best_in_range(nodes.drop_last());
    }
}

proof fn lemma_learn_in_range(nodes: Seq<Node>)
    ensures
        first_learn(nodes) matches Some(b) ==> 0 <= b < nodes.len() && nodes[b].action.kind
            == ActionKind::Learn,
    decreases nodes.len(),
{
    if nodes.len() > 0 {
        lemma_learn_in_range(nodes.drop_last());
        if let Some(b) = first_learn(nodes.drop_last()) {
            assert(nodes.drop_last()[b] == nodes[b]);
        }
    }
}

proof fn lemma_growth_in_range(nodes: Seq<Node>)
    ensures
        growth_node(nodes) matches Some(b) ==> 0 <= b < nodes.len(),
    decreases nodes.len(),
{
    if nodes.len() > 0 {
        lemma_growth_in_range(nodes.drop_last());
    }
}

/// The decided move is the move of one of the candidates, or a rest.
pub proof fn lemma_decision_among(g: GameView, nodes: Seq<Node>)
    ensures
        decision(g, nodes) == rest_action() || exists|i: int|
            0 <= i < nodes.len() && (#[trigger] nodes[i]).action == decision(g, nodes),
{
    lemma_best_in_range(nodes);
    lemma_learn_in_range(nodes);
    lemma_growth_in_range(nodes);
    let r = decision(g, nodes);
    if r != rest_action() {
        if let Some(b) = best_node(nodes) {
            if nodes[b].action == r {
                return;
            }
        }
        if let Some(l) = first_learn(nodes) {
            if nodes[l].action == r {
                return;
            }
        }
        let c = growth_node(nodes)->0;
        assert(nodes[c].action == r);
    }
}

/// Sum of the scores of some rollouts.
pub open spec fn total_score(rollouts: Seq<Seq<Action>>) -> int
    decreases rollouts.len(),
{
    if rollouts.len() == 0 {
        0
    } else {
        total_score(rollouts.drop_last()) + rollout_score(rollouts.last())
    }
}

/// What a search from `g` with a budget of `budget_ms` leaves: one candidate
/// per legal move, in order, whose score is the total of the complete
/// rollouts made from the state its move leads to (`rollouts[i]`), and
/// which has `MAX_ROUNDS` of them when the budget is unbounded.
pub open spec fn searched(
    g: GameView,
    budget_ms: u128,
    nodes: Seq<Node>,
    rollouts: Seq<Seq<Seq<Action>>>,
) -> bool {
    let legal = legal_actions(g);
    &&& nodes.len() == legal.len()
    &&& rollouts.len() == legal.len()
    &&& forall|i: int|
        0 <= i < nodes.len() ==> {
            &&& (#[trigger] nodes[i]).action == legal[i]
            &&& node_wf(nodes[i])
            &&& nodes[i].n == rollouts[i].len()
            &&& nodes[i].score == total_score(rollouts[i])
            &&& forall|k: int|
                0 <= k < rollouts[i].len() ==> complete_rollout(
                    legal[i],
                    apply(legal[i], g),
                    #[trigger] rollouts[i][k],
                )
            &&& (budget_ms == u128::MAX ==> nodes[i].n == MAX_ROUNDS)
        }
}

/// The move to play: one candidate per legal move, rollouts from each in
/// turn until `budget_ms` milliseconds have passed since `start_time`, then
/// the decision over their scores. The move is legal, or a rest.
pub fn decide(game: &Game, start_time: &Instant, budget_ms: u128) -> (r: Action)
    requires
        game_wf(game@),
    ensures
        legal_actions(game@).contains(r) || r == rest_action(),
        exists|nodes: Seq<Node>, rollouts: Seq<Seq<Seq<Action>>>|
            #[trigger] searched(game@, budget_ms, nodes, rollouts) && r == decision(game@, nodes),
{
    let candidates = get_neighbors(game);
    let mut nodes: Vec<Node> = Vec::new();
    let mut i: usize = 0;
    while i < candidates.len()
        invariant
            game_wf(game@),
            candidates@ == legal_actions(game@),
            i <= candidates@.len(),
            nodes@.len() == i,
            forall|m: int|
                0 <= m < i ==> {
                    &&& (#[trigger] nodes@[m]).action == candidates@[m]
                    &&& nodes@[m].state@ == apply(candidates@[m], game@)
                    &&& game_wf(nodes@[m].state@)
                    &&& nodes@[m].score == 0
                    &&& nodes@[m].n == 0
                },
        decreases candidates.len() - i,
    {
        let a = candidates[i];
        assert(legal_actions(game@).contains(a)) by {
            assert(candidates@[i as int] == a);
        }
        let state = simulate(&a, game);
        nodes.push(Node::new(a, state));
        i = i + 1;
    }
    let mut rollouts: Ghost<Seq<Seq<Seq<Action>>>> = Ghost(
        Seq::new(nodes@.len(), |m: int| Seq::<Seq<Action>>::empty()),
    );
    let mut rounds: u32 = 0;
    let mut timed_out = false;
    while !timed_out && rounds < MAX_ROUNDS && nodes.len() > 0
        invariant
            candidates@ == legal_actions(game@),
            nodes@.len() == candidates@.len(),
            rollouts@.len() == nodes@.len(),
            rounds <= MAX_ROUNDS,
            budget_ms == u128::MAX ==> !timed_out,
            forall|m: int|
                0 <= m < nodes@.len() ==> {
                    &&& (#[trigger] nodes@[m]).action == candidates@[m]
                    &&& nodes@[m].state@ == apply(candidates@[m], game@)
                    &&& game_wf(nodes@[m].state@)
                    &&& nodes@[m].n <= rounds
                    &&& (!timed_out ==> nodes@[m].n == rounds)
                    &&& nodes@[m].n == rollouts@[m].len()
                    &&& nodes@[m].score == total_score(rollouts@[m])
                    &&& forall|k: int|
                        0 <= k < rollouts@[m].len() ==> complete_rollout(
                            candidates@[m],
                            nodes@[m].state@,
                            #[trigger] rollouts@[m][k],
                        )
                    &&& -ROLLOUT_BOUND * nodes@[m].n <= nodes@[m].score
                        <= ROLLOUT_BOUND * nodes@[m].n
                },
        decreases MAX_ROUNDS - rounds,
    {
        let mut j: usize = 0;
        while j < nodes.len() && !timed_out
            invariant
                candidates@ == legal_actions(game@),
                nodes@.len() == candidates@.len(),
                rollouts@.len() == nodes@.len(),
                rounds < MAX_ROUNDS,
                j <= nodes@.len(),
                budget_ms == u128::MAX ==> !timed_out,
                forall|m: int|
                    0 <= m < nodes@.len() ==> {
                        &&& (#[trigger] nodes@[m]).action == candidates@[m]
                        &&& nodes@[m].state@ == apply(candidates@[m], game@)
                        &&& game_wf(nodes@[m].state@)
                        &&& nodes@[m].n <= rounds + 1
                        &&& (m >= j ==> nodes@[m].n <= rounds)
                        &&& (!timed_out ==> nodes@[m].n == if m < j {
                            rounds + 1
                        } else {
                            rounds as int
                        })
                        &&& nodes@[m].n == rollouts@[m].len()
                        &&& nodes@[m].score == total_score(rollouts@[m])
                        &&& forall|k: int|
                            0 <= k < rollouts@[m].len() ==> complete_rollout(
                                candidates@[m],
                                nodes@[m].state@,
                                #[trigger] rollouts@[m][k],
                            )
                        &&& -ROLLOUT_BOUND * nodes@[m].n <= nodes@[m].score
                            <= ROLLOUT_BOUND * nodes@[m].n
                    },
            decreases nodes.len() - j,
        {
            match playout(&nodes[j], start_time, budget_ms) {
                Some(path) => {
                    let s = path_score(&path);
                    proof {
                        lemma_rollout_score_bound(path@);
                    }
                    let ghost before = rollouts@[j as int];
                    let ghost after = before.push(path@);
                    assert(after.drop_last() =~= before);
                    rollouts = Ghost(rollouts@.update(j as int, after));
                    let score = nodes[j].score + s;
                    let n = nodes[j].n + 1;
                    nodes[j].score = score;
                    nodes[j].n = n;
                },
                None => {
                    timed_out = true;
                },
            }
            j = j + 1;
        }
        rounds = rounds + 1;
    }
    proof {
        assert forall|m: int| 0 <= m < nodes@.len() implies node_wf(#[trigger] nodes@[m]) by {
            assert(nodes@[m].n <= MAX_ROUNDS);
        }
        assert(searched(game@, budget_ms, nodes@, rollouts@));
    }
    let r = choose_action(game, &nodes);
    proof {
        lemma_decision_among(game@, nodes@);
        if r != rest_action() {
            let i = choose|i: int| 0 <= i < nodes@.len() && (#[trigger] nodes@[i]).action == r;
            assert(candidates@[i] == r);
        }
    }
    r
}

/// Ties go to learning: when a learn with rollouts has a positive mean
/// that no candidate with rollouts exceeds, the decided move is a learn.
pub proof fn lemma_tie_goes_to_learning(g: GameView, nodes: Seq<Node>, i: int)
    requires
        0 <= i < nodes.len(),
        nodes[i].n > 0,
        nodes[i].score > 0,
        nodes[i].action.kind == ActionKind::Learn,
        forall|j: int|
            0 <= j < nodes.len() && (#[trigger] nodes[j]).n > 0 ==> nodes[i].score * nodes[j].n
                >= nodes[j].score * nodes[i].n,
    ensures
        decision(g, nodes).kind == ActionKind::Learn,
{
    lemma_best_node(nodes);
    lemma_learn_in_range(nodes);
    let b = best_node(nodes)->0;
    let sb = nodes[b].score as int;
    let nb = nodes[b].n as int;
    let si = nodes[i].score as int;
    let ni = nodes[i].n as int;
    assert(sb * ni == si * nb);
    assert(nodes[b].action.kind == ActionKind::Learn);
    assert(sb > 0) by (nonlinear_arith)
        requires
            sb * ni == si * nb,
            si > 0,
            ni > 0,
            nb > 0,
    ;
}

/// A non-empty run of legal moves starts with a legal move of its state.
proof fn lemma_run_first(g: GameView, path: Seq<Action>)
    requires
        is_run(g, path),
        path.len() > 0,
    ensures
        legal_actions(g).contains(path[0]),
    decreases path.len(),
{
    if path.len() > 1 {
        lemma_run_first(g, path.drop_last());
        assert(path.drop_last()[0] == path[0]);
    } else {
        assert(path.drop_last() =~= Seq::<Action>::empty());
    }
}

/// Rollouts that each score above zero total above zero.
proof fn lemma_total_positive(rollouts: Seq<Seq<Action>>)
    requires
        rollouts.len() > 0,
        forall|k: int| 0 <= k < rollouts.len() ==> rollout_score(#[trigger] rollouts[k]) > 0,
    ensures
        total_score(rollouts) > 0,
    decreases rollouts.len(),
{
    let front = rollouts.drop_last();
    assert(rollout_score(rollouts[rollouts.len() - 1]) > 0);
    if front.len() > 0 {
        assert forall|k: int| 0 <= k < front.len() implies rollout_score(#[trigger] front[k]) > 0 by {
            assert(front[k] == rollouts[k]);
        }
        lemma_total_positive(front);
    }
}

/// When the only legal move serves an order for a positive price and leaves
/// no legal move after it, a search with an unbounded budget serves it.
pub proof fn lemma_lone_order_is_served(
    g: GameView,
    o: Action,
    nodes: Seq<Node>,
    rollouts: Seq<Seq<Seq<Action>>>,
)
    requires
        legal_actions(g) == seq![o],
        o.kind == ActionKind::Brew,
        o.price > 0,
        legal_actions(apply(o, g)).len() == 0,
        searched(g, u128::MAX, nodes, rollouts),
    ensures
        decision(g, nodes) == o,
{
    let rs = rollouts[0];
    assert(nodes[0].action == o);
    assert forall|k: int| 0 <= k < rs.len() implies rollout_score(#[trigger] rs[k]) > 0 by {
        let path = rs[k];
        assert(complete_rollout(o, apply(o, g), path));
        if path.len() > 1 {
            lemma_run_first(apply(o, g), path.drop_first());
            assert(false);
        }
        assert(path.len() == 1 && path.last() == o);
        assert(path.drop_last() =~= Seq::<Action>::empty());
        assert(rollout_score(Seq::<Action>::empty()) == 0);
        let p = o.price as int;
        assert(p * 1_000_000 > 0) by (nonlinear_arith)
            requires
                p > 0,
        ;
        assert(rollout_score(path) == step_score(o, 0));
    }
    lemma_total_positive(rs);
    assert(nodes.len() == 1);
    assert(nodes[0].n == MAX_ROUNDS);
    assert(nodes.drop_last() =~= Seq::<Node>::empty());
    assert(best_node(Seq::<Node>::empty()) is None);
    assert(first_learn(Seq::<Node>::empty()) is None);
    assert(best_node(nodes) == Some(0int));
    assert(first_learn(nodes) is None);
}

/// The move to play this turn, within the turn's time budget counted from
/// `start_time`.
pub fn find_best_action(game: &Game, start_time: &Instant) -> (r: Action)
    requires
        game_wf(game@),
    ensures
        legal_actions(game@).contains(r) || r == rest_action(),
        exists|nodes: Seq<Node>, rollouts: Seq<Seq<Seq<Action>>>|
            #[trigger] searched(game@, turn_budget(game.turn), nodes, rollouts) && r == decision(
                game@,
                nodes,
            ),
{
    let budget = time_budget_ms(game.turn);
    decide(game, start_time, budget)
}

} // verus!
