//! The rules: which moves are legal in a state, and the state each leads to,
//! stated as spec functions and implemented against them.

use vstd::prelude::*;
use crate::model::{
    consumes, fits, final_score, game_wf, rest_action, tier_sum, Action, ActionKind, Game, GameView,
    CAPACITY, LAST_TURN, MAX_REPEAT, MAX_SERVED, SAFE_SERVED,
};

verus! {

/// Tier-wise sum of two ingredient vectors.
pub fn delta_add(a: &[i8; 4], b: &[i8; 4]) -> (r: [i8; 4])
    requires
        i8::MIN <= a[0] + b[0] <= i8::MAX,
        i8::MIN <= a[1] + b[1] <= i8::MAX,
        i8::MIN <= a[2] + b[2] <= i8::MAX,
        i8::MIN <= a[3] + b[3] <= i8::MAX,
    ensures
        r[0] == a[0] + b[0],
        r[1] == a[1] + b[1],
        r[2] == a[2] + b[2],
        r[3] == a[3] + b[3],
{
    [a[0] + b[0], a[1] + b[1], a[2] + b[2], a[3] + b[3]]
}

/// Tier-wise product of two ingredient vectors.
pub fn delta_mult(a: &[i8; 4], b: &[i8; 4]) -> (r: [i8; 4])
    requires
        i8::MIN <= a[0] * b[0] <= i8::MAX,
        i8::MIN <= a[1] * b[1] <= i8::MAX,
        i8::MIN <= a[2] * b[2] <= i8::MAX,
        i8::MIN <= a[3] * b[3] <= i8::MAX,
    ensures
        r[0] == a[0] * b[0],
        r[1] == a[1] * b[1],
        r[2] == a[2] * b[2],
        r[3] == a[3] * b[3],
{
    [a[0] * b[0], a[1] * b[1], a[2] * b[2], a[3] * b[3]]
}

/// End-of-game value of an inventory: one point per ingredient above tier 0.
pub fn inventory_final_score(state: [i8; 4]) -> (r: i32)
    ensures
        r == final_score(state),
{
    state[1] as i32 + state[2] as i32 + state[3] as i32
}

// ----- move generation, as mathematics -----

/// Tier `j` of the inventory after applying `d` `k` times.
pub open spec fn tier_after(inv: [i8; 4], d: [i8; 4], k: int, j: int) -> int {
    inv[j] + d[j] * k
}

/// Applying `d` `k` times leaves no tier negative and stays within capacity.
pub open spec fn cast_fits(inv: [i8; 4], d: [i8; 4], k: int) -> bool {
    &&& tier_after(inv, d, k, 0) >= 0
    &&& tier_after(inv, d, k, 1) >= 0
    &&& tier_after(inv, d, k, 2) >= 0
    &&& tier_after(inv, d, k, 3) >= 0
    &&& tier_after(inv, d, k, 0) + tier_after(inv, d, k, 1) + tier_after(inv, d, k, 2)
        + tier_after(inv, d, k, 3) <= CAPACITY
}

/// A spell cast `k` times in one move.
pub open spec fn scaled(s: Action, k: int) -> Action {
    Action {
        delta: [
            (s.delta[0] * k) as i8,
            (s.delta[1] * k) as i8,
            (s.delta[2] * k) as i8,
            (s.delta[3] * k) as i8,
        ],
        repeat: k as i8,
        ..s
    }
}

/// Largest repeat count reached by trying `k`, `k + 1`, ... in order, stopping
/// at the first that does not fit, after one try for a spell that is not
/// repeatable, and after `MAX_REPEAT`.
pub open spec fn repeats_from(inv: [i8; 4], s: Action, k: int) -> int
    decreases MAX_REPEAT + 1 - k,
{
    if k > MAX_REPEAT || !cast_fits(inv, s.delta, k) {
        k - 1
    } else if !s.repeatable {
        k
    } else {
        repeats_from(inv, s, k + 1)
    }
}

/// The cast moves that one spell offers: repeat counts 1, 2, ... while they fit.
pub open spec fn casts_of(inv: [i8; 4], s: Action) -> Seq<Action> {
    if s.castable {
        Seq::new(repeats_from(inv, s, 1) as nat, |m: int| scaled(s, m + 1))
    } else {
        Seq::empty()
    }
}

/// The cast moves of a spell list, spell by spell.
pub open spec fn casts(inv: [i8; 4], spells: Seq<Action>) -> Seq<Action>
    decreases spells.len(),
{
    if spells.len() == 0 {
        Seq::empty()
    } else {
        casts(inv, spells.drop_last()) + casts_of(inv, spells.last())
    }
}

/// The tax can be paid from tier 0 and the inventory with the pocket
/// collected stays within capacity. Learning collects the pocket first and
/// pays the tax after, so capacity is checked before the tax is paid.
pub open spec fn can_learn(inv: [i8; 4], l: Action) -> bool {
    inv[0] >= l.tax && tier_sum(inv) + l.pocket <= CAPACITY
}

/// The tome entries that can be learned, in tome order.
pub open spec fn learns(inv: [i8; 4], book: Seq<Action>) -> Seq<Action>
    decreases book.len(),
{
    if book.len() == 0 {
        Seq::empty()
    } else {
        learns(inv, book.drop_last()) + if can_learn(inv, book.last()) {
            seq![book.last()]
        } else {
            Seq::empty()
        }
    }
}

/// The inventory holds the ingredients of an order.
pub open spec fn has_ingredients(inv: [i8; 4], d: [i8; 4]) -> bool {
    inv[0] + d[0] >= 0 && inv[1] + d[1] >= 0 && inv[2] + d[2] >= 0 && inv[3] + d[3] >= 0
}

/// An order can be served: its ingredients are there and, once `SAFE_SERVED`
/// orders are served, serving it keeps the projected final score strictly
/// ahead of the opponent's.
pub open spec fn can_brew(g: GameView, o: Action) -> bool {
    &&& has_ingredients(g.inventory, o.delta)
    &&& (g.served < SAFE_SERVED || g.my_score + o.price + (g.inventory[1] + o.delta[1]) + (
    g.inventory[2] + o.delta[2]) + (g.inventory[3] + o.delta[3]) > g.opp_score
        + g.opp_inventory_score)
}

/// The orders that can be served, in order.
pub open spec fn brews(g: GameView, orders: Seq<Action>) -> Seq<Action>
    decreases orders.len(),
{
    if orders.len() == 0 {
        Seq::empty()
    } else {
        brews(g, orders.drop_last()) + if can_brew(g, orders.last()) {
            seq![orders.last()]
        } else {
            Seq::empty()
        }
    }
}

/// Some spell waits for a rest.
pub open spec fn has_spent_spell(spells: Seq<Action>) -> bool {
    exists|i: int| 0 <= i < spells.len() && !(#[trigger] spells[i]).castable
}

/// The legal moves of a state: casts, then learns, then brews, then a rest
/// when a spell is spent; none once the game is over.
pub open spec fn legal_actions(g: GameView) -> Seq<Action> {
    if g.calc_turn < LAST_TURN && g.served < MAX_SERVED {
        casts(g.inventory, g.spells) + learns(g.inventory, g.book) + brews(g, g.orders) + if has_spent_spell(g.spells) {
            seq![rest_action()]
        } else {
            Seq::empty()
        }
    } else {
        Seq::empty()
    }
}

// ----- move generation -----

/// Whether applying `d` `k` times fits, computed without overflow.
fn fits_after(inv: &[i8; 4], d: &[i8; 4], k: i8) -> (r: bool)
    requires
        1 <= k <= MAX_REPEAT,
    ensures
        r == cast_fits(*inv, *d, k as int),
{
    let kk = k as i32;
    proof {
        assert(-1280 <= d[0] * kk <= 1280) by (nonlinear_arith)
            requires
                1 <= kk <= 10,
                -128 <= d[0] <= 127,
        ;
        assert(-1280 <= d[1] * kk <= 1280) by (nonlinear_arith)
            requires
                1 <= kk <= 10,
                -128 <= d[1] <= 127,
        ;
        assert(-1280 <= d[2] * kk <= 1280) by (nonlinear_arith)
            requires
                1 <= kk <= 10,
                -128 <= d[2] <= 127,
        ;
        assert(-1280 <= d[3] * kk <= 1280) by (nonlinear_arith)
            requires
                1 <= kk <= 10,
                -128 <= d[3] <= 127,
        ;
    }
    let t0 = inv[0] as i32 + d[0] as i32 * kk;
    let t1 = inv[1] as i32 + d[1] as i32 * kk;
    let t2 = inv[2] as i32 + d[2] as i32 * kk;
    let t3 = inv[3] as i32 + d[3] as i32 * kk;
    t0 >= 0 && t1 >= 0 && t2 >= 0 && t3 >= 0 && t0 + t1 + t2 + t3 <= CAPACITY
}

/// Every cast move: each castable spell with repeat counts 1, 2, ... as long
/// as the inventory stays non-negative and within capacity (count 1 only for
/// a spell that is not repeatable).
pub fn get_available_spells(game: &Game) -> (r: Vec<Action>)
    requires
        fits(game.inventory),
    ensures
        r@ == casts(game.inventory, game.spells@),
{
    let inv = game.inventory;
    let mut possible_cast: Vec<Action> = Vec::new();
    let mut i: usize = 0;
    while i < game.spells.len()
        invariant
            inv == game.inventory,
            fits(inv),
            i <= game.spells.len(),
            possible_cast@ == casts(inv, game.spells@.subrange(0, i as int)),
        decreases game.spells.len() - i,
    {
        let spell = game.spells[i];
        let ghost base = possible_cast@;
        proof {
            assert(game.spells@.subrange(0, i + 1).drop_last() =~= game.spells@.subrange(0, i as int));
        }
        if spell.castable {
            let mut repeat_count: i8 = 1;
            loop
                invariant_except_break
                    1 <= repeat_count <= MAX_REPEAT + 1,
                    repeats_from(inv, spell, 1) == repeats_from(inv, spell, repeat_count as int),
                    spell.repeatable || repeat_count == 1,
                    possible_cast@ == base + Seq::new(
                        (repeat_count - 1) as nat,
                        |m: int| scaled(spell, m + 1),
                    ),
                invariant
                    fits(inv),
                    spell.castable,
                ensures
                    possible_cast@ == base + casts_of(inv, spell),
                decreases MAX_REPEAT + 1 - repeat_count,
            {
                if repeat_count > MAX_REPEAT || !fits_after(&inv, &spell.delta, repeat_count) {
                    break;
                }
                let k = repeat_count;
                assert(-10 <= spell.delta[0] * k <= 10);
                assert(-10 <= spell.delta[1] * k <= 10);
                assert(-10 <= spell.delta[2] * k <= 10);
                assert(-10 <= spell.delta[3] * k <= 10);
                let mut new_spell = spell;
                new_spell.delta = delta_mult(&spell.delta, &[k, k, k, k]);
                new_spell.repeat = k;
                assert(new_spell == scaled(spell, k as int)) by {
                    assert(new_spell.delta =~= scaled(spell, k as int).delta);
                }
                possible_cast.push(new_spell);
                if !spell.repeatable {
                    assert(possible_cast@ =~= base + Seq::new(
                        k as nat,
                        |m: int| scaled(spell, m + 1),
                    ));
                    break;
                }
                repeat_count = repeat_count + 1;
                assert(possible_cast@ =~= base + Seq::new(
                    (repeat_count - 1) as nat,
                    |m: int| scaled(spell, m + 1),
                ));
            }
        }
        i = i + 1;
    }
    assert(game.spells@.subrange(0, i as int) =~= game.spells@);
    possible_cast
}

/// Every tome entry whose tax can be paid and whose pocket fits, in tome order.
pub fn get_available_learns(game: &Game) -> (r: Vec<Action>)
    ensures
        r@ == learns(game.inventory, game.book@),
{
    let inv = game.inventory;
    let total = inv[0] as i32 + inv[1] as i32 + inv[2] as i32 + inv[3] as i32;
    let mut possible_learn: Vec<Action> = Vec::new();
    let mut i: usize = 0;
    while i < game.book.len()
        invariant
            inv == game.inventory,
            total == tier_sum(inv),
            i <= game.book.len(),
            possible_learn@ == learns(inv, game.book@.subrange(0, i as int)),
        decreases game.book.len() - i,
    {
        let learn = game.book[i];
        proof {
            assert(game.book@.subrange(0, i + 1).drop_last() =~= game.book@.subrange(0, i as int));
        }
        if inv[0] >= learn.tax && total + learn.pocket as i32 <= CAPACITY {
            possible_learn.push(learn);
        }
        i = i + 1;
    }
    assert(game.book@.subrange(0, i as int) =~= game.book@);
    possible_learn
}

/// Every order that can be served, in order.
pub fn get_available_brews(game: &Game) -> (r: Vec<Action>)
    ensures
        r@ == brews(game@, game.orders@),
{
    let inv = game.inventory;
    let rival = game.opp_score as i64 + game.opp_inventory_score as i64;
    let mut possible_brew: Vec<Action> = Vec::new();
    let mut i: usize = 0;
    while i < game.orders.len()
        invariant
            inv == game.inventory,
            rival == game.opp_score + game.opp_inventory_score,
            i <= game.orders.len(),
            possible_brew@ == brews(game@, game.orders@.subrange(0, i as int)),
        decreases game.orders.len() - i,
    {
        let order = game.orders[i];
        proof {
            assert(game.orders@.subrange(0, i + 1).drop_last() =~= game.orders@.subrange(0, i as int));
        }
        let t0 = inv[0] as i32 + order.delta[0] as i32;
        let t1 = inv[1] as i32 + order.delta[1] as i32;
        let t2 = inv[2] as i32 + order.delta[2] as i32;
        let t3 = inv[3] as i32 + order.delta[3] as i32;
        if t0 >= 0 && t1 >= 0 && t2 >= 0 && t3 >= 0 {
            let projected = game.my_score as i64 + order.price as i64 + t1 as i64 + t2 as i64
                + t3 as i64;
            if game.served < SAFE_SERVED || projected > rival {
                possible_brew.push(order);
            }
        }
        i = i + 1;
    }
    assert(game.orders@.subrange(0, i as int) =~= game.orders@);
    possible_brew
}

/// Whether some spell waits for a rest.
pub(crate) fn any_spent(spells: &Vec<Action>) -> (r: bool)
    ensures
        r == has_spent_spell(spells@),
{
    let mut i: usize = 0;
    while i < spells.len()
        invariant
            i <= spells.len(),
            forall|m: int| 0 <= m < i ==> (#[trigger] spells@[m]).castable,
        decreases spells.len() - i,
    {
        if !spells[i].castable {
            return true;
        }
        i = i + 1;
    }
    false
}

/// Every legal move of a state: casts, learns, brews, and a rest when some
/// spell is spent. None once the last turn is reached or `MAX_SERVED`
/// orders are served.
pub fn get_neighbors(game: &Game) -> (r: Vec<Action>)
    requires
        fits(game.inventory),
    ensures
        r@ == legal_actions(game@),
{
    let mut neighbors: Vec<Action> = Vec::new();
    if game.calc_turn < LAST_TURN && game.served < MAX_SERVED {
        neighbors = get_available_spells(game);
        let mut learn_moves = get_available_learns(game);
        neighbors.append(&mut learn_moves);
        let mut brew_moves = get_available_brews(game);
        neighbors.append(&mut brew_moves);
        if any_spent(&game.spells) {
            neighbors.push(Action::new(ActionKind::Rest));
        }
        assert(neighbors@ =~= legal_actions(game@));
    }
    neighbors
}

// ----- transitions, as mathematics -----

/// `i` is the first position of `s` holding the id.
pub open spec fn is_first_id(s: Seq<Action>, id: i32, i: int) -> bool {
    &&& 0 <= i < s.len()
    &&& s[i].id == id
    &&& forall|m: int| 0 <= m < i ==> (#[trigger] s[m]).id != id
}

/// The first position of `s` holding the id.
pub open spec fn first_id(s: Seq<Action>, id: i32) -> int {
    choose|i: int| is_first_id(s, id, i)
}

/// Tier-wise sum of an inventory and a delta.
pub open spec fn added(inv: [i8; 4], d: [i8; 4]) -> [i8; 4] {
    [(inv[0] + d[0]) as i8, (inv[1] + d[1]) as i8, (inv[2] + d[2]) as i8, (inv[3] + d[3]) as i8]
}

/// A spell after a cast.
pub open spec fn spent(s: Action) -> Action {
    Action { castable: false, ..s }
}

/// A spell after a rest.
pub open spec fn refreshed(s: Action) -> Action {
    Action { castable: true, ..s }
}

/// The spell that learning a tome entry adds.
pub open spec fn learned_spell(a: Action) -> Action {
    Action { kind: ActionKind::Cast, castable: true, ..a }
}

/// Tome entry `i` once entry `learned` is taken: entries before it hold one
/// more ingredient for whoever learns them, entries after it with a tax cost
/// one less.
pub open spec fn shifted(e: Action, i: int, learned: int) -> Action {
    if e.tax > 0 && i > learned {
        Action { tax: (e.tax - 1) as i8, ..e }
    } else if i < learned {
        Action { pocket: (e.pocket + 1) as i8, ..e }
    } else {
        e
    }
}

/// Order `i` with its price raised by `bonus`.
pub open spec fn raised(orders: Seq<Action>, i: int, bonus: int) -> Seq<Action> {
    orders.update(i, Action { price: (orders[i].price + bonus) as i8, ..orders[i] })
}

/// The remaining orders once a served order has left: the first of them
/// gains 2 and the second gains 1, when present.
pub open spec fn with_bonus(orders: Seq<Action>) -> Seq<Action> {
    if orders.len() > 1 {
        raised(raised(orders, 0, 2), 1, 1)
    } else if orders.len() > 0 {
        raised(orders, 0, 2)
    } else {
        orders
    }
}

/// The state that a move leads to. Every move advances the simulated turn.
pub open spec fn apply(a: Action, g: GameView) -> GameView {
    let next = GameView { calc_turn: (g.calc_turn + 1) as i32, ..g };
    match a.kind {
        ActionKind::Cast => {
            let p = first_id(g.spells, a.id);
            GameView {
                spells: g.spells.update(p, spent(g.spells[p])),
                inventory: added(g.inventory, a.delta),
                ..next
            }
        },
        ActionKind::Learn => {
            let p = first_id(g.book, a.id);
            GameView {
                book: Seq::new(g.book.len(), |i: int| shifted(g.book[i], i, p)).remove(p),
                spells: g.spells.push(learned_spell(a)),
                inventory: [
                    (g.inventory[0] + a.pocket - a.tax) as i8,
                    g.inventory[1],
                    g.inventory[2],
                    g.inventory[3],
                ],
                ..next
            }
        },
        ActionKind::Brew => {
            let p = first_id(g.orders, a.id);
            GameView {
                served: (g.served + 1) as i8,
                my_score: (g.my_score + a.price) as i32,
                orders: with_bonus(g.orders.remove(p)),
                inventory: added(g.inventory, a.delta),
                ..next
            }
        },
        ActionKind::Rest => GameView { spells: g.spells.map_values(|s: Action| refreshed(s)), ..next },
    }
}

/// What a move needs of the state it is applied to.
pub open spec fn move_ok(a: Action, g: GameView) -> bool {
    &&& g.calc_turn < LAST_TURN
    &&& g.served < MAX_SERVED
    &&& match a.kind {
        ActionKind::Cast => {
            &&& exists|i: int| 0 <= i < g.spells.len() && (#[trigger] g.spells[i]).id == a.id
            &&& fits(added(g.inventory, a.delta))
            &&& has_ingredients(g.inventory, a.delta)
            &&& tier_sum(g.inventory) + tier_sum(a.delta) <= CAPACITY
        },
        ActionKind::Learn => {
            &&& exists|i: int| 0 <= i < g.book.len() && (#[trigger] g.book[i]).id == a.id
            &&& can_learn(g.inventory, a)
            &&& 0 <= a.tax
            &&& 0 <= a.pocket
        },
        ActionKind::Brew => {
            &&& exists|i: int| 0 <= i < g.orders.len() && (#[trigger] g.orders[i]).id == a.id
            &&& has_ingredients(g.inventory, a.delta)
            &&& consumes(a.delta)
            &&& a.price + 2 * (MAX_SERVED - g.served) <= i8::MAX
        },
        ActionKind::Rest => true,
    }
}

// ----- what legality gives -----

/// Every repeat count up to the one reached fits and is within `MAX_REPEAT`.
pub proof fn lemma_repeats_fit(inv: [i8; 4], s: Action, k: int, m: int)
    requires
        1 <= k <= m <= repeats_from(inv, s, k),
    ensures
        cast_fits(inv, s.delta, m),
        m <= MAX_REPEAT,
    decreases MAX_REPEAT + 1 - k,
{
    if m > k {
        lemma_repeats_fit(inv, s, k + 1, m);
    }
}

/// Trying from `k` reaches at least `k - 1`.
pub proof fn lemma_repeats_lower(inv: [i8; 4], s: Action, k: int)
    ensures
        repeats_from(inv, s, k) >= k - 1,
    decreases MAX_REPEAT + 1 - k,
{
    if k <= MAX_REPEAT && cast_fits(inv, s.delta, k) && s.repeatable {
        lemma_repeats_lower(inv, s, k + 1);
    }
}

/// A cast move is a castable spell of the list, scaled by a count that fits.
pub proof fn lemma_cast_member(inv: [i8; 4], spells: Seq<Action>, a: Action)
    requires
        casts(inv, spells).contains(a),
    ensures
        exists|i: int, k: int|
            0 <= i < spells.len() && 1 <= k <= MAX_REPEAT && cast_fits(inv, spells[i].delta, k)
                && a == #[trigger] scaled(spells[i], k),
    decreases spells.len(),
{
    let front = casts(inv, spells.drop_last());
    let back = casts_of(inv, spells.last());
    let n = choose|n: int| 0 <= n < casts(inv, spells).len() && casts(inv, spells)[n] == a;
    assert(spells.len() > 0);
    assert(casts(inv, spells) == front + back);
    if n < front.len() {
        assert(front[n] == a);
        lemma_cast_member(inv, spells.drop_last(), a);
        let (i, k) = choose|i: int, k: int|
            0 <= i < spells.drop_last().len() && 1 <= k <= MAX_REPEAT && cast_fits(
                inv,
                spells.drop_last()[i].delta,
                k,
            ) && a == #[trigger] scaled(spells.drop_last()[i], k);
        assert(spells[i] == spells.drop_last()[i]);
    } else {
        let m = n - front.len();
        assert(0 <= m < back.len());
        assert(back[m] == a);
        let last = spells.len() - 1;
        assert(spells[last] == spells.last());
        assert(spells.last().castable);
        lemma_repeats_lower(inv, spells.last(), 1);
        assert(back.len() == repeats_from(inv, spells.last(), 1) as nat);
        lemma_repeats_fit(inv, spells.last(), 1, m + 1);
        assert(a == scaled(spells[last], m + 1));
    }
}

/// A learn move is an entry of the tome that can be learned.
pub proof fn lemma_learn_member(inv: [i8; 4], book: Seq<Action>, a: Action)
    requires
        learns(inv, book).contains(a),
    ensures
        book.contains(a),
        can_learn(inv, a),
    decreases book.len(),
{
    let front = learns(inv, book.drop_last());
    let n = choose|n: int| 0 <= n < learns(inv, book).len() && learns(inv, book)[n] == a;
    if n < front.len() {
        assert(front[n] == a);
        lemma_learn_member(inv, book.drop_last(), a);
        let i = choose|i: int| 0 <= i < book.drop_last().len() && book.drop_last()[i] == a;
        assert(book[i] == a);
    } else {
        assert(book[book.len() - 1] == a);
    }
}

/// A brew move is a pending order that can be served.
pub proof fn lemma_brew_member(g: GameView, orders: Seq<Action>, a: Action)
    requires
        brews(g, orders).contains(a),
    ensures
        orders.contains(a),
        can_brew(g, a),
    decreases orders.len(),
{
    let front = brews(g, orders.drop_last());
    let n = choose|n: int| 0 <= n < brews(g, orders).len() && brews(g, orders)[n] == a;
    if n < front.len() {
        assert(front[n] == a);
        lemma_brew_member(g, orders.drop_last(), a);
        let i = choose|i: int| 0 <= i < orders.drop_last().len() && orders.drop_last()[i] == a;
        assert(orders[i] == a);
    } else {
        assert(orders[orders.len() - 1] == a);
    }
}

/// A legal move of a well-formed state meets what its transition needs.
pub proof fn lemma_legal_move_ok(g: GameView, a: Action)
    requires
        game_wf(g),
        legal_actions(g).contains(a),
    ensures
        move_ok(a, g),
        a.kind == ActionKind::Rest ==> a == rest_action(),
{
    let c = casts(g.inventory, g.spells);
    let l = learns(g.inventory, g.book);
    let b = brews(g, g.orders);
    let all = legal_actions(g);
    let n = choose|n: int| 0 <= n < all.len() && all[n] == a;
    if n < c.len() {
        assert(c[n] == a);
        lemma_cast_member(g.inventory, g.spells, a);
        let (i, k) = choose|i: int, k: int|
            0 <= i < g.spells.len() && 1 <= k <= MAX_REPEAT && cast_fits(
                g.inventory,
                g.spells[i].delta,
                k,
            ) && a == #[trigger] scaled(g.spells[i], k);
        let d = g.spells[i].delta;
        assert(-10 <= d[0] * k <= 10);
        assert(-10 <= d[1] * k <= 10);
        assert(-10 <= d[2] * k <= 10);
        assert(-10 <= d[3] * k <= 10);
        assert(g.spells[i].id == a.id);
    } else if n < c.len() + l.len() {
        assert(l[n - c.len()] == a);
        lemma_learn_member(g.inventory, g.book, a);
        let i = choose|i: int| 0 <= i < g.book.len() && g.book[i] == a;
        assert(g.book[i].id == a.id);
    } else if n < c.len() + l.len() + b.len() {
        assert(b[n - c.len() - l.len()] == a);
        lemma_brew_member(g, g.orders, a);
        let i = choose|i: int| 0 <= i < g.orders.len() && g.orders[i] == a;
        assert(g.orders[i].id == a.id);
    } else {
        assert(a == rest_action());
    }
}

/// The first position holding an id is unique.
pub proof fn lemma_first_id(s: Seq<Action>, id: i32, i: int)
    requires
        is_first_id(s, id, i),
    ensures
        first_id(s, id) == i,
{
    let j = first_id(s, id);
    if j < i {
        assert(s[j].id != id);
    } else if j > i {
        assert(s[i].id != id);
    }
}

/// Where an id occurs, its first position exists.
pub proof fn lemma_first_exists(s: Seq<Action>, id: i32)
    requires
        exists|i: int| 0 <= i < s.len() && (#[trigger] s[i]).id == id,
    ensures
        is_first_id(s, id, first_id(s, id)),
    decreases s.len(),
{
    let front = s.drop_last();
    if exists|i: int| 0 <= i < front.len() && (#[trigger] front[i]).id == id {
        lemma_first_exists(front, id);
        let p = first_id(front, id);
        assert forall|m: int| 0 <= m < p implies (#[trigger] s[m]).id != id by {
            assert(front[m] == s[m]);
        }
        assert(front[p] == s[p]);
        assert(is_first_id(s, id, p));
    } else {
        let p = s.len() - 1;
        assert forall|m: int| 0 <= m < p implies (#[trigger] s[m]).id != id by {
            assert(front[m] == s[m]);
        }
        let w = choose|i: int| 0 <= i < s.len() && (#[trigger] s[i]).id == id;
        if w < p {
            assert(front[w] == s[w]);
        }
        assert(is_first_id(s, id, p));
    }
}

/// A legal move of a well-formed state leads to a well-formed state, does
/// not lower the count of served orders and does not add pending orders.
pub proof fn lemma_apply_wf(g: GameView, a: Action)
    requires
        game_wf(g),
        legal_actions(g).contains(a),
    ensures
        game_wf(apply(a, g)),
        apply(a, g).served >= g.served,
        apply(a, g).orders.len() <= g.orders.len(),
{
    lemma_legal_move_ok(g, a);
    let r = apply(a, g);
    match a.kind {
        ActionKind::Cast => {
            lemma_first_exists(g.spells, a.id);
            let p = first_id(g.spells, a.id);
            assert forall|i: int| 0 <= i < r.spells.len() implies (#[trigger] r.spells[i]).kind
                == ActionKind::Cast by {
                if i != p {
                    assert(r.spells[i] == g.spells[i]);
                }
            }
        },
        ActionKind::Learn => {
            lemma_first_exists(g.book, a.id);
            let p = first_id(g.book, a.id);
            let sh = Seq::new(g.book.len(), |i: int| shifted(g.book[i], i, p));
            assert forall|i: int| 0 <= i < r.book.len() implies {
                &&& (#[trigger] r.book[i]).kind == ActionKind::Learn
                &&& 0 <= r.book[i].tax
                &&& 0 <= r.book[i].pocket
                &&& r.book[i].pocket + r.book.len() <= i8::MAX
            } by {
                if i < p {
                    assert(r.book[i] == sh[i]);
                } else {
                    assert(r.book[i] == sh[i + 1]);
                }
            }
            assert forall|i: int| 0 <= i < r.spells.len() implies (#[trigger] r.spells[i]).kind
                == ActionKind::Cast by {
                if i < g.spells.len() {
                    assert(r.spells[i] == g.spells[i]);
                }
            }
        },
        ActionKind::Brew => {
            lemma_first_exists(g.orders, a.id);
            let p = first_id(g.orders, a.id);
            let left = g.orders.remove(p);
            assert forall|i: int| 0 <= i < left.len() implies {
                &&& (#[trigger] left[i]).kind == ActionKind::Brew
                &&& consumes(left[i].delta)
                &&& left[i].price + 2 * (MAX_SERVED - g.served) <= i8::MAX
            } by {
                if i < p {
                    assert(left[i] == g.orders[i]);
                } else {
                    assert(left[i] == g.orders[i + 1]);
                }
            }
            assert forall|i: int| 0 <= i < r.orders.len() implies {
                &&& (#[trigger] r.orders[i]).kind == ActionKind::Brew
                &&& consumes(r.orders[i].delta)
                &&& r.orders[i].price + 2 * (MAX_SERVED - r.served) <= i8::MAX
            } by {
                assert(left[i].kind == ActionKind::Brew);
            }
        },
        ActionKind::Rest => {
            assert forall|i: int| 0 <= i < r.spells.len() implies (#[trigger] r.spells[i]).kind
                == ActionKind::Cast by {
                assert(r.spells[i] == refreshed(g.spells[i]));
            }
        },
    }
}

// ----- transitions -----

/// First position of the list holding the id.
fn find_id(s: &Vec<Action>, id: i32) -> (p: usize)
    requires
        exists|i: int| 0 <= i < s@.len() && (#[trigger] s@[i]).id == id,
    ensures
        is_first_id(s@, id, p as int),
{
    let mut i: usize = 0;
    while i < s.len()
        invariant
            i <= s@.len(),
            forall|m: int| 0 <= m < i ==> (#[trigger] s@[m]).id != id,
            exists|i: int| 0 <= i < s@.len() && (#[trigger] s@[i]).id == id,
        decreases s.len() - i,
    {
        if s[i].id == id {
            return i;
        }
        i = i + 1;
    }
    proof {
        let w = choose|w: int| 0 <= w < s@.len() && (#[trigger] s@[w]).id == id;
        assert(s@[w].id != id);
    }
    0
}

/// The tome once entry `p` is learned, before the entry leaves.
fn shift_book(book: &Vec<Action>, p: usize) -> (r: Vec<Action>)
    requires
        p < book@.len(),
        forall|i: int| 0 <= i < book@.len() ==> (#[trigger] book@[i]).pocket + book@.len() <= i8::MAX,
    ensures
        r@ == Seq::new(book@.len(), |i: int| shifted(book@[i], i, p as int)),
{
    let mut r: Vec<Action> = Vec::new();
    let mut i: usize = 0;
    while i < book.len()
        invariant
            p < book@.len(),
            forall|i: int| 0 <= i < book@.len() ==> (#[trigger] book@[i]).pocket + book@.len() <= i8::MAX,
            i <= book@.len(),
            r@ == Seq::new(i as nat, |m: int| shifted(book@[m], m, p as int)),
        decreases book.len() - i,
    {
        let mut e = book[i];
        if e.tax > 0 && i > p {
            e.tax = e.tax - 1;
        } else if i < p {
            e.pocket = e.pocket + 1;
        }
        r.push(e);
        i = i + 1;
        assert(r@ =~= Seq::new(i as nat, |m: int| shifted(book@[m], m, p as int)));
    }
    r
}

/// The state that a legal move leads to; the given state is left as it was.
pub fn simulate(action: &Action, game: &Game) -> (r: Game)
    requires
        game_wf(game@),
        legal_actions(game@).contains(*action),
    ensures
        r@ == apply(*action, game@),
        game_wf(r@),
{
    proof {
        lemma_legal_move_ok(game@, *action);
        lemma_apply_wf(game@, *action);
    }
    let a = *action;
    let mut spells = game.spells.clone();
    let mut book = game.book.clone();
    let mut orders = game.orders.clone();
    let mut inventory = game.inventory;
    let mut served = game.served;
    let mut my_score = game.my_score;
    assert(spells@ =~= game.spells@);
    assert(book@ =~= game.book@);
    assert(orders@ =~= game.orders@);
    match a.kind {
        ActionKind::Cast => {
            let p = find_id(&game.spells, a.id);
            proof {
                lemma_first_id(game.spells@, a.id, p as int);
            }
            let mut spell = spells[p];
            spell.castable = false;
            spells.set(p, spell);
            inventory = delta_add(&game.inventory, &a.delta);
            assert(inventory =~= added(game.inventory, a.delta));
        },
        ActionKind::Learn => {
            let p = find_id(&game.book, a.id);
            proof {
                lemma_first_id(game.book@, a.id, p as int);
            }
            book = shift_book(&game.book, p);
            book.remove(p);
            let mut new_spell = a;
            new_spell.kind = ActionKind::Cast;
            new_spell.castable = true;
            spells.push(new_spell);
            inventory[0] = game.inventory[0] + a.pocket - a.tax;
            assert(inventory =~= [
                (game.inventory[0] + a.pocket - a.tax) as i8,
                game.inventory[1],
                game.inventory[2],
                game.inventory[3],
            ]);
        },
        ActionKind::Brew => {
            served = game.served + 1;
            my_score = game.my_score + a.price as i32;
            let p = find_id(&game.orders, a.id);
            proof {
                lemma_first_id(game.orders@, a.id, p as int);
            }
            orders.remove(p);
            let ghost left = orders@;
            assert(forall|i: int| 0 <= i < left.len() ==> #[trigger] left[i] == (if i < p {
                game.orders@[i]
            } else {
                game.orders@[i + 1]
            }));
            if orders.len() > 0 {
                let mut next = orders[0];
                assert(next == game.orders@[if p == 0 { 1 } else { 0 }]);
                next.price = next.price + 2;
                orders.set(0, next);
            }
            if orders.len() > 1 {
                let mut next = orders[1];
                assert(next == game.orders@[if p <= 1 { 2 } else { 1 }]);
                next.price = next.price + 1;
                orders.set(1, next);
            }
            assert(orders@ =~= with_bonus(left));
            inventory = delta_add(&game.inventory, &a.delta);
            assert(inventory =~= added(game.inventory, a.delta));
        },
        ActionKind::Rest => {
            let mut i: usize = 0;
            while i < spells.len()
                invariant
                    spells@.len() == game.spells@.len(),
                    i <= spells@.len(),
                    forall|m: int| 0 <= m < i ==> #[trigger] spells@[m] == refreshed(game.spells@[m]),
                    forall|m: int| i <= m < spells@.len() ==> #[trigger] spells@[m] == game.spells@[m],
                decreases spells.len() - i,
            {
                let mut spell = spells[i];
                spell.castable = true;
                spells.set(i, spell);
                i = i + 1;
            }
            assert(spells@ =~= game.spells@.map_values(|s: Action| refreshed(s)));
        },
    }
    let r = Game {
        turn: game.turn,
        calc_turn: game.calc_turn + 1,
        my_score: my_score,
        opp_score: game.opp_score,
        served: served,
        opp_served: game.opp_served,
        inventory: inventory,
        opp_inventory_score: game.opp_inventory_score,
        spells: spells,
        book: book,
        orders: orders,
    };
    assert(r@ == apply(a, game@));
    r
}

} // verus!