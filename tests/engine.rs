use potion_bot::model::{Action, ActionKind, Game};
use potion_bot::rules::{
    delta_add, delta_mult, get_available_brews, get_available_learns, get_available_spells,
    get_neighbors, inventory_final_score, simulate,
};
use potion_bot::search::{
    choose_action, decide, find_best_action, path_score, playout, time_budget_ms, Node,
};
use rand::Rng;
use std::time::{Duration, Instant};

fn entry(id: i32, kind: ActionKind, delta: [i8; 4]) -> Action {
    Action {
        id,
        kind,
        delta,
        price: 0,
        tax: 0,
        pocket: 0,
        repeatable: false,
        repeat: 1,
        castable: false,
    }
}

fn spell(id: i32, delta: [i8; 4], repeatable: bool, castable: bool) -> Action {
    Action { repeatable, castable, ..entry(id, ActionKind::Cast, delta) }
}

fn order(id: i32, delta: [i8; 4], price: i8) -> Action {
    Action { price, ..entry(id, ActionKind::Brew, delta) }
}

fn tome(id: i32, delta: [i8; 4], tax: i8, pocket: i8) -> Action {
    Action { tax, pocket, repeatable: true, ..entry(id, ActionKind::Learn, delta) }
}

fn game(inventory: [i8; 4], spells: Vec<Action>, book: Vec<Action>, orders: Vec<Action>) -> Game {
    Game {
        turn: 10,
        calc_turn: 10,
        my_score: 0,
        opp_score: 0,
        served: 0,
        opp_served: 0,
        inventory,
        opp_inventory_score: 0,
        spells,
        book,
        orders,
    }
}

fn sample_game() -> Game {
    game(
        [3, 1, 0, 0],
        vec![
            spell(1, [2, 0, 0, 0], false, true),
            spell(2, [-1, 1, 0, 0], true, true),
            spell(3, [0, -1, 1, 0], false, false),
            spell(4, [0, 0, -1, 1], false, true),
        ],
        vec![tome(10, [-3, 0, 0, 1], 0, 0), tome(11, [1, 1, 0, 0], 1, 2), tome(12, [0, 0, 1, -1], 2, 0)],
        vec![order(20, [-2, -1, 0, 0], 8), order(21, [0, -2, 0, 0], 11), order(22, [-1, 0, 0, -1], 14)],
    )
}

fn fits(v: [i8; 4]) -> bool {
    v.iter().all(|x| *x >= 0) && v.iter().map(|x| *x as i32).sum::<i32>() <= 10
}

#[test]
fn delta_add_adds_each_tier() {
    assert_eq!(delta_add(&[1, 2, 3, 4], &[-1, 0, 5, -4]), [0, 2, 8, 0]);
}

#[test]
fn delta_mult_multiplies_each_tier() {
    assert_eq!(delta_mult(&[-1, 2, 0, 3], &[3, 3, 3, 3]), [-3, 6, 0, 9]);
}

#[test]
fn final_score_ignores_tier_zero() {
    assert_eq!(inventory_final_score([5, 1, 2, 3]), 6);
    assert_eq!(inventory_final_score([0, 0, 0, 0]), 0);
}

#[test]
fn repeatable_spell_expands_while_it_fits() {
    let g = game([2, 0, 0, 0], vec![spell(7, [-1, 1, 0, 0], true, true)], vec![], vec![]);
    let casts = get_available_spells(&g);
    assert_eq!(casts.len(), 2);
    assert_eq!(casts[0].delta, [-1, 1, 0, 0]);
    assert_eq!(casts[0].repeat, 1);
    assert_eq!(casts[1].delta, [-2, 2, 0, 0]);
    assert_eq!(casts[1].repeat, 2);
    assert!(casts.iter().all(|c| c.id == 7));
}

#[test]
fn plain_spell_is_cast_once() {
    let g = game([0, 0, 0, 0], vec![spell(7, [1, 0, 0, 0], false, true)], vec![], vec![]);
    let casts = get_available_spells(&g);
    assert_eq!(casts.len(), 1);
    assert_eq!(casts[0].repeat, 1);
}

#[test]
fn cast_respects_capacity() {
    let g = game([8, 0, 0, 0], vec![spell(7, [2, 0, 0, 0], true, true)], vec![], vec![]);
    let casts = get_available_spells(&g);
    assert_eq!(casts.len(), 1);
    let full = game([9, 0, 0, 0], vec![spell(7, [2, 0, 0, 0], true, true)], vec![], vec![]);
    assert!(get_available_spells(&full).is_empty());
}

#[test]
fn spent_spell_is_not_offered() {
    let g = game([5, 0, 0, 0], vec![spell(7, [-1, 1, 0, 0], false, false)], vec![], vec![]);
    assert!(get_available_spells(&g).is_empty());
}

#[test]
fn learn_needs_tax_and_room_for_pocket() {
    let g = game(
        [1, 2, 0, 0],
        vec![],
        vec![tome(10, [1, 0, 0, 0], 0, 0), tome(11, [1, 0, 0, 0], 2, 0), tome(12, [1, 0, 0, 0], 1, 8)],
        vec![],
    );
    let learns = get_available_learns(&g);
    assert_eq!(learns.len(), 1);
    assert_eq!(learns[0].id, 10);
    let g = game([1, 2, 0, 0], vec![], vec![tome(12, [1, 0, 0, 0], 1, 7)], vec![]);
    assert_eq!(get_available_learns(&g).len(), 1);
}

#[test]
fn brew_needs_ingredients() {
    let g = game([2, 1, 0, 0], vec![], vec![], vec![order(20, [-2, -1, 0, 0], 5), order(21, [0, -2, 0, 0], 9)]);
    let brews = get_available_brews(&g);
    assert_eq!(brews.len(), 1);
    assert_eq!(brews[0].id, 20);
}

#[test]
fn late_brew_must_keep_the_lead() {
    let mut g = game([2, 1, 0, 0], vec![], vec![], vec![order(20, [-2, -1, 0, 0], 5)]);
    g.served = 5;
    g.my_score = 10;
    g.opp_score = 15;
    assert!(get_available_brews(&g).is_empty());
    g.opp_score = 14;
    assert_eq!(get_available_brews(&g).len(), 1);
    g.served = 4;
    g.opp_score = 100;
    assert_eq!(get_available_brews(&g).len(), 1);
}

#[test]
fn neighbors_in_order_with_rest_last() {
    let g = sample_game();
    let moves = get_neighbors(&g);
    let kinds: Vec<ActionKind> = moves.iter().map(|a| a.kind).collect();
    assert_eq!(
        kinds,
        vec![
            ActionKind::Cast,
            ActionKind::Cast,
            ActionKind::Cast,
            ActionKind::Cast,
            ActionKind::Learn,
            ActionKind::Learn,
            ActionKind::Learn,
            ActionKind::Brew,
            ActionKind::Rest,
        ]
    );
    let ids: Vec<i32> = moves.iter().map(|a| a.id).collect();
    assert_eq!(ids, vec![1, 2, 2, 2, 10, 11, 12, 20, 0]);
}

#[test]
fn no_rest_when_every_spell_is_ready() {
    let g = game([0, 0, 0, 0], vec![spell(1, [2, 0, 0, 0], false, true)], vec![], vec![]);
    let moves = get_neighbors(&g);
    assert_eq!(moves.len(), 1);
    assert_eq!(moves[0].kind, ActionKind::Cast);
}

#[test]
fn no_moves_after_the_last_turn_or_sixth_order() {
    let mut g = sample_game();
    g.calc_turn = 100;
    assert!(get_neighbors(&g).is_empty());
    let mut g = sample_game();
    g.served = 6;
    assert!(get_neighbors(&g).is_empty());
}

#[test]
fn cast_spends_the_spell() {
    let g = sample_game();
    let cast = get_neighbors(&g).into_iter().find(|a| a.id == 2 && a.repeat == 2).unwrap();
    let next = simulate(&cast, &g);
    assert_eq!(next.inventory, [1, 3, 0, 0]);
    assert!(!next.spells[1].castable);
    assert!(next.spells[0].castable);
    assert_eq!(next.calc_turn, 11);
    assert!(g.spells[1].castable);
}

#[test]
fn learn_shifts_the_tome() {
    let g = sample_game();
    let learn = get_neighbors(&g).into_iter().find(|a| a.id == 11).unwrap();
    let next = simulate(&learn, &g);
    assert_eq!(next.inventory, [4, 1, 0, 0]);
    assert_eq!(next.book.len(), 2);
    assert_eq!(next.book[0].id, 10);
    assert_eq!(next.book[0].pocket, 1);
    assert_eq!(next.book[1].id, 12);
    assert_eq!(next.book[1].tax, 1);
    let learned = next.spells.last().unwrap();
    assert_eq!(learned.id, 11);
    assert_eq!(learned.kind, ActionKind::Cast);
    assert!(learned.castable);
}

#[test]
fn brew_scores_and_moves_the_bonus() {
    let g = sample_game();
    let brew = get_neighbors(&g).into_iter().find(|a| a.kind == ActionKind::Brew).unwrap();
    let next = simulate(&brew, &g);
    assert_eq!(next.served, 1);
    assert_eq!(next.my_score, 8);
    assert_eq!(next.inventory, [1, 0, 0, 0]);
    assert_eq!(next.orders.len(), 2);
    assert_eq!(next.orders[0].id, 21);
    assert_eq!(next.orders[0].price, 13);
    assert_eq!(next.orders[1].id, 22);
    assert_eq!(next.orders[1].price, 15);
}

#[test]
fn bonus_goes_to_the_first_two_orders_left() {
    let g = game([0, 2, 0, 0], vec![], vec![], vec![order(20, [-5, 0, 0, 0], 8), order(21, [0, -2, 0, 0], 11), order(22, [0, 0, 0, -1], 14)]);
    let brew = get_neighbors(&g).into_iter().find(|a| a.id == 21).unwrap();
    let next = simulate(&brew, &g);
    assert_eq!(next.orders.len(), 2);
    assert_eq!(next.orders[0].id, 20);
    assert_eq!(next.orders[0].price, 10);
    assert_eq!(next.orders[1].id, 22);
    assert_eq!(next.orders[1].price, 15);
}

#[test]
fn last_order_gets_the_first_bonus() {
    let g = game([0, 2, 0, 0], vec![], vec![], vec![order(20, [-5, 0, 0, 0], 8), order(21, [0, -2, 0, 0], 11)]);
    let brew = get_neighbors(&g).into_iter().find(|a| a.id == 21).unwrap();
    let next = simulate(&brew, &g);
    assert_eq!(next.orders.len(), 1);
    assert_eq!(next.orders[0].id, 20);
    assert_eq!(next.orders[0].price, 10);
}

#[test]
fn rest_readies_every_spell() {
    let g = sample_game();
    let rest = get_neighbors(&g).into_iter().find(|a| a.kind == ActionKind::Rest).unwrap();
    let next = simulate(&rest, &g);
    assert!(next.spells.iter().all(|s| s.castable));
    assert_eq!(next.inventory, g.inventory);
}

#[test]
fn every_legal_move_keeps_inventory_within_capacity() {
    let mut states = vec![sample_game()];
    let mut seen = 0;
    while let Some(g) = states.pop() {
        if seen > 2000 {
            break;
        }
        for a in get_neighbors(&g) {
            let next = simulate(&a, &g);
            assert!(fits(next.inventory), "{:?} from {:?}", a, g.inventory);
            seen += 1;
            if next.calc_turn < 13 {
                states.push(next);
            }
        }
    }
    assert!(seen > 100);
}

#[test]
fn generating_twice_gives_the_same_moves() {
    let g = sample_game();
    assert_eq!(get_neighbors(&g), get_neighbors(&g));
}

#[test]
fn rollout_served_and_orders_are_monotone() {
    let g = sample_game();
    let first = get_neighbors(&g)[0];
    let node = Node::new(first, simulate(&first, &g));
    let start = Instant::now();
    let path = playout(&node, &start, 10_000).unwrap();
    assert_eq!(path[0], first);
    assert!(path.len() > 1);
    let mut state = simulate(&first, &g);
    for a in &path[1..] {
        assert!(get_neighbors(&state).contains(a));
        let next = simulate(a, &state);
        assert!(next.served >= state.served);
        assert!(next.orders.len() <= state.orders.len());
        state = next;
    }
    assert!(get_neighbors(&state).is_empty());
}

#[test]
fn rollout_stops_at_the_last_turn() {
    let mut g = game([0, 0, 0, 0], vec![spell(1, [1, 0, 0, 0], false, true)], vec![], vec![]);
    g.calc_turn = 95;
    let first = get_neighbors(&g)[0];
    let node = Node::new(first, simulate(&first, &g));
    let path = playout(&node, &Instant::now(), 10_000).unwrap();
    assert_eq!(path.len(), 5);
}

#[test]
fn rollout_times_out() {
    let g = sample_game();
    let first = get_neighbors(&g)[0];
    let node = Node::new(first, simulate(&first, &g));
    let start = Instant::now() - Duration::from_millis(50);
    assert!(playout(&node, &start, 10).is_none());
}

#[test]
fn path_score_weights_early_brews_more() {
    let brew_now = vec![order(20, [0, 0, 0, 0], 10)];
    assert_eq!(path_score(&brew_now), 10_000_000);
    let later = vec![
        entry(1, ActionKind::Cast, [0, 0, 0, 0]),
        order(20, [0, 0, 0, 0], 12),
        entry(0, ActionKind::Rest, [0, 0, 0, 0]),
        order(21, [0, 0, 0, 0], 9),
    ];
    assert_eq!(path_score(&later), 12 * 1000 + 9 * 333);
    assert_eq!(path_score(&vec![]), 0);
}

#[test]
fn budget_is_longer_on_the_first_turn() {
    assert_eq!(time_budget_ms(1), 998);
    assert_eq!(time_budget_ms(2), 48);
}

#[test]
fn decide_respects_a_short_budget() {
    let mut g = game(
        [1, 0, 0, 0],
        vec![spell(1, [1, 0, 0, 0], true, true), spell(2, [-1, 1, 0, 0], true, true), spell(3, [0, -1, 1, 0], true, true)],
        vec![tome(10, [-1, 0, 1, 0], 0, 0)],
        vec![order(20, [0, 0, 0, -5], 20)],
    );
    g.calc_turn = 1;
    g.turn = 1;
    let start = Instant::now();
    let a = decide(&g, &start, 10);
    assert!(start.elapsed() <= Duration::from_millis(15), "{:?}", start.elapsed());
    assert!(a.kind == ActionKind::Rest || get_neighbors(&g).contains(&a));
}

#[test]
fn satisfiable_order_is_served_at_once() {
    let g = game([2, 2, 2, 2], vec![], vec![], vec![order(20, [-2, -2, -1, 0], 10)]);
    let a = find_best_action(&g, &Instant::now());
    assert_eq!(a.kind, ActionKind::Brew);
    assert_eq!(a.id, 20);
}

#[test]
fn empty_inventory_grows_first() {
    let g = game([0, 0, 0, 0], vec![spell(1, [2, 0, 0, 0], false, true)], vec![], vec![]);
    let a = decide(&g, &Instant::now(), 20);
    assert_eq!(a.kind, ActionKind::Cast);
    assert_eq!(a.id, 1);
}

#[test]
fn tie_prefers_learning() {
    let g = sample_game();
    let cast = Node::new(spell(1, [2, 0, 0, 0], false, true), g.clone());
    let learn_a = Node::new(tome(10, [-3, 0, 0, 1], 0, 0), g.clone());
    let learn_b = Node::new(tome(11, [1, 1, 0, 0], 1, 2), g.clone());
    let scored = |mut n: Node| {
        n.score = 6000;
        n.n = 3;
        n
    };
    let nodes = vec![scored(cast), scored(learn_a), scored(learn_b)];
    let a = choose_action(&g, &nodes);
    assert_eq!(a.kind, ActionKind::Learn);
    assert_eq!(a.id, 10);
}

#[test]
fn higher_mean_wins() {
    let g = sample_game();
    let mut cast = Node::new(spell(1, [2, 0, 0, 0], false, true), g.clone());
    cast.score = 7000;
    cast.n = 3;
    let mut learn = Node::new(tome(10, [-3, 0, 0, 1], 0, 0), g.clone());
    learn.score = 4000;
    learn.n = 2;
    let a = choose_action(&g, &vec![learn, cast]);
    assert_eq!(a.kind, ActionKind::Cast);
}

#[test]
fn weak_early_best_gives_way_to_learning() {
    let mut g = sample_game();
    g.turn = 2;
    let mut cast = Node::new(spell(1, [2, 0, 0, 0], false, true), g.clone());
    cast.score = 500;
    cast.n = 1;
    let learn = Node::new(tome(10, [-3, 0, 0, 1], 0, 0), g.clone());
    let a = choose_action(&g, &vec![cast.clone(), learn.clone()]);
    assert_eq!(a.kind, ActionKind::Learn);
    g.turn = 4;
    let a = choose_action(&g, &vec![cast, learn]);
    assert_eq!(a.kind, ActionKind::Cast);
}

#[test]
fn no_result_takes_the_first_learn() {
    let g = sample_game();
    let cast = Node::new(spell(1, [2, 0, 0, 0], false, true), g.clone());
    let learn = Node::new(tome(11, [1, 1, 0, 0], 1, 2), g.clone());
    let a = choose_action(&g, &vec![cast, learn]);
    assert_eq!(a.kind, ActionKind::Learn);
    assert_eq!(a.id, 11);
}

#[test]
fn spent_spells_and_nothing_to_do_rest() {
    let g = game(
        [4, 4, 0, 0],
        vec![spell(1, [2, 0, 0, 0], false, false), spell(2, [-1, 1, 0, 0], true, false)],
        vec![tome(10, [1, 0, 0, 0], 5, 0)],
        vec![order(20, [0, 0, -3, 0], 10)],
    );
    let a = decide(&g, &Instant::now(), 20);
    assert_eq!(a.kind, ActionKind::Rest);
}

#[test]
fn nothing_at_all_rests() {
    let g = game([4, 4, 0, 0], vec![], vec![], vec![]);
    let a = find_best_action(&g, &Instant::now());
    assert_eq!(a.kind, ActionKind::Rest);
}

#[test]
fn fallback_learns_when_nothing_is_spent() {
    let g = game([4, 4, 0, 0], vec![spell(1, [-1, 1, 0, 0], false, true)], vec![tome(10, [1, 0, 0, 0], 0, 0)], vec![]);
    let mut cast = Node::new(spell(1, [-1, 1, 0, 0], false, true), g.clone());
    cast.n = 2;
    let mut learn = Node::new(tome(10, [1, 0, 0, 0], 0, 0), g.clone());
    learn.n = 2;
    let a = choose_action(&g, &vec![cast, learn]);
    assert_eq!(a.kind, ActionKind::Learn);
}

#[test]
fn idle_repeatable_spell_stops_at_the_cap() {
    let g = game([1, 0, 0, 0], vec![spell(7, [0, 0, 0, 0], true, true)], vec![], vec![]);
    let casts = get_available_spells(&g);
    assert_eq!(casts.len(), 10);
    assert_eq!(casts[9].repeat, 10);
}

#[test]
fn random_catalogues_keep_inventory_within_capacity() {
    let mut rng = rand::thread_rng();
    for _ in 0..300 {
        let mut inv = [0i8; 4];
        let mut left = 10;
        for t in 0..4 {
            let v = rng.gen_range(0, left + 1);
            inv[t] = v;
            left -= v;
        }
        let mut delta = || -> [i8; 4] {
            [rng.gen_range(-3, 4), rng.gen_range(-3, 4), rng.gen_range(-3, 4), rng.gen_range(-3, 4)]
        };
        let spells: Vec<Action> = (0..4).map(|i| spell(i, delta(), i % 2 == 0, i != 3)).collect();
        let book: Vec<Action> = (0..3).map(|i| tome(10 + i, delta(), i as i8, (2 - i) as i8)).collect();
        let orders: Vec<Action> = (0..3)
            .map(|i| {
                let d = delta();
                order(20 + i, [-d[0].abs(), -d[1].abs(), -d[2].abs(), -d[3].abs()], 10)
            })
            .collect();
        let g = game(inv, spells, book, orders);
        assert!(g.is_well_formed());
        for a in get_neighbors(&g) {
            let next = simulate(&a, &g);
            assert!(fits(next.inventory), "{:?} from {:?}", a, g.inventory);
            assert!(next.is_well_formed());
        }
    }
}
