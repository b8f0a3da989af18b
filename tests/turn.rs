use potion_bot::model::{Action, ActionKind, Game};

fn entry(id: i32, kind: ActionKind) -> Action {
    Action {
        id,
        kind,
        delta: [0, 0, 0, 0],
        price: 0,
        tax: 0,
        pocket: 0,
        repeatable: false,
        repeat: 1,
        castable: true,
    }
}

#[test]
fn entries_are_sorted_by_kind() {
    let entries = vec![
        entry(1, ActionKind::Brew),
        entry(2, ActionKind::Cast),
        entry(3, ActionKind::Learn),
        entry(4, ActionKind::Brew),
        entry(5, ActionKind::Cast),
    ];
    let g = Game::from_turn(7, 2, 30, 1, &entries, [1, 2, 3, 4], 40, [0, 1, 1, 1], 30);
    assert_eq!(g.orders.iter().map(|a| a.id).collect::<Vec<_>>(), vec![1, 4]);
    assert_eq!(g.spells.iter().map(|a| a.id).collect::<Vec<_>>(), vec![2, 5]);
    assert_eq!(g.book.iter().map(|a| a.id).collect::<Vec<_>>(), vec![3]);
    assert_eq!(g.turn, 7);
    assert_eq!(g.calc_turn, 7);
    assert_eq!(g.opp_served, 1);
    assert_eq!(g.opp_inventory_score, 3);
    assert_eq!(g.my_score, 40);
    assert_eq!(g.served, 2);
}

#[test]
fn opponent_score_change_counts_an_order() {
    let g = Game::from_turn(7, 0, 30, 1, &vec![], [0, 0, 0, 0], 0, [0, 0, 0, 0], 42);
    assert_eq!(g.opp_served, 2);
}

#[test]
fn well_formed_states_are_recognised() {
    let entries = vec![entry(1, ActionKind::Brew), entry(2, ActionKind::Cast)];
    let mut g = Game::from_turn(1, 0, 0, 0, &entries, [3, 0, 0, 0], 0, [0, 0, 0, 0], 0);
    assert!(g.is_well_formed());
    g.inventory = [6, 5, 0, 0];
    assert!(!g.is_well_formed());
    g.inventory = [-1, 0, 0, 0];
    assert!(!g.is_well_formed());
    g.inventory = [0, 0, 0, 0];
    g.orders[0].delta = [1, 0, 0, 0];
    assert!(!g.is_well_formed());
    g.orders[0].delta = [-1, 0, 0, 0];
    g.orders[0].price = 120;
    assert!(!g.is_well_formed());
    g.orders[0].price = 20;
    g.spells[0].kind = ActionKind::Learn;
    assert!(!g.is_well_formed());
}
