//! The state model: moves, game states, their mathematical view, and what
//! a well-formed state is.

use vstd::prelude::*;

verus! {

/// Most ingredients an inventory holds at rest.
pub const CAPACITY: i32 = 10;

/// Number of orders after which a player's game is over.
pub const MAX_SERVED: i8 = 6;

/// Turn at which the game ends.
pub const LAST_TURN: i32 = 100;

/// Number of served orders from which an order is only taken when it keeps
/// the player ahead.
pub const SAFE_SERVED: i8 = 5;

/// Most repetitions tried for one repeatable spell in one move. A spell that
/// moves at least one ingredient cannot be repeated more often inside a
/// ten-unit inventory, so the bound only stops a spell that changes nothing.
pub const MAX_REPEAT: i8 = 10;

/// What a move does.
#[derive(Clone, Copy, Debug, PartialEq, Eq, Structural)]
pub enum ActionKind {
    /// Cast one of the player's spells (a transform), possibly repeated.
    Cast,
    /// Learn a spell from the tome.
    Learn,
    /// Brew a potion, serving a pending order.
    Brew,
    /// Rest: make every spell castable again.
    Rest,
}

/// A move, or an entry of the spell list, the tome or the order list.
#[derive(Clone, Copy, Debug, PartialEq, Eq)]
pub struct Action {
    pub id: i32,
    pub kind: ActionKind,
    /// Change of each of the four ingredient tiers.
    pub delta: [i8; 4],
    /// Rupees earned by a brew.
    pub price: i8,
    /// Tier-0 ingredients paid to learn (the position in the tome).
    pub tax: i8,
    /// Tier-0 ingredients collected when learning.
    pub pocket: i8,
    pub repeatable: bool,
    /// How many times a cast is repeated; its delta is already scaled.
    pub repeat: i8,
    /// Whether a spell can be cast before the next rest.
    pub castable: bool,
}

/// One node of the search space: what a player sees at the start of a turn,
/// or what a simulated sequence of moves leads to.
#[derive(Clone, Debug)]
pub struct Game {
    pub turn: i32,
    /// Turn reached by the simulation.
    pub calc_turn: i32,
    pub my_score: i32,
    pub opp_score: i32,
    pub served: i8,
    pub opp_served: i8,
    pub inventory: [i8; 4],
    /// Value still held by the opponent in its inventory.
    pub opp_inventory_score: i32,
    /// The player's spells (transforms).
    pub spells: Vec<Action>,
    /// Spells that can be learned, in tome order.
    pub book: Vec<Action>,
    /// Pending orders.
    pub orders: Vec<Action>,
}

/// The mathematical content of a [`Game`].
pub struct GameView {
    pub turn: i32,
    pub calc_turn: i32,
    pub my_score: i32,
    pub opp_score: i32,
    pub served: i8,
    pub opp_served: i8,
    pub inventory: [i8; 4],
    pub opp_inventory_score: i32,
    pub spells: Seq<Action>,
    pub book: Seq<Action>,
    pub orders: Seq<Action>,
}

impl View for Game {
    type V = GameView;

    open spec fn view(&self) -> GameView {
        GameView {
            turn: self.turn,
            calc_turn: self.calc_turn,
            my_score: self.my_score,
            opp_score: self.opp_score,
            served: self.served,
            opp_served: self.opp_served,
            inventory: self.inventory,
            opp_inventory_score: self.opp_inventory_score,
            spells: self.spells@,
            book: self.book@,
            orders: self.orders@,
        }
    }
}

/// Total number of ingredients in four tiers.
pub open spec fn tier_sum(v: [i8; 4]) -> int {
    v[0] + v[1] + v[2] + v[3]
}

/// No tier is negative.
pub open spec fn non_negative(v: [i8; 4]) -> bool {
    v[0] >= 0 && v[1] >= 0 && v[2] >= 0 && v[3] >= 0
}

/// No tier is negative and the total is within capacity.
pub open spec fn fits(v: [i8; 4]) -> bool {
    non_negative(v) && tier_sum(v) <= CAPACITY
}

/// No tier is positive: the delta only consumes.
pub open spec fn consumes(v: [i8; 4]) -> bool {
    v[0] <= 0 && v[1] <= 0 && v[2] <= 0 && v[3] <= 0
}

/// Value of the ingredients of tiers 1 to 3, one point each.
pub open spec fn final_score(v: [i8; 4]) -> int {
    v[1] + v[2] + v[3]
}

/// The move that makes every spell castable again.
pub open spec fn rest_action() -> Action {
    Action {
        id: 0,
        kind: ActionKind::Rest,
        delta: [0, 0, 0, 0],
        price: 0,
        tax: 0,
        pocket: 0,
        repeatable: false,
        repeat: 1,
        castable: false,
    }
}

/// Well-formed state: the inventory is within capacity, each list holds
/// entries of its own kind, orders only consume,
/// and the counters that moves raise have room left in their machine types
/// for the moves that remain before `MAX_SERVED` orders are served.
pub open spec fn game_wf(g: GameView) -> bool {
    &&& fits(g.inventory)
    &&& g.served <= MAX_SERVED
    &&& g.my_score - 128 * (MAX_SERVED - g.served) >= i32::MIN
    &&& g.my_score + 127 * (MAX_SERVED - g.served) <= i32::MAX
    &&& forall|i: int| 0 <= i < g.spells.len() ==> (#[trigger] g.spells[i]).kind == ActionKind::Cast
    &&& forall|i: int|
        0 <= i < g.orders.len() ==> {
            &&& (#[trigger] g.orders[i]).kind == ActionKind::Brew
            &&& consumes(g.orders[i].delta)
            &&& g.orders[i].price + 2 * (MAX_SERVED - g.served) <= i8::MAX
        }
    &&& forall|i: int|
        0 <= i < g.book.len() ==> {
            &&& (#[trigger] g.book[i]).kind == ActionKind::Learn
            &&& 0 <= g.book[i].tax
            &&& 0 <= g.book[i].pocket
            &&& g.book[i].pocket + g.book.len() <= i8::MAX
        }
}

impl Action {
    /// A move of the given kind with no effect of its own.
    pub fn new(kind: ActionKind) -> (r: Action)
        ensures
            r == (Action {
                id: 0,
                kind: kind,
                delta: [0, 0, 0, 0],
                price: 0,
                tax: 0,
                pocket: 0,
                repeatable: false,
                repeat: 1,
                castable: false,
            }),
    {
        Action {
            id: 0,
            kind: kind,
            delta: [0, 0, 0, 0],
            price: 0,
            tax: 0,
            pocket: 0,
            repeatable: false,
            repeat: 1,
            castable: false,
        }
    }
}

impl Game {
    /// An independent copy of the state.
    pub fn copy(&self) -> (r: Game)
        ensures
            r@ == self@,
    {
        let r = Game {
            turn: self.turn,
            calc_turn: self.calc_turn,
            my_score: self.my_score,
            opp_score: self.opp_score,
            served: self.served,
            opp_served: self.opp_served,
            inventory: self.inventory,
            opp_inventory_score: self.opp_inventory_score,
            spells: self.spells.clone(),
            book: self.book.clone(),
            orders: self.orders.clone(),
        };
        assert(r.spells@ =~= self.spells@);
        assert(r.book@ =~= self.book@);
        assert(r.orders@ =~= self.orders@);
        r
    }
}

} // verus!