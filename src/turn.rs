//! Building the state of a turn from what the turn shows.

use vstd::prelude::*;
use crate::model::{
    consumes, final_score, game_wf, Action, ActionKind, Game, GameView, CAPACITY, MAX_SERVED,
};
use crate::rules::inventory_final_score;

verus! {

/// The entries of the given kind, in order.
pub open spec fn of_kind(entries: Seq<Action>, kind: ActionKind) -> Seq<Action>
    decreases entries.len(),
{
    if entries.len() == 0 {
        Seq::empty()
    } else {
        of_kind(entries.drop_last(), kind) + if entries.last().kind == kind {
            seq![entries.last()]
        } else {
            Seq::empty()
        }
    }
}

/// The entries of the given kind, in order.
fn select_kind(entries: &Vec<Action>, kind: ActionKind) -> (r: Vec<Action>)
    ensures
        r@ == of_kind(entries@, kind),
{
    let mut r: Vec<Action> = Vec::new();
    let mut i: usize = 0;
    while i < entries.len()
        invariant
            i <= entries@.len(),
            r@ == of_kind(entries@.subrange(0, i as int), kind),
        decreases entries.len() - i,
    {
        proof {
            assert(entries@.subrange(0, i + 1).drop_last() =~= entries@.subrange(0, i as int));
        }
        if entries[i].kind == kind {
            r.push(entries[i]);
        }
        i = i + 1;
    }
    assert(entries@.subrange(0, i as int) =~= entries@);
    r
}

impl Game {
    /// The state at the start of a turn, from what the turn shows: the
    /// entries in play are sorted into spells, tome and orders (keeping their
    /// order), the opponent's inventory is valued, and the opponent is
    /// counted as having served one more order when its score changed.
    pub fn from_turn(
        turn: i32,
        served: i8,
        previous_opp_score: i32,
        opp_served: i8,
        entries: &Vec<Action>,
        inventory: [i8; 4],
        my_score: i32,
        opp_inventory: [i8; 4],
        opp_score: i32,
    ) -> (r: Game)
        requires
            previous_opp_score != opp_score ==> opp_served < i8::MAX,
        ensures
            r@ == (GameView {
                turn: turn,
                calc_turn: turn,
                my_score: my_score,
                opp_score: opp_score,
                served: served,
                opp_served: if previous_opp_score != opp_score {
                    (opp_served + 1) as i8
                } else {
                    opp_served
                },
                inventory: inventory,
                opp_inventory_score: final_score(opp_inventory) as i32,
                spells: of_kind(entries@, ActionKind::Cast),
                book: of_kind(entries@, ActionKind::Learn),
                orders: of_kind(entries@, ActionKind::Brew),
            }),
    {
        let opp_served = if previous_opp_score != opp_score {
            opp_served + 1
        } else {
            opp_served
        };
        Game {
            turn: turn,
            calc_turn: turn,
            my_score: my_score,
            opp_score: opp_score,
            served: served,
            opp_served: opp_served,
            inventory: inventory,
            opp_inventory_score: inventory_final_score(opp_inventory),
            spells: select_kind(entries, ActionKind::Cast),
            book: select_kind(entries, ActionKind::Learn),
            orders: select_kind(entries, ActionKind::Brew),
        }
    }

    /// Whether the state is well-formed (see `game_wf`), which the search
    /// needs of the state it starts from.
    pub fn is_well_formed(&self) -> (r: bool)
        ensures
            r == game_wf(self@),
    {
        let inv = self.inventory;
        let total = inv[0] as i32 + inv[1] as i32 + inv[2] as i32 + inv[3] as i32;
        if !(inv[0] >= 0 && inv[1] >= 0 && inv[2] >= 0 && inv[3] >= 0 && total <= CAPACITY) {
            return false;
        }
        if self.served > MAX_SERVED {
            return false;
        }
        let left = MAX_SERVED as i64 - self.served as i64;
        if self.my_score as i64 - 128 * left < i32::MIN as i64 || self.my_score as i64 + 127 * left
            > i32::MAX as i64 {
            return false;
        }
        let mut i: usize = 0;
        while i < self.spells.len()
            invariant
                i <= self.spells@.len(),
                forall|m: int| 0 <= m < i ==> (#[trigger] self.spells@[m]).kind == ActionKind::Cast,
            decreases self.spells.len() - i,
        {
            if self.spells[i].kind != ActionKind::Cast {
                return false;
            }
            i = i + 1;
        }
        let mut i: usize = 0;
        while i < self.orders.len()
            invariant
                i <= self.orders@.len(),
                self.served <= MAX_SERVED,
                left == MAX_SERVED - self.served,
                forall|m: int|
                    0 <= m < i ==> {
                        &&& (#[trigger] self.orders@[m]).kind == ActionKind::Brew
                        &&& consumes(self.orders@[m].delta)
                        &&& self.orders@[m].price + 2 * (MAX_SERVED - self.served) <= i8::MAX
                    },
            decreases self.orders.len() - i,
        {
            let o = self.orders[i];
            if o.kind != ActionKind::Brew || o.delta[0] > 0 || o.delta[1] > 0 || o.delta[2] > 0
                || o.delta[3] > 0 || o.price as i64 + 2 * left > i8::MAX as i64 {
                return false;
            }
            i = i + 1;
        }
        let mut i: usize = 0;
        while i < self.book.len()
            invariant
                i <= self.book@.len(),
                forall|m: int|
                    0 <= m < i ==> {
                        &&& (#[trigger] self.book@[m]).kind == ActionKind::Learn
                        &&& 0 <= self.book@[m].tax
                        &&& 0 <= self.book@[m].pocket
                        &&& self.book@[m].pocket + self.book@.len() <= i8::MAX
                    },
            decreases self.book.len() - i,
        {
            let l = self.book[i];
            if l.kind != ActionKind::Learn || l.tax < 0 || l.pocket < 0 || self.book.len() > 127
                || l.pocket as usize + self.book.len() > 127 {
                return false;
            }
            i = i + 1;
        }
        true
    }
}

} // verus!
