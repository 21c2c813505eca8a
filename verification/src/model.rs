//! The mathematical model of the book.
//!
//! A book side is modeled as a sequence of price levels, best price first;
//! a price level is a sequence of orders, oldest first. The spec functions
//! here say exactly what insertion, cancellation and matching compute, and
//! the executable operations in [`crate::order_book`] are proved equal to
//! them.

use vstd::prelude::*;

use crate::order::{Order, OrderSide};

verus! {

/// Price `a` stands closer to the market than price `b` on the given book
/// side: the ask side keeps its levels in ascending price order, the bid
/// side in descending order.
pub open spec fn price_ahead(a: u64, b: u64, side: OrderSide) -> bool {
    match side {
        OrderSide::Buy => a > b,
        OrderSide::Sell => a < b,
    }
}

/// An incoming order at `incoming_price` may trade against a level at
/// `level_price` on the opposing side.
pub open spec fn crosses(incoming_price: u64, level_price: u64, incoming_side: OrderSide) -> bool {
    match incoming_side {
        OrderSide::Buy => incoming_price >= level_price,
        OrderSide::Sell => incoming_price <= level_price,
    }
}

/// Some order in the level carries this id.
pub open spec fn queue_contains_id(q: Seq<Order>, id: u64) -> bool {
    exists|j: int| 0 <= j < q.len() && q[j].id == id
}

/// Some resting order on the side carries this id.
pub open spec fn side_contains_id(s: Seq<Seq<Order>>, id: u64) -> bool {
    exists|i: int| 0 <= i < s.len() && queue_contains_id(s[i], id)
}

/// Some resting order on the side carries this id at this price.
pub open spec fn side_has_id_price(s: Seq<Seq<Order>>, id: u64, price: u64) -> bool {
    exists|i: int, j: int|
        0 <= i < s.len() && 0 <= j < s[i].len() && s[i][j].id == id && s[i][j].price == price
}

/// The ids that rested on side `a` but no longer rest on side `b`.
pub open spec fn removed_ids(a: Seq<Seq<Order>>, b: Seq<Seq<Order>>) -> Set<u64> {
    Set::new(|id: u64| side_contains_id(a, id) && !side_contains_id(b, id))
}

/// The order `o` rests somewhere on the side.
pub open spec fn side_has_order(s: Seq<Seq<Order>>, o: Order) -> bool {
    exists|i: int, j: int| 0 <= i < s.len() && 0 <= j < s[i].len() && s[i][j] == o
}

/// No two resting orders on the side share an id.
pub open spec fn side_ids_unique(s: Seq<Seq<Order>>) -> bool {
    forall|i1: int, j1: int, i2: int, j2: int|
        0 <= i1 < s.len() && 0 <= j1 < s[i1].len() && 0 <= i2 < s.len() && 0 <= j2 < s[i2].len()
            && #[trigger] s[i1][j1].id == #[trigger] s[i2][j2].id ==> i1 == i2 && j1 == j2
}

/// Well-formedness of one book side: every level is nonempty, holds only
/// positive-quantity orders of this side at the level's single price, the
/// levels stand in best-price-first order, and ids are unique.
pub open spec fn side_wf(s: Seq<Seq<Order>>, side: OrderSide) -> bool {
    &&& forall|i: int| 0 <= i < s.len() ==> (#[trigger] s[i]).len() > 0
    &&& forall|i: int, j: int|
        0 <= i < s.len() && 0 <= j < s[i].len() ==> {
            &&& (#[trigger] s[i][j]).side == side
            &&& s[i][j].quantity > 0
            &&& s[i][j].price == s[i][0].price
        }
    &&& forall|i: int, j: int|
        0 <= i < j < s.len() ==> price_ahead(
            #[trigger] s[i][0].price,
            #[trigger] s[j][0].price,
            side,
        )
    &&& side_ids_unique(s)
}

/// The price of the best level, or `None` on an empty side.
pub open spec fn best_price(s: Seq<Seq<Order>>) -> Option<u64> {
    if s.len() == 0 {
        None
    } else {
        Some(s[0][0].price)
    }
}

/// The side after placing `o` at the back of its price level, creating the
/// level at its sorted position if absent.
pub open spec fn side_insert(s: Seq<Seq<Order>>, o: Order, side: OrderSide) -> Seq<Seq<Order>>
    decreases s.len(),
{
    if s.len() == 0 {
        seq![seq![o]]
    } else if o.price == s[0][0].price {
        seq![s[0].push(o)] + s.skip(1)
    } else if price_ahead(o.price, s[0][0].price, side) {
        seq![seq![o]] + s
    } else {
        seq![s[0]] + side_insert(s.skip(1), o, side)
    }
}

/// The level after removing the first order that carries `id`.
pub open spec fn queue_remove_id(q: Seq<Order>, id: u64) -> Seq<Order>
    decreases q.len(),
{
    if q.len() == 0 {
        q
    } else if q[0].id == id {
        q.skip(1)
    } else {
        seq![q[0]] + queue_remove_id(q.skip(1), id)
    }
}

/// The side after removing the order that carries `id`, dropping its level
/// if the level becomes empty.
pub open spec fn side_remove_id(s: Seq<Seq<Order>>, id: u64) -> Seq<Seq<Order>>
    decreases s.len(),
{
    if s.len() == 0 {
        s
    } else if queue_contains_id(s[0], id) {
        let q = queue_remove_id(s[0], id);
        if q.len() == 0 {
            s.skip(1)
        } else {
            seq![q] + s.skip(1)
        }
    } else {
        seq![s[0]] + side_remove_id(s.skip(1), id)
    }
}

/// The first order in the level that carries `id`; an arbitrary placeholder
/// when none does.
pub open spec fn queue_find(q: Seq<Order>, id: u64) -> Order
    decreases q.len(),
{
    if q.len() == 0 {
        Order { id: 0, side: OrderSide::Buy, price: 0, quantity: 0, timestamp: 0 }
    } else if q[0].id == id {
        q[0]
    } else {
        queue_find(q.skip(1), id)
    }
}

/// The resting order on the side that carries `id`; an arbitrary placeholder
/// when none does.
pub open spec fn side_find(s: Seq<Seq<Order>>, id: u64) -> Order
    decreases s.len(),
{
    if s.len() == 0 {
        Order { id: 0, side: OrderSide::Buy, price: 0, quantity: 0, timestamp: 0 }
    } else if queue_contains_id(s[0], id) {
        queue_find(s[0], id)
    } else {
        side_find(s.skip(1), id)
    }
}

/// The outcome of matching an incoming remainder of `rem` against one price
/// level, oldest order first: the fills produced in trade order, the level
/// that remains, and the incoming quantity still unfilled.
pub open spec fn match_queue(q: Seq<Order>, rem: u32) -> (Seq<(u64, u32)>, Seq<Order>, u32)
    decreases q.len(),
{
    if rem == 0 || q.len() == 0 {
        (Seq::<(u64, u32)>::empty(), q, rem)
    } else {
        let r = q[0];
        if r.quantity <= rem {
            let rest = match_queue(q.skip(1), (rem - r.quantity) as u32);
            (seq![(r.id, r.quantity)] + rest.0, rest.1, rest.2)
        } else {
            let reduced = Order {
                id: r.id,
                side: r.side,
                price: r.price,
                quantity: (r.quantity - rem) as u32,
                timestamp: r.timestamp,
            };
            (seq![(r.id, rem)], seq![reduced] + q.skip(1), 0u32)
        }
    }
}

/// The outcome of sweeping an incoming order with remainder `rem` across a
/// book side, best level first, stopping at the first level its price does
/// not cross: the fills in trade order, the side that remains, and the
/// incoming quantity still unfilled.
pub open spec fn match_levels(s: Seq<Seq<Order>>, price: u64, incoming_side: OrderSide, rem: u32) -> (
    Seq<(u64, u32)>,
    Seq<Seq<Order>>,
    u32,
)
    decreases s.len(),
{
    if rem == 0 || s.len() == 0 || !crosses(price, s[0][0].price, incoming_side) {
        (Seq::<(u64, u32)>::empty(), s, rem)
    } else {
        let lvl = match_queue(s[0], rem);
        if lvl.1.len() == 0 {
            let rest = match_levels(s.skip(1), price, incoming_side, lvl.2);
            (lvl.0 + rest.0, rest.1, rest.2)
        } else {
            (lvl.0, seq![lvl.1] + s.skip(1), lvl.2)
        }
    }
}

/// The total quantity traded over a fill sequence.
pub open spec fn fills_total(f: Seq<(u64, u32)>) -> int
    decreases f.len(),
{
    if f.len() == 0 {
        0
    } else {
        f[0].1 + fills_total(f.skip(1))
    }
}

/// Every resting order of the side, best level first and oldest first
/// within a level.
pub open spec fn side_orders(s: Seq<Seq<Order>>) -> Seq<Order>
    decreases s.len(),
{
    if s.len() == 0 {
        Seq::<Order>::empty()
    } else {
        s[0] + side_orders(s.skip(1))
    }
}

} // verus!
