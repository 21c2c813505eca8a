//! The order book: price-ordered resting liquidity for both sides, an index
//! from order id to resting price, and the insert, cancel and match
//! operations.

use std::collections::HashMap;
use vstd::prelude::*;

use crate::lemmas::{
    lemma_match_step, lemma_side_insert_at, lemma_side_insert_props, lemma_side_remove_at,
    lemma_side_remove_props,
};
use crate::model::{
    best_price, crosses, match_levels, price_ahead, queue_contains_id, removed_ids,
    side_contains_id, side_find, side_has_id_price, side_has_order, side_insert, side_orders,
    side_remove_id, side_wf,
};
use crate::order::{opposite, Order, OrderSide};

verus! {

broadcast use vstd::std_specs::hash::group_hash_axioms;

/// The abstract levels of one stored side: each level as the sequence of its
/// orders, best price first.
pub open spec fn side_model(v: Seq<Vec<Order>>) -> Seq<Seq<Order>> {
    v.map_values(|q: Vec<Order>| q@)
}

/// A limit order book.
///
/// `bids` and `asks` hold one vector of orders per price level, the best
/// level first (highest price for bids, lowest for asks) and the oldest
/// order first within a level. `order_locations` maps the id of every
/// resting order to its price.
pub struct OrderBook {
    pub bids: Vec<Vec<Order>>,
    pub asks: Vec<Vec<Order>>,
    pub order_locations: HashMap<u64, u64>,
}

impl OrderBook {
    /// The bid side, abstractly.
    pub open spec fn bids_model(self) -> Seq<Seq<Order>> {
        side_model(self.bids@)
    }

    /// The ask side, abstractly.
    pub open spec fn asks_model(self) -> Seq<Seq<Order>> {
        side_model(self.asks@)
    }

    /// The location index, abstractly.
    pub open spec fn locs(self) -> Map<u64, u64> {
        self.order_locations@
    }

    /// The book's invariant: both sides are well formed, no id rests on both
    /// sides, and the location index holds exactly the resting ids, each
    /// mapped to its order's price.
    pub open spec fn wf(self) -> bool {
        &&& side_wf(self.bids_model(), OrderSide::Buy)
        &&& side_wf(self.asks_model(), OrderSide::Sell)
        &&& forall|id: u64|
            !(#[trigger] side_contains_id(self.bids_model(), id) && side_contains_id(
                self.asks_model(),
                id,
            ))
        &&& forall|id: u64|
            #[trigger] self.locs().contains_key(id) <==> (side_contains_id(self.bids_model(), id)
                || side_contains_id(self.asks_model(), id))
        &&& forall|i: int, j: int|
            0 <= i < self.bids_model().len() && 0 <= j < self.bids_model()[i].len() ==> {
                let o = #[trigger] self.bids_model()[i][j];
                self.locs().contains_key(o.id) && self.locs()[o.id] == o.price
            }
        &&& forall|i: int, j: int|
            0 <= i < self.asks_model().len() && 0 <= j < self.asks_model()[i].len() ==> {
                let o = #[trigger] self.asks_model()[i][j];
                self.locs().contains_key(o.id) && self.locs()[o.id] == o.price
            }
    }

    /// An empty book.
    pub fn new() -> (r: Self)
        ensures
            r.wf(),
            r.bids_model() == Seq::<Seq<Order>>::empty(),
            r.asks_model() == Seq::<Seq<Order>>::empty(),
            r.locs() == Map::<u64, u64>::empty(),
    {
        let r = OrderBook {
            bids: Vec::new(),
            asks: Vec::new(),
            order_locations: HashMap::new(),
        };
        proof {
            assert(r.bids_model() =~= Seq::<Seq<Order>>::empty());
            assert(r.asks_model() =~= Seq::<Seq<Order>>::empty());
        }
        r
    }

    /// The highest price with at least one resting buy order.
    pub fn get_best_bid(&self) -> (r: Option<u64>)
        requires
            self.wf(),
        ensures
            r == best_price(self.bids_model()),
            r matches Some(p) ==> forall|i: int, j: int|
                0 <= i < self.bids_model().len() && 0 <= j < self.bids_model()[i].len()
                    ==> (#[trigger] self.bids_model()[i][j]).price <= p,
            r is None <==> self.bids_model().len() == 0,
    {
        if self.bids.len() == 0 {
            None
        } else {
            proof {
                assert(self.bids_model()[0] == self.bids@[0]@);
                assert forall|i: int, j: int|
                    0 <= i < self.bids_model().len() && 0 <= j < self.bids_model()[i].len() implies (
                #[trigger] self.bids_model()[i][j]).price <= self.bids_model()[0][0].price by {
                    if i > 0 {
                        assert(price_ahead(
                            self.bids_model()[0][0].price,
                            self.bids_model()[i][0].price,
                            OrderSide::Buy,
                        ));
                    }
                }
            }
            Some(self.bids[0][0].price)
        }
    }

    /// The lowest price with at least one resting sell order.
    pub fn get_best_ask(&self) -> (r: Option<u64>)
        requires
            self.wf(),
        ensures
            r == best_price(self.asks_model()),
            r matches Some(p) ==> forall|i: int, j: int|
                0 <= i < self.asks_model().len() && 0 <= j < self.asks_model()[i].len()
                    ==> (#[trigger] self.asks_model()[i][j]).price >= p,
            r is None <==> self.asks_model().len() == 0,
    {
        if self.asks.len() == 0 {
            None
        } else {
            proof {
                assert(self.asks_model()[0] == self.asks@[0]@);
                assert forall|i: int, j: int|
                    0 <= i < self.asks_model().len() && 0 <= j < self.asks_model()[i].len() implies (
                #[trigger] self.asks_model()[i][j]).price >= self.asks_model()[0][0].price by {
                    if i > 0 {
                        assert(price_ahead(
                            self.asks_model()[0][0].price,
                            self.asks_model()[i][0].price,
                            OrderSide::Sell,
                        ));
                    }
                }
            }
            Some(self.asks[0][0].price)
        }
    }

    /// Whether price `a` stands closer to the market than price `b` on the
    /// side a resting order of side `side` belongs to.
    fn is_ahead(a: u64, b: u64, side: OrderSide) -> (r: bool)
        ensures
            r == price_ahead(a, b, side),
    {
        match side {
            OrderSide::Buy => a > b,
            OrderSide::Sell => a < b,
        }
    }

    /// Places `order` at the back of its price level on `levels`, creating
    /// the level at its sorted position when absent.
    fn insert_into_side(levels: &mut Vec<Vec<Order>>, order: Order)
        requires
            side_wf(side_model(old(levels)@), order.side),
            order.quantity > 0,
            !side_contains_id(side_model(old(levels)@), order.id),
        ensures
            side_model(final(levels)@) == side_insert(
                side_model(old(levels)@),
                order,
                order.side,
            ),
    {
        let ghost orig = side_model(old(levels)@);
        let mut i: usize = 0;
        while i < levels.len()
            invariant
                side_wf(orig, order.side),
                side_model(levels@) == orig,
                i <= levels@.len(),
                forall|k: int|
                    0 <= k < i ==> price_ahead((#[trigger] orig[k])[0].price, order.price, order.side),
            ensures
                side_model(levels@) == orig,
                i <= levels@.len(),
                forall|k: int|
                    0 <= k < i ==> price_ahead((#[trigger] orig[k])[0].price, order.price, order.side),
                i < levels@.len() ==> !price_ahead(orig[i as int][0].price, order.price, order.side),
            decreases levels@.len() - i,
        {
            assert(orig[i as int] == levels@[i as int]@);
            let lp = levels[i][0].price;
            if !Self::is_ahead(lp, order.price, order.side) {
                break;
            }
            i = i + 1;
        }
        let ghost pos = i as int;
        let mut joins = false;
        if i < levels.len() {
            proof {
                assert(orig[pos] == levels@[pos]@);
            }
            joins = levels[i][0].price == order.price;
        }
        proof {
            lemma_side_insert_at(orig, order, order.side, pos);
        }
        if joins {
            let mut q = levels.remove(i);
            q.push(order);
            levels.insert(i, q);
            proof {
                assert(side_model(levels@) =~= orig.update(pos, orig[pos].push(order)));
            }
        } else {
            let mut q: Vec<Order> = Vec::new();
            q.push(order);
            levels.insert(i, q);
            proof {
                assert(q@ =~= seq![order]);
                assert(side_model(levels@) =~= orig.insert(pos, seq![order]));
            }
        }
    }

    /// Inserts a resting order: appends it to the back of its side's price
    /// level (creating the level if absent) and records its price in the
    /// location index. Time priority is the position in the level's queue.
    pub fn add_order(&mut self, order: Order)
        requires
            old(self).wf(),
            order.quantity > 0,
            !old(self).locs().contains_key(order.id),
        ensures
            final(self).wf(),
            order.side == OrderSide::Buy ==> final(self).bids_model() == side_insert(
                old(self).bids_model(),
                order,
                OrderSide::Buy,
            ) && final(self).asks_model() == old(self).asks_model(),
            order.side == OrderSide::Sell ==> final(self).asks_model() == side_insert(
                old(self).asks_model(),
                order,
                OrderSide::Sell,
            ) && final(self).bids_model() == old(self).bids_model(),
            final(self).locs() == old(self).locs().insert(order.id, order.price),
    {
        self.order_locations.insert(order.id, order.price);
        match order.side {
            OrderSide::Buy => {
                proof {
                    lemma_side_insert_props(old(self).bids_model(), order, OrderSide::Buy);
                }
                Self::insert_into_side(&mut self.bids, order);
                proof {
                    self.lemma_wf_after_insert(*old(self), order);
                }
            },
            OrderSide::Sell => {
                proof {
                    lemma_side_insert_props(old(self).asks_model(), order, OrderSide::Sell);
                }
                Self::insert_into_side(&mut self.asks, order);
                proof {
                    self.lemma_wf_after_insert(*old(self), order);
                }
            },
        }
    }

    /// The resting order that carries `id`, on whichever side holds it.
    pub open spec fn resting_order(self, id: u64) -> Order {
        if side_contains_id(self.bids_model(), id) {
            side_find(self.bids_model(), id)
        } else {
            side_find(self.asks_model(), id)
        }
    }

    /// Cancels the resting order with `order_id`: removes it from its price
    /// level (dropping the level if it empties) and from the location index,
    /// and returns it. An unknown or already-resolved id is a normal
    /// not-found outcome, and the book is left untouched.
    pub fn cancel_order(&mut self, order_id: u64) -> (r: Option<Order>)
        requires
            old(self).wf(),
        ensures
            final(self).wf(),
            !old(self).locs().contains_key(order_id) ==> r == None::<Order> && final(self).bids_model() == old(self).bids_model() && final(self).asks_model() == old(self).asks_model() && final(self).locs() == old(self).locs(),
            old(self).locs().contains_key(order_id) ==> {
                &&& r == Some(old(self).resting_order(order_id))
                &&& final(self).locs() == old(self).locs().remove(order_id)
                &&& side_contains_id(old(self).bids_model(), order_id) ==> final(self).bids_model() == side_remove_id(old(self).bids_model(), order_id) && final(self).asks_model() == old(self).asks_model()
                &&& side_contains_id(old(self).asks_model(), order_id) ==> final(self).asks_model() == side_remove_id(old(self).asks_model(), order_id) && final(self).bids_model() == old(self).bids_model()
            },
    {
        let loc = self.order_locations.remove(&order_id);
        match loc {
            None => {
                proof {
                    assert(self.locs() =~= old(self).locs());
                }
                None
            },
            Some(price) => {
                proof {
                    // the id rests on exactly one side, at this price
                    assert(side_contains_id(old(self).bids_model(), order_id)
                        || side_contains_id(old(self).asks_model(), order_id));
                }
                let r1 = Self::remove_from_side(
                    &mut self.bids,
                    price,
                    order_id,
                    Ghost(OrderSide::Buy),
                );
                match r1 {
                    Some(o) => {
                        proof {
                            assert(side_contains_id(old(self).bids_model(), order_id));
                            self.lemma_wf_after_remove(*old(self), order_id, OrderSide::Buy);
                        }
                        Some(o)
                    },
                    None => {
                        proof {
                            // not on the bid side at this price, so it rests
                            // on the ask side
                            if side_contains_id(old(self).bids_model(), order_id) {
                                let (i, j) = choose|i: int, j: int|
                                    0 <= i < old(self).bids_model().len() && 0 <= j < old(self).bids_model()[i].len() && old(self).bids_model()[i][j].id
                                        == order_id;
                                lemma_side_remove_at(old(self).bids_model(), order_id, i, j);
                                assert(old(self).bids_model()[i][j].price == old(self).bids_model()[i][0].price);
                                assert(side_find(old(self).bids_model(), order_id).price == price);
                                assert(false);
                            }
                            assert(side_contains_id(old(self).asks_model(), order_id));
                        }
                        let r2 = Self::remove_from_side(
                            &mut self.asks,
                            price,
                            order_id,
                            Ghost(OrderSide::Sell),
                        );
                        match r2 {
                            Some(o) => {
                                proof {
                                    self.lemma_wf_after_remove(
                                        *old(self),
                                        order_id,
                                        OrderSide::Sell,
                                    );
                                }
                                Some(o)
                            },
                            None => {
                                proof {
                                    let (i, j) = choose|i: int, j: int|
                                        0 <= i < old(self).asks_model().len() && 0 <= j < old(self).asks_model()[i].len() && old(self).asks_model()[i][j].id
                                            == order_id;
                                    lemma_side_remove_at(old(self).asks_model(), order_id, i, j);
                                    assert(old(self).asks_model()[i][j].price == old(self).asks_model()[i][0].price);
                                    assert(false);
                                }
                                None
                            },
                        }
                    },
                }
            },
        }
    }

    /// Removes the order with `order_id` from the level at `price`, dropping
    /// the level if it becomes empty; not-found leaves the side untouched.
    fn remove_from_side(
        levels: &mut Vec<Vec<Order>>,
        price: u64,
        order_id: u64,
        Ghost(side): Ghost<OrderSide>,
    ) -> (r: Option<Order>)
        requires
            side_wf(side_model(old(levels)@), side),
        ensures
            ({
                let s = side_model(old(levels)@);
                if side_contains_id(s, order_id) && side_find(s, order_id).price == price {
                    &&& r == Some(side_find(s, order_id))
                    &&& side_model(final(levels)@) == side_remove_id(s, order_id)
                } else {
                    &&& r == None::<Order>
                    &&& final(levels)@ == old(levels)@
                }
            }),
    {
        let ghost s = side_model(old(levels)@);
        let ghost orig_v = old(levels)@;
        let mut li: usize = 0;
        while li < levels.len()
            invariant
                levels@ == orig_v,
                s == side_model(orig_v),
                side_wf(s, side),
                li <= levels@.len(),
                forall|k: int| 0 <= k < li ==> (#[trigger] s[k])[0].price != price,
            ensures
                levels@ == orig_v,
                li <= levels@.len(),
                forall|k: int| 0 <= k < li ==> (#[trigger] s[k])[0].price != price,
                li < levels@.len() ==> s[li as int][0].price == price,
            decreases levels@.len() - li,
        {
            assert(s[li as int] == levels@[li as int]@);
            if levels[li][0].price == price {
                break;
            }
            li = li + 1;
        }
        if li == levels.len() {
            proof {
                if side_contains_id(s, order_id) && side_find(s, order_id).price == price {
                    let (i, j) = choose|i: int, j: int|
                        0 <= i < s.len() && 0 <= j < s[i].len() && s[i][j].id == order_id;
                    lemma_side_remove_at(s, order_id, i, j);
                    assert(s[i][j].price == s[i][0].price);
                }
            }
            return None;
        }
        let ghost lp = li as int;
        let ghost lv = s[lp];
        let n = levels[li].len();
        let mut j: usize = 0;
        while j < n
            invariant
                levels@ == orig_v,
                s == side_model(orig_v),
                side_wf(s, side),
                lp == li as int,
                0 <= lp < levels@.len(),
                lv == s[lp],
                n == lv.len(),
                j <= n,
                forall|k: int| 0 <= k < j ==> (#[trigger] lv[k]).id != order_id,
            ensures
                levels@ == orig_v,
                j <= n,
                forall|k: int| 0 <= k < j ==> (#[trigger] lv[k]).id != order_id,
                j < n ==> lv[j as int].id == order_id,
            decreases n - j,
        {
            assert(lv == levels@[lp]@);
            if levels[li][j].id == order_id {
                break;
            }
            j = j + 1;
        }
        if j == n {
            proof {
                if side_contains_id(s, order_id) && side_find(s, order_id).price == price {
                    let (i, jj) = choose|i: int, jj: int|
                        0 <= i < s.len() && 0 <= jj < s[i].len() && s[i][jj].id == order_id;
                    lemma_side_remove_at(s, order_id, i, jj);
                    assert(s[i][jj].price == s[i][0].price);
                    // level prices are distinct, so the id's level is this one
                    if i != lp {
                        if i < lp {
                            assert(price_ahead(s[i][0].price, s[lp][0].price, side));
                        } else {
                            assert(price_ahead(s[lp][0].price, s[i][0].price, side));
                        }
                    }
                    assert(i == lp);
                }
            }
            return None;
        }
        let mut q = levels.remove(li);
        let o = q.remove(j);
        let emptied = q.len() == 0;
        if !emptied {
            levels.insert(li, q);
        }
        proof {
            assert(s[lp][j as int].id == order_id);
            assert(queue_contains_id(s[lp], order_id));
            assert(side_contains_id(s, order_id));
            lemma_side_remove_at(s, order_id, lp, j as int);
            assert(o == s[lp][j as int]);
            assert(side_find(s, order_id) == o);
            assert(o.price == s[lp][0].price);
            if emptied {
                assert(side_model(levels@) =~= s.remove(lp));
            } else {
                assert(q@ =~= s[lp].remove(j as int));
                assert(side_model(levels@) =~= s.update(lp, s[lp].remove(j as int)));
            }
        }
        Some(o)
    }

    /// A read-only view of the whole book: every resting bid and every
    /// resting ask, each side best price first and oldest first within a
    /// level.
    pub fn snapshot(&self) -> (r: (Vec<Order>, Vec<Order>))
        ensures
            r.0@ == side_orders(self.bids_model()),
            r.1@ == side_orders(self.asks_model()),
    {
        let bids = Self::flatten_side(&self.bids);
        let asks = Self::flatten_side(&self.asks);
        (bids, asks)
    }

    /// Lays the orders of a side out flat, level order kept.
    fn flatten_side(levels: &Vec<Vec<Order>>) -> (r: Vec<Order>)
        ensures
            r@ == side_orders(side_model(levels@)),
    {
        let ghost s = side_model(levels@);
        let mut out: Vec<Order> = Vec::new();
        let mut i: usize = 0;
        proof {
            assert(s.skip(0) =~= s);
        }
        while i < levels.len()
            invariant
                s == side_model(levels@),
                i <= levels@.len(),
                out@ + side_orders(s.skip(i as int)) == side_orders(s),
            decreases levels@.len() - i,
        {
            let ghost out_start = out@;
            let ghost lvl = s[i as int];
            assert(lvl == levels@[i as int]@);
            let n = levels[i].len();
            let mut j: usize = 0;
            while j < n
                invariant
                    s == side_model(levels@),
                    i < levels@.len(),
                    lvl == s[i as int],
                    lvl == levels@[i as int]@,
                    n == lvl.len(),
                    j <= n,
                    out@ == out_start + lvl.take(j as int),
                decreases n - j,
            {
                out.push(levels[i][j]);
                proof {
                    assert(out@ =~= out_start + lvl.take(j as int + 1));
                }
                j = j + 1;
            }
            proof {
                assert(lvl.take(n as int) =~= lvl);
                let tail = s.skip(i as int);
                assert(tail[0] == s[i as int]);
                assert(tail.skip(1) =~= s.skip(i as int + 1));
                assert(side_orders(tail) == lvl + side_orders(s.skip(i as int + 1)));
                assert((out_start + lvl) + side_orders(s.skip(i as int + 1)) =~= out_start + (lvl
                    + side_orders(s.skip(i as int + 1))));
            }
            i = i + 1;
        }
        proof {
            assert(side_orders(s.skip(i as int)) =~= Seq::<Order>::empty());
            assert(out@ + Seq::<Order>::empty() =~= out@);
        }
        out
    }

    /// Whether an order at `incoming_price` of side `side` may trade against
    /// a level at `level_price` of the opposing side.
    fn crosses_exec(incoming_price: u64, level_price: u64, side: OrderSide) -> (r: bool)
        ensures
            r == crosses(incoming_price, level_price, side),
    {
        match side {
            OrderSide::Buy => incoming_price >= level_price,
            OrderSide::Sell => incoming_price <= level_price,
        }
    }

    /// Executes an incoming order against the book: sweeps the opposing side
    /// in best-price-first, oldest-first order as far as the incoming price
    /// crosses, and rests any unfilled remainder on its own side. Returns
    /// the fills in the exact order the trades occurred.
    pub fn execute_order(&mut self, incoming: Order) -> (fills: Vec<(u64, u32)>)
        requires
            old(self).wf(),
            incoming.quantity > 0,
            !old(self).locs().contains_key(incoming.id),
        ensures
            final(self).wf(),
            incoming.side == OrderSide::Buy ==> ({
                let m = match_levels(
                    old(self).asks_model(),
                    incoming.price,
                    OrderSide::Buy,
                    incoming.quantity,
                );
                &&& fills@ == m.0
                &&& final(self).asks_model() == m.1
                &&& (m.2 == 0 ==> final(self).bids_model() == old(self).bids_model())
                &&& (m.2 > 0 ==> final(self).bids_model() == side_insert(
                    old(self).bids_model(),
                    Order {
                        id: incoming.id,
                        side: incoming.side,
                        price: incoming.price,
                        quantity: m.2,
                        timestamp: incoming.timestamp,
                    },
                    OrderSide::Buy,
                ))
            }),
            incoming.side == OrderSide::Sell ==> ({
                let m = match_levels(
                    old(self).bids_model(),
                    incoming.price,
                    OrderSide::Sell,
                    incoming.quantity,
                );
                &&& fills@ == m.0
                &&& final(self).bids_model() == m.1
                &&& (m.2 == 0 ==> final(self).asks_model() == old(self).asks_model())
                &&& (m.2 > 0 ==> final(self).asks_model() == side_insert(
                    old(self).asks_model(),
                    Order {
                        id: incoming.id,
                        side: incoming.side,
                        price: incoming.price,
                        quantity: m.2,
                        timestamp: incoming.timestamp,
                    },
                    OrderSide::Sell,
                ))
            }),
    {
        let mut rem: u32;
        let mut fills: Vec<(u64, u32)>;
        match incoming.side {
            OrderSide::Buy => {
                let res = Self::sweep_side(
                    &mut self.asks,
                    &mut self.order_locations,
                    incoming.price,
                    OrderSide::Buy,
                    incoming.quantity,
                );
                fills = res.0;
                rem = res.1;
                proof {
                    self.lemma_wf_after_sweep(*old(self), OrderSide::Buy);
                }
            },
            OrderSide::Sell => {
                let res = Self::sweep_side(
                    &mut self.bids,
                    &mut self.order_locations,
                    incoming.price,
                    OrderSide::Sell,
                    incoming.quantity,
                );
                fills = res.0;
                rem = res.1;
                proof {
                    self.lemma_wf_after_sweep(*old(self), OrderSide::Sell);
                }
            },
        }
        if rem > 0 {
            let rested = Order {
                id: incoming.id,
                side: incoming.side,
                price: incoming.price,
                quantity: rem,
                timestamp: incoming.timestamp,
            };
            proof {
                assert(!self.locs().contains_key(incoming.id));
            }
            self.add_order(rested);
        }
        fills
    }

    /// Sweeps an incoming remainder of `qty` at `price` across `levels` (the
    /// side opposing `incoming_side`), consuming the best crossable levels
    /// oldest order first, clearing fully filled ids from `locations`, and
    /// dropping levels that empty. Returns the fills and the unfilled
    /// remainder.
    #[verifier::rlimit(100)]
    fn sweep_side(
        levels: &mut Vec<Vec<Order>>,
        locations: &mut HashMap<u64, u64>,
        price: u64,
        incoming_side: OrderSide,
        qty: u32,
    ) -> (r: (Vec<(u64, u32)>, u32))
        requires
            side_wf(side_model(old(levels)@), opposite(incoming_side)),
            qty > 0,
        ensures
            ({
                let orig = side_model(old(levels)@);
                let m = match_levels(orig, price, incoming_side, qty);
                let cur = side_model(final(levels)@);
                &&& r.0@ == m.0
                &&& cur == m.1
                &&& r.1 == m.2
                &&& side_wf(cur, opposite(incoming_side))
                &&& forall|id: u64|
                    #[trigger] side_contains_id(cur, id) ==> side_contains_id(orig, id)
                &&& forall|a: int, b: int|
                    0 <= a < cur.len() && 0 <= b < cur[a].len() ==> side_has_id_price(
                        orig,
                        (#[trigger] cur[a][b]).id,
                        cur[a][b].price,
                    )
                &&& final(locations)@ == old(locations)@.remove_keys(removed_ids(orig, cur))
            }),
    {
        let ghost orig = side_model(old(levels)@);
        let ghost orig_locs = old(locations)@;
        let ghost bookside = opposite(incoming_side);
        let mut fills: Vec<(u64, u32)> = Vec::new();
        let mut rem: u32 = qty;
        proof {
            assert(fills@ + match_levels(orig, price, incoming_side, qty).0 =~= match_levels(
                orig,
                price,
                incoming_side,
                qty,
            ).0);
            assert(removed_ids(orig, orig) =~= Set::<u64>::empty());
            assert(orig_locs.remove_keys(Set::<u64>::empty()) =~= orig_locs);
        }
        loop
            invariant
                side_wf(orig, bookside),
                bookside == opposite(incoming_side),
                side_wf(side_model(levels@), bookside),
                match_levels(orig, price, incoming_side, qty).0 == fills@ + match_levels(
                    side_model(levels@),
                    price,
                    incoming_side,
                    rem,
                ).0,
                match_levels(orig, price, incoming_side, qty).1 == match_levels(
                    side_model(levels@),
                    price,
                    incoming_side,
                    rem,
                ).1,
                match_levels(orig, price, incoming_side, qty).2 == match_levels(
                    side_model(levels@),
                    price,
                    incoming_side,
                    rem,
                ).2,
                locations@ == orig_locs.remove_keys(removed_ids(orig, side_model(levels@))),
                forall|id: u64|
                    #[trigger] side_contains_id(side_model(levels@), id) ==> side_contains_id(
                        orig,
                        id,
                    ),
                forall|a: int, b: int|
                    0 <= a < side_model(levels@).len() && 0 <= b < side_model(levels@)[a].len()
                        ==> side_has_id_price(
                        orig,
                        (#[trigger] side_model(levels@)[a][b]).id,
                        side_model(levels@)[a][b].price,
                    ),
            ensures
                side_wf(side_model(levels@), bookside),
                fills@ == match_levels(orig, price, incoming_side, qty).0,
                side_model(levels@) == match_levels(orig, price, incoming_side, qty).1,
                rem == match_levels(orig, price, incoming_side, qty).2,
                locations@ == orig_locs.remove_keys(removed_ids(orig, side_model(levels@))),
                forall|id: u64|
                    #[trigger] side_contains_id(side_model(levels@), id) ==> side_contains_id(
                        orig,
                        id,
                    ),
                forall|a: int, b: int|
                    0 <= a < side_model(levels@).len() && 0 <= b < side_model(levels@)[a].len()
                        ==> side_has_id_price(
                        orig,
                        (#[trigger] side_model(levels@)[a][b]).id,
                        side_model(levels@)[a][b].price,
                    ),
            decreases levels@.len(), (if levels@.len() > 0 {
                levels@[0]@.len()
            } else {
                0
            }),
        {
            let ghost cur = side_model(levels@);
            if rem == 0 {
                proof {
                    assert(match_levels(cur, price, incoming_side, rem) == (
                        Seq::<(u64, u32)>::empty(),
                        cur,
                        rem,
                    ));
                    assert(fills@ + Seq::<(u64, u32)>::empty() =~= fills@);
                }
                break;
            }
            if levels.len() == 0 {
                proof {
                    assert(match_levels(cur, price, incoming_side, rem) == (
                        Seq::<(u64, u32)>::empty(),
                        cur,
                        rem,
                    ));
                    assert(fills@ + Seq::<(u64, u32)>::empty() =~= fills@);
                }
                break;
            }
            proof {
                assert(cur[0] == levels@[0]@);
            }
            let lvl_price = levels[0][0].price;
            if !Self::crosses_exec(price, lvl_price, incoming_side) {
                proof {
                    assert(match_levels(cur, price, incoming_side, rem) == (
                        Seq::<(u64, u32)>::empty(),
                        cur,
                        rem,
                    ));
                    assert(fills@ + Seq::<(u64, u32)>::empty() =~= fills@);
                }
                break;
            }
            proof {
                lemma_match_step(cur, price, incoming_side, rem);
            }
            let mut q = levels.remove(0);
            let r0 = q[0];
            if r0.quantity <= rem {
                // the resting order is fully consumed
                q.remove(0);
                locations.remove(&r0.id);
                fills.push((r0.id, r0.quantity));
                let ghost fills_prev = fills@.drop_last();
                rem = rem - r0.quantity;
                let emptied = q.len() == 0;
                if !emptied {
                    levels.insert(0, q);
                }
                proof {
                    let cur2 = side_model(levels@);
                    lemma_side_remove_at(cur, r0.id, 0, 0);
                    lemma_side_remove_props(cur, bookside, r0.id, 0, 0);
                    if emptied {
                        assert(cur2 =~= cur.skip(1));
                        assert(cur.skip(1) =~= cur.remove(0));
                        assert(cur2 == side_remove_id(cur, r0.id));
                    } else {
                        assert(q@ =~= cur[0].remove(0));
                        assert(cur2 =~= cur.update(0, cur[0].remove(0)));
                        assert(cur2 == side_remove_id(cur, r0.id));
                    }
                    // the match decomposes through this step
                    let s1 = if cur[0].len() == 1 {
                        cur.skip(1)
                    } else {
                        cur.update(0, cur[0].remove(0))
                    };
                    assert(s1 == cur2);
                    let fill = (r0.id, r0.quantity);
                    assert(fills@ =~= fills_prev + seq![fill]);
                    assert(fills_prev + (seq![fill] + match_levels(
                        cur2,
                        price,
                        incoming_side,
                        rem,
                    ).0) =~= fills@ + match_levels(cur2, price, incoming_side, rem).0);
                    // the location index loses exactly this id
                    assert(side_contains_id(cur, r0.id)) by {
                        assert(queue_contains_id(cur[0], r0.id));
                    }
                    assert(!side_contains_id(cur2, r0.id));
                    assert(removed_ids(orig, cur2) =~= removed_ids(orig, cur).insert(r0.id));
                    assert(locations@ =~= orig_locs.remove_keys(removed_ids(orig, cur2)));
                    // surviving orders already rested
                    assert forall|a: int, b: int|
                        0 <= a < cur2.len() && 0 <= b < cur2[a].len() implies side_has_id_price(
                        orig,
                        (#[trigger] cur2[a][b]).id,
                        cur2[a][b].price,
                    ) by {
                        assert(side_has_order(cur, cur2[a][b]));
                        let (pi, pj) = choose|pi: int, pj: int|
                            0 <= pi < cur.len() && 0 <= pj < cur[pi].len() && cur[pi][pj] == cur2[a][b];
                        assert(side_has_id_price(orig, cur[pi][pj].id, cur[pi][pj].price));
                    }
                }
            } else {
                // the incoming order is exhausted by a partial fill
                let mut front = q.remove(0);
                front.quantity = front.quantity - rem;
                q.insert(0, front);
                levels.insert(0, q);
                fills.push((r0.id, rem));
                let ghost fills_prev = fills@.drop_last();
                let ghost traded = rem;
                rem = 0;
                proof {
                    let cur2 = side_model(levels@);
                    let reduced = Order {
                        id: r0.id,
                        side: r0.side,
                        price: r0.price,
                        quantity: (r0.quantity - traded) as u32,
                        timestamp: r0.timestamp,
                    };
                    assert(front == reduced);
                    assert(q@ =~= cur[0].update(0, reduced));
                    assert(cur2 =~= cur.update(0, cur[0].update(0, reduced)));
                    let fill = (r0.id, traded);
                    assert(fills@ =~= fills_prev + seq![fill]);
                    assert(match_levels(cur, price, incoming_side, traded) == (
                        seq![fill],
                        cur2,
                        0u32,
                    ));
                    assert(match_levels(cur2, price, incoming_side, 0u32) == (
                        Seq::<(u64, u32)>::empty(),
                        cur2,
                        0u32,
                    ));
                    assert(fills_prev + seq![fill] =~= fills@ + Seq::<(u64, u32)>::empty());
                    // the same ids rest at the same prices
                    assert forall|x: u64|
                        #[trigger] side_contains_id(cur2, x) <==> side_contains_id(cur, x) by {
                        if side_contains_id(cur2, x) {
                            let a = choose|a: int|
                                0 <= a < cur2.len() && queue_contains_id(cur2[a], x);
                            let b = choose|b: int| 0 <= b < cur2[a].len() && cur2[a][b].id == x;
                            assert(cur[a][b].id == x);
                            assert(queue_contains_id(cur[a], x));
                        }
                        if side_contains_id(cur, x) {
                            let a = choose|a: int|
                                0 <= a < cur.len() && queue_contains_id(cur[a], x);
                            let b = choose|b: int| 0 <= b < cur[a].len() && cur[a][b].id == x;
                            assert(cur2[a][b].id == x);
                            assert(queue_contains_id(cur2[a], x));
                        }
                    }
                    assert(removed_ids(orig, cur2) =~= removed_ids(orig, cur));
                    // well-formedness of the reduced side
                    assert forall|a: int, b: int|
                        0 <= a < cur2.len() && 0 <= b < cur2[a].len() implies {
                        &&& (#[trigger] cur2[a][b]).side == bookside
                        &&& cur2[a][b].quantity > 0
                        &&& cur2[a][b].price == cur2[a][0].price
                    } by {
                        if !(a == 0 && b == 0) {
                            assert(cur2[a][b] == cur[a][b]);
                        }
                        assert(cur2[a][0].price == cur[a][0].price);
                    }
                    assert forall|a: int, b: int| 0 <= a < b < cur2.len() implies price_ahead(
                        #[trigger] cur2[a][0].price,
                        #[trigger] cur2[b][0].price,
                        bookside,
                    ) by {
                        assert(cur2[a][0].price == cur[a][0].price);
                        assert(cur2[b][0].price == cur[b][0].price);
                    }
                    assert forall|i1: int, j1: int, i2: int, j2: int|
                        0 <= i1 < cur2.len() && 0 <= j1 < cur2[i1].len() && 0 <= i2 < cur2.len()
                            && 0 <= j2 < cur2[i2].len() && #[trigger] cur2[i1][j1].id
                            == #[trigger] cur2[i2][j2].id implies i1 == i2 && j1 == j2 by {
                        assert(cur2[i1][j1].id == cur[i1][j1].id);
                        assert(cur2[i2][j2].id == cur[i2][j2].id);
                    }
                    assert forall|a: int, b: int|
                        0 <= a < cur2.len() && 0 <= b < cur2[a].len() implies side_has_id_price(
                        orig,
                        (#[trigger] cur2[a][b]).id,
                        cur2[a][b].price,
                    ) by {
                        assert(cur2[a][b].id == cur[a][b].id);
                        assert(cur2[a][b].price == cur[a][b].price);
                        assert(side_has_id_price(orig, cur[a][b].id, cur[a][b].price));
                    }
                }
                break;
            }
        }
        (fills, rem)
    }

    /// The invariant holds again once the opposing side has been swept: the
    /// surviving ids keep their index entries and the consumed ids are gone.
    proof fn lemma_wf_after_sweep(self, pre: Self, sd: OrderSide)
        requires
            pre.wf(),
            sd == OrderSide::Buy ==> self.bids_model() == pre.bids_model() && side_wf(
                self.asks_model(),
                OrderSide::Sell,
            ) && (forall|id: u64|
                #[trigger] side_contains_id(self.asks_model(), id) ==> side_contains_id(
                    pre.asks_model(),
                    id,
                )) && (forall|a: int, b: int|
                0 <= a < self.asks_model().len() && 0 <= b < self.asks_model()[a].len()
                    ==> side_has_id_price(
                    pre.asks_model(),
                    (#[trigger] self.asks_model()[a][b]).id,
                    self.asks_model()[a][b].price,
                )) && self.locs() == pre.locs().remove_keys(
                removed_ids(pre.asks_model(), self.asks_model()),
            ),
            sd == OrderSide::Sell ==> self.asks_model() == pre.asks_model() && side_wf(
                self.bids_model(),
                OrderSide::Buy,
            ) && (forall|id: u64|
                #[trigger] side_contains_id(self.bids_model(), id) ==> side_contains_id(
                    pre.bids_model(),
                    id,
                )) && (forall|a: int, b: int|
                0 <= a < self.bids_model().len() && 0 <= b < self.bids_model()[a].len()
                    ==> side_has_id_price(
                    pre.bids_model(),
                    (#[trigger] self.bids_model()[a][b]).id,
                    self.bids_model()[a][b].price,
                )) && self.locs() == pre.locs().remove_keys(
                removed_ids(pre.bids_model(), self.bids_model()),
            ),
        ensures
            self.wf(),
    {
        let (sw_pre, sw_new, oth) = if sd == OrderSide::Buy {
            (pre.asks_model(), self.asks_model(), self.bids_model())
        } else {
            (pre.bids_model(), self.bids_model(), self.asks_model())
        };
        let rm = removed_ids(sw_pre, sw_new);
        // ids of the untouched side never stand in the removed set
        assert forall|x: u64| side_contains_id(oth, x) implies !rm.contains(x) by {
            if rm.contains(x) {
                assert(side_contains_id(sw_pre, x));
            }
        }
        // the index clauses
        assert forall|x: u64| #[trigger]
            self.locs().contains_key(x) <==> (side_contains_id(self.bids_model(), x)
                || side_contains_id(self.asks_model(), x)) by {
            assert(self.locs().contains_key(x) <==> pre.locs().contains_key(x) && !rm.contains(x));
            if side_contains_id(oth, x) {
                assert(!rm.contains(x));
            }
            if side_contains_id(sw_new, x) {
                assert(side_contains_id(sw_pre, x));
                assert(!rm.contains(x));
            }
            if pre.locs().contains_key(x) && !rm.contains(x) {
                if side_contains_id(sw_pre, x) && !side_contains_id(sw_new, x) {
                    assert(rm.contains(x));
                }
            }
        }
        assert forall|a: int, b: int| 0 <= a < sw_new.len() && 0 <= b < sw_new[a].len() implies {
            let o = #[trigger] sw_new[a][b];
            self.locs().contains_key(o.id) && self.locs()[o.id] == o.price
        } by {
            let o = sw_new[a][b];
            assert(side_has_id_price(sw_pre, o.id, o.price));
            let (pi, pj) = choose|pi: int, pj: int|
                0 <= pi < sw_pre.len() && 0 <= pj < sw_pre[pi].len() && sw_pre[pi][pj].id == o.id
                    && sw_pre[pi][pj].price == o.price;
            assert(pre.locs().contains_key(o.id) && pre.locs()[o.id] == o.price);
            assert(queue_contains_id(sw_new[a], o.id));
            assert(side_contains_id(sw_new, o.id));
            assert(side_contains_id(sw_pre, o.id));
            assert(!rm.contains(o.id));
        }
        assert forall|a: int, b: int| 0 <= a < oth.len() && 0 <= b < oth[a].len() implies {
            let o = #[trigger] oth[a][b];
            self.locs().contains_key(o.id) && self.locs()[o.id] == o.price
        } by {
            let o = oth[a][b];
            assert(pre.locs().contains_key(o.id) && pre.locs()[o.id] == o.price);
            assert(queue_contains_id(oth[a], o.id));
            assert(side_contains_id(oth, o.id));
            assert(!rm.contains(o.id));
        }
        assert forall|x: u64|
            !(#[trigger] side_contains_id(self.bids_model(), x) && side_contains_id(
                self.asks_model(),
                x,
            )) by {
            if side_contains_id(sw_new, x) {
                assert(side_contains_id(sw_pre, x));
            }
        }
    }

    /// The invariant holds again once a resting order has been removed from
    /// its side and cleared from the location index.
    proof fn lemma_wf_after_remove(self, pre: Self, id: u64, sd: OrderSide)
        requires
            pre.wf(),
            self.locs() == pre.locs().remove(id),
            sd == OrderSide::Buy ==> side_contains_id(pre.bids_model(), id) && self.bids_model()
                == side_remove_id(pre.bids_model(), id) && self.asks_model() == pre.asks_model(),
            sd == OrderSide::Sell ==> side_contains_id(pre.asks_model(), id) && self.asks_model()
                == side_remove_id(pre.asks_model(), id) && self.bids_model() == pre.bids_model(),
        ensures
            self.wf(),
    {
        let (rm_pre, oth_pre, rm_new, oth_new, side) = if sd == OrderSide::Buy {
            (
                pre.bids_model(),
                pre.asks_model(),
                self.bids_model(),
                self.asks_model(),
                OrderSide::Buy,
            )
        } else {
            (
                pre.asks_model(),
                pre.bids_model(),
                self.asks_model(),
                self.bids_model(),
                OrderSide::Sell,
            )
        };
        let (i, j) = choose|i: int, j: int|
            0 <= i < rm_pre.len() && 0 <= j < rm_pre[i].len() && rm_pre[i][j].id == id;
        lemma_side_remove_props(rm_pre, side, id, i, j);
        assert(!side_contains_id(oth_pre, id));
        assert forall|a: int, b: int| 0 <= a < rm_new.len() && 0 <= b < rm_new[a].len() implies {
            let o = #[trigger] rm_new[a][b];
            self.locs().contains_key(o.id) && self.locs()[o.id] == o.price
        } by {
            let o = rm_new[a][b];
            assert(side_has_order(rm_pre, o));
            let (pi, pj) = choose|pi: int, pj: int|
                0 <= pi < rm_pre.len() && 0 <= pj < rm_pre[pi].len() && rm_pre[pi][pj] == o;
            assert(pre.locs().contains_key(o.id) && pre.locs()[o.id] == o.price);
            assert(queue_contains_id(rm_new[a], o.id));
            assert(side_contains_id(rm_new, o.id));
            assert(o.id != id);
        }
        assert forall|a: int, b: int| 0 <= a < oth_new.len() && 0 <= b < oth_new[a].len() implies {
            let o = #[trigger] oth_new[a][b];
            self.locs().contains_key(o.id) && self.locs()[o.id] == o.price
        } by {
            let o = oth_new[a][b];
            assert(pre.locs().contains_key(o.id) && pre.locs()[o.id] == o.price);
            assert(queue_contains_id(oth_pre[a], o.id));
            assert(side_contains_id(oth_pre, o.id));
            assert(o.id != id);
        }
        assert forall|x: u64|
            !(#[trigger] side_contains_id(self.bids_model(), x) && side_contains_id(
                self.asks_model(),
                x,
            )) by {
            if side_contains_id(rm_new, x) {
                assert(side_contains_id(rm_pre, x));
            }
        }
        assert forall|x: u64| #[trigger]
            self.locs().contains_key(x) <==> (side_contains_id(self.bids_model(), x)
                || side_contains_id(self.asks_model(), x)) by {
            if x == id {
                assert(!self.locs().contains_key(x));
                assert(!side_contains_id(rm_new, x));
            } else {
                assert(self.locs().contains_key(x) == pre.locs().contains_key(x));
                assert(side_contains_id(rm_new, x) <==> side_contains_id(rm_pre, x));
            }
        }
    }

    /// The invariant holds again once a fresh order has been placed on its
    /// side and recorded in the location index.
    proof fn lemma_wf_after_insert(self, pre: Self, order: Order)
        requires
            pre.wf(),
            order.quantity > 0,
            !pre.locs().contains_key(order.id),
            self.locs() == pre.locs().insert(order.id, order.price),
            order.side == OrderSide::Buy ==> self.bids_model() == side_insert(
                pre.bids_model(),
                order,
                OrderSide::Buy,
            ) && self.asks_model() == pre.asks_model(),
            order.side == OrderSide::Sell ==> self.asks_model() == side_insert(
                pre.asks_model(),
                order,
                OrderSide::Sell,
            ) && self.bids_model() == pre.bids_model(),
        ensures
            self.wf(),
    {
        let (ins_pre, oth_pre, ins_new, oth_new, side) = if order.side == OrderSide::Buy {
            (
                pre.bids_model(),
                pre.asks_model(),
                self.bids_model(),
                self.asks_model(),
                OrderSide::Buy,
            )
        } else {
            (
                pre.asks_model(),
                pre.bids_model(),
                self.asks_model(),
                self.bids_model(),
                OrderSide::Sell,
            )
        };
        assert(!side_contains_id(ins_pre, order.id));
        assert(!side_contains_id(oth_pre, order.id));
        lemma_side_insert_props(ins_pre, order, side);
        // the index clauses
        assert forall|i: int, j: int|
            0 <= i < ins_new.len() && 0 <= j < ins_new[i].len() implies {
            let o = #[trigger] ins_new[i][j];
            self.locs().contains_key(o.id) && self.locs()[o.id] == o.price
        } by {
            let o = ins_new[i][j];
            if o == order {
            } else {
                assert(side_has_order(ins_pre, o));
                let (pi, pj) = choose|pi: int, pj: int|
                    0 <= pi < ins_pre.len() && 0 <= pj < ins_pre[pi].len() && ins_pre[pi][pj] == o;
                assert(pre.locs().contains_key(o.id) && pre.locs()[o.id] == o.price);
                assert(o.id != order.id) by {
                    if o.id == order.id {
                        assert(queue_contains_id(ins_pre[pi], order.id));
                    }
                }
            }
        }
        assert forall|i: int, j: int|
            0 <= i < oth_new.len() && 0 <= j < oth_new[i].len() implies {
            let o = #[trigger] oth_new[i][j];
            self.locs().contains_key(o.id) && self.locs()[o.id] == o.price
        } by {
            let o = oth_new[i][j];
            assert(pre.locs().contains_key(o.id) && pre.locs()[o.id] == o.price);
            assert(o.id != order.id) by {
                if o.id == order.id {
                    assert(queue_contains_id(oth_pre[i], order.id));
                    assert(side_contains_id(oth_pre, order.id));
                }
            }
        }
        // id on at most one side
        assert forall|id: u64|
            !(#[trigger] side_contains_id(self.bids_model(), id) && side_contains_id(
                self.asks_model(),
                id,
            )) by {
            if side_contains_id(ins_new, id) && side_contains_id(oth_new, id) {
                assert(id == order.id || side_contains_id(ins_pre, id));
            }
        }
        // the index holds exactly the resting ids
        assert forall|id: u64| #[trigger]
            self.locs().contains_key(id) <==> (side_contains_id(self.bids_model(), id)
                || side_contains_id(self.asks_model(), id)) by {
            if id == order.id {
                assert(side_contains_id(ins_new, order.id));
            } else {
                assert(self.locs().contains_key(id) == pre.locs().contains_key(id));
                assert(side_contains_id(ins_new, id) <==> side_contains_id(ins_pre, id));
            }
        }
    }
}

} // verus!
