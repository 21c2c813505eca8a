//! Lemmas about the spec-level model that the executable operations and the
//! public laws rely on.

use vstd::prelude::*;

use crate::model::{
    crosses, fills_total, match_levels, match_queue, price_ahead, queue_contains_id, queue_find,
    queue_remove_id, side_contains_id, side_find, side_has_order, side_ids_unique, side_insert,
    side_remove_id, side_wf,
};
use crate::order::{Order, OrderSide};

verus! {

/// Dropping the best level of a well-formed side leaves a well-formed side.
pub proof fn lemma_side_wf_skip(s: Seq<Seq<Order>>, side: OrderSide)
    requires
        side_wf(s, side),
        s.len() > 0,
    ensures
        side_wf(s.skip(1), side),
{
    let tail = s.skip(1);
    assert forall|i: int| 0 <= i < tail.len() implies (#[trigger] tail[i]).len() > 0 by {
        assert(tail[i] == s[i + 1]);
    }
    assert forall|i: int, j: int| 0 <= i < tail.len() && 0 <= j < tail[i].len() implies {
        &&& (#[trigger] tail[i][j]).side == side
        &&& tail[i][j].quantity > 0
        &&& tail[i][j].price == tail[i][0].price
    } by {
        assert(tail[i] == s[i + 1]);
    }
    assert forall|i: int, j: int| 0 <= i < j < tail.len() implies price_ahead(
        #[trigger] tail[i][0].price,
        #[trigger] tail[j][0].price,
        side,
    ) by {
        assert(tail[i] == s[i + 1]);
        assert(tail[j] == s[j + 1]);
    }
    assert forall|i1: int, j1: int, i2: int, j2: int|
        0 <= i1 < tail.len() && 0 <= j1 < tail[i1].len() && 0 <= i2 < tail.len() && 0 <= j2
            < tail[i2].len() && #[trigger] tail[i1][j1].id == #[trigger] tail[i2][j2].id implies i1
        == i2 && j1 == j2 by {
        assert(tail[i1][j1] == s[i1 + 1][j1]);
        assert(tail[i2][j2] == s[i2 + 1][j2]);
    }
}

/// Where the sorted position of a new order's price is known, `side_insert`
/// is an update of the level at that position or an insertion there.
pub proof fn lemma_side_insert_at(s: Seq<Seq<Order>>, o: Order, side: OrderSide, i: int)
    requires
        side_wf(s, side),
        0 <= i <= s.len(),
        forall|k: int| 0 <= k < i ==> price_ahead((#[trigger] s[k])[0].price, o.price, side),
        i < s.len() ==> !price_ahead(s[i][0].price, o.price, side),
    ensures
        i < s.len() && s[i][0].price == o.price ==> side_insert(s, o, side) == s.update(
            i,
            s[i].push(o),
        ),
        !(i < s.len() && s[i][0].price == o.price) ==> side_insert(s, o, side) == s.insert(
            i,
            seq![o],
        ),
    decreases i,
{
    if i == 0 {
        if s.len() == 0 {
            assert(side_insert(s, o, side) =~= s.insert(0, seq![o]));
        } else if s[0][0].price == o.price {
            assert(side_insert(s, o, side) =~= s.update(0, s[0].push(o)));
        } else {
            assert(price_ahead(o.price, s[0][0].price, side));
            assert(side_insert(s, o, side) =~= s.insert(0, seq![o]));
        }
    } else {
        assert(price_ahead(s[0][0].price, o.price, side));
        assert(o.price != s[0][0].price);
        assert(!price_ahead(o.price, s[0][0].price, side));
        let tail = s.skip(1);
        lemma_side_wf_skip(s, side);
        assert forall|k: int| 0 <= k < i - 1 implies price_ahead(
            (#[trigger] tail[k])[0].price,
            o.price,
            side,
        ) by {
            assert(tail[k] == s[k + 1]);
        }
        if i - 1 < tail.len() {
            assert(tail[i - 1] == s[i]);
        }
        lemma_side_insert_at(tail, o, side, i - 1);
        assert(side_insert(s, o, side) == seq![s[0]] + side_insert(tail, o, side));
        if i < s.len() && s[i][0].price == o.price {
            assert(side_insert(tail, o, side) == tail.update(i - 1, tail[i - 1].push(o)));
            assert(seq![s[0]] + tail.update(i - 1, s[i].push(o)) =~= s.update(i, s[i].push(o)));
        } else {
            assert(side_insert(tail, o, side) == tail.insert(i - 1, seq![o]));
            assert(seq![s[0]] + tail.insert(i - 1, seq![o]) =~= s.insert(i, seq![o]));
        }
    }
}

/// Where the unique position of `id` in a level is known, `queue_remove_id`
/// removes exactly that position and `queue_find` yields that order.
pub proof fn lemma_queue_remove_at(q: Seq<Order>, id: u64, j: int)
    requires
        0 <= j < q.len(),
        q[j].id == id,
        forall|k: int| 0 <= k < j ==> (#[trigger] q[k]).id != id,
    ensures
        queue_remove_id(q, id) == q.remove(j),
        queue_find(q, id) == q[j],
    decreases j,
{
    if j == 0 {
        assert(queue_remove_id(q, id) =~= q.remove(0));
    } else {
        assert(q[0].id != id);
        let tail = q.skip(1);
        assert forall|k: int| 0 <= k < j - 1 implies (#[trigger] tail[k]).id != id by {
            assert(tail[k] == q[k + 1]);
        }
        assert(tail[j - 1] == q[j]);
        lemma_queue_remove_at(tail, id, j - 1);
        assert(queue_remove_id(q, id) == seq![q[0]] + queue_remove_id(tail, id));
        assert(seq![q[0]] + tail.remove(j - 1) =~= q.remove(j));
    }
}

/// Where the unique position of `id` on a side is known, `side_remove_id`
/// removes exactly that position (dropping the level if it empties) and
/// `side_find` yields that order.
pub proof fn lemma_side_remove_at(s: Seq<Seq<Order>>, id: u64, i: int, j: int)
    requires
        side_ids_unique(s),
        0 <= i < s.len(),
        0 <= j < s[i].len(),
        s[i][j].id == id,
    ensures
        s[i].len() == 1 ==> side_remove_id(s, id) == s.remove(i),
        s[i].len() > 1 ==> side_remove_id(s, id) == s.update(i, s[i].remove(j)),
        side_find(s, id) == s[i][j],
    decreases i,
{
    if i == 0 {
        assert(queue_contains_id(s[0], id));
        assert forall|k: int| 0 <= k < j implies (#[trigger] s[0][k]).id != id by {
            if s[0][k].id == id {
                assert(s[0][k].id == s[0][j].id);
            }
        }
        lemma_queue_remove_at(s[0], id, j);
        let q = queue_remove_id(s[0], id);
        if s[0].len() == 1 {
            assert(q.len() == 0);
            assert(side_remove_id(s, id) =~= s.remove(0));
        } else {
            assert(q.len() == s[0].len() - 1 >= 1);
            assert(seq![q] + s.skip(1) =~= s.update(0, s[0].remove(j)));
        }
    } else {
        assert(!queue_contains_id(s[0], id)) by {
            if queue_contains_id(s[0], id) {
                let k = choose|k: int| 0 <= k < s[0].len() && s[0][k].id == id;
                assert(s[0][k].id == s[i][j].id);
            }
        }
        let tail = s.skip(1);
        assert forall|i1: int, j1: int, i2: int, j2: int|
            0 <= i1 < tail.len() && 0 <= j1 < tail[i1].len() && 0 <= i2 < tail.len() && 0 <= j2
                < tail[i2].len() && #[trigger] tail[i1][j1].id == #[trigger] tail[i2][j2].id
            implies i1 == i2 && j1 == j2 by {
            assert(tail[i1][j1] == s[i1 + 1][j1]);
            assert(tail[i2][j2] == s[i2 + 1][j2]);
        }
        assert(tail[i - 1] == s[i]);
        lemma_side_remove_at(tail, id, i - 1, j);
        assert(side_remove_id(s, id) == seq![s[0]] + side_remove_id(tail, id));
        if s[i].len() == 1 {
            assert(seq![s[0]] + tail.remove(i - 1) =~= s.remove(i));
        } else {
            assert(seq![s[0]] + tail.update(i - 1, tail[i - 1].remove(j)) =~= s.update(
                i,
                s[i].remove(j),
            ));
        }
    }
}

/// One step of the sweep: consuming the oldest order of the best crossable
/// level commutes with `match_levels`. Fully consuming it removes it (and
/// its level, if emptied) and leaves the rest of the match; a partial
/// consumption reduces it in place and ends the match.
pub proof fn lemma_match_step(s: Seq<Seq<Order>>, p: u64, sd: OrderSide, rem: u32)
    requires
        s.len() > 0,
        s[0].len() > 0,
        rem > 0,
        crosses(p, s[0][0].price, sd),
        forall|j: int| 0 <= j < s[0].len() ==> (#[trigger] s[0][j]).price == s[0][0].price,
    ensures
        s[0][0].quantity <= rem ==> ({
            let r = s[0][0];
            let s1 = if s[0].len() == 1 {
                s.skip(1)
            } else {
                s.update(0, s[0].remove(0))
            };
            let rem1 = (rem - r.quantity) as u32;
            let rest = match_levels(s1, p, sd, rem1);
            match_levels(s, p, sd, rem) == (seq![(r.id, r.quantity)] + rest.0, rest.1, rest.2)
        }),
        s[0][0].quantity > rem ==> ({
            let r = s[0][0];
            let reduced = Order {
                id: r.id,
                side: r.side,
                price: r.price,
                quantity: (r.quantity - rem) as u32,
                timestamp: r.timestamp,
            };
            match_levels(s, p, sd, rem) == (
                seq![(r.id, rem)],
                s.update(0, s[0].update(0, reduced)),
                0u32,
            )
        }),
{
    let r = s[0][0];
    let lvl = match_queue(s[0], rem);
    if r.quantity <= rem {
        let rem1 = (rem - r.quantity) as u32;
        let tail0 = s[0].skip(1);
        assert(s[0].remove(0) =~= tail0);
        let mq = match_queue(tail0, rem1);
        assert(lvl == (seq![(r.id, r.quantity)] + mq.0, mq.1, mq.2));
        if s[0].len() == 1 {
            let s1 = s.skip(1);
            assert(tail0.len() == 0);
            assert(mq == (Seq::<(u64, u32)>::empty(), tail0, rem1));
            assert(lvl.1.len() == 0);
            let rest = match_levels(s1, p, sd, rem1);
            assert(match_levels(s, p, sd, rem) == (lvl.0 + rest.0, rest.1, rest.2));
            assert(lvl.0 + rest.0 =~= seq![(r.id, r.quantity)] + rest.0);
        } else {
            let s1 = s.update(0, s[0].remove(0));
            assert(s1[0] == tail0);
            assert(tail0.len() > 0);
            assert(tail0[0] == s[0][1]);
            assert(tail0[0].price == s[0][0].price);
            if rem1 == 0 {
                assert(mq == (Seq::<(u64, u32)>::empty(), tail0, 0u32));
                assert(lvl.1 == tail0);
                assert(lvl.1.len() > 0);
                assert(match_levels(s, p, sd, rem) == (lvl.0, seq![lvl.1] + s.skip(1), lvl.2));
                assert(seq![tail0] + s.skip(1) =~= s1);
                assert(match_levels(s1, p, sd, 0u32) == (Seq::<(u64, u32)>::empty(), s1, 0u32));
                assert(lvl.0 =~= seq![(r.id, r.quantity)] + Seq::<(u64, u32)>::empty());
            } else {
                assert(crosses(p, s1[0][0].price, sd));
                if mq.1.len() == 0 {
                    let rest = match_levels(s.skip(1), p, sd, mq.2);
                    assert(s1.skip(1) =~= s.skip(1));
                    assert(match_levels(s1, p, sd, rem1) == (mq.0 + rest.0, rest.1, rest.2));
                    assert(lvl.1.len() == 0);
                    assert(match_levels(s, p, sd, rem) == (lvl.0 + rest.0, rest.1, rest.2));
                    assert(lvl.0 + rest.0 =~= seq![(r.id, r.quantity)] + (mq.0 + rest.0));
                } else {
                    assert(match_levels(s1, p, sd, rem1) == (mq.0, seq![mq.1] + s1.skip(1), mq.2));
                    assert(lvl.1 == mq.1);
                    assert(lvl.1.len() > 0);
                    assert(match_levels(s, p, sd, rem) == (lvl.0, seq![lvl.1] + s.skip(1), lvl.2));
                    assert(seq![mq.1] + s1.skip(1) =~= seq![lvl.1] + s.skip(1));
                    assert(lvl.0 =~= seq![(r.id, r.quantity)] + mq.0);
                }
            }
        }
    } else {
        let reduced = Order {
            id: r.id,
            side: r.side,
            price: r.price,
            quantity: (r.quantity - rem) as u32,
            timestamp: r.timestamp,
        };
        assert(lvl == (seq![(r.id, rem)], seq![reduced] + s[0].skip(1), 0u32));
        assert(lvl.1.len() > 0);
        assert(match_levels(s, p, sd, rem) == (lvl.0, seq![lvl.1] + s.skip(1), lvl.2));
        assert(seq![reduced] + s[0].skip(1) =~= s[0].update(0, reduced));
        assert(seq![lvl.1] + s.skip(1) =~= s.update(0, s[0].update(0, reduced)));
    }
}

/// Removing a resting id keeps the side well formed; the ids afterwards are
/// exactly the old ids without the removed one, and every remaining order
/// already rested before.
pub proof fn lemma_side_remove_props(s: Seq<Seq<Order>>, side: OrderSide, id: u64, i: int, j: int)
    requires
        side_wf(s, side),
        0 <= i < s.len(),
        0 <= j < s[i].len(),
        s[i][j].id == id,
    ensures
        side_wf(side_remove_id(s, id), side),
        forall|id2: u64|
            #[trigger] side_contains_id(side_remove_id(s, id), id2) <==> (side_contains_id(s, id2)
                && id2 != id),
        forall|a: int, b: int|
            0 <= a < side_remove_id(s, id).len() && 0 <= b < side_remove_id(s, id)[a].len()
                ==> side_has_order(s, #[trigger] side_remove_id(s, id)[a][b]),
{
    lemma_side_remove_at(s, id, i, j);
    let r = side_remove_id(s, id);
    if s[i].len() == 1 {
        // the whole level goes
        assert(r == s.remove(i));
        assert(j == 0);
        assert forall|a: int| 0 <= a < r.len() implies #[trigger] r[a] == s[if a < i {
            a
        } else {
            a + 1
        }] by {}
        assert forall|a: int, b: int| 0 <= a < r.len() && 0 <= b < r[a].len() implies side_has_order(
            s,
            #[trigger] r[a][b],
        ) by {
            let a0 = if a < i { a } else { a + 1 };
            assert(r[a][b] == s[a0][b]);
        }
        assert forall|i1: int, j1: int, i2: int, j2: int|
            0 <= i1 < r.len() && 0 <= j1 < r[i1].len() && 0 <= i2 < r.len() && 0 <= j2
                < r[i2].len() && #[trigger] r[i1][j1].id == #[trigger] r[i2][j2].id implies i1 == i2
            && j1 == j2 by {
            let a1 = if i1 < i { i1 } else { i1 + 1 };
            let a2 = if i2 < i { i2 } else { i2 + 1 };
            assert(r[i1][j1] == s[a1][j1]);
            assert(r[i2][j2] == s[a2][j2]);
        }
        assert forall|id2: u64| #[trigger] side_contains_id(r, id2) implies (side_contains_id(
            s,
            id2,
        ) && id2 != id) by {
            let a = choose|a: int| 0 <= a < r.len() && queue_contains_id(r[a], id2);
            let b = choose|b: int| 0 <= b < r[a].len() && r[a][b].id == id2;
            let a0 = if a < i { a } else { a + 1 };
            assert(r[a][b] == s[a0][b]);
            assert(queue_contains_id(s[a0], id2));
            if id2 == id {
                assert(s[a0][b].id == s[i][j].id);
            }
        }
        assert forall|id2: u64| side_contains_id(s, id2) && id2 != id implies
            #[trigger] side_contains_id(r, id2) by {
            let a = choose|a: int| 0 <= a < s.len() && queue_contains_id(s[a], id2);
            let b = choose|b: int| 0 <= b < s[a].len() && s[a][b].id == id2;
            if a == i {
                assert(s[a][b].id == s[i][j].id || b != j);
                assert(s[i].len() == 1 && j == 0);
                assert(b == 0);
                assert(id2 == id);
            } else {
                let a0 = if a < i { a } else { a - 1 };
                assert(r[a0] == s[a]);
                assert(queue_contains_id(r[a0], id2));
            }
        }
    } else {
        // one order leaves its level
        assert(r == s.update(i, s[i].remove(j)));
        let q = s[i].remove(j);
        assert(q.len() == s[i].len() - 1 >= 1);
        assert forall|b: int| 0 <= b < q.len() implies #[trigger] q[b] == s[i][if b < j {
            b
        } else {
            b + 1
        }] by {}
        assert(q[0] == s[i][if 0 < j { 0 } else { 1 }]);
        assert(q[0].price == s[i][0].price);
        assert forall|a: int, b: int| 0 <= a < r.len() && 0 <= b < r[a].len() implies side_has_order(
            s,
            #[trigger] r[a][b],
        ) by {
            if a == i {
                let b0 = if b < j { b } else { b + 1 };
                assert(r[a][b] == s[i][b0]);
            } else {
                assert(r[a][b] == s[a][b]);
            }
        }
        // well-formedness of the updated side
        assert forall|a: int, b: int| 0 <= a < r.len() && 0 <= b < r[a].len() implies {
            &&& (#[trigger] r[a][b]).side == side
            &&& r[a][b].quantity > 0
            &&& r[a][b].price == r[a][0].price
        } by {
            if a == i {
                let b0 = if b < j { b } else { b + 1 };
                assert(r[a][b] == s[i][b0]);
                assert(r[a][0] == q[0]);
            } else {
                assert(r[a][b] == s[a][b]);
                assert(r[a][0] == s[a][0]);
            }
        }
        assert forall|a: int, b: int| 0 <= a < b < r.len() implies price_ahead(
            #[trigger] r[a][0].price,
            #[trigger] r[b][0].price,
            side,
        ) by {
            assert(r[a][0].price == s[a][0].price);
            assert(r[b][0].price == s[b][0].price);
        }
        assert forall|i1: int, j1: int, i2: int, j2: int|
            0 <= i1 < r.len() && 0 <= j1 < r[i1].len() && 0 <= i2 < r.len() && 0 <= j2
                < r[i2].len() && #[trigger] r[i1][j1].id == #[trigger] r[i2][j2].id implies i1 == i2
            && j1 == j2 by {
            let b1 = if i1 == i && j1 >= j {
                j1 + 1
            } else {
                j1
            };
            let b2 = if i2 == i && j2 >= j {
                j2 + 1
            } else {
                j2
            };
            assert(r[i1][j1] == s[i1][b1]);
            assert(r[i2][j2] == s[i2][b2]);
        }
        assert forall|id2: u64| #[trigger] side_contains_id(r, id2) implies (side_contains_id(
            s,
            id2,
        ) && id2 != id) by {
            let a = choose|a: int| 0 <= a < r.len() && queue_contains_id(r[a], id2);
            let b = choose|b: int| 0 <= b < r[a].len() && r[a][b].id == id2;
            let b0 = if a == i && b >= j {
                b + 1
            } else {
                b
            };
            assert(r[a][b] == s[a][b0]);
            assert(queue_contains_id(s[a], id2));
            if id2 == id {
                assert(s[a][b0].id == s[i][j].id);
            }
        }
        assert forall|id2: u64| side_contains_id(s, id2) && id2 != id implies
            #[trigger] side_contains_id(r, id2) by {
            let a = choose|a: int| 0 <= a < s.len() && queue_contains_id(s[a], id2);
            let b = choose|b: int| 0 <= b < s[a].len() && s[a][b].id == id2;
            if a == i {
                assert(b != j);
                let b0 = if b < j {
                    b
                } else {
                    b - 1
                };
                assert(r[a][b0] == s[a][b]);
                assert(queue_contains_id(r[a], id2));
            } else {
                assert(r[a][b] == s[a][b]);
                assert(queue_contains_id(r[a], id2));
            }
        }
    }
}

/// Inserting a fresh, positive-quantity order of the side's own kind keeps
/// the side well formed; the resting ids afterwards are exactly the old ids
/// plus the new one, and every resting order afterwards is the new order or
/// one that already rested.
#[verifier::rlimit(100)]
#[verifier::spinoff_prover]
pub proof fn lemma_side_insert_props(s: Seq<Seq<Order>>, o: Order, side: OrderSide)
    requires
        side_wf(s, side),
        o.side == side,
        o.quantity > 0,
        !side_contains_id(s, o.id),
    ensures
        side_wf(side_insert(s, o, side), side),
        forall|id: u64|
            #[trigger] side_contains_id(side_insert(s, o, side), id) <==> (id == o.id
                || side_contains_id(s, id)),
        forall|i: int, j: int|
            0 <= i < side_insert(s, o, side).len() && 0 <= j < side_insert(s, o, side)[i].len()
                ==> (#[trigger] side_insert(s, o, side)[i][j] == o || side_has_order(
                s,
                side_insert(s, o, side)[i][j],
            )),
    decreases s.len(),
{
    let r = side_insert(s, o, side);
    if s.len() == 0 {
        assert(r =~= seq![seq![o]]);
        assert(r[0][0] == o);
        assert forall|id: u64| #[trigger] side_contains_id(r, id) implies (id == o.id
            || side_contains_id(s, id)) by {
            let i = choose|i: int| 0 <= i < r.len() && queue_contains_id(r[i], id);
            let j = choose|j: int| 0 <= j < r[i].len() && r[i][j].id == id;
            assert(r[i][j] == o);
        }
        assert(queue_contains_id(r[0], o.id)) by {
            assert(r[0][0].id == o.id);
        }
        assert(side_contains_id(r, o.id));
    } else if o.price == s[0][0].price {
        // the order joins the back of the best level
        assert(r =~= seq![s[0].push(o)] + s.skip(1));
        assert(r.len() == s.len());
        assert(r[0] =~= s[0].push(o));
        assert forall|i: int| 1 <= i < r.len() implies r[i] == s[i] by {
            assert(r[i] == s.skip(1)[i - 1]);
        }
        let n0 = s[0].len() as int;
        assert(r[0][n0] == o);
        assert forall|i: int, j: int| 0 <= i < r.len() && 0 <= j < r[i].len() implies (
        #[trigger] r[i][j] == o || side_has_order(s, r[i][j])) by {
            if i == 0 {
                if j < n0 {
                    assert(r[0][j] == s[0][j]);
                    assert(side_has_order(s, s[0][j]));
                } else {
                    assert(r[0][j] == o);
                }
            } else {
                assert(r[i][j] == s[i][j]);
                assert(side_has_order(s, s[i][j]));
            }
        }
        // well-formedness
        assert forall|i: int, j: int| 0 <= i < r.len() && 0 <= j < r[i].len() implies {
            &&& (#[trigger] r[i][j]).side == side
            &&& r[i][j].quantity > 0
            &&& r[i][j].price == r[i][0].price
        } by {
            assert(r[i][0] == s[i][0]);
            if i == 0 && j == n0 {
                assert(r[0][j] == o);
            } else {
                assert(r[i][j] == s[i][j]);
            }
        }
        assert(side_ids_unique(r)) by {
            assert forall|i1: int, j1: int, i2: int, j2: int|
                0 <= i1 < r.len() && 0 <= j1 < r[i1].len() && 0 <= i2 < r.len() && 0 <= j2
                    < r[i2].len() && #[trigger] r[i1][j1].id == #[trigger] r[i2][j2].id implies i1
                == i2 && j1 == j2 by {
                let in_s_1 = !(i1 == 0 && j1 == n0);
                let in_s_2 = !(i2 == 0 && j2 == n0);
                if in_s_1 {
                    assert(r[i1][j1] == s[i1][j1]);
                }
                if in_s_2 {
                    assert(r[i2][j2] == s[i2][j2]);
                }
                if in_s_1 && !in_s_2 {
                    assert(queue_contains_id(s[i1], o.id));
                    assert(side_contains_id(s, o.id));
                }
                if !in_s_1 && in_s_2 {
                    assert(queue_contains_id(s[i2], o.id));
                    assert(side_contains_id(s, o.id));
                }
            }
        }
        assert forall|id: u64| #[trigger] side_contains_id(r, id) implies (id == o.id
            || side_contains_id(s, id)) by {
            let i = choose|i: int| 0 <= i < r.len() && queue_contains_id(r[i], id);
            let j = choose|j: int| 0 <= j < r[i].len() && r[i][j].id == id;
            if !(i == 0 && j == n0) {
                assert(r[i][j] == s[i][j]);
                assert(queue_contains_id(s[i], id));
            }
        }
        assert forall|id: u64| id == o.id || side_contains_id(s, id) implies
            #[trigger] side_contains_id(r, id) by {
            if id == o.id {
                assert(r[0][n0].id == id);
                assert(queue_contains_id(r[0], id));
            } else {
                let i = choose|i: int| 0 <= i < s.len() && queue_contains_id(s[i], id);
                let j = choose|j: int| 0 <= j < s[i].len() && s[i][j].id == id;
                if i == 0 {
                    assert(r[0][j] == s[0][j]);
                    assert(queue_contains_id(r[0], id));
                } else {
                    assert(r[i][j] == s[i][j]);
                    assert(queue_contains_id(r[i], id));
                }
            }
        }
    } else if price_ahead(o.price, s[0][0].price, side) {
        // the order opens a new best level
        assert(r =~= seq![seq![o]] + s);
        assert(r[0] =~= seq![o]);
        assert(r[0][0] == o);
        assert forall|i: int| 1 <= i < r.len() implies r[i] == s[i - 1] by {}
        assert forall|i: int, j: int| 0 <= i < r.len() && 0 <= j < r[i].len() implies (
        #[trigger] r[i][j] == o || side_has_order(s, r[i][j])) by {
            if i >= 1 {
                assert(r[i][j] == s[i - 1][j]);
                assert(side_has_order(s, s[i - 1][j]));
            }
        }
        assert forall|i: int, j: int| 0 <= i < j < r.len() implies price_ahead(
            #[trigger] r[i][0].price,
            #[trigger] r[j][0].price,
            side,
        ) by {
            if i >= 1 {
                assert(r[i][0] == s[i - 1][0]);
                assert(r[j][0] == s[j - 1][0]);
            } else {
                assert(r[j][0] == s[j - 1][0]);
                if j - 1 > 0 {
                    assert(price_ahead(s[0][0].price, s[j - 1][0].price, side));
                }
            }
        }
        assert(side_ids_unique(r)) by {
            assert forall|i1: int, j1: int, i2: int, j2: int|
                0 <= i1 < r.len() && 0 <= j1 < r[i1].len() && 0 <= i2 < r.len() && 0 <= j2
                    < r[i2].len() && #[trigger] r[i1][j1].id == #[trigger] r[i2][j2].id implies i1
                == i2 && j1 == j2 by {
                if i1 >= 1 {
                    assert(r[i1][j1] == s[i1 - 1][j1]);
                }
                if i2 >= 1 {
                    assert(r[i2][j2] == s[i2 - 1][j2]);
                }
                if i1 == 0 && i2 >= 1 {
                    assert(queue_contains_id(s[i2 - 1], o.id));
                    assert(side_contains_id(s, o.id));
                }
                if i2 == 0 && i1 >= 1 {
                    assert(queue_contains_id(s[i1 - 1], o.id));
                    assert(side_contains_id(s, o.id));
                }
            }
        }
        assert forall|id: u64| #[trigger] side_contains_id(r, id) implies (id == o.id
            || side_contains_id(s, id)) by {
            let i = choose|i: int| 0 <= i < r.len() && queue_contains_id(r[i], id);
            if i >= 1 {
                let j = choose|j: int| 0 <= j < r[i].len() && r[i][j].id == id;
                assert(r[i][j] == s[i - 1][j]);
                assert(queue_contains_id(s[i - 1], id));
            } else {
                let j = choose|j: int| 0 <= j < r[0].len() && r[0][j].id == id;
                assert(r[0][j] == o);
            }
        }
        assert forall|id: u64| id == o.id || side_contains_id(s, id) implies
            #[trigger] side_contains_id(r, id) by {
            if id == o.id {
                assert(r[0][0].id == id);
                assert(queue_contains_id(r[0], id));
            } else {
                let i = choose|i: int| 0 <= i < s.len() && queue_contains_id(s[i], id);
                let j = choose|j: int| 0 <= j < s[i].len() && s[i][j].id == id;
                assert(r[i + 1][j] == s[i][j]);
                assert(queue_contains_id(r[i + 1], id));
            }
        }
    } else {
        // the order belongs behind the best level
        let tail = s.skip(1);
        assert(side_wf(tail, side)) by {
            assert forall|i: int| 0 <= i < tail.len() implies (#[trigger] tail[i]).len() > 0 by {
                assert(tail[i] == s[i + 1]);
            }
            assert forall|i: int, j: int|
                0 <= i < tail.len() && 0 <= j < tail[i].len() implies {
                &&& (#[trigger] tail[i][j]).side == side
                &&& tail[i][j].quantity > 0
                &&& tail[i][j].price == tail[i][0].price
            } by {
                assert(tail[i] == s[i + 1]);
            }
            assert forall|i: int, j: int| 0 <= i < j < tail.len() implies price_ahead(
                #[trigger] tail[i][0].price,
                #[trigger] tail[j][0].price,
                side,
            ) by {
                assert(tail[i] == s[i + 1]);
                assert(tail[j] == s[j + 1]);
            }
            assert forall|i1: int, j1: int, i2: int, j2: int|
                0 <= i1 < tail.len() && 0 <= j1 < tail[i1].len() && 0 <= i2 < tail.len() && 0 <= j2
                    < tail[i2].len() && #[trigger] tail[i1][j1].id == #[trigger] tail[i2][j2].id
                implies i1 == i2 && j1 == j2 by {
                assert(tail[i1][j1] == s[i1 + 1][j1]);
                assert(tail[i2][j2] == s[i2 + 1][j2]);
            }
        }
        assert(!side_contains_id(tail, o.id)) by {
            if side_contains_id(tail, o.id) {
                let i = choose|i: int| 0 <= i < tail.len() && queue_contains_id(tail[i], o.id);
                assert(tail[i] == s[i + 1]);
                assert(side_contains_id(s, o.id));
            }
        }
        lemma_side_insert_props(tail, o, side);
        let rest = side_insert(tail, o, side);
        assert(r =~= seq![s[0]] + rest);
        assert(r[0] == s[0]);
        assert forall|i: int| 1 <= i < r.len() implies r[i] == rest[i - 1] by {}
        // every order of the result is o or rested before
        assert forall|i: int, j: int| 0 <= i < r.len() && 0 <= j < r[i].len() implies (
        #[trigger] r[i][j] == o || side_has_order(s, r[i][j])) by {
            if i == 0 {
                assert(side_has_order(s, s[0][j]));
            } else {
                assert(r[i][j] == rest[i - 1][j]);
                if rest[i - 1][j] != o {
                    assert(side_has_order(tail, rest[i - 1][j]));
                    let (ti, tj) = choose|ti: int, tj: int|
                        0 <= ti < tail.len() && 0 <= tj < tail[ti].len() && tail[ti][tj] == rest[i
                            - 1][j];
                    assert(s[ti + 1][tj] == rest[i - 1][j]);
                    assert(side_has_order(s, rest[i - 1][j]));
                }
            }
        }
        // price of the old best level stands ahead of o and of every tail price
        assert(o.price != s[0][0].price);
        assert(price_ahead(s[0][0].price, o.price, side));
        // nonempty levels
        assert forall|i: int| 0 <= i < r.len() implies (#[trigger] r[i]).len() > 0 by {
            if i >= 1 {
                assert(r[i] == rest[i - 1]);
            }
        }
        // order fields
        assert forall|i: int, j: int| 0 <= i < r.len() && 0 <= j < r[i].len() implies {
            &&& (#[trigger] r[i][j]).side == side
            &&& r[i][j].quantity > 0
            &&& r[i][j].price == r[i][0].price
        } by {
            if i >= 1 {
                assert(r[i] == rest[i - 1]);
            }
        }
        // sortedness
        assert forall|i: int, j: int| 0 <= i < j < r.len() implies price_ahead(
            #[trigger] r[i][0].price,
            #[trigger] r[j][0].price,
            side,
        ) by {
            if i >= 1 {
                assert(r[i] == rest[i - 1]);
                assert(r[j] == rest[j - 1]);
            } else {
                assert(r[j] == rest[j - 1]);
                let x = rest[j - 1][0];
                assert(rest[j - 1].len() > 0);
                if x == o {
                    assert(price_ahead(s[0][0].price, x.price, side));
                } else {
                    assert(side_has_order(tail, x));
                    let (ti, tj) = choose|ti: int, tj: int|
                        0 <= ti < tail.len() && 0 <= tj < tail[ti].len() && tail[ti][tj] == x;
                    assert(s[ti + 1][tj] == x);
                    assert(x.price == s[ti + 1][0].price);
                    assert(price_ahead(s[0][0].price, s[ti + 1][0].price, side));
                }
            }
        }
        // unique ids
        assert(side_ids_unique(r)) by {
            assert forall|i1: int, j1: int, i2: int, j2: int|
                0 <= i1 < r.len() && 0 <= j1 < r[i1].len() && 0 <= i2 < r.len() && 0 <= j2
                    < r[i2].len() && #[trigger] r[i1][j1].id == #[trigger] r[i2][j2].id implies i1
                == i2 && j1 == j2 by {
                if i1 == 0 && i2 == 0 {
                    assert(s[0][j1].id == s[0][j2].id);
                } else if i1 >= 1 && i2 >= 1 {
                    assert(r[i1][j1] == rest[i1 - 1][j1]);
                    assert(r[i2][j2] == rest[i2 - 1][j2]);
                } else if i1 == 0 {
                    // an id of the kept best level equals an id in the inserted tail
                    assert(r[i2][j2] == rest[i2 - 1][j2]);
                    assert(side_contains_id(rest, r[i2][j2].id)) by {
                        assert(queue_contains_id(rest[i2 - 1], rest[i2 - 1][j2].id));
                    }
                    if r[i2][j2].id == o.id {
                        assert(queue_contains_id(s[0], o.id));
                        assert(side_contains_id(s, o.id));
                    } else {
                        assert(side_contains_id(tail, r[i2][j2].id));
                        let ti = choose|ti: int|
                            0 <= ti < tail.len() && queue_contains_id(tail[ti], r[i2][j2].id);
                        let tj = choose|tj: int|
                            0 <= tj < tail[ti].len() && tail[ti][tj].id == r[i2][j2].id;
                        assert(s[ti + 1][tj] == tail[ti][tj]);
                        assert(s[0][j1].id == s[ti + 1][tj].id);
                    }
                } else {
                    assert(r[i1][j1] == rest[i1 - 1][j1]);
                    assert(side_contains_id(rest, r[i1][j1].id)) by {
                        assert(queue_contains_id(rest[i1 - 1], rest[i1 - 1][j1].id));
                    }
                    if r[i1][j1].id == o.id {
                        assert(queue_contains_id(s[0], o.id));
                        assert(side_contains_id(s, o.id));
                    } else {
                        assert(side_contains_id(tail, r[i1][j1].id));
                        let ti = choose|ti: int|
                            0 <= ti < tail.len() && queue_contains_id(tail[ti], r[i1][j1].id);
                        let tj = choose|tj: int|
                            0 <= tj < tail[ti].len() && tail[ti][tj].id == r[i1][j1].id;
                        assert(s[ti + 1][tj] == tail[ti][tj]);
                        assert(s[0][j2].id == s[ti + 1][tj].id);
                    }
                }
            }
        }
        // containment of ids
        assert forall|id: u64| #[trigger] side_contains_id(r, id) implies (id == o.id
            || side_contains_id(s, id)) by {
            let i = choose|i: int| 0 <= i < r.len() && queue_contains_id(r[i], id);
            if i == 0 {
                assert(queue_contains_id(s[0], id));
            } else {
                assert(r[i] == rest[i - 1]);
                assert(side_contains_id(rest, id));
                if id != o.id {
                    assert(side_contains_id(tail, id));
                    let ti = choose|ti: int|
                        0 <= ti < tail.len() && queue_contains_id(tail[ti], id);
                    assert(tail[ti] == s[ti + 1]);
                    assert(side_contains_id(s, id));
                }
            }
        }
        assert forall|id: u64| id == o.id || side_contains_id(s, id) implies
            #[trigger] side_contains_id(r, id) by {
            if id == o.id {
                assert(side_contains_id(rest, id));
                let ri = choose|ri: int| 0 <= ri < rest.len() && queue_contains_id(rest[ri], id);
                assert(r[ri + 1] == rest[ri]);
            } else {
                let i = choose|i: int| 0 <= i < s.len() && queue_contains_id(s[i], id);
                if i == 0 {
                    assert(r[0] == s[0]);
                } else {
                    assert(tail[i - 1] == s[i]);
                    assert(side_contains_id(tail, id));
                    assert(side_contains_id(rest, id));
                    let ri = choose|ri: int|
                        0 <= ri < rest.len() && queue_contains_id(rest[ri], id);
                    assert(r[ri + 1] == rest[ri]);
                }
            }
        }
    }
}

/// The traded total of a concatenation is the sum of the parts.
pub proof fn lemma_fills_total_concat(a: Seq<(u64, u32)>, b: Seq<(u64, u32)>)
    ensures
        fills_total(a + b) == fills_total(a) + fills_total(b),
    decreases a.len(),
{
    if a.len() == 0 {
        assert(a + b =~= b);
    } else {
        assert((a + b).skip(1) =~= a.skip(1) + b);
        lemma_fills_total_concat(a.skip(1), b);
        assert(fills_total(a + b) == (a + b)[0].1 + fills_total((a + b).skip(1)));
    }
}

/// Matching a level fills its orders one by one from the front: the k-th
/// fill names the k-th order and trades no more than it holds, the fills
/// and the unfilled remainder add up to the incoming remainder, and the
/// level empties exactly when every order was filled.
pub proof fn lemma_match_queue_fills(q: Seq<Order>, rem: u32)
    ensures
        ({
            let m = match_queue(q, rem);
            &&& m.0.len() <= q.len()
            &&& m.0.len() + m.1.len() >= q.len()
            &&& m.0.len() + m.1.len() <= q.len() + 1
            &&& (m.1.len() == 0 ==> m.0.len() == q.len())
            &&& forall|k: int|
                0 <= k < m.0.len() ==> (#[trigger] m.0[k]).0 == q[k].id && m.0[k].1
                    <= q[k].quantity
            &&& fills_total(m.0) + m.2 == rem
            &&& m.2 <= rem
        }),
    decreases q.len(),
{
    let m = match_queue(q, rem);
    if rem == 0 || q.len() == 0 {
        assert(fills_total(m.0) == 0);
    } else {
        let r = q[0];
        if r.quantity <= rem {
            let rem1 = (rem - r.quantity) as u32;
            let rest = match_queue(q.skip(1), rem1);
            lemma_match_queue_fills(q.skip(1), rem1);
            assert(m.0 == seq![(r.id, r.quantity)] + rest.0);
            assert(m.0.skip(1) =~= rest.0);
            assert(fills_total(m.0) == m.0[0].1 + fills_total(m.0.skip(1)));
            assert forall|k: int| 0 <= k < m.0.len() implies (#[trigger] m.0[k]).0 == q[k].id
                && m.0[k].1 <= q[k].quantity by {
                if k >= 1 {
                    assert(m.0[k] == rest.0[k - 1]);
                    assert(q.skip(1)[k - 1] == q[k]);
                }
            }
        } else {
            assert(m.0 =~= seq![(r.id, rem)]);
            assert(m.0.skip(1) =~= Seq::<(u64, u32)>::empty());
            assert(fills_total(m.0) == m.0[0].1 + fills_total(m.0.skip(1)));
            assert(fills_total(m.0) == rem);
        }
    }
}

/// Matching against a side conserves quantity: the fills and the unfilled
/// remainder add up to the incoming quantity, and every fill names a
/// resting order and trades no more than that order held.
pub proof fn lemma_match_levels_fills(s: Seq<Seq<Order>>, p: u64, sd: OrderSide, rem: u32)
    ensures
        ({
            let m = match_levels(s, p, sd, rem);
            &&& fills_total(m.0) + m.2 == rem
            &&& m.2 <= rem
            &&& forall|k: int|
                0 <= k < m.0.len() ==> exists|i: int, j: int|
                    0 <= i < s.len() && 0 <= j < s[i].len() && s[i][j].id == (#[trigger] m.0[k]).0
                        && m.0[k].1 <= s[i][j].quantity
        }),
    decreases s.len(),
{
    let m = match_levels(s, p, sd, rem);
    if rem == 0 || s.len() == 0 || !crosses(p, s[0][0].price, sd) {
        assert(fills_total(m.0) == 0);
    } else {
        let lvl = match_queue(s[0], rem);
        lemma_match_queue_fills(s[0], rem);
        if lvl.1.len() == 0 {
            let rest = match_levels(s.skip(1), p, sd, lvl.2);
            lemma_match_levels_fills(s.skip(1), p, sd, lvl.2);
            assert(m.0 == lvl.0 + rest.0);
            lemma_fills_total_concat(lvl.0, rest.0);
            assert forall|k: int| 0 <= k < m.0.len() implies exists|i: int, j: int|
                0 <= i < s.len() && 0 <= j < s[i].len() && s[i][j].id == (#[trigger] m.0[k]).0
                    && m.0[k].1 <= s[i][j].quantity by {
                if k < lvl.0.len() {
                    assert(m.0[k] == lvl.0[k]);
                    assert(s[0][k].id == m.0[k].0 && m.0[k].1 <= s[0][k].quantity);
                } else {
                    assert(m.0[k] == rest.0[k - lvl.0.len()]);
                    let (i2, j2) = choose|i2: int, j2: int|
                        0 <= i2 < s.skip(1).len() && 0 <= j2 < s.skip(1)[i2].len()
                            && s.skip(1)[i2][j2].id == m.0[k].0 && m.0[k].1 <= s.skip(
                            1,
                        )[i2][j2].quantity;
                    assert(s[i2 + 1][j2] == s.skip(1)[i2][j2]);
                }
            }
        } else {
            assert(m.0 == lvl.0);
            assert forall|k: int| 0 <= k < m.0.len() implies exists|i: int, j: int|
                0 <= i < s.len() && 0 <= j < s[i].len() && s[i][j].id == (#[trigger] m.0[k]).0
                    && m.0[k].1 <= s[i][j].quantity by {
                assert(s[0][k].id == m.0[k].0 && m.0[k].1 <= s[0][k].quantity);
            }
        }
    }
}

/// Removing an id that does not rest on the side changes nothing.
pub proof fn lemma_side_remove_absent(s: Seq<Seq<Order>>, id: u64)
    requires
        !side_contains_id(s, id),
    ensures
        side_remove_id(s, id) == s,
    decreases s.len(),
{
    if s.len() > 0 {
        assert(!queue_contains_id(s[0], id));
        assert(!side_contains_id(s.skip(1), id)) by {
            if side_contains_id(s.skip(1), id) {
                let i = choose|i: int|
                    0 <= i < s.skip(1).len() && queue_contains_id(s.skip(1)[i], id);
                assert(s.skip(1)[i] == s[i + 1]);
            }
        }
        lemma_side_remove_absent(s.skip(1), id);
        assert(side_remove_id(s, id) == seq![s[0]] + s.skip(1));
        assert(seq![s[0]] + s.skip(1) =~= s);
    }
}

} // verus!
