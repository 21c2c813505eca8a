//! The laws of the matching engine, stated over the model of
//! [`crate::model`] and proved once and for all.
//!
//! A fourth law, that every price level of a well-formed book is nonempty
//! and that the location index holds exactly the resting ids, is the book
//! invariant itself: see [`crate::order_book::OrderBook::wf`], which every
//! operation ensures.

use vstd::prelude::*;

use crate::lemmas::{
    lemma_match_levels_fills, lemma_match_queue_fills, lemma_side_remove_absent,
    lemma_side_remove_props,
};
use crate::model::{
    crosses, fills_total, match_levels, match_queue, queue_contains_id, side_contains_id,
    side_ids_unique, side_remove_id, side_wf,
};
use crate::order::{Order, OrderSide};

verus! {

/// Price priority: when an incoming order sweeps a side on which two orders
/// rest at different prices (level `ia` standing ahead of level `ib`), any
/// fill of the farther order comes after a fill of the nearer one —
/// regardless of the order in which they were inserted.
pub proof fn lemma_price_priority(
    s: Seq<Seq<Order>>,
    p: u64,
    sd: OrderSide,
    qty: u32,
    ia: int,
    ja: int,
    ib: int,
    jb: int,
)
    requires
        side_ids_unique(s),
        0 <= ia < ib < s.len(),
        0 <= ja < s[ia].len(),
        0 <= jb < s[ib].len(),
    ensures
        forall|n: int|
            0 <= n < match_levels(s, p, sd, qty).0.len() && (#[trigger] match_levels(
                s,
                p,
                sd,
                qty,
            ).0[n]).0 == s[ib][jb].id ==> exists|m: int|
                0 <= m < n && match_levels(s, p, sd, qty).0[m].0 == s[ia][ja].id,
    decreases ia,
{
    let mm = match_levels(s, p, sd, qty);
    if qty == 0 || s.len() == 0 || !crosses(p, s[0][0].price, sd) {
        assert(mm.0.len() == 0);
    } else {
        let lvl = match_queue(s[0], qty);
        lemma_match_queue_fills(s[0], qty);
        if lvl.1.len() > 0 {
            // only the best level was touched; the farther order cannot
            // appear among its fills
            assert(mm.0 == lvl.0);
            assert forall|n: int|
                0 <= n < mm.0.len() && (#[trigger] mm.0[n]).0 == s[ib][jb].id implies exists|m: int|
                0 <= m < n && mm.0[m].0 == s[ia][ja].id by {
                assert(mm.0[n].0 == s[0][n].id);
                assert(s[0][n].id == s[ib][jb].id);
                assert(false);
            }
        } else {
            let rest = match_levels(s.skip(1), p, sd, lvl.2);
            assert(mm.0 == lvl.0 + rest.0);
            let ln = lvl.0.len() as int;
            assert(ln == s[0].len());
            if ia == 0 {
                assert forall|n: int|
                    0 <= n < mm.0.len() && (#[trigger] mm.0[n]).0 == s[ib][jb].id implies exists|
                    m: int,
                |
                    0 <= m < n && mm.0[m].0 == s[ia][ja].id by {
                    if n < ln {
                        assert(mm.0[n] == lvl.0[n]);
                        assert(mm.0[n].0 == s[0][n].id);
                        assert(s[0][n].id == s[ib][jb].id);
                        assert(false);
                    }
                    // the nearer order's level was fully consumed first
                    assert(mm.0[ja] == lvl.0[ja]);
                    assert(mm.0[ja].0 == s[0][ja].id);
                    assert(0 <= ja < ln <= n);
                }
            } else {
                let tail = s.skip(1);
                assert forall|i1: int, j1: int, i2: int, j2: int|
                    0 <= i1 < tail.len() && 0 <= j1 < tail[i1].len() && 0 <= i2 < tail.len() && 0
                        <= j2 < tail[i2].len() && #[trigger] tail[i1][j1].id
                        == #[trigger] tail[i2][j2].id implies i1 == i2 && j1 == j2 by {
                    assert(tail[i1][j1] == s[i1 + 1][j1]);
                    assert(tail[i2][j2] == s[i2 + 1][j2]);
                }
                assert(tail[ia - 1] == s[ia]);
                assert(tail[ib - 1] == s[ib]);
                lemma_price_priority(tail, p, sd, lvl.2, ia - 1, ja, ib - 1, jb);
                lemma_match_levels_fills(tail, p, sd, lvl.2);
                assert forall|n: int|
                    0 <= n < mm.0.len() && (#[trigger] mm.0[n]).0 == s[ib][jb].id implies exists|
                    m: int,
                |
                    0 <= m < n && mm.0[m].0 == s[ia][ja].id by {
                    if n < ln {
                        assert(mm.0[n] == lvl.0[n]);
                        assert(mm.0[n].0 == s[0][n].id);
                        assert(s[0][n].id == s[ib][jb].id);
                        assert(false);
                    } else {
                        assert(mm.0[n] == rest.0[n - ln]);
                        assert(rest.0[n - ln].0 == tail[ib - 1][jb].id);
                        let m1 = choose|m1: int|
                            0 <= m1 < n - ln && rest.0[m1].0 == tail[ia - 1][ja].id;
                        assert(mm.0[ln + m1] == rest.0[m1]);
                        assert(0 <= ln + m1 < n);
                        assert(mm.0[ln + m1].0 == s[ia][ja].id);
                    }
                }
            }
        }
    }
}

/// Time priority: when an incoming order sweeps a side on which two orders
/// rest at the same price — the same level, the earlier-admitted one at the
/// smaller queue position — any fill of the later order comes after a fill
/// of the earlier one.
pub proof fn lemma_time_priority(
    s: Seq<Seq<Order>>,
    p: u64,
    sd: OrderSide,
    qty: u32,
    li: int,
    ja: int,
    jb: int,
)
    requires
        side_ids_unique(s),
        0 <= li < s.len(),
        0 <= ja < jb < s[li].len(),
    ensures
        forall|n: int|
            0 <= n < match_levels(s, p, sd, qty).0.len() && (#[trigger] match_levels(
                s,
                p,
                sd,
                qty,
            ).0[n]).0 == s[li][jb].id ==> exists|m: int|
                0 <= m < n && match_levels(s, p, sd, qty).0[m].0 == s[li][ja].id,
    decreases li,
{
    let mm = match_levels(s, p, sd, qty);
    if qty == 0 || s.len() == 0 || !crosses(p, s[0][0].price, sd) {
        assert(mm.0.len() == 0);
    } else {
        let lvl = match_queue(s[0], qty);
        lemma_match_queue_fills(s[0], qty);
        if li == 0 {
            // within one level the fills follow the queue positions
            assert forall|n: int|
                0 <= n < mm.0.len() && (#[trigger] mm.0[n]).0 == s[0][jb].id implies exists|m: int|
                0 <= m < n && mm.0[m].0 == s[0][ja].id by {
                if lvl.1.len() > 0 {
                    assert(mm.0 == lvl.0);
                    assert(mm.0[n].0 == s[0][n].id);
                    assert(n == jb);
                    assert(mm.0[ja].0 == s[0][ja].id);
                } else {
                    let rest = match_levels(s.skip(1), p, sd, lvl.2);
                    assert(mm.0 == lvl.0 + rest.0);
                    let ln = lvl.0.len() as int;
                    if n < ln {
                        assert(mm.0[n] == lvl.0[n]);
                        assert(mm.0[n].0 == s[0][n].id);
                        assert(n == jb);
                        assert(mm.0[ja] == lvl.0[ja]);
                        assert(mm.0[ja].0 == s[0][ja].id);
                    } else {
                        lemma_match_levels_fills(s.skip(1), p, sd, lvl.2);
                        assert(mm.0[n] == rest.0[n - ln]);
                        let (i2, j2) = choose|i2: int, j2: int|
                            0 <= i2 < s.skip(1).len() && 0 <= j2 < s.skip(1)[i2].len() && s.skip(
                                1,
                            )[i2][j2].id == rest.0[n - ln].0 && rest.0[n - ln].1 <= s.skip(
                                1,
                            )[i2][j2].quantity;
                        assert(s[i2 + 1][j2] == s.skip(1)[i2][j2]);
                        assert(s[i2 + 1][j2].id == s[0][jb].id);
                        assert(false);
                    }
                }
            }
        } else {
            let tail = s.skip(1);
            assert forall|i1: int, j1: int, i2: int, j2: int|
                0 <= i1 < tail.len() && 0 <= j1 < tail[i1].len() && 0 <= i2 < tail.len() && 0 <= j2
                    < tail[i2].len() && #[trigger] tail[i1][j1].id == #[trigger] tail[i2][j2].id
                implies i1 == i2 && j1 == j2 by {
                assert(tail[i1][j1] == s[i1 + 1][j1]);
                assert(tail[i2][j2] == s[i2 + 1][j2]);
            }
            assert(tail[li - 1] == s[li]);
            if lvl.1.len() > 0 {
                assert(mm.0 == lvl.0);
                assert forall|n: int|
                    0 <= n < mm.0.len() && (#[trigger] mm.0[n]).0 == s[li][jb].id implies exists|
                    m: int,
                |
                    0 <= m < n && mm.0[m].0 == s[li][ja].id by {
                    assert(mm.0[n].0 == s[0][n].id);
                    assert(s[0][n].id == s[li][jb].id);
                    assert(false);
                }
            } else {
                let rest = match_levels(tail, p, sd, lvl.2);
                assert(mm.0 == lvl.0 + rest.0);
                let ln = lvl.0.len() as int;
                lemma_time_priority(tail, p, sd, lvl.2, li - 1, ja, jb);
                assert forall|n: int|
                    0 <= n < mm.0.len() && (#[trigger] mm.0[n]).0 == s[li][jb].id implies exists|
                    m: int,
                |
                    0 <= m < n && mm.0[m].0 == s[li][ja].id by {
                    if n < ln {
                        assert(mm.0[n] == lvl.0[n]);
                        assert(mm.0[n].0 == s[0][n].id);
                        assert(s[0][n].id == s[li][jb].id);
                        assert(false);
                    } else {
                        assert(mm.0[n] == rest.0[n - ln]);
                        assert(rest.0[n - ln].0 == tail[li - 1][jb].id);
                        let m1 = choose|m1: int|
                            0 <= m1 < n - ln && rest.0[m1].0 == tail[li - 1][ja].id;
                        assert(mm.0[ln + m1] == rest.0[m1]);
                        assert(mm.0[ln + m1].0 == s[li][ja].id);
                    }
                }
            }
        }
    }
}

/// Conservation: the fills of one incoming order and its unfilled remainder
/// add up exactly to its quantity — so the traded total never exceeds it —
/// and every fill names a resting order and trades no more than that order
/// held before the sweep.
pub proof fn lemma_fill_conservation(s: Seq<Seq<Order>>, p: u64, sd: OrderSide, qty: u32)
    ensures
        fills_total(match_levels(s, p, sd, qty).0) + match_levels(s, p, sd, qty).2 == qty,
        fills_total(match_levels(s, p, sd, qty).0) <= qty,
        forall|k: int|
            0 <= k < match_levels(s, p, sd, qty).0.len() ==> exists|i: int, j: int|
                0 <= i < s.len() && 0 <= j < s[i].len() && s[i][j].id == (#[trigger] match_levels(
                    s,
                    p,
                    sd,
                    qty,
                ).0[k]).0 && match_levels(s, p, sd, qty).0[k].1 <= s[i][j].quantity,
{
    lemma_match_levels_fills(s, p, sd, qty);
}

/// Idempotent cancel: removing an id leaves a side that no longer holds it,
/// so removing it a second time changes nothing — at the book level the
/// second cancel of the same id is a not-found outcome.
pub proof fn lemma_cancel_idempotent(s: Seq<Seq<Order>>, side: OrderSide, id: u64)
    requires
        side_wf(s, side),
    ensures
        !side_contains_id(side_remove_id(s, id), id),
        side_remove_id(side_remove_id(s, id), id) == side_remove_id(s, id),
{
    if side_contains_id(s, id) {
        let i = choose|i: int| 0 <= i < s.len() && queue_contains_id(s[i], id);
        let j = choose|j: int| 0 <= j < s[i].len() && s[i][j].id == id;
        lemma_side_remove_props(s, side, id, i, j);
        lemma_side_remove_absent(side_remove_id(s, id), id);
    } else {
        lemma_side_remove_absent(s, id);
    }
}

} // verus!
