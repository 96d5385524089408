//! Book-wide laws, proved against the model that `process_order` is
//! specified by: the book is never crossed, matching conserves quantity,
//! matching follows price priority across levels and FIFO within a level,
//! and cancelling an absent id always fails the same way.

use vstd::prelude::*;
use crate::domain::{OrderSide, OrderType};
use crate::events::{Failed, Success};
use crate::model::{
    book_has_id, book_wf, lemma_amend_wf, lemma_cancel_wf, lemma_new_order_wf,
    lemma_remove_id_props, match_rec, orders_qty, price_before, side_has_id, side_ids_unique,
    side_qty, side_wf, spec_process, spec_spread, BookModel, LevelModel,
};
use crate::orders::OrderRequest;

verus! {

/// The quantity a fill event credits or debits; zero for any other event.
pub open spec fn event_qty(e: Result<Success, Failed>) -> u64 {
    match e {
        Ok(Success::Filled { qty, .. }) => qty,
        Ok(Success::PartiallyFilled { qty, .. }) => qty,
        _ => 0,
    }
}

/// The price a fill event executed at; zero for any other event.
pub open spec fn event_price(e: Result<Success, Failed>) -> u64 {
    match e {
        Ok(Success::Filled { price, .. }) => price,
        Ok(Success::PartiallyFilled { price, .. }) => price,
        _ => 0,
    }
}

/// No crossed book: processing any command on a well-formed book leaves a
/// well-formed book, so the spread is either unavailable or strictly
/// positive — the best bid stays under the best ask.
pub proof fn lemma_no_crossed_book(b: BookModel, req: OrderRequest)
    requires
        book_wf(b),
        (req is NewLimitOrder || req is NewMarketOrder) ==> b.next_id < u64::MAX,
    ensures
        book_wf(spec_process(b, req).book),
        spec_process(b, req).book.bids.len() > 0 && spec_process(b, req).book.asks.len() > 0
            ==> spec_spread(spec_process(b, req).book) == Some(
            (
                spec_process(b, req).book.bids[0].price,
                spec_process(b, req).book.asks[0].price,
            ),
        ) && spec_process(b, req).book.bids[0].price < spec_process(b, req).book.asks[0].price,
{
    match req {
        OrderRequest::NewMarketOrder { order_asset, price_asset, side, qty, .. } => {
            lemma_new_order_wf(b, order_asset, price_asset, side, OrderType::Market, 0, qty);
        },
        OrderRequest::NewLimitOrder { order_asset, price_asset, side, price, qty, .. } => {
            lemma_new_order_wf(b, order_asset, price_asset, side, OrderType::Limit, price, qty);
        },
        OrderRequest::AmendOrder { id, side, price, qty, .. } => {
            lemma_amend_wf(b, id, side, price, qty);
        },
        OrderRequest::CancelOrder { id, .. } => {
            lemma_cancel_wf(b, id);
        },
    }
}

/// The total open quantity of a queue only counts its orders.
proof fn lemma_orders_qty_drop(orders: Seq<crate::model::OrderModel>)
    requires
        orders.len() > 0,
    ensures
        orders_qty(orders.drop_first()) == orders_qty(orders) - orders[0].qty,
{
}

/// Replacing the head order shifts the queue total by the quantity change.
proof fn lemma_orders_qty_update0(orders: Seq<crate::model::OrderModel>, o2: crate::model::OrderModel)
    requires
        orders.len() > 0,
    ensures
        orders_qty(orders.update(0, o2)) == orders_qty(orders) - orders[0].qty + o2.qty,
{
    assert(orders.update(0, o2).drop_first() =~= orders.drop_first());
    assert(orders.update(0, o2)[0] == o2);
}

/// Dropping the best level removes exactly its quantity from the side.
proof fn lemma_side_qty_drop(levels: Seq<LevelModel>)
    requires
        levels.len() > 0,
    ensures
        side_qty(levels.drop_first()) == side_qty(levels) - orders_qty(levels[0].orders),
{
}

/// Replacing the best level shifts the side total by the level change.
proof fn lemma_side_qty_update0(levels: Seq<LevelModel>, l2: LevelModel)
    requires
        levels.len() > 0,
    ensures
        side_qty(levels.update(0, l2)) == side_qty(levels) - orders_qty(levels[0].orders)
            + orders_qty(l2.orders),
{
    assert(levels.update(0, l2).drop_first() =~= levels.drop_first());
    assert(levels.update(0, l2)[0] == l2);
}

/// Quantity conservation: over a whole matching run, the quantity removed
/// from the resting side equals the quantity credited to the incoming
/// order; and step by step, each incoming fill event and the resting fill
/// event beside it carry the identical matched quantity.
pub proof fn lemma_quantity_conservation(
    levels: Seq<LevelModel>,
    side: OrderSide,
    otype: OrderType,
    limit: u64,
    id: u64,
    qty: u64,
)
    requires
        side_wf(side.spec_opposite(), levels),
    ensures
        ({
            let m = match_rec(levels, side, otype, limit, id, qty);
            &&& side_qty(levels) - side_qty(m.levels) == qty - m.remaining
            &&& m.events.len() % 2 == 0
            &&& forall|k: int|
                0 <= k && 2 * k + 1 < m.events.len() ==> event_qty(#[trigger] m.events[2 * k])
                    == event_qty(m.events[2 * k + 1]) && m.events[2 * k] is Ok && m.events[2 * k
                    + 1] is Ok
        }),
    decreases qty,
{
    let opp = side.spec_opposite();
    let m = match_rec(levels, side, otype, limit, id, qty);
    if qty == 0 || levels.len() == 0 || !crate::model::eligible(side, otype, limit, levels[0].price) {
    } else {
        assert(crate::model::level_wf(levels[0]));
        let resting = levels[0].orders[0];
        let matched = if qty <= resting.qty {
            qty
        } else {
            resting.qty
        };
        let o2 = crate::model::OrderModel {
            order_id: resting.order_id,
            price: resting.price,
            qty: (resting.qty - matched) as u64,
        };
        let next = if matched == resting.qty {
            if levels[0].orders.len() == 1 {
                levels.drop_first()
            } else {
                levels.update(
                    0,
                    LevelModel { price: levels[0].price, orders: levels[0].orders.drop_first() },
                )
            }
        } else {
            levels.update(
                0,
                LevelModel { price: levels[0].price, orders: levels[0].orders.update(0, o2) },
            )
        };
        assert(side_qty(next) == side_qty(levels) - matched) by {
            if matched == resting.qty {
                if levels[0].orders.len() == 1 {
                    lemma_side_qty_drop(levels);
                    lemma_orders_qty_drop(levels[0].orders);
                    assert(orders_qty(levels[0].orders.drop_first()) == 0);
                } else {
                    lemma_side_qty_update0(
                        levels,
                        LevelModel {
                            price: levels[0].price,
                            orders: levels[0].orders.drop_first(),
                        },
                    );
                    lemma_orders_qty_drop(levels[0].orders);
                }
            } else {
                lemma_side_qty_update0(
                    levels,
                    LevelModel { price: levels[0].price, orders: levels[0].orders.update(0, o2) },
                );
                lemma_orders_qty_update0(levels[0].orders, o2);
            }
        }
        if matched == resting.qty {
            crate::model::lemma_step_weak(levels, opp);
        } else {
            crate::model::lemma_match_step_partial(levels, opp, o2);
        }
        lemma_quantity_conservation(next, side, otype, limit, id, (qty - matched) as u64);
        let mr = match_rec(next, side, otype, limit, id, (qty - matched) as u64);
        assert(m.events.len() == 2 + mr.events.len());
        assert forall|k: int|
            0 <= k && 2 * k + 1 < m.events.len() implies event_qty(#[trigger] m.events[2 * k])
            == event_qty(m.events[2 * k + 1]) && m.events[2 * k] is Ok && m.events[2 * k
            + 1] is Ok by {
            if k == 0 {
                assert(event_qty(m.events[0]) == matched);
                assert(event_qty(m.events[1]) == matched);
            } else {
                assert(m.events[2 * k] == mr.events[2 * (k - 1)]);
                assert(m.events[2 * k + 1] == mr.events[2 * (k - 1) + 1]);
                assert(event_qty(mr.events[2 * (k - 1)]) == event_qty(mr.events[2 * (k - 1) + 1])
                    && mr.events[2 * (k - 1)] is Ok && mr.events[2 * (k - 1) + 1] is Ok);
            }
        }
    }
}

/// Price priority across levels: a matching run consumes levels in the
/// side's traversal order, so fill events never improve on the price of an
/// earlier fill — an incoming Bid takes the cheapest eligible Ask level
/// first, an incoming Ask the dearest eligible Bid level first — and no
/// fill beats the opposing side's best price.
pub proof fn lemma_price_priority(
    levels: Seq<LevelModel>,
    side: OrderSide,
    otype: OrderType,
    limit: u64,
    id: u64,
    qty: u64,
)
    requires
        side_wf(side.spec_opposite(), levels),
    ensures
        ({
            let m = match_rec(levels, side, otype, limit, id, qty);
            &&& forall|k: int|
                0 <= k < m.events.len() && levels.len() > 0 ==> !price_before(
                    side.spec_opposite(),
                    event_price(#[trigger] m.events[k]),
                    levels[0].price,
                )
            &&& forall|k1: int, k2: int|
                0 <= k1 < k2 < m.events.len() ==> !price_before(
                    side.spec_opposite(),
                    event_price(#[trigger] m.events[k2]),
                    event_price(#[trigger] m.events[k1]),
                )
        }),
    decreases qty,
{
    let opp = side.spec_opposite();
    let m = match_rec(levels, side, otype, limit, id, qty);
    if qty == 0 || levels.len() == 0 || !crate::model::eligible(side, otype, limit, levels[0].price) {
    } else {
        assert(crate::model::level_wf(levels[0]));
        let resting = levels[0].orders[0];
        let matched = if qty <= resting.qty {
            qty
        } else {
            resting.qty
        };
        let o2 = crate::model::OrderModel {
            order_id: resting.order_id,
            price: resting.price,
            qty: (resting.qty - matched) as u64,
        };
        let next = if matched == resting.qty {
            if levels[0].orders.len() == 1 {
                levels.drop_first()
            } else {
                levels.update(
                    0,
                    LevelModel { price: levels[0].price, orders: levels[0].orders.drop_first() },
                )
            }
        } else {
            levels.update(
                0,
                LevelModel { price: levels[0].price, orders: levels[0].orders.update(0, o2) },
            )
        };
        if matched == resting.qty {
            crate::model::lemma_step_weak(levels, opp);
        } else {
            crate::model::lemma_match_step_partial(levels, opp, o2);
        }
        assert(next.len() > 0 ==> !price_before(opp, next[0].price, levels[0].price));
        lemma_price_priority(next, side, otype, limit, id, (qty - matched) as u64);
        let mr = match_rec(next, side, otype, limit, id, (qty - matched) as u64);
        assert(event_price(m.events[0]) == levels[0].price);
        assert(event_price(m.events[1]) == levels[0].price);
        if next.len() == 0 {
            assert(mr.events.len() == 0);
        }
        assert forall|k: int|
            0 <= k < m.events.len() && levels.len() > 0 implies !price_before(
            opp,
            event_price(#[trigger] m.events[k]),
            levels[0].price,
        ) by {
            if k >= 2 {
                assert(m.events[k] == mr.events[k - 2]);
                assert(!price_before(opp, event_price(mr.events[k - 2]), next[0].price));
                assert(!price_before(opp, next[0].price, levels[0].price));
            }
        }
        assert forall|k1: int, k2: int|
            0 <= k1 < k2 < m.events.len() implies !price_before(
            opp,
            event_price(#[trigger] m.events[k2]),
            event_price(#[trigger] m.events[k1]),
        ) by {
            if k1 >= 2 {
                assert(m.events[k1] == mr.events[k1 - 2]);
                assert(m.events[k2] == mr.events[k2 - 2]);
                assert(!price_before(
                    opp,
                    event_price(mr.events[k2 - 2]),
                    event_price(mr.events[k1 - 2]),
                ));
            } else if k2 >= 2 {
                assert(m.events[k2] == mr.events[k2 - 2]);
                assert(!price_before(opp, event_price(mr.events[k2 - 2]), next[0].price));
                assert(!price_before(opp, next[0].price, levels[0].price));
                assert(event_price(m.events[k1]) == levels[0].price);
            } else {
                assert(event_price(m.events[k1]) == levels[0].price);
                assert(event_price(m.events[k2]) == levels[0].price);
            }
        }
    }
}

/// `find_in_orders` returns the first occurrence of an id.
proof fn lemma_find_in_orders_at(orders: Seq<crate::model::OrderModel>, k: u64, j: int)
    requires
        0 <= j < orders.len(),
        orders[j].order_id == k,
        forall|l: int| 0 <= l < j ==> (#[trigger] orders[l]).order_id != k,
    ensures
        crate::model::find_in_orders(orders, k) == Some(orders[j]),
    decreases j,
{
    if j > 0 {
        lemma_find_in_orders_at(orders.drop_first(), k, j - 1);
        assert(orders.drop_first()[j - 1] == orders[j]);
    }
}

/// `find_in_orders` finds nothing in a queue without the id.
proof fn lemma_find_in_orders_absent(orders: Seq<crate::model::OrderModel>, k: u64)
    requires
        forall|l: int| 0 <= l < orders.len() ==> (#[trigger] orders[l]).order_id != k,
    ensures
        crate::model::find_in_orders(orders, k) is None,
    decreases orders.len(),
{
    if orders.len() > 0 {
        lemma_find_in_orders_absent(orders.drop_first(), k);
    }
}

/// With unique ids, `find_order` returns exactly the order at the id's
/// position.
proof fn lemma_find_order_at(levels: Seq<LevelModel>, k: u64, li: int, oi: int)
    requires
        side_ids_unique(levels),
        0 <= li < levels.len(),
        0 <= oi < levels[li].orders.len(),
        levels[li].orders[oi].order_id == k,
    ensures
        crate::model::find_order(levels, k) == Some(levels[li].orders[oi]),
    decreases li,
{
    if li == 0 {
        assert forall|l: int| 0 <= l < oi implies (#[trigger] levels[0].orders[l]).order_id
            != k by {
            assert(levels[0].orders[l].order_id != levels[0].orders[oi].order_id);
        }
        lemma_find_in_orders_at(levels[0].orders, k, oi);
    } else {
        assert forall|l: int| 0 <= l < levels[0].orders.len() implies (
        #[trigger] levels[0].orders[l]).order_id != k by {
            assert(levels[0].orders[l].order_id != levels[li].orders[oi].order_id);
        }
        lemma_find_in_orders_absent(levels[0].orders, k);
        let tail = levels.drop_first();
        assert(side_ids_unique(tail)) by {
            assert forall|i: int, a: int, j: int, l: int|
                0 <= i < tail.len() && 0 <= a < tail[i].orders.len() && 0 <= j < tail.len() && 0
                    <= l < tail[j].orders.len() && (i != j || a != l) implies (
            #[trigger] tail[i].orders[a]).order_id != (#[trigger] tail[j].orders[l]).order_id by {
                assert(tail[i] == levels[i + 1]);
                assert(tail[j] == levels[j + 1]);
            }
        }
        assert(tail[li - 1] == levels[li]);
        lemma_find_order_at(tail, k, li - 1, oi);
    }
}

/// `find_order` finds nothing on a side without the id.
proof fn lemma_find_order_absent(levels: Seq<LevelModel>, k: u64)
    requires
        !side_has_id(levels, k),
    ensures
        crate::model::find_order(levels, k) is None,
    decreases levels.len(),
{
    if levels.len() > 0 {
        assert(!crate::model::level_has_id(levels[0], k));
        assert forall|l: int| 0 <= l < levels[0].orders.len() implies (
        #[trigger] levels[0].orders[l]).order_id != k by {
            if levels[0].orders[l].order_id == k {
                assert(crate::model::level_has_id(levels[0], k));
            }
        }
        lemma_find_in_orders_absent(levels[0].orders, k);
        assert(!side_has_id(levels.drop_first(), k)) by {
            if side_has_id(levels.drop_first(), k) {
                let i = choose|i: int|
                    0 <= i < levels.drop_first().len() && crate::model::level_has_id(
                        #[trigger] levels.drop_first()[i],
                        k,
                    );
                assert(levels[i + 1] == levels.drop_first()[i]);
            }
        }
        lemma_find_order_absent(levels.drop_first(), k);
    }
}

/// One matching step leaves `find_order` unchanged for every id other than
/// the consumed head's.
proof fn lemma_step_find_order(
    levels: Seq<LevelModel>,
    side: OrderSide,
    next: Seq<LevelModel>,
    x: u64,
)
    requires
        side_wf(side, levels),
        side_ids_unique(levels),
        levels.len() > 0,
        levels[0].orders.len() > 0,
        x != levels[0].orders[0].order_id,
        side_ids_unique(next),
        forall|k: u64|
            #![trigger side_has_id(next, k)]
            #![trigger side_has_id(levels, k)]
            side_has_id(next, k) ==> side_has_id(levels, k),
        ({
            ||| next == (if levels[0].orders.len() == 1 {
                levels.drop_first()
            } else {
                levels.update(
                    0,
                    LevelModel { price: levels[0].price, orders: levels[0].orders.drop_first() },
                )
            })
            ||| exists|o2: crate::model::OrderModel|
                #![trigger levels[0].orders.update(0, o2)]
                o2.order_id == levels[0].orders[0].order_id && next == levels.update(
                    0,
                    LevelModel {
                        price: levels[0].price,
                        orders: levels[0].orders.update(0, o2),
                    },
                )
        }),
    ensures
        crate::model::find_order(next, x) == crate::model::find_order(levels, x),
{
    let hid = levels[0].orders[0].order_id;
    if side_has_id(levels, x) {
        let i = choose|i: int|
            0 <= i < levels.len() && crate::model::level_has_id(#[trigger] levels[i], x);
        let j = choose|j: int|
            0 <= j < levels[i].orders.len() && (#[trigger] levels[i].orders[j]).order_id == x;
        lemma_find_order_at(levels, x, i, j);
        assert(!(i == 0 && j == 0)) by {
            assert(levels[0].orders[0].order_id == hid);
        }
        if next == levels.drop_first() && levels[0].orders.len() == 1 {
            assert(i >= 1) by {
                if i == 0 {
                    assert(j == 0);
                }
            }
            assert(next[i - 1] == levels[i]);
            lemma_find_order_at(next, x, i - 1, j);
        } else if next == levels.update(
            0,
            LevelModel { price: levels[0].price, orders: levels[0].orders.drop_first() },
        ) && levels[0].orders.len() > 1 {
            if i == 0 {
                assert(j >= 1);
                assert(next[0].orders[j - 1] == levels[0].orders[j]);
                lemma_find_order_at(next, x, 0, j - 1);
            } else {
                assert(next[i] == levels[i]);
                lemma_find_order_at(next, x, i, j);
            }
        } else {
            let o2 = choose|o2: crate::model::OrderModel|
                #![trigger levels[0].orders.update(0, o2)]
                o2.order_id == hid && next == levels.update(
                    0,
                    LevelModel {
                        price: levels[0].price,
                        orders: levels[0].orders.update(0, o2),
                    },
                );
            if i == 0 {
                assert(j >= 1);
                assert(next[0].orders[j] == levels[0].orders[j]);
                lemma_find_order_at(next, x, 0, j);
            } else {
                assert(next[i] == levels[i]);
                lemma_find_order_at(next, x, i, j);
            }
        }
    } else {
        assert(!side_has_id(next, x));
        lemma_find_order_absent(levels, x);
        lemma_find_order_absent(next, x);
    }
}

/// Whether an order with id `ida` queues strictly ahead of one with id
/// `idb` somewhere on the side: same price level, earlier position.
pub open spec fn precedes(levels: Seq<LevelModel>, ida: u64, idb: u64) -> bool {
    exists|li: int, a: int, b: int|
        0 <= li < levels.len() && 0 <= a < b < levels[li].orders.len() && (
        #[trigger] levels[li].orders[a]).order_id == ida && (#[trigger] levels[li].orders[b]).order_id
            == idb
}

/// FIFO within a level: if one resting order queues ahead of another at the
/// same price, no matching run touches the later order's open quantity —
/// observable through `find_order` — until the earlier order is fully
/// consumed and gone from the book.
pub proof fn lemma_fifo_within_level(
    levels: Seq<LevelModel>,
    side: OrderSide,
    otype: OrderType,
    limit: u64,
    id: u64,
    qty: u64,
    ida: u64,
    idb: u64,
)
    requires
        side_wf(side.spec_opposite(), levels),
        side_ids_unique(levels),
        precedes(levels, ida, idb),
    ensures
        ({
            let m = match_rec(levels, side, otype, limit, id, qty);
            crate::model::find_order(m.levels, idb) != crate::model::find_order(levels, idb)
                ==> crate::model::find_order(m.levels, ida) is None
        }),
    decreases qty,
{
    let opp = side.spec_opposite();
    let m = match_rec(levels, side, otype, limit, id, qty);
    if qty == 0 || levels.len() == 0 || !crate::model::eligible(side, otype, limit, levels[0].price) {
    } else {
        assert(crate::model::level_wf(levels[0]));
        let (li, a, b_) = choose|li: int, a: int, b: int|
            0 <= li < levels.len() && 0 <= a < b < levels[li].orders.len() && (
            #[trigger] levels[li].orders[a]).order_id == ida && (#[trigger] levels[li].orders[b]).order_id
                == idb;
        let hid = levels[0].orders[0].order_id;
        assert(idb != hid) by {
            assert(levels[li].orders[b_].order_id != levels[0].orders[0].order_id);
        }
        let resting = levels[0].orders[0];
        let matched = if qty <= resting.qty {
            qty
        } else {
            resting.qty
        };
        let o2 = crate::model::OrderModel {
            order_id: resting.order_id,
            price: resting.price,
            qty: (resting.qty - matched) as u64,
        };
        let next = if matched == resting.qty {
            if levels[0].orders.len() == 1 {
                levels.drop_first()
            } else {
                levels.update(
                    0,
                    LevelModel { price: levels[0].price, orders: levels[0].orders.drop_first() },
                )
            }
        } else {
            levels.update(
                0,
                LevelModel { price: levels[0].price, orders: levels[0].orders.update(0, o2) },
            )
        };
        if matched == resting.qty {
            crate::model::lemma_match_step_full(levels, opp);
        } else {
            crate::model::lemma_match_step_partial(levels, opp, o2);
        }
        crate::model::lemma_match_wf(next, side, otype, limit, id, (qty - matched) as u64);
        let mr = match_rec(next, side, otype, limit, id, (qty - matched) as u64);
        assert(m.levels == mr.levels);
        lemma_step_find_order(levels, opp, next, idb);
        if ida == hid {
            if matched == resting.qty {
                // the earlier order is consumed whole in this very step
                assert(!side_has_id(next, ida));
                assert(!side_has_id(m.levels, ida));
                lemma_find_order_absent(m.levels, ida);
            } else {
                // a partial fill of the earlier order ends the run at once
                assert(matched == qty);
                assert(m.levels == next);
            }
        } else {
            lemma_step_find_order(levels, opp, next, ida);
            // the pair still queues in order after the step
            assert(precedes(next, ida, idb)) by {
                if matched == resting.qty && levels[0].orders.len() == 1 {
                    assert(li >= 1) by {
                        if li == 0 {
                            assert(b_ < 1);
                        }
                    }
                    assert(next[li - 1] == levels[li]);
                    assert((#[trigger] next[li - 1].orders[a]).order_id == ida && next[li
                        - 1].orders[b_].order_id == idb);
                } else if matched == resting.qty {
                    if li == 0 {
                        assert(a >= 1) by {
                            if a == 0 {
                                assert(levels[0].orders[0].order_id == ida);
                            }
                        }
                        assert((#[trigger] next[0].orders[a - 1]).order_id == ida && next[0].orders[b_
                            - 1].order_id == idb);
                    } else {
                        assert(next[li] == levels[li]);
                        assert((#[trigger] next[li].orders[a]).order_id == ida && next[li].orders[b_].order_id
                            == idb);
                    }
                } else {
                    if li == 0 && a == 0 {
                        assert(next[0].orders[0].order_id == o2.order_id);
                        assert((#[trigger] next[0].orders[a]).order_id == ida
                            && next[0].orders[b_].order_id == idb);
                    } else {
                        assert(next[li].orders[a] == levels[li].orders[a]);
                        assert(next[li].orders[b_] == levels[li].orders[b_]);
                        assert((#[trigger] next[li].orders[a]).order_id == ida
                            && next[li].orders[b_].order_id == idb);
                    }
                }
            }
            lemma_fifo_within_level(next, side, otype, limit, id, (qty - matched) as u64, ida, idb);
        }
    }
}

/// Cancel idempotence: cancelling an id the book does not hold — never
/// accepted, already filled, or already cancelled — yields exactly
/// `OrderNotFound` and leaves the book untouched; in particular a second
/// cancel of the same id always fails that way.
pub proof fn lemma_cancel_idempotent(b: BookModel, id: u64, side1: OrderSide, side2: OrderSide)
    requires
        book_wf(b),
    ensures
        ({
            let o1 = spec_process(b, OrderRequest::CancelOrder { id, side: side1 });
            let o2 = spec_process(o1.book, OrderRequest::CancelOrder { id, side: side2 });
            &&& !book_has_id(b, id) ==> o1.events == seq![
                Err::<Success, Failed>(Failed::OrderNotFound(id)),
            ] && o1.book == b
            &&& o2.events == seq![Err::<Success, Failed>(Failed::OrderNotFound(id))]
            &&& o2.book == o1.book
        }),
{
    let o1 = spec_process(b, OrderRequest::CancelOrder { id, side: side1 });
    if book_has_id(b, id) {
        lemma_remove_id_props(b.bids, OrderSide::Bid, id);
        lemma_remove_id_props(b.asks, OrderSide::Ask, id);
        assert(!side_has_id(o1.book.bids, id) && !side_has_id(o1.book.asks, id));
        assert(!book_has_id(o1.book, id));
    }
}

} // verus!
