//! The mathematical model of the book.
//!
//! A side is a sequence of price levels in traversal order (bids descending,
//! asks ascending); a level is a price and a FIFO queue of resting orders.
//! `spec_process` is the full functional specification of `process_order`:
//! the executable book is proved to return exactly its events and to leave
//! exactly its state behind.

use vstd::prelude::*;
use crate::domain::{OrderSide, OrderType};
use crate::events::{Failed, Success, ValidationReason};
use crate::orders::OrderRequest;

verus! {

/// A resting order as the model sees it: id, price and open quantity.
#[derive(PartialEq, Eq, Structural)]
pub struct OrderModel {
    pub order_id: u64,
    pub price: u64,
    pub qty: u64,
}

/// One price level: its price and its queue, oldest order first.
#[verifier::ext_equal]
pub struct LevelModel {
    pub price: u64,
    pub orders: Seq<OrderModel>,
}

/// The whole book: both sides in traversal order and the id counter.
#[verifier::ext_equal]
pub struct BookModel {
    pub order_asset: crate::domain::BrokerAsset,
    pub price_asset: crate::domain::BrokerAsset,
    pub bids: Seq<LevelModel>,
    pub asks: Seq<LevelModel>,
    pub next_id: u64,
}

/// What one matching run leaves behind: the opposing side, the incoming
/// order's unmatched remainder, and the fill events in emission order.
#[verifier::ext_equal]
pub struct MatchOutcome {
    pub levels: Seq<LevelModel>,
    pub remaining: u64,
    pub events: Seq<Result<Success, Failed>>,
}

/// What one processed command leaves behind: the new book and its events.
#[verifier::ext_equal]
pub struct ProcessOutcome {
    pub book: BookModel,
    pub events: Seq<Result<Success, Failed>>,
}

/// A freshly created book: both sides empty, ids starting at 1.
pub open spec fn empty_book(
    order_asset: crate::domain::BrokerAsset,
    price_asset: crate::domain::BrokerAsset,
) -> BookModel {
    BookModel {
        order_asset,
        price_asset,
        bids: Seq::empty(),
        asks: Seq::empty(),
        next_id: 1,
    }
}

/// Whether price `a` is visited strictly before price `b` on `side`.
pub open spec fn price_before(side: OrderSide, a: u64, b: u64) -> bool {
    match side {
        OrderSide::Bid => a > b,
        OrderSide::Ask => a < b,
    }
}

/// Whether a level at `level_price` is matchable by an incoming order.
/// Market orders match any level; a limit Bid matches asks priced at or
/// under its limit, a limit Ask matches bids priced at or over its limit.
pub open spec fn eligible(side: OrderSide, otype: OrderType, limit: u64, level_price: u64) -> bool {
    otype == OrderType::Market || match side {
        OrderSide::Bid => level_price <= limit,
        OrderSide::Ask => level_price >= limit,
    }
}

/// A well-formed level: never empty, every order at the level's price with
/// a strictly positive open quantity.
pub open spec fn level_wf(l: LevelModel) -> bool {
    &&& l.orders.len() > 0
    &&& forall|k: int|
        0 <= k < l.orders.len() ==> (#[trigger] l.orders[k]).price == l.price && l.orders[k].qty
            > 0
}

/// Levels stand in strict traversal order, so prices are distinct.
pub open spec fn side_sorted(side: OrderSide, levels: Seq<LevelModel>) -> bool {
    forall|i: int, j: int|
        0 <= i < j < levels.len() ==> price_before(
            side,
            (#[trigger] levels[i]).price,
            (#[trigger] levels[j]).price,
        )
}

/// A well-formed side: sorted, with every level well formed.
pub open spec fn side_wf(side: OrderSide, levels: Seq<LevelModel>) -> bool {
    &&& side_sorted(side, levels)
    &&& forall|i: int| 0 <= i < levels.len() ==> level_wf(#[trigger] levels[i])
}

/// Whether some order in the level carries this id.
pub open spec fn level_has_id(l: LevelModel, id: u64) -> bool {
    exists|k: int| 0 <= k < l.orders.len() && (#[trigger] l.orders[k]).order_id == id
}

/// Whether some order on the side carries this id.
pub open spec fn side_has_id(levels: Seq<LevelModel>, id: u64) -> bool {
    exists|i: int| 0 <= i < levels.len() && level_has_id(#[trigger] levels[i], id)
}

/// Whether some resting order in the book carries this id.
pub open spec fn book_has_id(b: BookModel, id: u64) -> bool {
    side_has_id(b.bids, id) || side_has_id(b.asks, id)
}

/// No two resting orders on the side share an id.
pub open spec fn side_ids_unique(levels: Seq<LevelModel>) -> bool {
    forall|i: int, k: int, j: int, l: int|
        0 <= i < levels.len() && 0 <= k < levels[i].orders.len() && 0 <= j < levels.len() && 0 <= l
            < levels[j].orders.len() && (i != j || k != l) ==> (#[trigger] levels[i].orders[k]).order_id
            != (#[trigger] levels[j].orders[l]).order_id
}

/// Every resting id on the side is below the bound.
pub open spec fn side_ids_below(levels: Seq<LevelModel>, bound: u64) -> bool {
    forall|i: int, k: int|
        0 <= i < levels.len() && 0 <= k < levels[i].orders.len() ==> (#[trigger] levels[i].orders[k]).order_id
            < bound
}

/// The global book invariant: both sides well formed, ids unique across the
/// whole book and below the id counter, and the book never crossed.
pub open spec fn book_wf(b: BookModel) -> bool {
    &&& side_wf(OrderSide::Bid, b.bids)
    &&& side_wf(OrderSide::Ask, b.asks)
    &&& side_ids_unique(b.bids)
    &&& side_ids_unique(b.asks)
    &&& forall|id: u64| !(side_has_id(b.bids, id) && #[trigger] side_has_id(b.asks, id))
    &&& side_ids_below(b.bids, b.next_id)
    &&& side_ids_below(b.asks, b.next_id)
    &&& b.next_id >= 1
    &&& uncrossed(b)
}

/// Either side empty, or the best bid strictly under the best ask.
pub open spec fn uncrossed(b: BookModel) -> bool {
    b.bids.len() > 0 && b.asks.len() > 0 ==> b.bids[0].price < b.asks[0].price
}

/// The best-bid/best-ask pair, when both sides are populated.
pub open spec fn spec_spread(b: BookModel) -> Option<(u64, u64)> {
    if b.bids.len() == 0 || b.asks.len() == 0 {
        None
    } else {
        Some((b.bids[0].price, b.asks[0].price))
    }
}

/// The levels the given side of the book holds.
pub open spec fn side_levels(b: BookModel, side: OrderSide) -> Seq<LevelModel> {
    match side {
        OrderSide::Bid => b.bids,
        OrderSide::Ask => b.asks,
    }
}

/// The book with the given side replaced.
pub open spec fn with_side(b: BookModel, side: OrderSide, levels: Seq<LevelModel>) -> BookModel {
    match side {
        OrderSide::Bid => BookModel { bids: levels, ..b },
        OrderSide::Ask => BookModel { asks: levels, ..b },
    }
}

/// The first order with this id in the queue, if any.
pub open spec fn find_in_orders(orders: Seq<OrderModel>, id: u64) -> Option<OrderModel>
    decreases orders.len(),
{
    if orders.len() == 0 {
        None
    } else if orders[0].order_id == id {
        Some(orders[0])
    } else {
        find_in_orders(orders.drop_first(), id)
    }
}

/// The first order with this id on the side, if any.
pub open spec fn find_order(levels: Seq<LevelModel>, id: u64) -> Option<OrderModel>
    decreases levels.len(),
{
    if levels.len() == 0 {
        None
    } else {
        match find_in_orders(levels[0].orders, id) {
            Some(o) => Some(o),
            None => find_order(levels.drop_first(), id),
        }
    }
}

/// The queue with the first order of this id removed.
pub open spec fn remove_in_orders(orders: Seq<OrderModel>, id: u64) -> Seq<OrderModel>
    decreases orders.len(),
{
    if orders.len() == 0 {
        orders
    } else if orders[0].order_id == id {
        orders.drop_first()
    } else {
        remove_in_orders(orders.drop_first(), id).insert(0, orders[0])
    }
}

/// The side with the order of this id removed; its level goes too when the
/// removal empties it.
pub open spec fn remove_id(levels: Seq<LevelModel>, id: u64) -> Seq<LevelModel>
    decreases levels.len(),
{
    if levels.len() == 0 {
        levels
    } else if level_has_id(levels[0], id) {
        let rest = remove_in_orders(levels[0].orders, id);
        if rest.len() == 0 {
            levels.drop_first()
        } else {
            levels.drop_first().insert(0, LevelModel { price: levels[0].price, orders: rest })
        }
    } else {
        remove_id(levels.drop_first(), id).insert(0, levels[0])
    }
}

/// The side with `ord` inserted: appended to its price's queue if the level
/// exists, else as a fresh level at its sorted position.
pub open spec fn insert_order(levels: Seq<LevelModel>, side: OrderSide, ord: OrderModel) -> Seq<
    LevelModel,
>
    decreases levels.len(),
{
    if levels.len() == 0 {
        seq![LevelModel { price: ord.price, orders: seq![ord] }]
    } else if levels[0].price == ord.price {
        levels.update(0, LevelModel { price: ord.price, orders: levels[0].orders.push(ord) })
    } else if price_before(side, ord.price, levels[0].price) {
        levels.insert(0, LevelModel { price: ord.price, orders: seq![ord] })
    } else {
        insert_order(levels.drop_first(), side, ord).insert(0, levels[0])
    }
}

/// One full matching run of an incoming order against the opposing side.
///
/// Each step consumes from the head of the best eligible level, emits the
/// incoming order's fill event and then the resting order's, both at the
/// resting level's price and for the same matched quantity, and recurses on
/// the rest of the incoming quantity.
pub open spec fn match_rec(
    levels: Seq<LevelModel>,
    side: OrderSide,
    otype: OrderType,
    limit: u64,
    id: u64,
    qty: u64,
) -> MatchOutcome
    decreases qty,
{
    if qty == 0 || levels.len() == 0 || !eligible(side, otype, limit, levels[0].price)
        || levels[0].orders.len() == 0 || levels[0].orders[0].qty == 0 {
        MatchOutcome { levels, remaining: qty, events: Seq::empty() }
    } else {
        let level = levels[0];
        let resting = level.orders[0];
        let matched = if qty <= resting.qty {
            qty
        } else {
            resting.qty
        };
        let iev = if matched == qty {
            Success::Filled {
                order_id: id,
                side,
                order_type: otype,
                price: level.price,
                qty: matched,
            }
        } else {
            Success::PartiallyFilled {
                order_id: id,
                side,
                order_type: otype,
                price: level.price,
                qty: matched,
            }
        };
        let rev = if matched == resting.qty {
            Success::Filled {
                order_id: resting.order_id,
                side: side.spec_opposite(),
                order_type: OrderType::Limit,
                price: level.price,
                qty: matched,
            }
        } else {
            Success::PartiallyFilled {
                order_id: resting.order_id,
                side: side.spec_opposite(),
                order_type: OrderType::Limit,
                price: level.price,
                qty: matched,
            }
        };
        let next_levels = if matched == resting.qty {
            if level.orders.len() == 1 {
                levels.drop_first()
            } else {
                levels.update(0, LevelModel { price: level.price, orders: level.orders.drop_first() })
            }
        } else {
            levels.update(
                0,
                LevelModel {
                    price: level.price,
                    orders: level.orders.update(
                        0,
                        OrderModel {
                            order_id: resting.order_id,
                            price: resting.price,
                            qty: (resting.qty - matched) as u64,
                        },
                    ),
                },
            )
        };
        let rest = match_rec(next_levels, side, otype, limit, id, (qty - matched) as u64);
        MatchOutcome {
            levels: rest.levels,
            remaining: rest.remaining,
            events: seq![Ok(iev), Ok(rev)] + rest.events,
        }
    }
}

/// Validation of a new order, in the order the checks are made: asset pair,
/// then quantity, then limit price.
pub open spec fn validate_new(
    b: BookModel,
    order_asset: crate::domain::BrokerAsset,
    price_asset: crate::domain::BrokerAsset,
    otype: OrderType,
    price: u64,
    qty: u64,
) -> Option<ValidationReason> {
    if order_asset != b.order_asset || price_asset != b.price_asset {
        Some(ValidationReason::AssetMismatch)
    } else if qty == 0 {
        Some(ValidationReason::NonPositiveQty)
    } else if otype == OrderType::Limit && price == 0 {
        Some(ValidationReason::NonPositivePrice)
    } else {
        None
    }
}

/// A rejected command: the book untouched, one failure event.
pub open spec fn spec_fail(b: BookModel, f: Failed) -> ProcessOutcome {
    ProcessOutcome { book: b, events: seq![Err(f)] }
}

/// A new market or limit order: validate, accept under a fresh id, match
/// against the opposing side, then rest a limit remainder or report a market
/// order that matched nothing.
pub open spec fn spec_new_order(
    b: BookModel,
    order_asset: crate::domain::BrokerAsset,
    price_asset: crate::domain::BrokerAsset,
    side: OrderSide,
    otype: OrderType,
    price: u64,
    qty: u64,
) -> ProcessOutcome {
    match validate_new(b, order_asset, price_asset, otype, price, qty) {
        Some(reason) => spec_fail(b, Failed::Validation(reason)),
        None => {
            let id = b.next_id;
            let accepted = Success::Accepted { id, side, order_type: otype, qty };
            let m = match_rec(side_levels(b, side.spec_opposite()), side, otype, price, id, qty);
            let evs = seq![Ok(accepted)] + m.events;
            let b1 = with_side(b, side.spec_opposite(), m.levels);
            let b2 = BookModel { next_id: (id + 1) as u64, ..b1 };
            if m.remaining == 0 {
                ProcessOutcome { book: b2, events: evs }
            } else if otype == OrderType::Limit {
                let ord = OrderModel { order_id: id, price, qty: m.remaining };
                let b3 = with_side(b2, side, insert_order(side_levels(b2, side), side, ord));
                ProcessOutcome { book: b3, events: evs }
            } else if m.events.len() == 0 {
                ProcessOutcome { book: b2, events: evs.push(Err(Failed::NoMatch(id))) }
            } else {
                ProcessOutcome { book: b2, events: evs }
            }
        },
    }
}

/// A cancel: drop the order wherever it rests, or report an unknown id.
pub open spec fn spec_cancel(b: BookModel, id: u64) -> ProcessOutcome {
    if !book_has_id(b, id) {
        spec_fail(b, Failed::OrderNotFound(id))
    } else {
        let b2 = BookModel { bids: remove_id(b.bids, id), asks: remove_id(b.asks, id), ..b };
        ProcessOutcome { book: b2, events: seq![Ok(Success::Cancelled { order_id: id })] }
    }
}

/// An amend: validate, then remove the old order and append the new one at
/// the tail of its target level, resetting its time priority. An amend that
/// would cross the opposite side is rejected with no effect on the book.
pub open spec fn spec_amend(b: BookModel, id: u64, side: OrderSide, price: u64, qty: u64) -> ProcessOutcome {
    if qty == 0 {
        spec_fail(b, Failed::Validation(ValidationReason::NonPositiveQty))
    } else if price == 0 {
        spec_fail(b, Failed::Validation(ValidationReason::NonPositivePrice))
    } else if !book_has_id(b, id) {
        spec_fail(b, Failed::OrderNotFound(id))
    } else {
        let bids2 = remove_id(b.bids, id);
        let asks2 = remove_id(b.asks, id);
        let crossed = match side {
            OrderSide::Bid => asks2.len() > 0 && price >= asks2[0].price,
            OrderSide::Ask => bids2.len() > 0 && price <= bids2[0].price,
        };
        if crossed {
            spec_fail(b, Failed::Validation(ValidationReason::AmendWouldCross))
        } else {
            let ord = OrderModel { order_id: id, price, qty };
            let b2 = match side {
                OrderSide::Bid => BookModel {
                    bids: insert_order(bids2, OrderSide::Bid, ord),
                    asks: asks2,
                    ..b
                },
                OrderSide::Ask => BookModel {
                    bids: bids2,
                    asks: insert_order(asks2, OrderSide::Ask, ord),
                    ..b
                },
            };
            ProcessOutcome { book: b2, events: seq![Ok(Success::Amended { order_id: id })] }
        }
    }
}

/// The full specification of `process_order`: one command in, the new book
/// and its ordered event sequence out.
pub open spec fn spec_process(b: BookModel, req: OrderRequest) -> ProcessOutcome {
    match req {
        OrderRequest::NewMarketOrder { order_asset, price_asset, side, qty, .. } => spec_new_order(
            b,
            order_asset,
            price_asset,
            side,
            OrderType::Market,
            0,
            qty,
        ),
        OrderRequest::NewLimitOrder { order_asset, price_asset, side, price, qty, .. } => spec_new_order(
            b,
            order_asset,
            price_asset,
            side,
            OrderType::Limit,
            price,
            qty,
        ),
        OrderRequest::AmendOrder { id, side, price, qty, .. } => spec_amend(b, id, side, price, qty),
        OrderRequest::CancelOrder { id, .. } => spec_cancel(b, id),
    }
}

/// Whether some level at exactly this price holds this id.
pub open spec fn level_at_price_has(levels: Seq<LevelModel>, price: u64, id: u64) -> bool {
    exists|i: int|
        0 <= i < levels.len() && (#[trigger] levels[i]).price == price && level_has_id(
            levels[i],
            id,
        )
}

/// Removing an id a side does not hold leaves the side as it is.
pub proof fn lemma_remove_id_absent(levels: Seq<LevelModel>, id: u64)
    requires
        !side_has_id(levels, id),
    ensures
        remove_id(levels, id) == levels,
    decreases levels.len(),
{
    if levels.len() > 0 {
        assert(!level_has_id(levels[0], id));
        assert(!side_has_id(levels.drop_first(), id)) by {
            if side_has_id(levels.drop_first(), id) {
                let i = choose|i: int|
                    0 <= i < levels.drop_first().len() && level_has_id(
                        #[trigger] levels.drop_first()[i],
                        id,
                    );
                assert(levels[i + 1] == levels.drop_first()[i]);
                assert(side_has_id(levels, id));
            }
        }
        lemma_remove_id_absent(levels.drop_first(), id);
        assert(remove_id(levels, id) =~= levels);
    }
}

/// Unfolds `remove_id` past a prefix of levels that do not hold the id.
pub proof fn lemma_remove_id_skip(levels: Seq<LevelModel>, id: u64, i: int)
    requires
        0 <= i <= levels.len(),
        forall|j: int| 0 <= j < i ==> !level_has_id(#[trigger] levels[j], id),
    ensures
        remove_id(levels, id) == levels.take(i) + remove_id(levels.skip(i), id),
    decreases i,
{
    if i == 0 {
        assert(levels.skip(0) == levels);
        assert(remove_id(levels, id) =~= levels.take(0) + remove_id(levels, id));
    } else {
        assert(!level_has_id(levels[0], id));
        lemma_remove_id_skip(levels.drop_first(), id, i - 1);
        assert(levels.drop_first().skip(i - 1) == levels.skip(i));
        assert(remove_id(levels, id) =~= levels.take(i) + remove_id(levels.skip(i), id)) by {
            assert(remove_id(levels, id) == (levels.drop_first().take(i - 1) + remove_id(
                levels.skip(i),
                id,
            )).insert(0, levels[0]));
        }
    }
}

/// Unfolds `remove_in_orders` when the first occurrence's index is known.
pub proof fn lemma_remove_in_orders_at(orders: Seq<OrderModel>, id: u64, k: int)
    requires
        0 <= k < orders.len(),
        orders[k].order_id == id,
        forall|l: int| 0 <= l < k ==> (#[trigger] orders[l]).order_id != id,
    ensures
        remove_in_orders(orders, id) == orders.remove(k),
    decreases k,
{
    if k == 0 {
        assert(remove_in_orders(orders, id) =~= orders.remove(0));
    } else {
        lemma_remove_in_orders_at(orders.drop_first(), id, k - 1);
        assert(orders.drop_first().remove(k - 1) =~= orders.remove(k).drop_first());
        assert(remove_in_orders(orders, id) =~= orders.remove(k));
    }
}

/// Unfolds `insert_order` past a prefix of levels that come strictly before
/// the order's price.
pub proof fn lemma_insert_order_skip(levels: Seq<LevelModel>, side: OrderSide, ord: OrderModel, i: int)
    requires
        0 <= i <= levels.len(),
        forall|j: int|
            0 <= j < i ==> price_before(side, (#[trigger] levels[j]).price, ord.price),
    ensures
        insert_order(levels, side, ord) == levels.take(i) + insert_order(
            levels.skip(i),
            side,
            ord,
        ),
    decreases i,
{
    if i == 0 {
        assert(levels.skip(0) == levels);
        assert(insert_order(levels, side, ord) =~= levels.take(0) + insert_order(
            levels,
            side,
            ord,
        ));
    } else {
        assert(price_before(side, levels[0].price, ord.price));
        lemma_insert_order_skip(levels.drop_first(), side, ord, i - 1);
        assert(levels.drop_first().skip(i - 1) == levels.skip(i));
        assert(insert_order(levels, side, ord) =~= levels.take(i) + insert_order(
            levels.skip(i),
            side,
            ord,
        )) by {
            assert(insert_order(levels, side, ord) == (levels.drop_first().take(i - 1)
                + insert_order(levels.skip(i), side, ord)).insert(0, levels[0]));
        }
    }
}

/// Whether some level on the side sits at exactly this price.
pub open spec fn side_has_price(levels: Seq<LevelModel>, price: u64) -> bool {
    exists|i: int| 0 <= i < levels.len() && (#[trigger] levels[i]).price == price
}

/// What inserting a resting order does to a well-formed side: the side stays
/// well formed, gains exactly the new id, keeps every order's location, and
/// its best price only ever improves to the new order's price.
#[verifier::rlimit(60)]
pub proof fn lemma_insert_order_props(levels: Seq<LevelModel>, side: OrderSide, ord: OrderModel)
    requires
        side_wf(side, levels),
        ord.qty > 0,
    ensures
        ({
            let r = insert_order(levels, side, ord);
            &&& side_wf(side, r)
            &&& r.len() > 0
            &&& r[0].price == (if levels.len() == 0 || price_before(
                side,
                ord.price,
                levels[0].price,
            ) {
                ord.price
            } else {
                levels[0].price
            })
            &&& forall|k: u64|
                #[trigger] side_has_id(r, k) <==> side_has_id(levels, k) || k == ord.order_id
            &&& forall|k: u64, p: u64|
                #[trigger] level_at_price_has(levels, p, k) ==> level_at_price_has(r, p, k)
            &&& level_at_price_has(r, ord.price, ord.order_id)
            &&& (side_ids_unique(levels) && !side_has_id(levels, ord.order_id)
                ==> side_ids_unique(r))
            &&& forall|b0: u64|
                #[trigger] side_ids_below(levels, b0) && ord.order_id < b0 ==> side_ids_below(
                    r,
                    b0,
                )
            &&& forall|i: int|
                0 <= i < r.len() ==> (#[trigger] r[i]).price == ord.price || side_has_price(
                    levels,
                    r[i].price,
                )
        }),
    decreases levels.len(),
{
    let r = insert_order(levels, side, ord);
    if levels.len() == 0 {
        let l0 = LevelModel { price: ord.price, orders: seq![ord] };
        assert(r == seq![l0]);
        assert(level_wf(l0));
        assert forall|k: u64| #[trigger] side_has_id(r, k) implies k == ord.order_id by {
            let i = choose|i: int| 0 <= i < r.len() && level_has_id(#[trigger] r[i], k);
            let j = choose|j: int| 0 <= j < r[i].orders.len() && (#[trigger] r[i].orders[j]).order_id == k;
            assert(r[i].orders[j] == ord);
        }
        assert(level_has_id(r[0], ord.order_id)) by {
            assert(r[0].orders[0].order_id == ord.order_id);
        }
        assert(side_has_id(r, ord.order_id));
        assert(level_at_price_has(r, ord.price, ord.order_id));
        assert forall|b0: u64|
            side_ids_below(levels, b0) && ord.order_id < b0 implies side_ids_below(r, b0) by {
            assert forall|i: int, k: int|
                0 <= i < r.len() && 0 <= k < r[i].orders.len() implies (#[trigger] r[i].orders[k]).order_id
                < b0 by {
                assert(r[i].orders[k] == ord);
            }
        }
        assert(side_ids_unique(r)) by {
            assert forall|i: int, k: int, j: int, l: int|
                0 <= i < r.len() && 0 <= k < r[i].orders.len() && 0 <= j < r.len() && 0 <= l
                    < r[j].orders.len() && (i != j || k != l) implies (#[trigger] r[i].orders[k]).order_id
                != (#[trigger] r[j].orders[l]).order_id by {
                assert(i == 0 && j == 0 && k == 0 && l == 0);
            }
        }
    } else if levels[0].price == ord.price {
        let l0 = LevelModel { price: ord.price, orders: levels[0].orders.push(ord) };
        assert(r == levels.update(0, l0));
        let n0 = levels[0].orders.len() as int;
        assert(level_wf(l0)) by {
            assert forall|k: int| 0 <= k < l0.orders.len() implies (#[trigger] l0.orders[k]).price
                == l0.price && l0.orders[k].qty > 0 by {
                if k < n0 {
                    assert(l0.orders[k] == levels[0].orders[k]);
                } else {
                    assert(l0.orders[k] == ord);
                }
            }
        }
        assert forall|i: int| 0 <= i < r.len() implies level_wf(#[trigger] r[i]) by {
            if i != 0 {
                assert(r[i] == levels[i]);
            }
        }
        assert(side_sorted(side, r)) by {
            assert forall|i: int, j: int|
                0 <= i < j < r.len() implies price_before(
                side,
                (#[trigger] r[i]).price,
                (#[trigger] r[j]).price,
            ) by {
                assert(r[i].price == levels[i].price);
                assert(r[j].price == levels[j].price);
            }
        }
        assert forall|k: u64| #[trigger] side_has_id(r, k) implies side_has_id(levels, k) || k
            == ord.order_id by {
            let i = choose|i: int| 0 <= i < r.len() && level_has_id(#[trigger] r[i], k);
            let j = choose|j: int| 0 <= j < r[i].orders.len() && (#[trigger] r[i].orders[j]).order_id == k;
            if i != 0 {
                assert(levels[i].orders[j].order_id == k);
                assert(level_has_id(levels[i], k));
                assert(side_has_id(levels, k));
            } else if j < n0 {
                assert(levels[0].orders[j].order_id == k);
                assert(level_has_id(levels[0], k));
                assert(side_has_id(levels, k));
            } else {
                assert(r[0].orders[j] == ord);
            }
        }
        assert forall|k: u64| side_has_id(levels, k) implies #[trigger] side_has_id(r, k) by {
            let i = choose|i: int| 0 <= i < levels.len() && level_has_id(#[trigger] levels[i], k);
            let j = choose|j: int|
                0 <= j < levels[i].orders.len() && (#[trigger] levels[i].orders[j]).order_id == k;
            assert(r[i].orders[j].order_id == k);
            assert(level_has_id(r[i], k));
        }
        assert(r[0].orders[n0] == ord);
        assert(level_has_id(r[0], ord.order_id));
        assert(side_has_id(r, ord.order_id));
        assert(level_at_price_has(r, ord.price, ord.order_id));
        assert forall|k: u64, p: u64|
            #[trigger] level_at_price_has(levels, p, k) implies level_at_price_has(r, p, k) by {
            let i = choose|i: int|
                0 <= i < levels.len() && (#[trigger] levels[i]).price == p && level_has_id(
                    levels[i],
                    k,
                );
            let j = choose|j: int|
                0 <= j < levels[i].orders.len() && (#[trigger] levels[i].orders[j]).order_id == k;
            assert(r[i].orders[j].order_id == k);
            assert(level_has_id(r[i], k));
            assert(r[i].price == p);
        }
        if side_ids_unique(levels) && !side_has_id(levels, ord.order_id) {
            assert forall|i: int, k: int, j: int, l: int|
                0 <= i < r.len() && 0 <= k < r[i].orders.len() && 0 <= j < r.len() && 0 <= l
                    < r[j].orders.len() && (i != j || k != l) implies (#[trigger] r[i].orders[k]).order_id
                != (#[trigger] r[j].orders[l]).order_id by {
                if r[i].orders[k].order_id == r[j].orders[l].order_id {
                    if i == 0 && k == n0 {
                        assert(r[j].orders[l].order_id == ord.order_id);
                        assert(j != 0 || l != n0);
                        if j == 0 {
                            assert(levels[0].orders[l].order_id == ord.order_id);
                            assert(level_has_id(levels[0], ord.order_id));
                        } else {
                            assert(levels[j].orders[l].order_id == ord.order_id);
                            assert(level_has_id(levels[j], ord.order_id));
                        }
                        assert(side_has_id(levels, ord.order_id));
                    } else if j == 0 && l == n0 {
                        if i == 0 {
                            assert(levels[0].orders[k].order_id == ord.order_id);
                            assert(level_has_id(levels[0], ord.order_id));
                        } else {
                            assert(levels[i].orders[k].order_id == ord.order_id);
                            assert(level_has_id(levels[i], ord.order_id));
                        }
                        assert(side_has_id(levels, ord.order_id));
                    } else {
                        assert(r[i].orders[k] == levels[i].orders[k]);
                        assert(r[j].orders[l] == levels[j].orders[l]);
                    }
                }
            }
        }
        assert forall|b0: u64|
            #[trigger] side_ids_below(levels, b0) && ord.order_id < b0 implies side_ids_below(
            r,
            b0,
        ) by {
            assert forall|i: int, k: int|
                0 <= i < r.len() && 0 <= k < r[i].orders.len() implies (#[trigger] r[i].orders[k]).order_id
                < b0 by {
                if i == 0 && k == n0 {
                    assert(r[i].orders[k] == ord);
                } else {
                    assert(r[i].orders[k] == levels[i].orders[k]);
                }
            }
        }
        assert forall|i: int| 0 <= i < r.len() implies (#[trigger] r[i]).price == ord.price
            || side_has_price(levels, r[i].price) by {
            if i != 0 {
                assert(r[i] == levels[i]);
                assert(side_has_price(levels, levels[i].price));
            }
        }
    } else if price_before(side, ord.price, levels[0].price) {
        let l0 = LevelModel { price: ord.price, orders: seq![ord] };
        assert(r == levels.insert(0, l0));
        assert(r[0] == l0);
        assert forall|i: int| 1 <= i < r.len() implies r[i] == levels[i - 1] by {}
        assert(level_wf(l0));
        assert(side_sorted(side, r)) by {
            assert forall|i: int, j: int|
                0 <= i < j < r.len() implies price_before(
                side,
                (#[trigger] r[i]).price,
                (#[trigger] r[j]).price,
            ) by {
                if i == 0 {
                    if j > 1 {
                        assert(price_before(side, levels[0].price, levels[j - 1].price));
                    }
                } else {
                    assert(price_before(side, levels[i - 1].price, levels[j - 1].price));
                }
            }
        }
        assert forall|k: u64| #[trigger] side_has_id(r, k) implies side_has_id(levels, k) || k
            == ord.order_id by {
            let i = choose|i: int| 0 <= i < r.len() && level_has_id(#[trigger] r[i], k);
            if i == 0 {
                let j = choose|j: int|
                    0 <= j < r[0].orders.len() && (#[trigger] r[0].orders[j]).order_id == k;
                assert(r[0].orders[j] == ord);
            } else {
                assert(level_has_id(levels[i - 1], k));
                assert(side_has_id(levels, k));
            }
        }
        assert forall|k: u64| side_has_id(levels, k) implies #[trigger] side_has_id(r, k) by {
            let i = choose|i: int| 0 <= i < levels.len() && level_has_id(#[trigger] levels[i], k);
            assert(r[i + 1] == levels[i]);
            assert(side_has_id(r, k));
        }
        assert(level_has_id(r[0], ord.order_id)) by {
            assert(r[0].orders[0].order_id == ord.order_id);
        }
        assert(side_has_id(r, ord.order_id));
        assert(level_at_price_has(r, ord.price, ord.order_id));
        assert forall|k: u64, p: u64|
            #[trigger] level_at_price_has(levels, p, k) implies level_at_price_has(r, p, k) by {
            let i = choose|i: int|
                0 <= i < levels.len() && (#[trigger] levels[i]).price == p && level_has_id(
                    levels[i],
                    k,
                );
            assert(r[i + 1] == levels[i]);
        }
        if side_ids_unique(levels) && !side_has_id(levels, ord.order_id) {
            assert forall|i: int, k: int, j: int, l: int|
                0 <= i < r.len() && 0 <= k < r[i].orders.len() && 0 <= j < r.len() && 0 <= l
                    < r[j].orders.len() && (i != j || k != l) implies (#[trigger] r[i].orders[k]).order_id
                != (#[trigger] r[j].orders[l]).order_id by {
                if r[i].orders[k].order_id == r[j].orders[l].order_id {
                    if i == 0 && j == 0 {
                        assert(k == 0 && l == 0);
                    } else if i == 0 {
                        assert(r[i].orders[k] == ord);
                        assert(levels[j - 1].orders[l].order_id == ord.order_id);
                        assert(level_has_id(levels[j - 1], ord.order_id));
                        assert(side_has_id(levels, ord.order_id));
                    } else if j == 0 {
                        assert(r[j].orders[l] == ord);
                        assert(levels[i - 1].orders[k].order_id == ord.order_id);
                        assert(level_has_id(levels[i - 1], ord.order_id));
                        assert(side_has_id(levels, ord.order_id));
                    } else {
                        assert(r[i].orders[k] == levels[i - 1].orders[k]);
                        assert(r[j].orders[l] == levels[j - 1].orders[l]);
                    }
                }
            }
        }
        assert forall|b0: u64|
            #[trigger] side_ids_below(levels, b0) && ord.order_id < b0 implies side_ids_below(
            r,
            b0,
        ) by {
            assert forall|i: int, k: int|
                0 <= i < r.len() && 0 <= k < r[i].orders.len() implies (#[trigger] r[i].orders[k]).order_id
                < b0 by {
                if i == 0 {
                    assert(r[i].orders[k] == ord);
                } else {
                    assert(r[i].orders[k] == levels[i - 1].orders[k]);
                }
            }
        }
        assert forall|i: int| 0 <= i < r.len() implies (#[trigger] r[i]).price == ord.price
            || side_has_price(levels, r[i].price) by {
            if i != 0 {
                assert(r[i] == levels[i - 1]);
                assert(side_has_price(levels, levels[i - 1].price));
            }
        }
    } else {
        let tail = levels.drop_first();
        let rt = insert_order(tail, side, ord);
        assert(r == rt.insert(0, levels[0]));
        assert(side_wf(side, tail)) by {
            assert forall|i: int| 0 <= i < tail.len() implies level_wf(#[trigger] tail[i]) by {
                assert(tail[i] == levels[i + 1]);
            }
            assert forall|i: int, j: int|
                0 <= i < j < tail.len() implies price_before(
                side,
                (#[trigger] tail[i]).price,
                (#[trigger] tail[j]).price,
            ) by {
                assert(tail[i] == levels[i + 1]);
                assert(tail[j] == levels[j + 1]);
            }
        }
        lemma_insert_order_props(tail, side, ord);
        assert(r[0] == levels[0]);
        assert forall|i: int| 1 <= i < r.len() implies r[i] == rt[i - 1] by {}
        // the head level comes strictly before the inserted order's price
        assert(price_before(side, levels[0].price, ord.price));
        assert(side_sorted(side, r)) by {
            assert forall|i: int, j: int|
                0 <= i < j < r.len() implies price_before(
                side,
                (#[trigger] r[i]).price,
                (#[trigger] r[j]).price,
            ) by {
                if i == 0 {
                    if rt[j - 1].price == ord.price {
                    } else {
                        assert(side_has_price(tail, rt[j - 1].price));
                        let w = choose|w: int|
                            0 <= w < tail.len() && (#[trigger] tail[w]).price == rt[j - 1].price;
                        assert(tail[w] == levels[w + 1]);
                        assert(price_before(side, levels[0].price, levels[w + 1].price));
                    }
                } else {
                    assert(price_before(side, rt[i - 1].price, rt[j - 1].price));
                }
            }
        }
        assert forall|i: int| 0 <= i < r.len() implies level_wf(#[trigger] r[i]) by {
            if i > 0 {
                assert(r[i] == rt[i - 1]);
            }
        }
        assert forall|k: u64| #[trigger] side_has_id(r, k) implies side_has_id(levels, k) || k
            == ord.order_id by {
            let i = choose|i: int| 0 <= i < r.len() && level_has_id(#[trigger] r[i], k);
            if i == 0 {
                assert(level_has_id(levels[0], k));
                assert(side_has_id(levels, k));
            } else {
                assert(side_has_id(rt, k));
                if side_has_id(tail, k) {
                    let w = choose|w: int| 0 <= w < tail.len() && level_has_id(#[trigger] tail[w], k);
                    assert(tail[w] == levels[w + 1]);
                    assert(side_has_id(levels, k));
                }
            }
        }
        assert forall|k: u64| side_has_id(levels, k) implies #[trigger] side_has_id(r, k) by {
            let i = choose|i: int| 0 <= i < levels.len() && level_has_id(#[trigger] levels[i], k);
            if i == 0 {
                assert(r[0] == levels[0]);
                assert(side_has_id(r, k));
            } else {
                assert(tail[i - 1] == levels[i]);
                assert(side_has_id(tail, k));
                assert(side_has_id(rt, k));
                let w = choose|w: int| 0 <= w < rt.len() && level_has_id(#[trigger] rt[w], k);
                assert(r[w + 1] == rt[w]);
                assert(side_has_id(r, k));
            }
        }
        assert(side_has_id(r, ord.order_id)) by {
            assert(side_has_id(rt, ord.order_id));
            let w = choose|w: int| 0 <= w < rt.len() && level_has_id(#[trigger] rt[w], ord.order_id);
            assert(r[w + 1] == rt[w]);
        }
        assert(level_at_price_has(r, ord.price, ord.order_id)) by {
            assert(level_at_price_has(rt, ord.price, ord.order_id));
            let w = choose|w: int|
                0 <= w < rt.len() && (#[trigger] rt[w]).price == ord.price && level_has_id(
                    rt[w],
                    ord.order_id,
                );
            assert(r[w + 1] == rt[w]);
        }
        assert forall|k: u64, p: u64|
            #[trigger] level_at_price_has(levels, p, k) implies level_at_price_has(r, p, k) by {
            let i = choose|i: int|
                0 <= i < levels.len() && (#[trigger] levels[i]).price == p && level_has_id(
                    levels[i],
                    k,
                );
            if i == 0 {
                assert(r[0] == levels[0]);
            } else {
                assert(tail[i - 1] == levels[i]);
                assert(level_at_price_has(tail, p, k));
                assert(level_at_price_has(rt, p, k));
                let w = choose|w: int|
                    0 <= w < rt.len() && (#[trigger] rt[w]).price == p && level_has_id(rt[w], k);
                assert(r[w + 1] == rt[w]);
            }
        }
        if side_ids_unique(levels) && !side_has_id(levels, ord.order_id) {
            assert(side_ids_unique(tail)) by {
                assert forall|i: int, k: int, j: int, l: int|
                    0 <= i < tail.len() && 0 <= k < tail[i].orders.len() && 0 <= j < tail.len()
                        && 0 <= l < tail[j].orders.len() && (i != j || k != l) implies (
                #[trigger] tail[i].orders[k]).order_id != (#[trigger] tail[j].orders[l]).order_id by {
                    assert(tail[i] == levels[i + 1]);
                    assert(tail[j] == levels[j + 1]);
                }
            }
            assert(!side_has_id(tail, ord.order_id)) by {
                if side_has_id(tail, ord.order_id) {
                    let w = choose|w: int|
                        0 <= w < tail.len() && level_has_id(#[trigger] tail[w], ord.order_id);
                    assert(tail[w] == levels[w + 1]);
                    assert(side_has_id(levels, ord.order_id));
                }
            }
            assert(side_ids_unique(rt));
            assert forall|i: int, k: int, j: int, l: int|
                0 <= i < r.len() && 0 <= k < r[i].orders.len() && 0 <= j < r.len() && 0 <= l
                    < r[j].orders.len() && (i != j || k != l) implies (#[trigger] r[i].orders[k]).order_id
                != (#[trigger] r[j].orders[l]).order_id by {
                if r[i].orders[k].order_id == r[j].orders[l].order_id {
                    if i == 0 && j == 0 {
                        assert(levels[0].orders[k].order_id != levels[0].orders[l].order_id);
                    } else if i >= 1 && j >= 1 {
                        assert(r[i].orders[k] == rt[i - 1].orders[k]);
                        assert(r[j].orders[l] == rt[j - 1].orders[l]);
                    } else {
                        // one index is the untouched head level, the other a
                        // level of the inserted tail: the shared id would have
                        // to be either the fresh id or a duplicate in `levels`
                        let hi = if i == 0 { k } else { l };
                        let tj = if i == 0 { j - 1 } else { i - 1 };
                        let tl = if i == 0 { l } else { k };
                        let the_id = r[0].orders[hi].order_id;
                        assert(levels[0].orders[hi].order_id == the_id);
                        assert(level_has_id(levels[0], the_id));
                        assert(side_has_id(levels, the_id));
                        assert(the_id != ord.order_id);
                        assert(rt[tj].orders[tl].order_id == the_id);
                        assert(level_has_id(rt[tj], the_id));
                        assert(side_has_id(rt, the_id));
                        assert(side_has_id(tail, the_id));
                        let w = choose|w: int|
                            0 <= w < tail.len() && level_has_id(#[trigger] tail[w], the_id);
                        let wo = choose|wo: int|
                            0 <= wo < tail[w].orders.len() && (#[trigger] tail[w].orders[wo]).order_id
                                == the_id;
                        assert(levels[w + 1].orders[wo].order_id == the_id);
                        assert(levels[0].orders[hi].order_id != levels[w + 1].orders[wo].order_id);
                    }
                }
            }
        }
        assert forall|b0: u64|
            #[trigger] side_ids_below(levels, b0) && ord.order_id < b0 implies side_ids_below(
            r,
            b0,
        ) by {
            assert(side_ids_below(tail, b0)) by {
                assert forall|i: int, k: int|
                    0 <= i < tail.len() && 0 <= k < tail[i].orders.len() implies (
                #[trigger] tail[i].orders[k]).order_id < b0 by {
                    assert(tail[i] == levels[i + 1]);
                }
            }
            assert(side_ids_below(rt, b0));
            assert forall|i: int, k: int|
                0 <= i < r.len() && 0 <= k < r[i].orders.len() implies (#[trigger] r[i].orders[k]).order_id
                < b0 by {
                if i == 0 {
                    assert(r[0].orders[k] == levels[0].orders[k]);
                } else {
                    assert(r[i].orders[k] == rt[i - 1].orders[k]);
                }
            }
        }
        assert forall|i: int| 0 <= i < r.len() implies (#[trigger] r[i]).price == ord.price
            || side_has_price(levels, r[i].price) by {
            if i == 0 {
                assert(side_has_price(levels, levels[0].price));
            } else {
                assert(r[i] == rt[i - 1]);
                if rt[i - 1].price != ord.price {
                    assert(side_has_price(tail, rt[i - 1].price));
                    let w = choose|w: int|
                        0 <= w < tail.len() && (#[trigger] tail[w]).price == rt[i - 1].price;
                    assert(tail[w] == levels[w + 1]);
                    assert(side_has_price(levels, rt[i - 1].price));
                }
            }
        }
    }
}

/// What removing an order by id does to a well-formed side: the side stays
/// well formed, loses exactly that id, keeps every other order's location,
/// and its best price never improves.
pub proof fn lemma_remove_id_props(levels: Seq<LevelModel>, side: OrderSide, id: u64)
    requires
        side_wf(side, levels),
        side_ids_unique(levels),
    ensures
        ({
            let r = remove_id(levels, id);
            &&& side_wf(side, r)
            &&& side_ids_unique(r)
            &&& forall|k: u64|
                #[trigger] side_has_id(r, k) <==> side_has_id(levels, k) && k != id
            &&& forall|k: u64, p: u64|
                k != id && #[trigger] level_at_price_has(levels, p, k) ==> level_at_price_has(
                    r,
                    p,
                    k,
                )
            &&& (r.len() > 0 ==> levels.len() > 0 && !price_before(
                side,
                r[0].price,
                levels[0].price,
            ))
            &&& forall|b0: u64|
                #[trigger] side_ids_below(levels, b0) ==> side_ids_below(r, b0)
            &&& forall|i: int|
                0 <= i < r.len() ==> side_has_price(levels, (#[trigger] r[i]).price)
        }),
    decreases levels.len(),
{
    let r = remove_id(levels, id);
    if levels.len() == 0 {
    } else if level_has_id(levels[0], id) {
        let orders = levels[0].orders;
        let k0 = choose|k0: int| 0 <= k0 < orders.len() && (#[trigger] orders[k0]).order_id == id;
        assert forall|l: int| 0 <= l < orders.len() && l != k0 implies (#[trigger] orders[l]).order_id
            != id by {
            assert(orders[l].order_id != orders[k0].order_id);
        }
        lemma_remove_in_orders_at(orders, id, k0);
        let rest = orders.remove(k0);
        // the id rests nowhere else in the book's side
        assert forall|i: int| 1 <= i < levels.len() implies !level_has_id(
            #[trigger] levels[i],
            id,
        ) by {
            if level_has_id(levels[i], id) {
                let l = choose|l: int|
                    0 <= l < levels[i].orders.len() && (#[trigger] levels[i].orders[l]).order_id
                        == id;
                assert(levels[i].orders[l].order_id != levels[0].orders[k0].order_id);
            }
        }
        if rest.len() == 0 {
            assert(r == levels.drop_first());
            assert forall|i: int| 0 <= i < r.len() implies r[i] == levels[i + 1] by {}
            assert forall|i: int| 0 <= i < r.len() implies level_wf(#[trigger] r[i]) by {
                assert(r[i] == levels[i + 1]);
            }
            assert forall|i: int, j: int|
                0 <= i < j < r.len() implies price_before(
                side,
                (#[trigger] r[i]).price,
                (#[trigger] r[j]).price,
            ) by {
                assert(r[i] == levels[i + 1]);
                assert(r[j] == levels[j + 1]);
            }
            assert forall|i: int, k: int, j: int, l: int|
                0 <= i < r.len() && 0 <= k < r[i].orders.len() && 0 <= j < r.len() && 0 <= l
                    < r[j].orders.len() && (i != j || k != l) implies (#[trigger] r[i].orders[k]).order_id
                != (#[trigger] r[j].orders[l]).order_id by {
                assert(r[i].orders[k] == levels[i + 1].orders[k]);
                assert(r[j].orders[l] == levels[j + 1].orders[l]);
            }
            assert forall|k: u64| #[trigger] side_has_id(r, k) implies side_has_id(levels, k) && k
                != id by {
                let i = choose|i: int| 0 <= i < r.len() && level_has_id(#[trigger] r[i], k);
                assert(r[i] == levels[i + 1]);
                assert(side_has_id(levels, k));
                assert(!level_has_id(levels[i + 1], id));
            }
            assert forall|k: u64| side_has_id(levels, k) && k != id implies #[trigger] side_has_id(
                r,
                k,
            ) by {
                let i = choose|i: int| 0 <= i < levels.len() && level_has_id(#[trigger] levels[i], k);
                if i == 0 {
                    let l = choose|l: int|
                        0 <= l < orders.len() && (#[trigger] orders[l]).order_id == k;
                    assert(orders.len() == 1);
                    assert(l == k0);
                } else {
                    assert(r[i - 1] == levels[i]);
                    assert(side_has_id(r, k));
                }
            }
            assert forall|k: u64, p: u64|
                k != id && #[trigger] level_at_price_has(levels, p, k) implies level_at_price_has(
                r,
                p,
                k,
            ) by {
                let i = choose|i: int|
                    0 <= i < levels.len() && (#[trigger] levels[i]).price == p && level_has_id(
                        levels[i],
                        k,
                    );
                if i == 0 {
                    let l = choose|l: int|
                        0 <= l < orders.len() && (#[trigger] orders[l]).order_id == k;
                    assert(orders.len() == 1);
                    assert(l == k0);
                } else {
                    assert(r[i - 1] == levels[i]);
                }
            }
            if r.len() > 0 {
                assert(r[0] == levels[1]);
                assert(price_before(side, levels[0].price, levels[1].price));
            }
            assert forall|b0: u64| #[trigger] side_ids_below(levels, b0) implies side_ids_below(
                r,
                b0,
            ) by {
                assert forall|i: int, k: int|
                    0 <= i < r.len() && 0 <= k < r[i].orders.len() implies (
                #[trigger] r[i].orders[k]).order_id < b0 by {
                    assert(r[i].orders[k] == levels[i + 1].orders[k]);
                }
            }
            assert forall|i: int| 0 <= i < r.len() implies side_has_price(
                levels,
                (#[trigger] r[i]).price,
            ) by {
                assert(r[i] == levels[i + 1]);
            }
        } else {
            let l0 = LevelModel { price: levels[0].price, orders: rest };
            assert(r == levels.drop_first().insert(0, l0));
            assert(r =~= levels.update(0, l0));
            assert(level_wf(l0)) by {
                assert forall|l: int| 0 <= l < rest.len() implies (#[trigger] rest[l]).price
                    == l0.price && rest[l].qty > 0 by {
                    if l < k0 {
                        assert(rest[l] == orders[l]);
                    } else {
                        assert(rest[l] == orders[l + 1]);
                    }
                }
            }
            assert forall|i: int| 0 <= i < r.len() implies level_wf(#[trigger] r[i]) by {
                if i != 0 {
                    assert(r[i] == levels[i]);
                }
            }
            assert forall|i: int, j: int|
                0 <= i < j < r.len() implies price_before(
                side,
                (#[trigger] r[i]).price,
                (#[trigger] r[j]).price,
            ) by {
                assert(r[i].price == levels[i].price);
                assert(r[j].price == levels[j].price);
            }
            // positions of the trimmed queue map back into the full queue
            assert forall|l: int| 0 <= l < rest.len() implies (#[trigger] rest[l]) == orders[
                if l < k0 {
                    l
                } else {
                    l + 1
                }
            ] by {}
            assert forall|i: int, k: int, j: int, l: int|
                0 <= i < r.len() && 0 <= k < r[i].orders.len() && 0 <= j < r.len() && 0 <= l
                    < r[j].orders.len() && (i != j || k != l) implies (#[trigger] r[i].orders[k]).order_id
                != (#[trigger] r[j].orders[l]).order_id by {
                let k2 = if i == 0 && k >= k0 {
                    k + 1
                } else {
                    k
                };
                let l2 = if j == 0 && l >= k0 {
                    l + 1
                } else {
                    l
                };
                assert(r[i].orders[k] == levels[i].orders[k2]);
                assert(r[j].orders[l] == levels[j].orders[l2]);
            }
            assert forall|k: u64| #[trigger] side_has_id(r, k) implies side_has_id(levels, k) && k
                != id by {
                let i = choose|i: int| 0 <= i < r.len() && level_has_id(#[trigger] r[i], k);
                let l = choose|l: int|
                    0 <= l < r[i].orders.len() && (#[trigger] r[i].orders[l]).order_id == k;
                let l2 = if i == 0 && l >= k0 {
                    l + 1
                } else {
                    l
                };
                assert(levels[i].orders[l2].order_id == k);
                assert(level_has_id(levels[i], k));
                assert(side_has_id(levels, k));
                if i == 0 {
                    assert(l2 != k0);
                    assert(orders[l2].order_id != orders[k0].order_id);
                } else {
                    assert(levels[i].orders[l2].order_id != levels[0].orders[k0].order_id);
                }
            }
            assert forall|k: u64| side_has_id(levels, k) && k != id implies #[trigger] side_has_id(
                r,
                k,
            ) by {
                let i = choose|i: int| 0 <= i < levels.len() && level_has_id(#[trigger] levels[i], k);
                let l = choose|l: int|
                    0 <= l < levels[i].orders.len() && (#[trigger] levels[i].orders[l]).order_id
                        == k;
                if i == 0 {
                    assert(l != k0);
                    let l2 = if l < k0 {
                        l
                    } else {
                        l - 1
                    };
                    assert(rest[l2].order_id == k);
                    assert(level_has_id(r[0], k));
                } else {
                    assert(r[i] == levels[i]);
                    assert(level_has_id(r[i], k));
                }
                assert(side_has_id(r, k));
            }
            assert forall|k: u64, p: u64|
                k != id && #[trigger] level_at_price_has(levels, p, k) implies level_at_price_has(
                r,
                p,
                k,
            ) by {
                let i = choose|i: int|
                    0 <= i < levels.len() && (#[trigger] levels[i]).price == p && level_has_id(
                        levels[i],
                        k,
                    );
                let l = choose|l: int|
                    0 <= l < levels[i].orders.len() && (#[trigger] levels[i].orders[l]).order_id
                        == k;
                if i == 0 {
                    assert(l != k0);
                    let l2 = if l < k0 {
                        l
                    } else {
                        l - 1
                    };
                    assert(rest[l2].order_id == k);
                    assert(level_has_id(r[0], k));
                    assert(r[0].price == p);
                } else {
                    assert(r[i] == levels[i]);
                }
            }
            assert(r[0].price == levels[0].price);
            assert forall|b0: u64| #[trigger] side_ids_below(levels, b0) implies side_ids_below(
                r,
                b0,
            ) by {
                assert forall|i: int, k: int|
                    0 <= i < r.len() && 0 <= k < r[i].orders.len() implies (
                #[trigger] r[i].orders[k]).order_id < b0 by {
                    let k2 = if i == 0 && k >= k0 {
                        k + 1
                    } else {
                        k
                    };
                    assert(r[i].orders[k] == levels[i].orders[k2]);
                }
            }
            assert forall|i: int| 0 <= i < r.len() implies side_has_price(
                levels,
                (#[trigger] r[i]).price,
            ) by {
                assert(r[i].price == levels[i].price);
            }
        }
    } else {
        let tail = levels.drop_first();
        assert(side_wf(side, tail)) by {
            assert forall|i: int| 0 <= i < tail.len() implies level_wf(#[trigger] tail[i]) by {
                assert(tail[i] == levels[i + 1]);
            }
            assert forall|i: int, j: int|
                0 <= i < j < tail.len() implies price_before(
                side,
                (#[trigger] tail[i]).price,
                (#[trigger] tail[j]).price,
            ) by {
                assert(tail[i] == levels[i + 1]);
                assert(tail[j] == levels[j + 1]);
            }
        }
        assert(side_ids_unique(tail)) by {
            assert forall|i: int, k: int, j: int, l: int|
                0 <= i < tail.len() && 0 <= k < tail[i].orders.len() && 0 <= j < tail.len() && 0
                    <= l < tail[j].orders.len() && (i != j || k != l) implies (
            #[trigger] tail[i].orders[k]).order_id != (#[trigger] tail[j].orders[l]).order_id by {
                assert(tail[i] == levels[i + 1]);
                assert(tail[j] == levels[j + 1]);
            }
        }
        lemma_remove_id_props(tail, side, id);
        let rt = remove_id(tail, id);
        assert(r == rt.insert(0, levels[0]));
        assert(r[0] == levels[0]);
        assert forall|i: int| 1 <= i < r.len() implies r[i] == rt[i - 1] by {}
        assert forall|i: int| 0 <= i < r.len() implies level_wf(#[trigger] r[i]) by {
            if i > 0 {
                assert(r[i] == rt[i - 1]);
            }
        }
        assert forall|i: int, j: int|
            0 <= i < j < r.len() implies price_before(
            side,
            (#[trigger] r[i]).price,
            (#[trigger] r[j]).price,
        ) by {
            if i == 0 {
                assert(side_has_price(tail, rt[j - 1].price));
                let w = choose|w: int|
                    0 <= w < tail.len() && (#[trigger] tail[w]).price == rt[j - 1].price;
                assert(tail[w] == levels[w + 1]);
                assert(price_before(side, levels[0].price, levels[w + 1].price));
            } else {
                assert(price_before(side, rt[i - 1].price, rt[j - 1].price));
            }
        }
        assert forall|i: int, k: int, j: int, l: int|
            0 <= i < r.len() && 0 <= k < r[i].orders.len() && 0 <= j < r.len() && 0 <= l
                < r[j].orders.len() && (i != j || k != l) implies (#[trigger] r[i].orders[k]).order_id
            != (#[trigger] r[j].orders[l]).order_id by {
            if r[i].orders[k].order_id == r[j].orders[l].order_id {
                if i >= 1 && j >= 1 {
                    assert(r[i].orders[k] == rt[i - 1].orders[k]);
                    assert(r[j].orders[l] == rt[j - 1].orders[l]);
                } else if i == 0 && j == 0 {
                    assert(levels[0].orders[k].order_id != levels[0].orders[l].order_id);
                } else {
                    let hi = if i == 0 {
                        k
                    } else {
                        l
                    };
                    let tj = if i == 0 {
                        j - 1
                    } else {
                        i - 1
                    };
                    let tl = if i == 0 {
                        l
                    } else {
                        k
                    };
                    let the_id = r[0].orders[hi].order_id;
                    assert(rt[tj].orders[tl].order_id == the_id);
                    assert(level_has_id(rt[tj], the_id));
                    assert(side_has_id(rt, the_id));
                    assert(side_has_id(tail, the_id));
                    let w = choose|w: int|
                        0 <= w < tail.len() && level_has_id(#[trigger] tail[w], the_id);
                    let wo = choose|wo: int|
                        0 <= wo < tail[w].orders.len() && (#[trigger] tail[w].orders[wo]).order_id
                            == the_id;
                    assert(levels[w + 1].orders[wo].order_id == the_id);
                    assert(levels[0].orders[hi].order_id != levels[w + 1].orders[wo].order_id);
                }
            }
        }
        assert forall|k: u64| #[trigger] side_has_id(r, k) implies side_has_id(levels, k) && k
            != id by {
            let i = choose|i: int| 0 <= i < r.len() && level_has_id(#[trigger] r[i], k);
            if i == 0 {
                assert(level_has_id(levels[0], k));
                assert(side_has_id(levels, k));
                assert(k != id);
            } else {
                assert(side_has_id(rt, k));
                assert(side_has_id(tail, k) && k != id);
                let w = choose|w: int| 0 <= w < tail.len() && level_has_id(#[trigger] tail[w], k);
                assert(tail[w] == levels[w + 1]);
                assert(side_has_id(levels, k));
            }
        }
        assert forall|k: u64| side_has_id(levels, k) && k != id implies #[trigger] side_has_id(
            r,
            k,
        ) by {
            let i = choose|i: int| 0 <= i < levels.len() && level_has_id(#[trigger] levels[i], k);
            if i == 0 {
                assert(side_has_id(r, k));
            } else {
                assert(tail[i - 1] == levels[i]);
                assert(side_has_id(tail, k));
                assert(side_has_id(rt, k));
                let w = choose|w: int| 0 <= w < rt.len() && level_has_id(#[trigger] rt[w], k);
                assert(r[w + 1] == rt[w]);
                assert(side_has_id(r, k));
            }
        }
        assert forall|k: u64, p: u64|
            k != id && #[trigger] level_at_price_has(levels, p, k) implies level_at_price_has(
            r,
            p,
            k,
        ) by {
            let i = choose|i: int|
                0 <= i < levels.len() && (#[trigger] levels[i]).price == p && level_has_id(
                    levels[i],
                    k,
                );
            if i == 0 {
                assert(r[0] == levels[0]);
            } else {
                assert(tail[i - 1] == levels[i]);
                assert(level_at_price_has(tail, p, k));
                assert(level_at_price_has(rt, p, k));
                let w = choose|w: int|
                    0 <= w < rt.len() && (#[trigger] rt[w]).price == p && level_has_id(rt[w], k);
                assert(r[w + 1] == rt[w]);
            }
        }
        assert forall|b0: u64| #[trigger] side_ids_below(levels, b0) implies side_ids_below(
            r,
            b0,
        ) by {
            assert(side_ids_below(tail, b0)) by {
                assert forall|i: int, k: int|
                    0 <= i < tail.len() && 0 <= k < tail[i].orders.len() implies (
                #[trigger] tail[i].orders[k]).order_id < b0 by {
                    assert(tail[i] == levels[i + 1]);
                }
            }
            assert(side_ids_below(rt, b0));
            assert forall|i: int, k: int|
                0 <= i < r.len() && 0 <= k < r[i].orders.len() implies (#[trigger] r[i].orders[k]).order_id
                < b0 by {
                if i > 0 {
                    assert(r[i].orders[k] == rt[i - 1].orders[k]);
                }
            }
        }
        assert forall|i: int| 0 <= i < r.len() implies side_has_price(
            levels,
            (#[trigger] r[i]).price,
        ) by {
            if i == 0 {
                assert(side_has_price(levels, levels[0].price));
            } else {
                assert(r[i] == rt[i - 1]);
                assert(side_has_price(tail, rt[i - 1].price));
                let w = choose|w: int|
                    0 <= w < tail.len() && (#[trigger] tail[w]).price == rt[i - 1].price;
                assert(tail[w] == levels[w + 1]);
            }
        }
    }
}

/// What fully consuming the head order of the best level does to a side:
/// exactly that order's id leaves, everything else keeps its place.
pub proof fn lemma_match_step_full(levels: Seq<LevelModel>, side: OrderSide)
    requires
        side_wf(side, levels),
        side_ids_unique(levels),
        levels.len() > 0,
        levels[0].orders.len() > 0,
    ensures
        ({
            let hid = levels[0].orders[0].order_id;
            let next = if levels[0].orders.len() == 1 {
                levels.drop_first()
            } else {
                levels.update(
                    0,
                    LevelModel { price: levels[0].price, orders: levels[0].orders.drop_first() },
                )
            };
            &&& side_wf(side, next)
            &&& side_ids_unique(next)
            &&& forall|k: u64|
                #![trigger side_has_id(next, k)]
                #![trigger side_has_id(levels, k)]
                side_has_id(next, k) <==> side_has_id(levels, k) && k != hid
            &&& forall|k: u64, p: u64|
                k != hid && #[trigger] level_at_price_has(levels, p, k) ==> level_at_price_has(
                    next,
                    p,
                    k,
                )
            &&& (next.len() > 0 ==> !price_before(side, next[0].price, levels[0].price))
            &&& forall|b0: u64|
                #[trigger] side_ids_below(levels, b0) ==> side_ids_below(next, b0)
        }),
{
    let hid = levels[0].orders[0].order_id;
    assert(level_has_id(levels[0], hid)) by {
        assert(levels[0].orders[0].order_id == hid);
    }
    assert(side_has_id(levels, hid));
    lemma_remove_id_props(levels, side, hid);
    // removing the head id is exactly this step's surgery
    assert forall|l: int| 0 <= l < levels[0].orders.len() && l != 0 implies (
    #[trigger] levels[0].orders[l]).order_id != hid by {
        assert(levels[0].orders[l].order_id != levels[0].orders[0].order_id);
    }
    lemma_remove_in_orders_at(levels[0].orders, hid, 0);
    assert(remove_in_orders(levels[0].orders, hid) == levels[0].orders.remove(0));
    assert(levels[0].orders.remove(0) =~= levels[0].orders.drop_first());
    if levels[0].orders.len() == 1 {
        assert(remove_id(levels, hid) == levels.drop_first());
    } else {
        assert(remove_id(levels, hid) =~= levels.update(
            0,
            LevelModel { price: levels[0].price, orders: levels[0].orders.drop_first() },
        ));
    }
}

/// What reducing the head order's open quantity does to a side: ids and
/// locations are untouched, well-formedness is kept.
pub proof fn lemma_match_step_partial(levels: Seq<LevelModel>, side: OrderSide, o2: OrderModel)
    requires
        side_wf(side, levels),
        levels.len() > 0,
        levels[0].orders.len() > 0,
        o2.order_id == levels[0].orders[0].order_id,
        o2.price == levels[0].orders[0].price,
        o2.qty > 0,
    ensures
        ({
            let next = levels.update(
                0,
                LevelModel { price: levels[0].price, orders: levels[0].orders.update(0, o2) },
            );
            &&& side_wf(side, next)
            &&& (side_ids_unique(levels) ==> side_ids_unique(next))
            &&& forall|k: u64|
                #![trigger side_has_id(next, k)]
                #![trigger side_has_id(levels, k)]
                side_has_id(next, k) <==> side_has_id(levels, k)
            &&& forall|k: u64, p: u64|
                #[trigger] level_at_price_has(levels, p, k) ==> level_at_price_has(next, p, k)
            &&& next[0].price == levels[0].price
            &&& forall|b0: u64|
                #[trigger] side_ids_below(levels, b0) ==> side_ids_below(next, b0)
        }),
{
    let next = levels.update(
        0,
        LevelModel { price: levels[0].price, orders: levels[0].orders.update(0, o2) },
    );
    assert forall|i: int, k: int|
        0 <= i < next.len() && 0 <= k < next[i].orders.len() implies (#[trigger] next[i].orders[k]).order_id
        == levels[i].orders[k].order_id && next[i].orders[k].price == levels[i].orders[k].price
        && (next[i].orders[k].qty > 0 <==> levels[i].orders[k].qty > 0) by {
        if i == 0 && k == 0 {
            assert(next[0].orders[0] == o2);
        } else if i == 0 {
            assert(next[0].orders[k] == levels[0].orders[k]);
        } else {
            assert(next[i] == levels[i]);
        }
    }
    assert forall|i: int| 0 <= i < next.len() implies level_wf(#[trigger] next[i]) by {
        assert(level_wf(levels[i]));
        assert(next[i].price == levels[i].price);
        assert(next[i].orders.len() == levels[i].orders.len());
    }
    assert forall|i: int, j: int|
        0 <= i < j < next.len() implies price_before(
        side,
        (#[trigger] next[i]).price,
        (#[trigger] next[j]).price,
    ) by {
        assert(next[i].price == levels[i].price);
        assert(next[j].price == levels[j].price);
    }
    assert forall|k: u64| #[trigger] side_has_id(next, k) implies side_has_id(levels, k) by {
        let i = choose|i: int| 0 <= i < next.len() && level_has_id(#[trigger] next[i], k);
        let l = choose|l: int|
            0 <= l < next[i].orders.len() && (#[trigger] next[i].orders[l]).order_id == k;
        assert(levels[i].orders[l].order_id == k);
        assert(level_has_id(levels[i], k));
    }
    assert forall|k: u64| side_has_id(levels, k) implies #[trigger] side_has_id(next, k) by {
        let i = choose|i: int| 0 <= i < levels.len() && level_has_id(#[trigger] levels[i], k);
        let l = choose|l: int|
            0 <= l < levels[i].orders.len() && (#[trigger] levels[i].orders[l]).order_id == k;
        assert(next[i].orders[l].order_id == k);
        assert(level_has_id(next[i], k));
    }
    assert forall|k: u64, p: u64|
        #[trigger] level_at_price_has(levels, p, k) implies level_at_price_has(next, p, k) by {
        let i = choose|i: int|
            0 <= i < levels.len() && (#[trigger] levels[i]).price == p && level_has_id(
                levels[i],
                k,
            );
        let l = choose|l: int|
            0 <= l < levels[i].orders.len() && (#[trigger] levels[i].orders[l]).order_id == k;
        assert(next[i].orders[l].order_id == k);
        assert(level_has_id(next[i], k));
        assert(next[i].price == p);
    }
    if side_ids_unique(levels) {
        assert forall|i: int, k: int, j: int, l: int|
            0 <= i < next.len() && 0 <= k < next[i].orders.len() && 0 <= j < next.len() && 0 <= l
                < next[j].orders.len() && (i != j || k != l) implies (
        #[trigger] next[i].orders[k]).order_id != (#[trigger] next[j].orders[l]).order_id by {
            assert(next[i].orders[k].order_id == levels[i].orders[k].order_id);
            assert(next[j].orders[l].order_id == levels[j].orders[l].order_id);
        }
    }
    assert forall|b0: u64| #[trigger] side_ids_below(levels, b0) implies side_ids_below(
        next,
        b0,
    ) by {
        assert forall|i: int, k: int|
            0 <= i < next.len() && 0 <= k < next[i].orders.len() implies (
        #[trigger] next[i].orders[k]).order_id < b0 by {
            assert(next[i].orders[k].order_id == levels[i].orders[k].order_id);
        }
    }
}

/// What a full matching run does to the opposing side: it stays well formed,
/// only loses ids, keeps surviving orders' locations, its best price never
/// improves, and it only ever stops early at an ineligible level.
pub proof fn lemma_match_wf(
    levels: Seq<LevelModel>,
    side: OrderSide,
    otype: OrderType,
    limit: u64,
    id: u64,
    qty: u64,
)
    requires
        side_wf(side.spec_opposite(), levels),
    ensures
        ({
            let m = match_rec(levels, side, otype, limit, id, qty);
            &&& side_wf(side.spec_opposite(), m.levels)
            &&& (side_ids_unique(levels) ==> side_ids_unique(m.levels))
            &&& forall|k: u64| #[trigger] side_has_id(m.levels, k) ==> side_has_id(levels, k)
            &&& (side_ids_unique(levels) ==> forall|k: u64, p: u64|
                side_has_id(m.levels, k) && #[trigger] level_at_price_has(levels, p, k)
                    ==> level_at_price_has(m.levels, p, k))
            &&& (m.levels.len() > 0 ==> levels.len() > 0 && !price_before(
                side.spec_opposite(),
                m.levels[0].price,
                levels[0].price,
            ))
            &&& (m.remaining > 0 && qty > 0 ==> m.levels.len() == 0 || !eligible(
                side,
                otype,
                limit,
                m.levels[0].price,
            ))
            &&& forall|b0: u64|
                #[trigger] side_ids_below(levels, b0) ==> side_ids_below(m.levels, b0)
        }),
    decreases qty,
{
    let opp = side.spec_opposite();
    let m = match_rec(levels, side, otype, limit, id, qty);
    if qty == 0 || levels.len() == 0 || !eligible(side, otype, limit, levels[0].price) {
        assert(m.levels == levels);
    } else {
        assert(level_wf(levels[0]));
        assert(levels[0].orders.len() > 0);
        assert(levels[0].orders[0].qty > 0);
        let resting = levels[0].orders[0];
        let matched = if qty <= resting.qty {
            qty
        } else {
            resting.qty
        };
        let next = if matched == resting.qty {
            if levels[0].orders.len() == 1 {
                levels.drop_first()
            } else {
                levels.update(
                    0,
                    LevelModel { price: levels[0].price, orders: levels[0].orders.drop_first() },
                )
            }
        } else {
            levels.update(
                0,
                LevelModel {
                    price: levels[0].price,
                    orders: levels[0].orders.update(
                        0,
                        OrderModel {
                            order_id: resting.order_id,
                            price: resting.price,
                            qty: (resting.qty - matched) as u64,
                        },
                    ),
                },
            )
        };
        if matched == resting.qty {
            if side_ids_unique(levels) {
                lemma_match_step_full(levels, opp);
            } else {
                // without uniqueness only the weaker positional facts hold
                lemma_step_weak(levels, opp);
            }
        } else {
            lemma_match_step_partial(
                levels,
                opp,
                OrderModel {
                    order_id: resting.order_id,
                    price: resting.price,
                    qty: (resting.qty - matched) as u64,
                },
            );
        }
        lemma_match_wf(next, side, otype, limit, id, (qty - matched) as u64);
        let mr = match_rec(next, side, otype, limit, id, (qty - matched) as u64);
        assert(m.levels == mr.levels);
        assert(m.remaining == mr.remaining);
        if m.levels.len() > 0 {
            assert(next.len() > 0);
            assert(!price_before(opp, m.levels[0].price, next[0].price));
            assert(!price_before(opp, next[0].price, levels[0].price));
        }
    }
}

/// The weaker step facts that hold even without unique ids: consuming the
/// head order keeps the side well formed and only removes ids.
pub(crate) proof fn lemma_step_weak(levels: Seq<LevelModel>, side: OrderSide)
    requires
        side_wf(side, levels),
        levels.len() > 0,
        levels[0].orders.len() > 0,
    ensures
        ({
            let next = if levels[0].orders.len() == 1 {
                levels.drop_first()
            } else {
                levels.update(
                    0,
                    LevelModel { price: levels[0].price, orders: levels[0].orders.drop_first() },
                )
            };
            &&& side_wf(side, next)
            &&& forall|k: u64| #[trigger] side_has_id(next, k) ==> side_has_id(levels, k)
            &&& (next.len() > 0 ==> !price_before(side, next[0].price, levels[0].price))
            &&& forall|b0: u64|
                #[trigger] side_ids_below(levels, b0) ==> side_ids_below(next, b0)
        }),
{
    let next = if levels[0].orders.len() == 1 {
        levels.drop_first()
    } else {
        levels.update(
            0,
            LevelModel { price: levels[0].price, orders: levels[0].orders.drop_first() },
        )
    };
    if levels[0].orders.len() == 1 {
        assert forall|i: int| 0 <= i < next.len() implies level_wf(#[trigger] next[i]) by {
            assert(next[i] == levels[i + 1]);
        }
        assert forall|i: int, j: int|
            0 <= i < j < next.len() implies price_before(
            side,
            (#[trigger] next[i]).price,
            (#[trigger] next[j]).price,
        ) by {
            assert(next[i] == levels[i + 1]);
            assert(next[j] == levels[j + 1]);
        }
        assert forall|k: u64| #[trigger] side_has_id(next, k) implies side_has_id(levels, k) by {
            let i = choose|i: int| 0 <= i < next.len() && level_has_id(#[trigger] next[i], k);
            assert(next[i] == levels[i + 1]);
            assert(side_has_id(levels, k));
        }
        if next.len() > 0 {
            assert(next[0] == levels[1]);
            assert(price_before(side, levels[0].price, levels[1].price));
        }
        assert forall|b0: u64| #[trigger] side_ids_below(levels, b0) implies side_ids_below(
            next,
            b0,
        ) by {
            assert forall|i: int, k: int|
                0 <= i < next.len() && 0 <= k < next[i].orders.len() implies (
            #[trigger] next[i].orders[k]).order_id < b0 by {
                assert(next[i].orders[k] == levels[i + 1].orders[k]);
            }
        }
    } else {
        assert forall|i: int| 0 <= i < next.len() implies level_wf(#[trigger] next[i]) by {
            if i == 0 {
                assert(level_wf(levels[0]));
                assert forall|l: int|
                    0 <= l < next[0].orders.len() implies (#[trigger] next[0].orders[l]).price
                    == next[0].price && next[0].orders[l].qty > 0 by {
                    assert(next[0].orders[l] == levels[0].orders[l + 1]);
                }
            } else {
                assert(next[i] == levels[i]);
            }
        }
        assert forall|i: int, j: int|
            0 <= i < j < next.len() implies price_before(
            side,
            (#[trigger] next[i]).price,
            (#[trigger] next[j]).price,
        ) by {
            assert(next[i].price == levels[i].price);
            assert(next[j].price == levels[j].price);
        }
        assert forall|k: u64| #[trigger] side_has_id(next, k) implies side_has_id(levels, k) by {
            let i = choose|i: int| 0 <= i < next.len() && level_has_id(#[trigger] next[i], k);
            let l = choose|l: int|
                0 <= l < next[i].orders.len() && (#[trigger] next[i].orders[l]).order_id == k;
            if i == 0 {
                assert(levels[0].orders[l + 1].order_id == k);
                assert(level_has_id(levels[0], k));
            } else {
                assert(levels[i].orders[l].order_id == k);
                assert(level_has_id(levels[i], k));
            }
            assert(side_has_id(levels, k));
        }
        assert forall|b0: u64| #[trigger] side_ids_below(levels, b0) implies side_ids_below(
            next,
            b0,
        ) by {
            assert forall|i: int, k: int|
                0 <= i < next.len() && 0 <= k < next[i].orders.len() implies (
            #[trigger] next[i].orders[k]).order_id < b0 by {
                if i == 0 {
                    assert(next[0].orders[k] == levels[0].orders[k + 1]);
                } else {
                    assert(next[i].orders[k] == levels[i].orders[k]);
                }
            }
        }
    }
}

/// Processing a new order keeps the book invariant: both sides stay well
/// formed, ids stay unique and below the counter, and the book stays
/// uncrossed — a resting remainder can only rest because the opposing best
/// no longer crosses it.
pub proof fn lemma_new_order_wf(
    b: BookModel,
    order_asset: crate::domain::BrokerAsset,
    price_asset: crate::domain::BrokerAsset,
    side: OrderSide,
    otype: OrderType,
    price: u64,
    qty: u64,
)
    requires
        book_wf(b),
        b.next_id < u64::MAX,
    ensures
        book_wf(spec_new_order(b, order_asset, price_asset, side, otype, price, qty).book),
{
    let so = spec_new_order(b, order_asset, price_asset, side, otype, price, qty);
    if validate_new(b, order_asset, price_asset, otype, price, qty) is Some {
    } else {
        let id = b.next_id;
        let opp = side.spec_opposite();
        let opplv = side_levels(b, opp);
        let ownlv = side_levels(b, side);
        let m = match_rec(opplv, side, otype, price, id, qty);
        lemma_match_wf(opplv, side, otype, price, id, qty);
        let b1 = with_side(b, opp, m.levels);
        let b2 = BookModel { next_id: (id + 1) as u64, ..b1 };
        assert(side_ids_below(opplv, id) && side_ids_below(ownlv, id));
        assert(side_ids_below(m.levels, id));
        assert(side_ids_below(m.levels, (id + 1) as u64));
        assert(side_ids_below(ownlv, (id + 1) as u64));
        assert forall|k: u64| !(side_has_id(b2.bids, k) && #[trigger] side_has_id(
            b2.asks,
            k,
        )) by {
            if side_has_id(m.levels, k) {
                assert(side_has_id(opplv, k));
            }
        }
        assert(uncrossed(b2)) by {
            if b2.bids.len() > 0 && b2.asks.len() > 0 {
                if side == OrderSide::Bid {
                    assert(!price_before(OrderSide::Ask, m.levels[0].price, opplv[0].price));
                    assert(b.bids[0].price < b.asks[0].price);
                } else {
                    assert(!price_before(OrderSide::Bid, m.levels[0].price, opplv[0].price));
                    assert(b.bids[0].price < b.asks[0].price);
                }
            }
        }
        assert(book_wf(b2));
        if m.remaining > 0 && otype == OrderType::Limit {
            let ordm = OrderModel { order_id: id, price, qty: m.remaining };
            assert(!side_has_id(ownlv, id)) by {
                if side_has_id(ownlv, id) {
                    let i = choose|i: int|
                        0 <= i < ownlv.len() && level_has_id(#[trigger] ownlv[i], id);
                    let k = choose|k: int|
                        0 <= k < ownlv[i].orders.len() && (#[trigger] ownlv[i].orders[k]).order_id
                            == id;
                }
            }
            lemma_insert_order_props(ownlv, side, ordm);
            let own3 = insert_order(ownlv, side, ordm);
            let b3 = with_side(b2, side, own3);
            assert(so.book == b3);
            assert(side_ids_below(own3, (id + 1) as u64));
            assert forall|k: u64| !(side_has_id(b3.bids, k) && #[trigger] side_has_id(
                b3.asks,
                k,
            )) by {
                if side_has_id(own3, k) && side_has_id(m.levels, k) {
                    assert(side_has_id(opplv, k));
                    assert(side_has_id(ownlv, k) || k == id);
                }
            }
            assert(uncrossed(b3)) by {
                if b3.bids.len() > 0 && b3.asks.len() > 0 {
                    assert(m.levels.len() == 0 || !eligible(side, otype, price, m.levels[0].price));
                    if side == OrderSide::Bid {
                        // the new best bid is the rested price or the old best
                        assert(b3.asks == m.levels && b3.bids == own3);
                        assert(m.levels[0].price > price);
                        if !(ownlv.len() == 0 || price_before(
                            OrderSide::Bid,
                            price,
                            ownlv[0].price,
                        )) {
                            assert(own3[0].price == ownlv[0].price);
                            assert(!price_before(OrderSide::Ask, m.levels[0].price, opplv[0].price));
                            assert(ownlv[0].price < opplv[0].price);
                        }
                    } else {
                        assert(b3.bids == m.levels && b3.asks == own3);
                        assert(m.levels[0].price < price);
                        if !(ownlv.len() == 0 || price_before(
                            OrderSide::Ask,
                            price,
                            ownlv[0].price,
                        )) {
                            assert(own3[0].price == ownlv[0].price);
                            assert(!price_before(OrderSide::Bid, m.levels[0].price, opplv[0].price));
                            assert(opplv[0].price < ownlv[0].price);
                        }
                    }
                }
            }
            assert(book_wf(b3));
        }
    }
}

/// Cancelling keeps the book invariant: removal never improves a best
/// price, so an uncrossed book stays uncrossed.
pub proof fn lemma_cancel_wf(b: BookModel, id: u64)
    requires
        book_wf(b),
    ensures
        book_wf(spec_cancel(b, id).book),
{
    if book_has_id(b, id) {
        lemma_remove_id_props(b.bids, OrderSide::Bid, id);
        lemma_remove_id_props(b.asks, OrderSide::Ask, id);
        let bids2 = remove_id(b.bids, id);
        let asks2 = remove_id(b.asks, id);
        let b2 = spec_cancel(b, id).book;
        assert(b2.bids == bids2 && b2.asks == asks2);
        assert forall|k: u64| !(side_has_id(b2.bids, k) && #[trigger] side_has_id(
            b2.asks,
            k,
        )) by {
            if side_has_id(bids2, k) && side_has_id(asks2, k) {
                assert(side_has_id(b.bids, k) && side_has_id(b.asks, k));
            }
        }
        assert(uncrossed(b2)) by {
            if bids2.len() > 0 && asks2.len() > 0 {
                assert(!price_before(OrderSide::Bid, bids2[0].price, b.bids[0].price));
                assert(!price_before(OrderSide::Ask, asks2[0].price, b.asks[0].price));
                assert(b.bids[0].price < b.asks[0].price);
            }
        }
    }
}

/// Amending keeps the book invariant: the old order leaves both structures,
/// and the new one rests only when it does not cross the opposite side.
pub proof fn lemma_amend_wf(b: BookModel, id: u64, side: OrderSide, price: u64, qty: u64)
    requires
        book_wf(b),
    ensures
        book_wf(spec_amend(b, id, side, price, qty).book),
{
    if qty == 0 || price == 0 || !book_has_id(b, id) {
    } else {
        lemma_remove_id_props(b.bids, OrderSide::Bid, id);
        lemma_remove_id_props(b.asks, OrderSide::Ask, id);
        let bids2 = remove_id(b.bids, id);
        let asks2 = remove_id(b.asks, id);
        let crossed = match side {
            OrderSide::Bid => asks2.len() > 0 && price >= asks2[0].price,
            OrderSide::Ask => bids2.len() > 0 && price <= bids2[0].price,
        };
        if !crossed {
            let ordm = OrderModel { order_id: id, price, qty };
            assert(id < b.next_id) by {
                if side_has_id(b.bids, id) {
                    let i = choose|i: int|
                        0 <= i < b.bids.len() && level_has_id(#[trigger] b.bids[i], id);
                    let k = choose|k: int|
                        0 <= k < b.bids[i].orders.len() && (#[trigger] b.bids[i].orders[k]).order_id
                            == id;
                } else {
                    let i = choose|i: int|
                        0 <= i < b.asks.len() && level_has_id(#[trigger] b.asks[i], id);
                    let k = choose|k: int|
                        0 <= k < b.asks[i].orders.len() && (#[trigger] b.asks[i].orders[k]).order_id
                            == id;
                }
            }
            let b3 = spec_amend(b, id, side, price, qty).book;
            if side == OrderSide::Bid {
                lemma_insert_order_props(bids2, OrderSide::Bid, ordm);
                let bids3 = insert_order(bids2, OrderSide::Bid, ordm);
                assert(b3.bids == bids3 && b3.asks == asks2);
                assert forall|k: u64| !(side_has_id(b3.bids, k) && #[trigger] side_has_id(
                    b3.asks,
                    k,
                )) by {
                    if side_has_id(bids3, k) && side_has_id(asks2, k) {
                        assert(side_has_id(b.asks, k) && k != id);
                        assert(side_has_id(bids2, k) || k == id);
                        assert(side_has_id(b.bids, k));
                    }
                }
                assert(uncrossed(b3)) by {
                    if bids3.len() > 0 && asks2.len() > 0 {
                        assert(price < asks2[0].price);
                        if !(bids2.len() == 0 || price_before(
                            OrderSide::Bid,
                            price,
                            bids2[0].price,
                        )) {
                            assert(bids3[0].price == bids2[0].price);
                            assert(!price_before(OrderSide::Bid, bids2[0].price, b.bids[0].price));
                            assert(!price_before(OrderSide::Ask, asks2[0].price, b.asks[0].price));
                            assert(b.bids[0].price < b.asks[0].price);
                        }
                    }
                }
                assert(book_wf(b3));
            } else {
                lemma_insert_order_props(asks2, OrderSide::Ask, ordm);
                let asks3 = insert_order(asks2, OrderSide::Ask, ordm);
                assert(b3.asks == asks3 && b3.bids == bids2);
                assert forall|k: u64| !(side_has_id(b3.bids, k) && #[trigger] side_has_id(
                    b3.asks,
                    k,
                )) by {
                    if side_has_id(bids2, k) && side_has_id(asks3, k) {
                        assert(side_has_id(b.bids, k) && k != id);
                        assert(side_has_id(asks2, k) || k == id);
                        assert(side_has_id(b.asks, k));
                    }
                }
                assert(uncrossed(b3)) by {
                    if bids2.len() > 0 && asks3.len() > 0 {
                        assert(price > bids2[0].price);
                        if !(asks2.len() == 0 || price_before(
                            OrderSide::Ask,
                            price,
                            asks2[0].price,
                        )) {
                            assert(asks3[0].price == asks2[0].price);
                            assert(!price_before(OrderSide::Bid, bids2[0].price, b.bids[0].price));
                            assert(!price_before(OrderSide::Ask, asks2[0].price, b.asks[0].price));
                            assert(b.bids[0].price < b.asks[0].price);
                        }
                    }
                }
                assert(book_wf(b3));
            }
        }
    }
}

/// The sum of open quantities in a queue.
pub open spec fn orders_qty(orders: Seq<OrderModel>) -> int
    decreases orders.len(),
{
    if orders.len() == 0 {
        0
    } else {
        orders[0].qty + orders_qty(orders.drop_first())
    }
}

/// The sum of open quantities on a side.
pub open spec fn side_qty(levels: Seq<LevelModel>) -> int
    decreases levels.len(),
{
    if levels.len() == 0 {
        0
    } else {
        orders_qty(levels[0].orders) + side_qty(levels.drop_first())
    }
}

} // verus!
