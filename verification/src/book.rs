//! The executable order book: both side indexes, the order-id index and the
//! id counter, with the single mutating entry point `process_order`.
//!
//! Every public function is specified against the model in `crate::model`:
//! `process_order` returns exactly the events of `spec_process` and leaves
//! exactly its book state behind.

use vstd::prelude::*;
use std::collections::HashMap;
use crate::domain::{BrokerAsset, Order, OrderSide, OrderType};
use crate::events::{Failed, OrderProcessingResult, Success, ValidationReason};
use crate::model::{
    book_has_id, book_wf, eligible, empty_book, insert_order, level_at_price_has, level_has_id,
    level_wf, lemma_amend_wf, lemma_cancel_wf, lemma_insert_order_props, lemma_insert_order_skip,
    lemma_match_step_full, lemma_match_step_partial, lemma_match_wf, lemma_remove_id_absent,
    lemma_remove_id_props, lemma_remove_id_skip, lemma_remove_in_orders_at, match_rec,
    price_before, remove_id, side_has_id, side_ids_below, side_ids_unique, side_levels, side_wf,
    spec_amend, spec_cancel, spec_new_order, spec_process, spec_spread, validate_new, with_side,
    BookModel, LevelModel, OrderModel,
};
use crate::orders::OrderRequest;

verus! {

broadcast use vstd::std_specs::hash::group_hash_axioms;

/// One price level of one side: its price and its FIFO queue, oldest first.
pub struct PriceLevel {
    pub price: u64,
    pub orders: Vec<Order>,
}

/// Where a resting order lives, as the order-id index records it.
#[derive(Debug, Copy, Clone, PartialEq, Eq, Structural)]
pub struct OrderLocation {
    pub side: OrderSide,
    pub price: u64,
}

/// The model a resting order denotes.
pub open spec fn order_view(o: Order) -> OrderModel {
    OrderModel { order_id: o.order_id, price: o.price, qty: o.qty }
}

/// The model a price level denotes.
pub open spec fn level_view(l: PriceLevel) -> LevelModel {
    LevelModel { price: l.price, orders: l.orders@.map_values(|o: Order| order_view(o)) }
}

/// The model a whole side denotes.
pub open spec fn side_view(levels: Seq<PriceLevel>) -> Seq<LevelModel> {
    levels.map_values(|l: PriceLevel| level_view(l))
}

/// Every order of the level carries the expected side and asset pair.
pub open spec fn exec_level_ok(l: PriceLevel, side: OrderSide, oa: BrokerAsset, pa: BrokerAsset) -> bool {
    forall|k: int|
        0 <= k < l.orders@.len() ==> (#[trigger] l.orders@[k]).side == side
            && l.orders@[k].order_asset == oa && l.orders@[k].price_asset == pa
}

/// Every level of the side satisfies `exec_level_ok`.
pub open spec fn exec_side_ok(
    levels: Seq<PriceLevel>,
    side: OrderSide,
    oa: BrokerAsset,
    pa: BrokerAsset,
) -> bool {
    forall|i: int| 0 <= i < levels.len() ==> exec_level_ok(#[trigger] levels[i], side, oa, pa)
}

/// The order-id index agrees with the book: it holds exactly the resting
/// ids, each mapped to the side and price of the level holding the order.
pub open spec fn index_ok(m: Map<u64, OrderLocation>, b: BookModel) -> bool {
    &&& forall|k: u64|
        #![trigger m.contains_key(k)]
        #![trigger book_has_id(b, k)]
        m.contains_key(k) <==> book_has_id(b, k)
    &&& forall|k: u64|
        #[trigger] m.contains_key(k) ==> level_at_price_has(
            side_levels(b, m[k].side),
            m[k].price,
            k,
        )
}

/// A single-instrument order book with price-time-priority matching.
pub struct Orderbook {
    order_asset: BrokerAsset,
    price_asset: BrokerAsset,
    bids: Vec<PriceLevel>,
    asks: Vec<PriceLevel>,
    index: HashMap<u64, OrderLocation>,
    id_counter: u64,
}

impl View for Orderbook {
    type V = BookModel;

    closed spec fn view(&self) -> BookModel {
        BookModel {
            order_asset: self.order_asset,
            price_asset: self.price_asset,
            bids: side_view(self.bids@),
            asks: side_view(self.asks@),
            next_id: self.id_counter,
        }
    }
}

impl Orderbook {
    /// The book's internal invariant: the model invariant plus agreement of
    /// the executable structures with it.
    pub closed spec fn wf(self) -> bool {
        &&& book_wf(self@)
        &&& exec_side_ok(self.bids@, OrderSide::Bid, self.order_asset, self.price_asset)
        &&& exec_side_ok(self.asks@, OrderSide::Ask, self.order_asset, self.price_asset)
        &&& index_ok(self.index@, self@)
    }

    /// Creates an empty book fixed to the given asset pair; ids start at 1.
    pub fn new(order_asset: BrokerAsset, price_asset: BrokerAsset) -> (r: Orderbook)
        ensures
            r.wf(),
            r@ == empty_book(order_asset, price_asset),
    {
        let r = Orderbook {
            order_asset,
            price_asset,
            bids: Vec::new(),
            asks: Vec::new(),
            index: HashMap::new(),
            id_counter: 1,
        };
        proof {
            assert(side_view(r.bids@) =~= Seq::<LevelModel>::empty());
            assert(side_view(r.asks@) =~= Seq::<LevelModel>::empty());
            assert(r@ =~= empty_book(order_asset, price_asset));
        }
        r
    }

    /// One matching run of an incoming order against the opposing side,
    /// mirroring `match_rec` step for step: pop the head of the best
    /// eligible level, emit the incoming and resting fill events, and
    /// recurse on the unmatched remainder. Fully consumed ids leave the
    /// order-id index; no other index entry changes.
    #[verifier::rlimit(100)]
    fn match_step(
        levels: &mut Vec<PriceLevel>,
        index: &mut HashMap<u64, OrderLocation>,
        events: &mut Vec<Result<Success, Failed>>,
        side: OrderSide,
        otype: OrderType,
        limit: u64,
        id: u64,
        qty: u64,
        oa: Ghost<BrokerAsset>,
        pa: Ghost<BrokerAsset>,
    ) -> (remaining: u64)
        requires
            side_wf(side.spec_opposite(), side_view(old(levels)@)),
            side_ids_unique(side_view(old(levels)@)),
            exec_side_ok(old(levels)@, side.spec_opposite(), oa@, pa@),
        ensures
            ({
                let m = match_rec(side_view(old(levels)@), side, otype, limit, id, qty);
                &&& side_view(final(levels)@) == m.levels
                &&& remaining == m.remaining
                &&& final(events)@ == old(events)@ + m.events
                &&& exec_side_ok(final(levels)@, side.spec_opposite(), oa@, pa@)
                &&& forall|k: u64|
                    #[trigger] final(index)@.contains_key(k) <==> old(index)@.contains_key(k)
                        && !(side_has_id(side_view(old(levels)@), k) && !side_has_id(
                        side_view(final(levels)@),
                        k,
                    ))
                &&& forall|k: u64|
                    #[trigger] final(index)@.contains_key(k) ==> final(index)@[k] == old(
                        index,
                    )@[k]
            }),
        decreases qty,
    {
        let ghost lv0 = side_view(levels@);
        let ghost ev0 = events@;
        let ghost idx0 = index@;
        let ghost opp = side.spec_opposite();
        let ghost m = match_rec(lv0, side, otype, limit, id, qty);
        if qty == 0 {
            proof {
                assert(m.levels == lv0 && m.remaining == qty && m.events == Seq::<
                    Result<Success, Failed>,
                >::empty());
                assert(events@ =~= ev0 + m.events);
            }
            return qty;
        }
        if levels.len() == 0 {
            proof {
                assert(lv0.len() == 0);
                assert(m.levels == lv0 && m.remaining == qty && m.events == Seq::<
                    Result<Success, Failed>,
                >::empty());
                assert(events@ =~= ev0 + m.events);
            }
            return qty;
        }
        let lp = levels[0].price;
        proof {
            assert(lv0[0] == level_view(levels@[0]));
            assert(lv0[0].price == lp);
        }
        let stop = match otype {
            OrderType::Market => false,
            OrderType::Limit => match side {
                OrderSide::Bid => lp > limit,
                OrderSide::Ask => lp < limit,
            },
        };
        if stop {
            proof {
                assert(!eligible(side, otype, limit, lv0[0].price));
                assert(m.levels == lv0 && m.remaining == qty && m.events == Seq::<
                    Result<Success, Failed>,
                >::empty());
                assert(events@ =~= ev0 + m.events);
            }
            return qty;
        }
        proof {
            assert(eligible(side, otype, limit, lv0[0].price));
            assert(level_wf(lv0[0]));
            assert(lv0[0].orders.len() == levels@[0].orders@.len());
            assert(lv0[0].orders[0] == order_view(levels@[0].orders@[0]));
            assert(lv0[0].orders[0].qty > 0);
        }
        let mut level = levels.remove(0);
        let resting: Order = level.orders[0];
        let ghost rm = lv0[0].orders[0];
        let matched = if qty <= resting.qty {
            qty
        } else {
            resting.qty
        };
        let iev = if matched == qty {
            Success::Filled { order_id: id, side, order_type: otype, price: lp, qty: matched }
        } else {
            Success::PartiallyFilled {
                order_id: id,
                side,
                order_type: otype,
                price: lp,
                qty: matched,
            }
        };
        let rev = if matched == resting.qty {
            Success::Filled {
                order_id: resting.order_id,
                side: side.opposite(),
                order_type: OrderType::Limit,
                price: lp,
                qty: matched,
            }
        } else {
            Success::PartiallyFilled {
                order_id: resting.order_id,
                side: side.opposite(),
                order_type: OrderType::Limit,
                price: lp,
                qty: matched,
            }
        };
        events.push(Ok(iev));
        events.push(Ok(rev));
        let ghost next = if matched == rm.qty {
            if lv0[0].orders.len() == 1 {
                lv0.drop_first()
            } else {
                lv0.update(
                    0,
                    LevelModel { price: lv0[0].price, orders: lv0[0].orders.drop_first() },
                )
            }
        } else {
            lv0.update(
                0,
                LevelModel {
                    price: lv0[0].price,
                    orders: lv0[0].orders.update(
                        0,
                        OrderModel {
                            order_id: rm.order_id,
                            price: rm.price,
                            qty: (rm.qty - matched) as u64,
                        },
                    ),
                },
            )
        };
        if matched == resting.qty {
            let _ = level.orders.remove(0);
            index.remove(&resting.order_id);
            if level.orders.len() > 0 {
                levels.insert(0, level);
                proof {
                    assert(level_view(levels@[0]).orders =~= lv0[0].orders.drop_first());
                    assert(level_view(levels@[0]) =~= next[0]);
                    assert(side_view(levels@) =~= next) by {
                        assert forall|i: int|
                            0 <= i < levels@.len() implies level_view(#[trigger] levels@[i])
                            == next[i] by {
                            if i > 0 {
                                assert(levels@[i] == old(levels)@[i]);
                                assert(next[i] == lv0[i]);
                            }
                        }
                    }
                }
            } else {
                proof {
                    assert(lv0[0].orders.len() == 1);
                    assert(side_view(levels@) =~= next) by {
                        assert forall|i: int|
                            0 <= i < levels@.len() implies level_view(#[trigger] levels@[i])
                            == next[i] by {
                            assert(levels@[i] == old(levels)@[i + 1]);
                            assert(next[i] == lv0[i + 1]);
                        }
                    }
                }
            }
            proof {
                lemma_match_step_full(lv0, opp);
                assert(index@ == idx0.remove(rm.order_id));
            }
        } else {
            let mut o = level.orders.remove(0);
            o.qty = o.qty - matched;
            level.orders.insert(0, o);
            levels.insert(0, level);
            proof {
                assert(order_view(o) == OrderModel {
                    order_id: rm.order_id,
                    price: rm.price,
                    qty: (rm.qty - matched) as u64,
                });
                assert(level_view(levels@[0]).orders =~= lv0[0].orders.update(
                    0,
                    order_view(o),
                ));
                assert(level_view(levels@[0]) =~= next[0]);
                assert(side_view(levels@) =~= next) by {
                    assert forall|i: int|
                        0 <= i < levels@.len() implies level_view(#[trigger] levels@[i])
                        == next[i] by {
                        if i > 0 {
                            assert(levels@[i] == old(levels)@[i]);
                            assert(next[i] == lv0[i]);
                        }
                    }
                }
                lemma_match_step_partial(lv0, opp, order_view(o));
            }
        }
        proof {
            assert(side_wf(opp, next));
            assert(side_ids_unique(next));
            assert(exec_side_ok(levels@, opp, oa@, pa@)) by {
                assert forall|i: int|
                    0 <= i < levels@.len() implies exec_level_ok(
                    #[trigger] levels@[i],
                    opp,
                    oa@,
                    pa@,
                ) by {
                    if matched == rm.qty && lv0[0].orders.len() == 1 {
                        assert(levels@[i] == old(levels)@[i + 1]);
                        assert(exec_level_ok(old(levels)@[i + 1], opp, oa@, pa@));
                    } else if i > 0 {
                        assert(levels@[i] == old(levels)@[i]);
                        assert(exec_level_ok(old(levels)@[i], opp, oa@, pa@));
                    } else {
                        assert(exec_level_ok(old(levels)@[0], opp, oa@, pa@));
                        assert forall|k: int|
                            0 <= k < levels@[0].orders@.len() implies (
                        #[trigger] levels@[0].orders@[k]).side == opp
                            && levels@[0].orders@[k].order_asset == oa@
                            && levels@[0].orders@[k].price_asset == pa@ by {
                            if matched == rm.qty {
                                assert(levels@[0].orders@[k] == old(levels)@[0].orders@[k + 1]);
                            } else {
                                if k == 0 {
                                    assert(levels@[0].orders@[0].side == old(
                                        levels,
                                    )@[0].orders@[0].side);
                                } else {
                                    assert(levels@[0].orders@[k] == old(levels)@[0].orders@[k]);
                                }
                            }
                        }
                    }
                }
            }
        }
        let ghost idx1 = index@;
        let ghost ev1 = events@;
        let rem = Self::match_step(
            levels,
            index,
            events,
            side,
            otype,
            limit,
            id,
            qty - matched,
            oa,
            pa,
        );
        proof {
            let mr = match_rec(next, side, otype, limit, id, (qty - matched) as u64);
            assert(m.levels == mr.levels && m.remaining == mr.remaining && m.events == seq![
                Ok::<Success, Failed>(iev),
                Ok::<Success, Failed>(rev),
            ] + mr.events);
            assert(events@ =~= ev0 + m.events) by {
                assert(ev1 =~= ev0 + seq![Ok::<Success, Failed>(iev), Ok::<Success, Failed>(rev)]);
                assert(events@ == ev1 + mr.events);
            }
            lemma_match_wf(next, side, otype, limit, id, (qty - matched) as u64);
            // the index holds exactly the surviving ids it held before
            assert forall|k: u64| #[trigger] index@.contains_key(k) <==> idx0.contains_key(k) && !(
            side_has_id(lv0, k) && !side_has_id(side_view(levels@), k)) by {
                if matched == rm.qty {
                    assert(side_has_id(lv0, rm.order_id)) by {
                        assert(lv0[0].orders[0].order_id == rm.order_id);
                        assert(level_has_id(lv0[0], rm.order_id));
                    }
                    if k == rm.order_id {
                        assert(!idx1.contains_key(k));
                        assert(!index@.contains_key(k));
                        assert(!side_has_id(next, k));
                        assert(!side_has_id(side_view(levels@), k));
                    } else {
                        assert(idx1.contains_key(k) == idx0.contains_key(k));
                        assert(side_has_id(next, k) == side_has_id(lv0, k));
                    }
                } else {
                    assert(idx1 == idx0);
                    assert(side_has_id(next, k) == side_has_id(lv0, k));
                }
            }
        }
        rem
    }

    /// The number of levels that come strictly before `price` in the side's
    /// traversal order, scanning from position `i`.
    fn find_insert_pos(levels: &Vec<PriceLevel>, side: OrderSide, price: u64, i: usize) -> (r:
        usize)
        requires
            i <= levels@.len(),
            forall|j: int|
                0 <= j < i ==> price_before(side, (#[trigger] levels@[j]).price, price),
        ensures
            i <= r <= levels@.len(),
            forall|j: int|
                0 <= j < r ==> price_before(side, (#[trigger] levels@[j]).price, price),
            r < levels@.len() ==> !price_before(side, levels@[r as int].price, price),
        decreases levels@.len() - i,
    {
        if i == levels.len() {
            return i;
        }
        let go = match side {
            OrderSide::Bid => levels[i].price > price,
            OrderSide::Ask => levels[i].price < price,
        };
        if go {
            Self::find_insert_pos(levels, side, price, i + 1)
        } else {
            i
        }
    }

    /// Rests an order on its side: appended to its price's queue when that
    /// level exists, else as a fresh level at its sorted position.
    fn insert_resting(
        levels: &mut Vec<PriceLevel>,
        ord: Order,
        side: OrderSide,
        oa: Ghost<BrokerAsset>,
        pa: Ghost<BrokerAsset>,
    )
        requires
            side_wf(side, side_view(old(levels)@)),
            exec_side_ok(old(levels)@, side, oa@, pa@),
            ord.qty > 0,
            ord.side == side,
            ord.order_asset == oa@,
            ord.price_asset == pa@,
        ensures
            side_view(final(levels)@) == insert_order(
                side_view(old(levels)@),
                side,
                order_view(ord),
            ),
            exec_side_ok(final(levels)@, side, oa@, pa@),
    {
        let ghost sv = side_view(old(levels)@);
        let ghost om = order_view(ord);
        let i = Self::find_insert_pos(levels, side, ord.price, 0);
        proof {
            assert forall|j: int| 0 <= j < i implies price_before(
                side,
                (#[trigger] sv[j]).price,
                om.price,
            ) by {
                assert(sv[j].price == levels@[j].price);
            }
            lemma_insert_order_skip(sv, side, om, i as int);
        }
        let ghost tail = sv.skip(i as int);
        if i < levels.len() && levels[i].price == ord.price {
            let mut lvl = levels.remove(i);
            lvl.orders.push(ord);
            levels.insert(i, lvl);
            proof {
                assert(tail[0] == sv[i as int]);
                assert(insert_order(tail, side, om) == tail.update(
                    0,
                    LevelModel { price: om.price, orders: tail[0].orders.push(om) },
                ));
                assert(level_view(levels@[i as int]).orders =~= sv[i as int].orders.push(om));
                assert(side_view(levels@) =~= sv.take(i as int) + insert_order(tail, side, om))
                    by {
                    assert forall|j: int|
                        0 <= j < levels@.len() implies level_view(#[trigger] levels@[j]) == (
                    sv.take(i as int) + insert_order(tail, side, om))[j] by {
                        if j < i {
                            assert(levels@[j] == old(levels)@[j]);
                        } else if j == i {
                            assert(level_view(levels@[j]) =~= LevelModel {
                                price: om.price,
                                orders: tail[0].orders.push(om),
                            });
                        } else {
                            assert(levels@[j] == old(levels)@[j]);
                            assert((sv.take(i as int) + insert_order(tail, side, om))[j] == tail[j
                                - i]);
                            assert(tail[j - i] == sv[j]);
                        }
                    }
                }
            }
        } else {
            let mut q: Vec<Order> = Vec::new();
            q.push(ord);
            levels.insert(i, PriceLevel { price: ord.price, orders: q });
            proof {
                let nl = LevelModel { price: om.price, orders: seq![om] };
                if i == levels@.len() - 1 && tail.len() == 0 {
                    assert(insert_order(tail, side, om) == seq![nl]);
                } else {
                    assert(tail[0] == sv[i as int]);
                    assert(tail[0].price != om.price);
                    assert(!price_before(side, sv[i as int].price, om.price));
                    assert(price_before(side, om.price, tail[0].price));
                    assert(insert_order(tail, side, om) == tail.insert(0, nl));
                }
                assert(level_view(levels@[i as int]) =~= nl);
                assert(side_view(levels@) =~= sv.take(i as int) + insert_order(tail, side, om))
                    by {
                    assert forall|j: int|
                        0 <= j < levels@.len() implies level_view(#[trigger] levels@[j]) == (
                    sv.take(i as int) + insert_order(tail, side, om))[j] by {
                        if j < i {
                            assert(levels@[j] == old(levels)@[j]);
                        } else if j == i {
                        } else {
                            assert(levels@[j] == old(levels)@[j - 1]);
                            assert((sv.take(i as int) + insert_order(tail, side, om))[j]
                                == tail.insert(0, nl)[j - i]);
                            assert(tail.insert(0, nl)[j - i] == tail[j - i - 1]);
                            assert(tail[j - i - 1] == sv[j - 1]);
                        }
                    }
                }
            }
        }
        proof {
            assert(exec_side_ok(levels@, side, oa@, pa@)) by {
                assert forall|j: int|
                    0 <= j < levels@.len() implies exec_level_ok(
                    #[trigger] levels@[j],
                    side,
                    oa@,
                    pa@,
                ) by {
                    if j < i {
                        assert(levels@[j] == old(levels)@[j]);
                    } else if j == i {
                        assert forall|k: int|
                            0 <= k < levels@[j].orders@.len() implies (
                        #[trigger] levels@[j].orders@[k]).side == side
                            && levels@[j].orders@[k].order_asset == oa@
                            && levels@[j].orders@[k].price_asset == pa@ by {
                            if k < levels@[j].orders@.len() - 1 && levels@.len() == old(
                                levels,
                            )@.len() {
                                assert(levels@[j].orders@[k] == old(levels)@[j].orders@[k]);
                            } else if levels@.len() == old(levels)@.len() && k == levels@[j].orders@.len()
                                - 1 {
                                assert(levels@[j].orders@[k] == ord);
                            } else {
                                assert(levels@[j].orders@[k] == ord);
                            }
                        }
                    } else {
                        if levels@.len() == old(levels)@.len() {
                            assert(levels@[j] == old(levels)@[j]);
                        } else {
                            assert(levels@[j] == old(levels)@[j - 1]);
                        }
                    }
                }
            }
        }
    }

    /// A new market or limit order: validate, accept under a fresh id, match,
    /// then rest a limit remainder or report a market order with no match.
    fn process_new(
        &mut self,
        order_asset: BrokerAsset,
        price_asset: BrokerAsset,
        side: OrderSide,
        otype: OrderType,
        price: u64,
        qty: u64,
    ) -> (res: OrderProcessingResult)
        requires
            old(self).wf(),
            old(self)@.next_id < u64::MAX,
        ensures
            final(self).wf(),
            final(self)@ == spec_new_order(
                old(self)@,
                order_asset,
                price_asset,
                side,
                otype,
                price,
                qty,
            ).book,
            res@ == spec_new_order(
                old(self)@,
                order_asset,
                price_asset,
                side,
                otype,
                price,
                qty,
            ).events,
    {
        let ghost b0 = self@;
        let ghost b0_index = self.index@;
        let ghost so = spec_new_order(b0, order_asset, price_asset, side, otype, price, qty);
        let mut res: Vec<Result<Success, Failed>> = Vec::new();
        if !(order_asset == self.order_asset && price_asset == self.price_asset) {
            res.push(Err(Failed::Validation(ValidationReason::AssetMismatch)));
            proof {
                assert(res@ =~= so.events);
            }
            return res;
        }
        if qty == 0 {
            res.push(Err(Failed::Validation(ValidationReason::NonPositiveQty)));
            proof {
                assert(res@ =~= so.events);
            }
            return res;
        }
        if otype == OrderType::Limit && price == 0 {
            res.push(Err(Failed::Validation(ValidationReason::NonPositivePrice)));
            proof {
                assert(res@ =~= so.events);
            }
            return res;
        }
        proof {
            assert(validate_new(b0, order_asset, price_asset, otype, price, qty) is None);
        }
        let id = self.id_counter;
        self.id_counter = id + 1;
        res.push(Ok(Success::Accepted { id, side, order_type: otype, qty }));
        let goa = Ghost(self.order_asset);
        let gpa = Ghost(self.price_asset);
        let ghost opplv = side_levels(b0, side.spec_opposite());
        let ghost m = match_rec(opplv, side, otype, price, id, qty);
        let remaining = match side {
            OrderSide::Bid => Self::match_step(
                &mut self.asks,
                &mut self.index,
                &mut res,
                side,
                otype,
                price,
                id,
                qty,
                goa,
                gpa,
            ),
            OrderSide::Ask => Self::match_step(
                &mut self.bids,
                &mut self.index,
                &mut res,
                side,
                otype,
                price,
                id,
                qty,
                goa,
                gpa,
            ),
        };
        proof {
            lemma_match_wf(opplv, side, otype, price, id, qty);
        }
        let ghost b2 = BookModel { next_id: (id + 1) as u64, ..with_side(b0, side.spec_opposite(), m.levels) };
        let mut rested: bool = false;
        if remaining > 0 {
            if otype == OrderType::Limit {
                let ord = Order {
                    order_id: id,
                    order_asset,
                    price_asset,
                    side,
                    price,
                    qty: remaining,
                };
                proof {
                    assert(side_ids_below(side_levels(b0, side), id));
                    assert(!side_has_id(side_levels(b0, side), id)) by {
                        if side_has_id(side_levels(b0, side), id) {
                            let i = choose|i: int|
                                0 <= i < side_levels(b0, side).len() && level_has_id(
                                    #[trigger] side_levels(b0, side)[i],
                                    id,
                                );
                            let k = choose|k: int|
                                0 <= k < side_levels(b0, side)[i].orders.len() && (
                                #[trigger] side_levels(b0, side)[i].orders[k]).order_id == id;
                        }
                    }
                    lemma_insert_order_props(side_levels(b0, side), side, order_view(ord));
                }
                match side {
                    OrderSide::Bid => Self::insert_resting(&mut self.bids, ord, side, goa, gpa),
                    OrderSide::Ask => Self::insert_resting(&mut self.asks, ord, side, goa, gpa),
                };
                self.index.insert(id, OrderLocation { side, price });
                rested = true;
            } else {
                if res.len() == 1 {
                    res.push(Err(Failed::NoMatch(id)));
                }
            }
        }
        proof {
            let opp = side.spec_opposite();
            assert(side_levels(self@, opp) == m.levels);
            if rested {
                let ordm = OrderModel { order_id: id, price, qty: m.remaining };
                assert(side_levels(self@, side) == insert_order(
                    side_levels(b2, side),
                    side,
                    ordm,
                ));
                assert(self@ =~= so.book);
            } else {
                assert(side_levels(self@, side) == side_levels(b0, side));
                assert(self@ =~= so.book);
            }
            assert(res@ == so.events) by {
                if m.remaining > 0 && otype == OrderType::Market && m.events.len() == 0 {
                    assert(res@ =~= (seq![
                        Ok::<Success, Failed>(
                            Success::Accepted { id, side, order_type: otype, qty },
                        ),
                    ] + m.events).push(Err(Failed::NoMatch(id))));
                } else {
                    assert(res@ =~= seq![
                        Ok::<Success, Failed>(
                            Success::Accepted { id, side, order_type: otype, qty },
                        ),
                    ] + m.events);
                }
            }
            crate::model::lemma_new_order_wf(b0, order_asset, price_asset, side, otype, price, qty);
            assert(book_wf(self@));
            // the executable sides still carry the right side and asset pair
            assert(exec_side_ok(self.bids@, OrderSide::Bid, self.order_asset, self.price_asset));
            assert(exec_side_ok(self.asks@, OrderSide::Ask, self.order_asset, self.price_asset));
            // the id index holds exactly the surviving ids plus a rested one
            let ownlv0 = side_levels(b0, side);
            assert(index_ok(self.index@, self@)) by {
                assert forall|k: u64|
                    #[trigger] self.index@.contains_key(k) <==> book_has_id(self@, k) by {
                    if side_has_id(m.levels, k) {
                        assert(side_has_id(opplv, k));
                    }
                    if side_has_id(ownlv0, k) {
                        assert(!side_has_id(opplv, k));
                    }
                    if k == id {
                        assert(!side_has_id(ownlv0, k) && !side_has_id(opplv, k)) by {
                            if side_has_id(ownlv0, k) {
                                let i = choose|i: int|
                                    0 <= i < ownlv0.len() && level_has_id(#[trigger] ownlv0[i], k);
                                let j = choose|j: int|
                                    0 <= j < ownlv0[i].orders.len() && (
                                    #[trigger] ownlv0[i].orders[j]).order_id == k;
                            }
                            if side_has_id(opplv, k) {
                                let i = choose|i: int|
                                    0 <= i < opplv.len() && level_has_id(#[trigger] opplv[i], k);
                                let j = choose|j: int|
                                    0 <= j < opplv[i].orders.len() && (
                                    #[trigger] opplv[i].orders[j]).order_id == k;
                            }
                        }
                        assert(!side_has_id(m.levels, k));
                    }
                }
                assert forall|k: u64| #[trigger] self.index@.contains_key(k) implies
                    level_at_price_has(
                    side_levels(self@, self.index@[k].side),
                    self.index@[k].price,
                    k,
                ) by {
                    if rested && k == id {
                        assert(self.index@[k] == (OrderLocation { side, price }));
                    } else {
                        assert(self.index@[k] == b0_index[k]);
                        let loc = b0_index[k];
                        assert(level_at_price_has(side_levels(b0, loc.side), loc.price, k));
                        if loc.side == side {
                            if rested {
                                assert(level_at_price_has(
                                    side_levels(self@, side),
                                    loc.price,
                                    k,
                                ));
                            } else {
                                assert(side_levels(self@, side) == ownlv0);
                            }
                        } else {
                            assert(side_has_id(opplv, k)) by {
                                let i = choose|i: int|
                                    0 <= i < opplv.len() && (#[trigger] opplv[i]).price
                                        == loc.price && level_has_id(opplv[i], k);
                            }
                            assert(!side_has_id(ownlv0, k));
                            assert(side_has_id(m.levels, k));
                            assert(level_at_price_has(m.levels, loc.price, k));
                        }
                    }
                }
            }
        }
        res
    }

    /// The first level index at or after `i` whose price is exactly `price`.
    fn find_level(levels: &Vec<PriceLevel>, price: u64, i: usize) -> (r: usize)
        requires
            i <= levels@.len(),
            forall|j: int| 0 <= j < i ==> (#[trigger] levels@[j]).price != price,
            exists|w: int| i <= w < levels@.len() && (#[trigger] levels@[w]).price == price,
        ensures
            i <= r < levels@.len(),
            levels@[r as int].price == price,
            forall|j: int| 0 <= j < r ==> (#[trigger] levels@[j]).price != price,
        decreases levels@.len() - i,
    {
        let n = levels.len();
        proof {
            let w = choose|w: int|
                i <= w < levels@.len() && (#[trigger] levels@[w]).price == price;
            assert(i <= w < levels@.len());
            assert(i < n);
        }
        if levels[i].price == price {
            i
        } else {
            Self::find_level(levels, price, i + 1)
        }
    }

    /// The first queue position at or after `i` holding the given order id.
    fn find_order_pos(orders: &Vec<Order>, id: u64, i: usize) -> (r: usize)
        requires
            i <= orders@.len(),
            forall|j: int| 0 <= j < i ==> (#[trigger] orders@[j]).order_id != id,
            exists|w: int| i <= w < orders@.len() && (#[trigger] orders@[w]).order_id == id,
        ensures
            i <= r < orders@.len(),
            orders@[r as int].order_id == id,
            forall|j: int| 0 <= j < r ==> (#[trigger] orders@[j]).order_id != id,
        decreases orders@.len() - i,
    {
        let n = orders.len();
        proof {
            let w = choose|w: int|
                i <= w < orders@.len() && (#[trigger] orders@[w]).order_id == id;
            assert(i <= w < orders@.len());
            assert(i < n);
        }
        if orders[i].order_id == id {
            i
        } else {
            Self::find_order_pos(orders, id, i + 1)
        }
    }

    /// Removes the resting order with this id from the side that holds it,
    /// dropping its level if the removal empties it. Returns where the order
    /// sat and the order itself, so a caller can restore it exactly.
    fn remove_resting(
        levels: &mut Vec<PriceLevel>,
        side: OrderSide,
        id: u64,
        price: u64,
        oa: Ghost<BrokerAsset>,
        pa: Ghost<BrokerAsset>,
    ) -> (r: (usize, usize, Order))
        requires
            side_wf(side, side_view(old(levels)@)),
            side_ids_unique(side_view(old(levels)@)),
            exec_side_ok(old(levels)@, side, oa@, pa@),
            level_at_price_has(side_view(old(levels)@), price, id),
        ensures
            ({
                let sv = side_view(old(levels)@);
                let li = r.0 as int;
                let oi = r.1 as int;
                &&& side_view(final(levels)@) == remove_id(sv, id)
                &&& exec_side_ok(final(levels)@, side, oa@, pa@)
                &&& 0 <= li < sv.len()
                &&& 0 <= oi < sv[li].orders.len()
                &&& sv[li].price == price
                &&& order_view(r.2) == sv[li].orders[oi]
                &&& r.2.order_id == id
                &&& r.2.side == side
                &&& r.2.order_asset == oa@
                &&& r.2.price_asset == pa@
                &&& r.2.qty > 0
                &&& r.2.price == price
                &&& (sv[li].orders.len() == 1 ==> oi == 0 && remove_id(sv, id) == sv.remove(li))
                &&& (sv[li].orders.len() > 1 ==> remove_id(sv, id) == sv.update(
                    li,
                    LevelModel { price: sv[li].price, orders: sv[li].orders.remove(oi) },
                ))
            }),
    {
        let ghost sv = side_view(old(levels)@);
        proof {
            let w = choose|w: int|
                0 <= w < sv.len() && (#[trigger] sv[w]).price == price && level_has_id(sv[w], id);
            assert(levels@[w].price == price);
        }
        let li = Self::find_level(levels, price, 0);
        proof {
            // the level found by price is the one holding the id
            let w = choose|w: int|
                0 <= w < sv.len() && (#[trigger] sv[w]).price == price && level_has_id(sv[w], id);
            assert(w == li) by {
                if w != li {
                    assert(price_before(side, sv[w].price, sv[li as int].price) || price_before(
                        side,
                        sv[li as int].price,
                        sv[w].price,
                    ));
                }
            }
            assert(level_has_id(sv[li as int], id));
            let wo = choose|wo: int|
                0 <= wo < sv[li as int].orders.len() && (#[trigger] sv[li as int].orders[wo]).order_id
                    == id;
            assert(levels@[li as int].orders@[wo].order_id == id);
        }
        let mut lvl = levels.remove(li);
        let oi = Self::find_order_pos(&lvl.orders, id, 0);
        let removed = lvl.orders.remove(oi);
        let keep = lvl.orders.len() > 0;
        if keep {
            levels.insert(li, lvl);
        }
        proof {
            let lio = li as int;
            let oio = oi as int;
            assert(level_wf(sv[lio]));
            assert(order_view(removed) == sv[lio].orders[oio]);
            assert(removed.side == side && removed.order_asset == oa@ && removed.price_asset
                == pa@) by {
                assert(exec_level_ok(old(levels)@[lio], side, oa@, pa@));
                assert(old(levels)@[lio].orders@[oio].side == side);
            }
            // levels before the found one cannot hold the id
            assert forall|j: int| 0 <= j < lio implies !level_has_id(#[trigger] sv[j], id) by {
                if level_has_id(sv[j], id) {
                    let jo = choose|jo: int|
                        0 <= jo < sv[j].orders.len() && (#[trigger] sv[j].orders[jo]).order_id
                            == id;
                    let wo = choose|wo: int|
                        0 <= wo < sv[lio].orders.len() && (#[trigger] sv[lio].orders[wo]).order_id
                            == id;
                    assert(sv[j].orders[jo].order_id != sv[lio].orders[wo].order_id);
                }
            }
            lemma_remove_id_skip(sv, id, lio);
            let tail = sv.skip(lio);
            assert(tail[0] == sv[lio]);
            // within the level, the found position is the first occurrence
            assert forall|l: int| 0 <= l < oio implies (#[trigger] sv[lio].orders[l]).order_id
                != id by {
                assert(sv[lio].orders[l].order_id == old(levels)@[lio].orders@[l].order_id);
            }
            lemma_remove_in_orders_at(sv[lio].orders, id, oio);
            let rest = sv[lio].orders.remove(oio);
            assert(level_has_id(tail[0], id));
            if rest.len() == 0 {
                assert(oio == 0);
                assert(remove_id(tail, id) == tail.drop_first());
                assert(remove_id(sv, id) =~= sv.remove(lio)) by {
                    assert(remove_id(sv, id) == sv.take(lio) + tail.drop_first());
                }
                assert(!keep);
                assert(side_view(levels@) =~= remove_id(sv, id)) by {
                    assert forall|j: int|
                        0 <= j < levels@.len() implies level_view(#[trigger] levels@[j])
                        == remove_id(sv, id)[j] by {
                        if j < lio {
                            assert(levels@[j] == old(levels)@[j]);
                        } else {
                            assert(levels@[j] == old(levels)@[j + 1]);
                        }
                    }
                }
            } else {
                let nl = LevelModel { price: sv[lio].price, orders: rest };
                assert(remove_id(tail, id) == tail.drop_first().insert(0, nl));
                assert(remove_id(sv, id) =~= sv.update(lio, nl)) by {
                    assert(remove_id(sv, id) == sv.take(lio) + tail.drop_first().insert(0, nl));
                }
                assert(keep);
                assert(level_view(levels@[lio]).orders =~= rest);
                assert(level_view(levels@[lio]) =~= nl);
                assert(side_view(levels@) =~= remove_id(sv, id)) by {
                    assert forall|j: int|
                        0 <= j < levels@.len() implies level_view(#[trigger] levels@[j])
                        == sv.update(lio, nl)[j] by {
                        if j < lio {
                            assert(levels@[j] == old(levels)@[j]);
                        } else if j == lio {
                        } else {
                            assert(levels@[j] == old(levels)@[j]);
                        }
                    }
                }
            }
            assert(exec_side_ok(levels@, side, oa@, pa@)) by {
                assert forall|j: int|
                    0 <= j < levels@.len() implies exec_level_ok(
                    #[trigger] levels@[j],
                    side,
                    oa@,
                    pa@,
                ) by {
                    if !keep {
                        if j < lio {
                            assert(levels@[j] == old(levels)@[j]);
                        } else {
                            assert(levels@[j] == old(levels)@[j + 1]);
                        }
                    } else if j != lio {
                        assert(levels@[j] == old(levels)@[j]);
                    } else {
                        assert(exec_level_ok(old(levels)@[lio], side, oa@, pa@));
                        assert forall|k: int|
                            0 <= k < levels@[lio].orders@.len() implies (
                        #[trigger] levels@[lio].orders@[k]).side == side
                            && levels@[lio].orders@[k].order_asset == oa@
                            && levels@[lio].orders@[k].price_asset == pa@ by {
                            if k < oio {
                                assert(levels@[lio].orders@[k] == old(levels)@[lio].orders@[k]);
                            } else {
                                assert(levels@[lio].orders@[k] == old(levels)@[lio].orders@[k
                                    + 1]);
                            }
                        }
                    }
                }
            }
        }
        (li, oi, removed)
    }

    /// Puts a just-removed resting order back exactly where it sat, undoing
    /// the removal without disturbing any queue position.
    fn restore_resting(
        levels: &mut Vec<PriceLevel>,
        li: usize,
        oi: usize,
        ord: Order,
        orig: Ghost<Seq<LevelModel>>,
        side: OrderSide,
        oa: Ghost<BrokerAsset>,
        pa: Ghost<BrokerAsset>,
    )
        requires
            side_wf(side, orig@),
            0 <= li < orig@.len(),
            0 <= oi < orig@[li as int].orders.len(),
            orig@[li as int].orders[oi as int] == order_view(ord),
            orig@[li as int].price == ord.price,
            ord.side == side,
            ord.order_asset == oa@,
            ord.price_asset == pa@,
            exec_side_ok(old(levels)@, side, oa@, pa@),
            orig@[li as int].orders.len() == 1 ==> oi == 0 && side_view(old(levels)@) == orig@.remove(
                li as int,
            ),
            orig@[li as int].orders.len() > 1 ==> side_view(old(levels)@) == orig@.update(
                li as int,
                LevelModel {
                    price: orig@[li as int].price,
                    orders: orig@[li as int].orders.remove(oi as int),
                },
            ),
        ensures
            side_view(final(levels)@) == orig@,
            exec_side_ok(final(levels)@, side, oa@, pa@),
    {
        let lio = li;
        if li < levels.len() && levels[li].price == ord.price {
            proof {
                // the level survived the removal, so the queue just shrank
                if orig@[li as int].orders.len() == 1 {
                    assert(side_view(levels@)[li as int] == orig@.remove(li as int)[li as int]);
                    assert(orig@.remove(li as int)[li as int] == orig@[li as int + 1]);
                    assert(price_before(side, orig@[li as int].price, orig@[li as int + 1].price));
                }
                assert(orig@[li as int].orders.len() > 1);
            }
            proof {
                assert(side_view(levels@)[li as int] == level_view(levels@[li as int]));
                assert(level_view(levels@[li as int]).orders == orig@[li as int].orders.remove(
                    oi as int,
                ));
                assert(levels@[li as int].orders@.len() == orig@[li as int].orders.len() - 1);
            }
            let mut lvl = levels.remove(li);
            lvl.orders.insert(oi, ord);
            levels.insert(li, lvl);
            proof {
                let lio = li as int;
                let oio = oi as int;
                assert(orig@[lio].orders.len() > 1);
                assert(side_view(old(levels)@) == orig@.update(
                    lio,
                    LevelModel { price: orig@[lio].price, orders: orig@[lio].orders.remove(oio) },
                ));
                assert(side_view(old(levels)@).len() == old(levels)@.len());
                assert(old(levels)@.len() == orig@.len());
                assert(levels@.len() == old(levels)@.len());
                assert(levels@[lio] == lvl);
                assert(lvl.orders@ == old(levels)@[lio].orders@.insert(oio, ord));
                assert(level_view(lvl).orders =~= orig@[lio].orders) by {
                    assert(level_view(old(levels)@[lio]).orders == orig@[lio].orders.remove(oio));
                    assert forall|k: int|
                        0 <= k < level_view(lvl).orders.len() implies (#[trigger] level_view(
                        lvl,
                    ).orders[k]) == orig@[lio].orders[k] by {
                        if k < oio {
                            assert(lvl.orders@[k] == old(levels)@[lio].orders@[k]);
                            assert(level_view(old(levels)@[lio]).orders[k] == orig@[lio].orders[k]);
                        } else if k == oio {
                            assert(lvl.orders@[k] == ord);
                        } else {
                            assert(lvl.orders@[k] == old(levels)@[lio].orders@[k - 1]);
                            assert(level_view(old(levels)@[lio]).orders[k - 1]
                                == orig@[lio].orders.remove(oio)[k - 1]);
                            assert(orig@[lio].orders.remove(oio)[k - 1] == orig@[lio].orders[k]);
                        }
                    }
                }
                assert(level_view(lvl) =~= orig@[lio]);
                assert(side_view(levels@) =~= orig@) by {
                    assert forall|j: int|
                        0 <= j < levels@.len() implies level_view(#[trigger] levels@[j])
                        == orig@[j] by {
                        if j < lio {
                            assert(levels@[j] == old(levels)@[j]);
                            assert(side_view(old(levels)@)[j] == orig@[j]);
                        } else if j > lio {
                            assert(levels@[j] == old(levels)@.remove(lio).insert(lio, lvl)[j]);
                            assert(levels@[j] == old(levels)@[j]);
                            assert(side_view(old(levels)@)[j] == orig@[j]);
                        }
                    }
                }
                assert(exec_side_ok(levels@, side, oa@, pa@)) by {
                    assert forall|j: int|
                        0 <= j < levels@.len() implies exec_level_ok(
                        #[trigger] levels@[j],
                        side,
                        oa@,
                        pa@,
                    ) by {
                        if j != li {
                            assert(levels@[j] == old(levels)@[j]);
                        } else {
                            assert(exec_level_ok(old(levels)@[j], side, oa@, pa@));
                            assert forall|k: int|
                                0 <= k < levels@[j].orders@.len() implies (
                            #[trigger] levels@[j].orders@[k]).side == side
                                && levels@[j].orders@[k].order_asset == oa@
                                && levels@[j].orders@[k].price_asset == pa@ by {
                                if k < oi {
                                    assert(levels@[j].orders@[k] == old(levels)@[j].orders@[k]);
                                } else if k == oi {
                                    assert(levels@[j].orders@[k] == ord);
                                } else {
                                    assert(levels@[j].orders@[k] == old(levels)@[j].orders@[k
                                        - 1]);
                                }
                            }
                        }
                    }
                }
            }
        } else {
            proof {
                // the level was dropped whole: it held only this order
                if orig@[li as int].orders.len() > 1 {
                    assert(side_view(levels@).len() == orig@.len());
                    assert(li < levels@.len());
                    assert(side_view(levels@)[li as int] == level_view(levels@[li as int]));
                    assert(levels@[li as int].price == orig@[li as int].price);
                    assert(levels@[li as int].price == ord.price);
                }
                assert(orig@[li as int].orders.len() == 1);
            }
            proof {
                assert(orig@[li as int].orders.len() == 1);
                assert(side_view(old(levels)@) == orig@.remove(li as int));
                assert(side_view(old(levels)@).len() == old(levels)@.len());
                assert(old(levels)@.len() == orig@.len() - 1);
                assert(li <= old(levels)@.len());
            }
            let mut q: Vec<Order> = Vec::new();
            q.push(ord);
            levels.insert(lio, PriceLevel { price: ord.price, orders: q });
            proof {
                let lio = li as int;
                assert(levels@.len() == old(levels)@.len() + 1);
                assert(levels@.len() == orig@.len());
                assert(levels@[lio].orders@ =~= seq![ord]);
                assert(level_view(levels@[lio]).orders =~= orig@[lio].orders) by {
                    assert(orig@[lio].orders[0] == order_view(ord));
                    assert(level_view(levels@[lio]).orders[0] == order_view(ord));
                }
                assert(level_view(levels@[lio]) =~= orig@[lio]);
                assert(side_view(levels@) =~= orig@) by {
                    assert forall|j: int|
                        0 <= j < levels@.len() implies level_view(#[trigger] levels@[j])
                        == orig@[j] by {
                        if j < lio {
                            assert(levels@[j] == old(levels)@[j]);
                            assert(side_view(old(levels)@)[j] == orig@.remove(lio)[j]);
                            assert(orig@.remove(lio)[j] == orig@[j]);
                        } else if j > lio {
                            assert(levels@[j] == old(levels)@[j - 1]);
                            assert(side_view(old(levels)@)[j - 1] == orig@.remove(lio)[j - 1]);
                            assert(orig@.remove(lio)[j - 1] == orig@[j]);
                        }
                    }
                }
                assert(exec_side_ok(levels@, side, oa@, pa@)) by {
                    assert forall|j: int|
                        0 <= j < levels@.len() implies exec_level_ok(
                        #[trigger] levels@[j],
                        side,
                        oa@,
                        pa@,
                    ) by {
                        if j < li {
                            assert(levels@[j] == old(levels)@[j]);
                        } else if j > li {
                            assert(levels@[j] == old(levels)@[j - 1]);
                        }
                    }
                }
            }
        }
    }

    /// A cancel: drop the order wherever it rests, or report an unknown id.
    fn process_cancel(&mut self, id: u64) -> (res: OrderProcessingResult)
        requires
            old(self).wf(),
        ensures
            final(self).wf(),
            final(self)@ == spec_cancel(old(self)@, id).book,
            res@ == spec_cancel(old(self)@, id).events,
    {
        let ghost b0 = self@;
        let ghost idx0 = self.index@;
        let mut res: Vec<Result<Success, Failed>> = Vec::new();
        let loc = match self.index.get(&id) {
            None => {
                proof {
                    assert(!idx0.contains_key(id));
                    assert(!book_has_id(b0, id));
                }
                res.push(Err(Failed::OrderNotFound(id)));
                proof {
                    assert(res@ =~= spec_cancel(b0, id).events);
                }
                return res;
            },
            Some(l) => *l,
        };
        proof {
            assert(idx0.contains_key(id));
            assert(level_at_price_has(side_levels(b0, loc.side), loc.price, id));
            assert(book_has_id(b0, id));
        }
        let goa = Ghost(self.order_asset);
        let gpa = Ghost(self.price_asset);
        let _rr = match loc.side {
            OrderSide::Bid => Self::remove_resting(
                &mut self.bids,
                OrderSide::Bid,
                id,
                loc.price,
                goa,
                gpa,
            ),
            OrderSide::Ask => Self::remove_resting(
                &mut self.asks,
                OrderSide::Ask,
                id,
                loc.price,
                goa,
                gpa,
            ),
        };
        self.index.remove(&id);
        res.push(Ok(Success::Cancelled { order_id: id }));
        proof {
            lemma_remove_id_props(b0.bids, OrderSide::Bid, id);
            lemma_remove_id_props(b0.asks, OrderSide::Ask, id);
            if loc.side == OrderSide::Bid {
                assert(side_has_id(b0.bids, id));
                assert(!side_has_id(b0.asks, id));
                lemma_remove_id_absent(b0.asks, id);
            } else {
                assert(side_has_id(b0.asks, id));
                assert(!side_has_id(b0.bids, id));
                lemma_remove_id_absent(b0.bids, id);
            }
            assert(self@ =~= spec_cancel(b0, id).book);
            assert(res@ =~= spec_cancel(b0, id).events);
            lemma_cancel_wf(b0, id);
            assert(book_wf(self@));
            assert(index_ok(self.index@, self@)) by {
                assert forall|k: u64|
                    #[trigger] self.index@.contains_key(k) <==> book_has_id(self@, k) by {
                    if k != id {
                        assert(self.index@.contains_key(k) == idx0.contains_key(k));
                        assert(side_has_id(self@.bids, k) == side_has_id(b0.bids, k));
                        assert(side_has_id(self@.asks, k) == side_has_id(b0.asks, k));
                    } else {
                        assert(!self.index@.contains_key(k));
                        assert(!side_has_id(self@.bids, k) && !side_has_id(self@.asks, k));
                    }
                }
                assert forall|k: u64| #[trigger] self.index@.contains_key(k) implies
                    level_at_price_has(
                    side_levels(self@, self.index@[k].side),
                    self.index@[k].price,
                    k,
                ) by {
                    assert(self.index@[k] == idx0[k]);
                    let lk = idx0[k];
                    assert(level_at_price_has(side_levels(b0, lk.side), lk.price, k));
                    assert(k != id);
                }
            }
            assert(self.wf());
        }
        res
    }

    /// An amend: validate, remove the old order, and rest the new one at the
    /// tail of its target level — unless it would cross the opposite side,
    /// in which case the book is left exactly as it was.
    fn process_amend(&mut self, id: u64, side: OrderSide, price: u64, qty: u64) -> (res:
        OrderProcessingResult)
        requires
            old(self).wf(),
        ensures
            final(self).wf(),
            final(self)@ == spec_amend(old(self)@, id, side, price, qty).book,
            res@ == spec_amend(old(self)@, id, side, price, qty).events,
    {
        let ghost b0 = self@;
        let ghost idx0 = self.index@;
        let ghost sa = spec_amend(b0, id, side, price, qty);
        let mut res: Vec<Result<Success, Failed>> = Vec::new();
        if qty == 0 {
            res.push(Err(Failed::Validation(ValidationReason::NonPositiveQty)));
            proof {
                assert(res@ =~= sa.events);
            }
            return res;
        }
        if price == 0 {
            res.push(Err(Failed::Validation(ValidationReason::NonPositivePrice)));
            proof {
                assert(res@ =~= sa.events);
            }
            return res;
        }
        let loc = match self.index.get(&id) {
            None => {
                proof {
                    assert(!idx0.contains_key(id));
                    assert(!book_has_id(b0, id));
                }
                res.push(Err(Failed::OrderNotFound(id)));
                proof {
                    assert(res@ =~= sa.events);
                }
                return res;
            },
            Some(l) => *l,
        };
        proof {
            assert(idx0.contains_key(id));
            assert(level_at_price_has(side_levels(b0, loc.side), loc.price, id));
            assert(book_has_id(b0, id));
        }
        let goa = Ghost(self.order_asset);
        let gpa = Ghost(self.price_asset);
        let rr = match loc.side {
            OrderSide::Bid => Self::remove_resting(
                &mut self.bids,
                OrderSide::Bid,
                id,
                loc.price,
                goa,
                gpa,
            ),
            OrderSide::Ask => Self::remove_resting(
                &mut self.asks,
                OrderSide::Ask,
                id,
                loc.price,
                goa,
                gpa,
            ),
        };
        proof {
            lemma_remove_id_props(b0.bids, OrderSide::Bid, id);
            lemma_remove_id_props(b0.asks, OrderSide::Ask, id);
            if loc.side == OrderSide::Bid {
                assert(side_has_id(b0.bids, id));
                assert(!side_has_id(b0.asks, id));
                lemma_remove_id_absent(b0.asks, id);
            } else {
                assert(side_has_id(b0.asks, id));
                assert(!side_has_id(b0.bids, id));
                lemma_remove_id_absent(b0.bids, id);
            }
            assert(side_view(self.bids@) == remove_id(b0.bids, id));
            assert(side_view(self.asks@) == remove_id(b0.asks, id));
        }
        let crossed = match side {
            OrderSide::Bid => self.asks.len() > 0 && price >= self.asks[0].price,
            OrderSide::Ask => self.bids.len() > 0 && price <= self.bids[0].price,
        };
        if crossed {
            // validation failures leave the book untouched: restore the
            // removed order exactly where it sat
            let ghost orig = side_levels(b0, loc.side);
            match loc.side {
                OrderSide::Bid => Self::restore_resting(
                    &mut self.bids,
                    rr.0,
                    rr.1,
                    rr.2,
                    Ghost(b0.bids),
                    OrderSide::Bid,
                    goa,
                    gpa,
                ),
                OrderSide::Ask => Self::restore_resting(
                    &mut self.asks,
                    rr.0,
                    rr.1,
                    rr.2,
                    Ghost(b0.asks),
                    OrderSide::Ask,
                    goa,
                    gpa,
                ),
            };
            res.push(Err(Failed::Validation(ValidationReason::AmendWouldCross)));
            proof {
                assert(self@ =~= b0);
                assert(self@ =~= sa.book);
                assert(res@ =~= sa.events);
                assert(self.wf());
            }
            return res;
        }
        let ord = Order {
            order_id: id,
            order_asset: self.order_asset,
            price_asset: self.price_asset,
            side,
            price,
            qty,
        };
        proof {
            let own2 = side_levels(self@, side);
            assert(!side_has_id(own2, id));
            lemma_insert_order_props(own2, side, OrderModel { order_id: id, price, qty });
        }
        match side {
            OrderSide::Bid => Self::insert_resting(&mut self.bids, ord, side, goa, gpa),
            OrderSide::Ask => Self::insert_resting(&mut self.asks, ord, side, goa, gpa),
        };
        self.index.insert(id, OrderLocation { side, price });
        res.push(Ok(Success::Amended { order_id: id }));
        proof {
            let bids2 = remove_id(b0.bids, id);
            let asks2 = remove_id(b0.asks, id);
            assert(self@ =~= sa.book);
            assert(res@ =~= sa.events);
            lemma_amend_wf(b0, id, side, price, qty);
            assert(book_wf(self@));
            assert(index_ok(self.index@, self@)) by {
                assert forall|k: u64|
                    #[trigger] self.index@.contains_key(k) <==> book_has_id(self@, k) by {
                    if k != id {
                        assert(self.index@.contains_key(k) == idx0.contains_key(k));
                        assert(side_has_id(bids2, k) == side_has_id(b0.bids, k));
                        assert(side_has_id(asks2, k) == side_has_id(b0.asks, k));
                        if side == OrderSide::Bid {
                            assert(side_has_id(self@.bids, k) == (side_has_id(bids2, k) || k
                                == id));
                            assert(self@.asks == asks2);
                        } else {
                            assert(side_has_id(self@.asks, k) == (side_has_id(asks2, k) || k
                                == id));
                            assert(self@.bids == bids2);
                        }
                    } else {
                        assert(self.index@.contains_key(id));
                        assert(side_has_id(side_levels(self@, side), id));
                    }
                }
                assert forall|k: u64| #[trigger] self.index@.contains_key(k) implies
                    level_at_price_has(
                    side_levels(self@, self.index@[k].side),
                    self.index@[k].price,
                    k,
                ) by {
                    if k == id {
                        assert(self.index@[k] == (OrderLocation { side, price }));
                        assert(level_at_price_has(side_levels(self@, side), price, id));
                    } else {
                        assert(self.index@[k] == idx0[k]);
                        let lk = idx0[k];
                        assert(level_at_price_has(side_levels(b0, lk.side), lk.price, k));
                        if lk.side == side {
                            assert(level_at_price_has(side_levels(self@, side), lk.price, k));
                        } else {
                            assert(level_at_price_has(side_levels(self@, lk.side), lk.price, k));
                        }
                    }
                }
            }
            assert(self.wf());
        }
        res
    }

    /// The single mutating entry point: dispatches one command through
    /// validation, matching, resting or removal, and returns the ordered
    /// event sequence `spec_process` prescribes for it.
    pub fn process_order(&mut self, order: OrderRequest) -> (res: OrderProcessingResult)
        requires
            old(self).wf(),
            (order is NewLimitOrder || order is NewMarketOrder) ==> old(self)@.next_id
                < u64::MAX,
        ensures
            final(self).wf(),
            final(self)@ == spec_process(old(self)@, order).book,
            res@ == spec_process(old(self)@, order).events,
    {
        match order {
            OrderRequest::NewMarketOrder { order_asset, price_asset, side, qty, .. } => self
                .process_new(order_asset, price_asset, side, OrderType::Market, 0, qty),
            OrderRequest::NewLimitOrder { order_asset, price_asset, side, price, qty, .. } => self
                .process_new(order_asset, price_asset, side, OrderType::Limit, price, qty),
            OrderRequest::AmendOrder { id, side, price, qty, .. } => self.process_amend(
                id,
                side,
                price,
                qty,
            ),
            OrderRequest::CancelOrder { id, .. } => self.process_cancel(id),
        }
    }

    /// The best bid and ask prices, or `None` while either side is empty.
    pub fn current_spread(&self) -> (r: Option<(u64, u64)>)
        requires
            self.wf(),
        ensures
            r == spec_spread(self@),
    {
        if self.bids.len() == 0 || self.asks.len() == 0 {
            None
        } else {
            Some((self.bids[0].price, self.asks[0].price))
        }
    }
}

} // verus!
