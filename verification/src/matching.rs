//! What holds of the exchange in the middle of a matching pass, and at its
//! end.

use vstd::prelude::*;
use crate::amounts::ex_amount;
use crate::engine::{live, Module, ModuleView};
use crate::ladder::{done, finished_run, LadderView};
use crate::settle::{lemma_trade_fills_one, settlement, Settlement};
use crate::stores::{grown, lemma_pushed_grown, lemma_same_grown, list_of, with_pushed};
use crate::types::{
    Balance, Error, LimitOrder, OrderStatus, OrderType, OwnerPair, Price, Trade, TradePair, H256,
    PMAX, PMIN,
};

verus! {

/// The later state `a` of an order and its earlier state `b` are states of
/// one order: they differ at most in the status, which has stayed or moved
/// on, and in what is left to sell and to buy, neither of which has grown.
pub open spec fn same_order(a: LimitOrder, b: LimitOrder) -> bool {
    &&& a.hash == b.hash
    &&& a.base == b.base
    &&& a.quote == b.quote
    &&& a.owner == b.owner
    &&& a.price == b.price
    &&& a.otype == b.otype
    &&& a.sell_amount == b.sell_amount
    &&& a.buy_amount == b.buy_amount
    &&& a.remained_sell_amount <= b.remained_sell_amount
    &&& a.remained_buy_amount <= b.remained_buy_amount
    &&& follows(a.status, b.status)
}

/// The status `a` is the status `b` or comes after it in the life of an
/// order: a created order becomes partially filled or filled, a partially
/// filled one becomes filled, and a filled or canceled one stays what it is.
pub open spec fn follows(a: OrderStatus, b: OrderStatus) -> bool {
    a == b || match b {
        OrderStatus::Created => a == OrderStatus::PartialFilled || a == OrderStatus::Filled,
        OrderStatus::PartialFilled => a == OrderStatus::Filled,
        _ => false,
    }
}

/// A trade of the taker `taker` in the pair `tp`: the taker's owner and side
/// are on it, the tokens are those of the pair, and its price is no worse
/// for the taker than the taker's limit.
pub open spec fn trade_of_taker(trade: Trade, tp: TradePair, taker: LimitOrder) -> bool {
    &&& trade.taker == taker.owner
    &&& trade.otype == taker.otype
    &&& trade.base == tp.base
    &&& trade.quote == tp.quote
    &&& Module::crosses(taker.price, taker.otype, trade.price)
}

/// In a walk over the side `side` away from the head, the order at place `j`
/// of the queue of the level at place `p` has been passed when `cd` whole
/// levels and the first `i` orders of the next level have been passed.
pub open spec fn passed(l: LadderView, side: OrderType, cd: int, i: int, p: int, j: int) -> bool {
    (1 <= l.dist(side, p) <= cd) || (l.dist(side, p) == cd + 1 && j < i)
}

/// The ladder has room for the rest of `taker` on its own side: its price
/// does not reach the best price of the other side.
pub open spec fn room_for(l: LadderView, taker: LimitOrder) -> bool {
    match taker.otype {
        OrderType::Buy => taker.price < l.best_ask(),
        OrderType::Sell => l.best_bid() < taker.price,
    }
}

impl ModuleView {
    /// The order `hash` rests nowhere.
    pub open spec fn rests_nowhere(self, hash: H256) -> bool {
        forall|tp: H256, key: Option<Price>| !#[trigger] self.rests(tp, key, hash)
    }

    /// The order at place `j` of the queue of the level at place `p` of the
    /// ladder `l` of the pair `tp` is as a matching pass leaves it: finished
    /// where the pass has gone by, free to rest where it has not.
    pub open spec fn place_ok(
        self,
        tp: H256,
        l: LadderView,
        side: OrderType,
        cd: int,
        i: int,
        p: int,
        j: int,
    ) -> bool {
        let hash = l.levels[l.chain[p]].orders[j];
        if passed(l, side, cd, i, p, j) {
            done(self.orders, hash)
        } else {
            self.resting_ok(tp, l.chain[p], hash)
        }
    }

    /// Every order at every place of the ladder `l` of the pair `tp` is as a
    /// matching pass over the side `side` leaves it.
    pub open spec fn places_ok(self, tp: H256, l: LadderView, side: OrderType, cd: int, i: int) -> bool {
        forall|p: int, j: int|
            0 <= p < l.chain.len() && 0 <= j < l.levels[l.chain[p]].orders.len()
                ==> #[trigger] self.place_ok(tp, l, side, cd, i, p, j)
    }

    /// What the trades of the order `taker` in the pair `tp`, whose record is
    /// `tpair`, have made of the exchange `before`, its ladders apart. The
    /// pairs and the lists of orders are as they were. Every order is still
    /// stored, as a later state of itself, and an order has changed only if
    /// it was live and is the taker or an order of the pair on the other
    /// side. Every trade is still stored, and each new trade is one of the
    /// taker at a price no worse than its limit. The lists of trades have
    /// grown at the end only, and the list of an order that was not live has
    /// not grown at all.
    pub open spec fn traded_in(
        self,
        before: ModuleView,
        tp: H256,
        tpair: TradePair,
        taker: LimitOrder,
    ) -> bool {
        &&& self.trade_pairs_by_hash == before.trade_pairs_by_hash
        &&& self.trade_pair_hash_by_base_quote == before.trade_pair_hash_by_base_quote
        &&& self.owned_orders == before.owned_orders
        &&& self.owned_orders_index == before.owned_orders_index
        &&& self.trade_pair_owned_orders == before.trade_pair_owned_orders
        &&& self.trade_pair_owned_orders_index == before.trade_pair_owned_orders_index
        &&& self.nonce >= before.nonce
        &&& grown(before.owned_trades, self.owned_trades)
        &&& grown(before.owned_tp_trades, self.owned_tp_trades)
        &&& grown(before.trade_pair_owned_trades, self.trade_pair_owned_trades)
        &&& grown(before.order_owned_trades, self.order_owned_trades)
        &&& forall|h: H256| self.orders.contains_key(h) <==> before.orders.contains_key(h)
        &&& forall|h: H256| #[trigger]
            self.orders.contains_key(h) ==> same_order(self.orders[h], before.orders[h])
        &&& forall|h: H256|
            self.orders.contains_key(h) && #[trigger] self.orders[h] != before.orders[h] ==> live(
                before.orders[h],
            ) && (h == taker.hash || (before.pair_of(before.orders[h]) == Some(tp)
                && before.orders[h].otype == taker.otype.flip()))
        &&& forall|h: H256| #[trigger]
            list_of(self.order_owned_trades, h) != list_of(before.order_owned_trades, h)
                ==> before.orders.contains_key(h) && live(before.orders[h])
        &&& forall|th: H256| #[trigger]
            before.trades.contains_key(th) ==> self.trades.contains_key(th) && self.trades[th]
                == before.trades[th]
        &&& forall|th: H256|
            self.trades.contains_key(th) && !before.trades.contains_key(th)
                ==> #[trigger] trade_of_taker(self.trades[th], tpair, taker)
    }

    /// What the trades of the order `taker` in the pair `tp` have made of
    /// the exchange `before`: what [`ModuleView::traded_in`] says, and no
    /// ladder but that of the pair has changed.
    pub open spec fn traded(self, before: ModuleView, tp: H256, taker: LimitOrder) -> bool {
        &&& self.traded_in(before, tp, before.trade_pairs_by_hash[tp], taker)
        &&& forall|tp2: H256| tp2 != tp ==> #[trigger] self.ladder(tp2) == before.ladder(tp2)
    }

    /// What a matching pass for the order `taker` in the pair `tp` has made
    /// of the exchange `before`: the trades have been made, the side across
    /// from the taker has been pruned with the orders as they are now, the
    /// taker rests nowhere, and the live orders that rested still rest.
    pub open spec fn matched(self, before: ModuleView, tp: H256, taker: LimitOrder) -> bool {
        &&& self.traded(before, tp, taker)
        &&& self.ladder(tp) == before.ladder(tp).sweep(taker.otype.flip(), self.orders).0
        &&& self.rests_nowhere(taker.hash)
        &&& self.still_resting(before)
    }

    /// Every order that rested in `before` and is live now rests where it
    /// did.
    pub open spec fn still_resting(self, before: ModuleView) -> bool {
        forall|h: H256, tp: H256, key: Option<Price>| #[trigger]
            before.rests(tp, key, h) && self.orders.contains_key(h) && live(self.orders[h])
                ==> self.rests(tp, key, h)
    }

    /// The exchange in the middle of a matching pass for the order that was
    /// `taker0` at the start, when the exchange was `start`, and is `taker`
    /// now. The trades so far have been made, and no ladder has changed. The
    /// orders that the pass has gone by are finished; the others may rest
    /// where they do.
    pub open spec fn matching(
        self,
        start: ModuleView,
        tp: H256,
        tpair: TradePair,
        taker: LimitOrder,
        taker0: LimitOrder,
        cd: int,
        i: int,
    ) -> bool {
        &&& self.traded_in(start, tp, tpair, taker0)
        &&& self.ladders == start.ladders
        &&& self.records_ok()
        &&& start.orders.contains_key(taker0.hash)
        &&& start.orders[taker0.hash] == taker0
        &&& self.orders[taker0.hash] == taker
        &&& self.places_ok(tp, start.ladder(tp), taker0.otype.flip(), cd, i)
    }

    /// No order rests at two places.
    pub proof fn lemma_rests_once(
        self,
        tp1: H256,
        key1: Option<Price>,
        j1: int,
        tp2: H256,
        key2: Option<Price>,
        j2: int,
    )
        requires
            self.resting_orders_ok(),
            self.ladder(tp1).levels.contains_key(key1),
            self.ladder(tp2).levels.contains_key(key2),
            0 <= j1 < self.queue(tp1, key1).len(),
            0 <= j2 < self.queue(tp2, key2).len(),
            self.queue(tp1, key1)[j1] == self.queue(tp2, key2)[j2],
        ensures
            tp1 == tp2,
            key1 == key2,
            j1 == j2,
    {
        assert(self.resting_ok(tp1, key1, self.queue(tp1, key1)[j1]));
        assert(self.resting_ok(tp2, key2, self.queue(tp2, key2)[j2]));
        assert(self.queue(tp1, key1).no_duplicates());
    }

    /// Nothing rests on the sentinels of a ladder.
    pub proof fn lemma_sentinels_empty(self, tp: H256)
        requires
            self.wf(),
        ensures
            self.ladder(tp).levels[Some(PMIN)].orders.len() == 0,
            self.ladder(tp).levels[Some(PMAX)].orders.len() == 0,
            self.ladder(tp).wf(),
            self.ladder(tp).sorted(),
    {
        let l = self.ladder(tp);
        LadderView::lemma_initial();
        l.lemma_frame();
        assert(l.levels.contains_key(l.chain[0]));
        assert(l.levels.contains_key(l.chain[l.chain.len() - 1]));
        if l.levels[Some(PMIN)].orders.len() > 0 {
            assert(self.resting_ok(tp, Some(PMIN), self.queue(tp, Some(PMIN))[0]));
        }
        if l.levels[Some(PMAX)].orders.len() > 0 {
            assert(self.resting_ok(tp, Some(PMAX), self.queue(tp, Some(PMAX))[0]));
        }
    }

    /// Storing the ladder of a pair changes no ladder and keeps the exchange
    /// in order.
    pub proof fn lemma_touched(self, tp: H256)
        requires
            self.wf(),
        ensures
            self.touched(tp).wf(),
            forall|tp2: H256| self.touched(tp).ladder(tp2) == self.ladder(tp2),
            forall|h: H256| self.rests_nowhere(h) ==> self.touched(tp).rests_nowhere(h),
    {
        let t = self.touched(tp);
        LadderView::lemma_initial();
        self.lemma_owned_kept(t);
        assert forall|tp2: H256| t.ladder(tp2) == self.ladder(tp2) by {}
        assert forall|tp2: H256, key: Option<Price>, i: int|
            t.ladder(tp2).levels.contains_key(key) && 0 <= i < t.queue(tp2, key).len() implies #[trigger] t.resting_ok(
            tp2,
            key,
            t.queue(tp2, key)[i],
        ) by {
            assert(self.resting_ok(tp2, key, self.queue(tp2, key)[i]));
        }
        assert forall|tp2: H256, key: Option<Price>|
            t.ladder(tp2).levels.contains_key(key) implies (#[trigger] t.queue(
            tp2,
            key,
        )).no_duplicates() && (Self::is_sentinel(key) || t.queue(tp2, key).len() > 0) by {
            assert(self.queue(tp2, key).no_duplicates());
        }
        assert forall|h: H256| self.rests_nowhere(h) implies t.rests_nowhere(h) by {
            assert forall|tp2: H256, key: Option<Price>| !#[trigger] t.rests(tp2, key, h) by {
                assert(!self.rests(tp2, key, h));
            }
        }
    }

    /// At its start a matching pass has gone by nothing.
    pub proof fn lemma_pass_start(self, tp: H256, tpair: TradePair, taker0: LimitOrder)
        requires
            self.wf(),
            self.orders.contains_key(taker0.hash),
            self.orders[taker0.hash] == taker0,
        ensures
            self.matching(self, tp, tpair, taker0, taker0, 0, 0),
    {
        let l = self.ladder(tp);
        let side = taker0.otype.flip();
        LadderView::lemma_initial();
        l.lemma_frame();
        lemma_same_grown(self.owned_trades);
        lemma_same_grown(self.owned_tp_trades);
        lemma_same_grown(self.trade_pair_owned_trades);
        lemma_same_grown(self.order_owned_trades);
        assert forall|p: int, j: int|
            0 <= p < l.chain.len() && 0 <= j < l.levels[l.chain[p]].orders.len() implies #[trigger] self.place_ok(
            tp,
            l,
            side,
            0,
            0,
            p,
            j,
        ) by {
            assert(l.levels.contains_key(l.chain[p]));
            assert(self.resting_ok(tp, l.chain[p], self.queue(tp, l.chain[p])[j]));
        }
    }

    /// One trade of a matching pass keeps the pass in order. The trade is
    /// made with the maker at place `i` of the level after the `cd` levels
    /// that the pass has gone by. Where the taker is not filled by it, the
    /// maker is finished and the pass has gone by it; where the taker is
    /// filled, the pass has gone by the maker if the maker is finished too.
    pub proof fn lemma_step(
        self,
        start: ModuleView,
        tp: H256,
        tpair: TradePair,
        taker: LimitOrder,
        taker0: LimitOrder,
        cd: int,
        i: int,
        maker: LimitOrder,
        base_qty: Balance,
        quote_qty: Balance,
        s: Settlement,
        th: H256,
    ) -> (after: ModuleView)
        requires
            start.wf(),
            start.rests_nowhere(taker0.hash),
            self.matching(start, tp, tpair, taker, taker0, cd, i),
            live(taker),
            start.ladder(tp).wf(),
            0 <= cd,
            0 <= start.ladder(tp).away(taker0.otype.flip(), cd + 1) < start.ladder(tp).chain.len(),
            0 <= i < start.ladder(tp).levels[start.ladder(tp).chain[start.ladder(tp).away(
                taker0.otype.flip(),
                cd + 1,
            )]].orders.len(),
            maker == self.orders[start.ladder(tp).levels[start.ladder(tp).chain[start.ladder(
                tp,
            ).away(taker0.otype.flip(), cd + 1)]].orders[i]],
            live(maker),
            ex_amount(maker, taker) == Ok::<(Balance, Balance), Error>((base_qty, quote_qty)),
            settlement(maker, taker, base_qty, quote_qty) == Ok::<Settlement, Error>(s),
            Module::crosses(taker0.price, taker0.otype, maker.price),
            !self.trades.contains_key(th),
            self.nonce < u64::MAX,
        ensures
            after == self.recorded(tp, tpair, s.maker, s.taker, base_qty, quote_qty, th),
            live(s.taker) || s.taker.status == OrderStatus::Filled,
            s.taker.status != OrderStatus::Filled ==> after.matching(
                start,
                tp,
                tpair,
                s.taker,
                taker0,
                cd,
                i + 1,
            ),
            s.taker.status == OrderStatus::Filled ==> after.matching(
                start,
                tp,
                tpair,
                s.taker,
                taker0,
                cd,
                if done(after.orders, maker.hash) {
                    i + 1
                } else {
                    i
                },
            ),
    {
        let after = self.recorded(tp, tpair, s.maker, s.taker, base_qty, quote_qty, th);
        let l = start.ladder(tp);
        let side = taker0.otype.flip();
        let p = l.away(side, cd + 1);
        let key = l.chain[p];
        let q = l.levels[key].orders;
        let mh = q[i];
        let i2 = if s.taker.status != OrderStatus::Filled || done(after.orders, maker.hash) {
            i + 1
        } else {
            i
        };
        l.lemma_frame();
        assert(l.levels.contains_key(key));
        // the maker rests where the pass stands
        assert(self.place_ok(tp, l, side, cd, i, p, i));
        assert(self.resting_ok(tp, key, mh));
        assert(maker.hash == mh);
        assert(start.rests(tp, key, mh)) by {
            assert(start.queue(tp, key)[i] == mh);
        }
        assert(!start.rests(tp, key, taker0.hash));
        assert(mh != taker0.hash);
        assert(taker.hash == taker0.hash);
        lemma_trade_fills_one(maker, taker, base_qty, quote_qty, s);
        assert(same_order(self.orders[mh], start.orders[mh]));
        assert(same_order(self.orders[taker0.hash], start.orders[taker0.hash]));
        assert(after.orders[mh] == s.maker);
        assert(after.orders[taker0.hash] == s.taker);
        assert(live(start.orders[mh])) by {
            if self.orders[mh] != start.orders[mh] {
            }
        }
        assert(start.pair_of(start.orders[mh]) == Some(tp));
        l.lemma_place(p);
        assert(self.ladder(tp) == l);
        assert(start.orders[mh].otype == side);
        assert forall|h: H256| after.orders.contains_key(h) <==> start.orders.contains_key(h) by {}
        assert forall|h: H256| #[trigger] after.orders.contains_key(h) implies same_order(
            after.orders[h],
            start.orders[h],
        ) by {
            assert(self.orders.contains_key(h));
            if h != mh && h != taker0.hash {
                assert(after.orders[h] == self.orders[h]);
            }
        }
        assert forall|h: H256|
            after.orders.contains_key(h) && #[trigger] after.orders[h] != start.orders[h] implies live(
            start.orders[h],
        ) && (h == taker0.hash || (start.pair_of(start.orders[h]) == Some(tp)
            && start.orders[h].otype == taker0.otype.flip())) by {
            if h != mh && h != taker0.hash {
                assert(after.orders[h] == self.orders[h]);
            }
            if h == taker0.hash {
                if self.orders[h] != start.orders[h] {
                } else {
                    assert(live(taker));
                }
            }
        }
        assert forall|p2: int, j2: int|
            0 <= p2 < l.chain.len() && 0 <= j2 < l.levels[l.chain[p2]].orders.len() implies #[trigger] after.place_ok(
            tp,
            l,
            side,
            cd,
            i2,
            p2,
            j2,
        ) by {
            let h2 = l.levels[l.chain[p2]].orders[j2];
            assert(self.place_ok(tp, l, side, cd, i, p2, j2));
            assert(l.levels.contains_key(l.chain[p2]));
            if p2 == p && j2 == i {
                if i2 == i {
                    assert(!done(after.orders, mh));
                    assert(live(s.maker));
                }
            } else {
                assert(start.queue(tp, l.chain[p2])[j2] == h2);
                if h2 == mh {
                    start.lemma_rests_once(tp, l.chain[p2], j2, tp, key, i);
                }
                assert(start.rests(tp, l.chain[p2], h2));
                assert(h2 != taker0.hash);
                assert(after.orders[h2] == self.orders[h2]);
                assert(passed(l, side, cd, i2, p2, j2) == passed(l, side, cd, i, p2, j2));
            }
        }
        assert forall|th2: H256|
            after.trades.contains_key(th2) && !start.trades.contains_key(th2) implies #[trigger] trade_of_taker(
            after.trades[th2],
            tpair,
            taker0,
        ) by {
            if th2 != th {
                assert(self.trades.contains_key(th2));
                assert(trade_of_taker(self.trades[th2], tpair, taker0));
            }
        }
        assert(after.records_ok());
        lemma_pushed_grown(start.order_owned_trades, self.order_owned_trades, s.taker.hash, th);
        lemma_pushed_grown(
            start.order_owned_trades,
            with_pushed(self.order_owned_trades, s.taker.hash, th),
            s.maker.hash,
            th,
        );
        lemma_pushed_grown(start.owned_trades, self.owned_trades, s.taker.owner, th);
        lemma_pushed_grown(
            start.owned_trades,
            with_pushed(self.owned_trades, s.taker.owner, th),
            s.maker.owner,
            th,
        );
        lemma_pushed_grown(
            start.owned_tp_trades,
            self.owned_tp_trades,
            OwnerPair { owner: s.taker.owner, pair: tp },
            th,
        );
        lemma_pushed_grown(
            start.owned_tp_trades,
            with_pushed(self.owned_tp_trades, OwnerPair { owner: s.taker.owner, pair: tp }, th),
            OwnerPair { owner: s.maker.owner, pair: tp },
            th,
        );
        lemma_pushed_grown(start.trade_pair_owned_trades, self.trade_pair_owned_trades, tp, th);
        assert forall|h: H256| #[trigger]
            list_of(after.order_owned_trades, h) != list_of(
                start.order_owned_trades,
                h,
            ) implies start.orders.contains_key(h) && live(start.orders[h]) by {
            if h != mh && h != taker0.hash {
                assert(list_of(after.order_owned_trades, h) == list_of(self.order_owned_trades, h));
            }
        }
        assert(after.matching(start, tp, tpair, s.taker, taker0, cd, i2));
        after
    }

    /// A pass that has gone by all the orders of a level has gone by the
    /// level.
    pub proof fn lemma_next_level(
        self,
        start: ModuleView,
        tp: H256,
        tpair: TradePair,
        taker: LimitOrder,
        taker0: LimitOrder,
        cd: int,
        i: int,
    )
        requires
            self.matching(start, tp, tpair, taker, taker0, cd, i),
            start.ladder(tp).wf(),
            0 <= cd <= start.ladder(tp).depth(taker0.otype.flip()),
            i == start.ladder(tp).levels[start.ladder(tp).chain[start.ladder(tp).away(
                taker0.otype.flip(),
                cd + 1,
            )]].orders.len(),
        ensures
            self.matching(start, tp, tpair, taker, taker0, cd + 1, 0),
    {
        let l = start.ladder(tp);
        let side = taker0.otype.flip();
        assert forall|p: int, j: int|
            0 <= p < l.chain.len() && 0 <= j < l.levels[l.chain[p]].orders.len() implies #[trigger] self.place_ok(
            tp,
            l,
            side,
            cd + 1,
            0,
            p,
            j,
        ) by {
            assert(self.place_ok(tp, l, side, cd, i, p, j));
        }
    }

    /// A pass that stands before a finished order goes by it, and leaves it
    /// as it is.
    pub proof fn lemma_skip(
        self,
        start: ModuleView,
        tp: H256,
        tpair: TradePair,
        taker: LimitOrder,
        taker0: LimitOrder,
        cd: int,
        i: int,
    )
        requires
            self.matching(start, tp, tpair, taker, taker0, cd, i),
            0 <= start.ladder(tp).away(taker0.otype.flip(), cd + 1) < start.ladder(tp).chain.len(),
            0 <= i < start.ladder(tp).levels[start.ladder(tp).chain[start.ladder(tp).away(
                taker0.otype.flip(),
                cd + 1,
            )]].orders.len(),
            done(
                self.orders,
                start.ladder(tp).levels[start.ladder(tp).chain[start.ladder(tp).away(
                    taker0.otype.flip(),
                    cd + 1,
                )]].orders[i],
            ),
        ensures
            self.matching(start, tp, tpair, taker, taker0, cd, i + 1),
    {
        let l = start.ladder(tp);
        let side = taker0.otype.flip();
        assert forall|p: int, j: int|
            0 <= p < l.chain.len() && 0 <= j < l.levels[l.chain[p]].orders.len() implies #[trigger] self.place_ok(
            tp,
            l,
            side,
            cd,
            i + 1,
            p,
            j,
        ) by {
            assert(self.place_ok(tp, l, side, cd, i, p, j));
        }
    }

    /// An order that is left on the ladder after the pruning that ends a
    /// matching pass is one that the pass has not gone by: it may rest where
    /// it does, and it rested there before.
    proof fn lemma_left_is_live(
        self,
        tp: H256,
        l: LadderView,
        side: OrderType,
        cd: int,
        i1: int,
        key: Option<Price>,
        j: int,
    ) -> (j0: int)
        requires
            l.wf(),
            self.places_ok(tp, l, side, cd, i1),
            0 <= cd,
            0 <= i1,
            l.levels[Some(PMIN)].orders.len() == 0,
            l.levels[Some(PMAX)].orders.len() == 0,
            l.sweep(side, self.orders).0.levels.contains_key(key),
            0 <= j < l.sweep(side, self.orders).0.levels[key].orders.len(),
        ensures
            l.levels.contains_key(key),
            j <= j0 < l.levels[key].orders.len(),
            l.levels[key].orders[j0] == l.sweep(side, self.orders).0.levels[key].orders[j],
            l.sweep(side, self.orders).0.levels[key].orders == l.levels[key].orders.skip(j0 - j),
            l.sweep(side, self.orders).0.side_of(key) == l.side_of(key),
            self.resting_ok(tp, key, l.levels[key].orders[j0]),
    {
        let r = l.lemma_sweep_keeps(side, self.orders, key);
        let k = r.0 as int;
        let p = r.1;
        let off = r.2;
        let n = l.chain.len() as int;
        let h = l.head;
        l.lemma_frame();
        assert(self.place_ok(tp, l, side, cd, i1, p, j + off));
        if passed(l, side, cd, i1, p, j + off) {
            if l.sweep(side, self.orders).1 is Err {
                let ps = l.away(side, k + 1);
                let m = finished_run(l.levels[l.chain[ps]].orders, self.orders) as int;
                assert(self.place_ok(tp, l, side, cd, i1, ps, m));
                assert(!passed(l, side, cd, i1, ps, m));
                assert(l.dist(side, ps) == k + 1);
                assert(k >= cd);
                assert(l.dist(side, p) == cd + 1);
                assert(k == cd);
                assert(p == ps);
                assert(false);
            } else {
                assert(l.dist(side, p) >= l.depth(side) + 1);
                assert(p == 0 || p == n - 1);
                assert(false);
            }
        }
        j + off
    }

    /// After the pruning that ends a matching pass the ladder is well-formed
    /// and not crossed. Where the pass ended before a level that the taker
    /// does not cross, or at the end of the side, the ladder has room for the
    /// taker.
    proof fn lemma_room(self, tp: H256, l: LadderView, taker0: LimitOrder, cd: int, i1: int)
        requires
            l.wf(),
            l.sorted(),
            self.places_ok(tp, l, taker0.otype.flip(), cd, i1),
            0 <= cd <= l.depth(taker0.otype.flip()) + 1,
        ensures
            l.sweep(taker0.otype.flip(), self.orders).0.wf(),
            l.sweep(taker0.otype.flip(), self.orders).0.sorted(),
            PMIN < taker0.price < PMAX && i1 == 0 && (cd == l.depth(taker0.otype.flip()) + 1
                || !Module::crosses(
                taker0.price,
                taker0.otype,
                l.chain[l.away(taker0.otype.flip(), cd + 1)].unwrap(),
            )) ==> room_for(l.sweep(taker0.otype.flip(), self.orders).0, taker0),
    {
        let side = taker0.otype.flip();
        let c = l.chain;
        let h = l.head;
        let a = l.sweep(side, self.orders).0;
        let k = l.lemma_sweep_nearest(side, self.orders) as int;
        if l.sweep(side, self.orders).1 is Err {
            let ps = l.away(side, k + 1);
            let m = finished_run(l.levels[c[ps]].orders, self.orders) as int;
            assert(self.place_ok(tp, l, side, cd, i1, ps, m));
            assert(!passed(l, side, cd, i1, ps, m));
            assert(l.dist(side, ps) == k + 1);
            assert(k >= cd);
        }
        if PMIN < taker0.price < PMAX && i1 == 0 && (cd == l.depth(side) + 1 || !Module::crosses(
            taker0.price,
            taker0.otype,
            c[l.away(side, cd + 1)].unwrap(),
        )) {
            assert(k >= cd || k == l.depth(side));
            l.lemma_frame();
            if cd <= l.depth(side) && k > cd {
                if side == OrderType::Buy {
                    l.lemma_rises(h - k - 1, h - cd - 1);
                } else {
                    l.lemma_rises(h + cd + 1, h + k + 1);
                }
            }
            if side == OrderType::Buy {
                assert(a.best_bid() == c[h - k - 1].unwrap());
            } else {
                assert(a.best_ask() == c[h + k + 1].unwrap());
            }
        }
    }

    /// The end of a matching pass: once the side that the pass went over has
    /// been pruned, every order that still rests is live, so that the
    /// exchange is in order again. Where the pass ended before a level that
    /// the taker does not cross, or at the end of the side, the ladder has
    /// room for the taker.
    pub proof fn lemma_pass_end(
        self,
        start: ModuleView,
        tp: H256,
        tpair: TradePair,
        taker: LimitOrder,
        taker0: LimitOrder,
        cd: int,
        i1: int,
    ) -> (after: ModuleView)
        requires
            start.wf(),
            start.rests_nowhere(taker0.hash),
            self.matching(start, tp, tpair, taker, taker0, cd, i1),
            0 <= cd <= start.ladder(tp).depth(taker0.otype.flip()) + 1,
            0 <= i1,
        ensures
            after == (ModuleView {
                ladders: self.ladders.insert(
                    tp,
                    start.ladder(tp).sweep(taker0.otype.flip(), self.orders).0,
                ),
                ..self
            }),
            after.wf(),
            after.rests_nowhere(taker0.hash),
            after.still_resting(start),
            forall|tp2: H256| tp2 != tp ==> after.ladder(tp2) == start.ladder(tp2),
            PMIN < taker0.price < PMAX && i1 == 0 && (cd == start.ladder(tp).depth(
                taker0.otype.flip(),
            ) + 1 || !Module::crosses(
                taker0.price,
                taker0.otype,
                start.ladder(tp).chain[start.ladder(tp).away(taker0.otype.flip(), cd + 1)].unwrap(),
            )) ==> room_for(after.ladder(tp), taker0),
    {
        let l = start.ladder(tp);
        let side = taker0.otype.flip();
        let a = l.sweep(side, self.orders).0;
        let after = ModuleView { ladders: self.ladders.insert(tp, a), ..self };
        start.lemma_sentinels_empty(tp);
        assert forall|h: H256| #[trigger] start.orders.contains_key(h) implies after.orders[h].owner
            == start.orders[h].owner by {
            assert(self.orders.contains_key(h));
            assert(same_order(self.orders[h], start.orders[h]));
        }
        start.lemma_owned_kept(after);
        assert(self.places_ok(tp, l, side, cd, i1));
        self.lemma_room(tp, l, taker0, cd, i1);
        assert(after.ladder(tp) == a);
        assert forall|tp2: H256| tp2 != tp implies after.ladder(tp2) == start.ladder(tp2) by {}
        assert(after.ladders_ok()) by {
            assert forall|tp2: H256| #[trigger] after.ladders.contains_key(tp2) implies after.ladders[tp2].wf()
                && after.ladders[tp2].sorted() by {
                if tp2 != tp {
                    assert(start.ladders.contains_key(tp2));
                }
            }
        }
        assert forall|tp2: H256, key: Option<Price>, j: int|
            after.ladder(tp2).levels.contains_key(key) && 0 <= j < after.queue(tp2, key).len() implies #[trigger] after.resting_ok(
            tp2,
            key,
            after.queue(tp2, key)[j],
        ) by {
            let hash = after.queue(tp2, key)[j];
            if tp2 != tp {
                assert(start.resting_ok(tp2, key, start.queue(tp2, key)[j]));
                assert(start.rests(tp2, key, hash)) by {
                    assert(start.queue(tp2, key)[j] == hash);
                }
                assert(hash != taker0.hash);
                if self.orders[hash] != start.orders[hash] {
                    assert(false);
                }
            } else {
                let j0 = self.lemma_left_is_live(tp, l, side, cd, i1, key, j);
            }
        }
        assert forall|tp2: H256, key: Option<Price>|
            after.ladder(tp2).levels.contains_key(key) implies (#[trigger] after.queue(
            tp2,
            key,
        )).no_duplicates() && (Self::is_sentinel(key) || after.queue(tp2, key).len() > 0) by {
            if tp2 != tp {
                assert(start.queue(tp2, key).no_duplicates());
            } else {
                let q2 = after.queue(tp, key);
                let kept = l.lemma_sweep_keeps(side, self.orders, key);
                assert(start.queue(tp, key).no_duplicates());
                assert forall|x: int, y: int|
                    0 <= x < q2.len() && 0 <= y < q2.len() && x != y implies q2[x] != q2[y] by {
                    let x0 = self.lemma_left_is_live(tp, l, side, cd, i1, key, x);
                    let y0 = self.lemma_left_is_live(tp, l, side, cd, i1, key, y);
                    assert(start.queue(tp, key).no_duplicates());
                    let q = l.levels[key].orders;
                    assert(q.skip(x0 - x)[x] == q[x0]);
                    assert(q.skip(x0 - x)[y] == q[y + (x0 - x)]);
                }
            }
        }
        assert(after.still_resting(start)) by {
            assert forall|h: H256, tp2: H256, key: Option<Price>| #[trigger]
                start.rests(tp2, key, h) && after.orders.contains_key(h) && live(
                    after.orders[h],
                ) implies after.rests(tp2, key, h) by {
                if tp2 == tp {
                    let q = l.levels[key].orders;
                    let j = choose|j: int| 0 <= j < q.len() && q[j] == h;
                    l.lemma_sweep_keeps_undone(side, self.orders, key, j);
                }
            }
        }
        assert(after.rests_nowhere(taker0.hash)) by {
            assert forall|tp2: H256, key: Option<Price>| !#[trigger] after.rests(
                tp2,
                key,
                taker0.hash,
            ) by {
                if after.rests(tp2, key, taker0.hash) {
                    let q2 = after.queue(tp2, key);
                    let j = choose|j: int| 0 <= j < q2.len() && q2[j] == taker0.hash;
                    if tp2 != tp {
                        assert(start.rests(tp2, key, taker0.hash));
                    } else {
                        let j0 = self.lemma_left_is_live(tp, l, side, cd, i1, key, j);
                        assert(start.queue(tp, key)[j0] == taker0.hash);
                        assert(start.rests(tp, key, taker0.hash));
                    }
                }
            }
        }
        after
    }
}

} // verus!
