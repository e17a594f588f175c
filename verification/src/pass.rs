//! What a matching pass computes: the trades of a taker with the resting
//! orders of the other side, in the order of price and time, and the fault
//! at which it stops where the exchange itself must refuse.

use vstd::prelude::*;
use crate::amounts::ex_amount;
use crate::engine::{Module, ModuleView};
use crate::escrow::requests_of_trade;
use crate::ladder::{done, LadderView};
use crate::settle::settlement;
use crate::transfers::TokenOp;
use crate::types::{Error, LimitOrder, OrderStatus, OrderType, TradePair, H256};

verus! {

/// The pass ends before the level that is `d` places from the head: the
/// taker is filled, or the side has no such level, or the taker does not
/// cross the price of that level.
pub open spec fn pass_ends(taker: LimitOrder, l: LadderView, side: OrderType, d: int) -> bool {
    taker.status == OrderStatus::Filled || d > l.depth(side) + 1 || !Module::crosses(
        taker.price,
        taker.otype,
        l.chain[l.away(side, d)].unwrap(),
    )
}

/// The oldest order of a queue that is not stored and finished: the first
/// with which a taker trades. The pass goes by finished orders and leaves
/// them as they are.
pub open spec fn first_live(queue: Seq<H256>, orders: Map<H256, LimitOrder>) -> Option<H256>
    decreases queue.len(),
{
    if queue.len() == 0 {
        None
    } else if !done(orders, queue[0]) {
        Some(queue[0])
    } else {
        first_live(queue.skip(1), orders)
    }
}

/// The first order with which the taker trades in a pass that stands in the
/// level `d` places from the head, with `queue` left of that level; none
/// where the pass ends without a trade.
pub open spec fn first_maker_from(
    orders: Map<H256, LimitOrder>,
    taker: LimitOrder,
    l: LadderView,
    side: OrderType,
    d: int,
    queue: Seq<H256>,
) -> Option<H256>
    decreases l.depth(side) + 2 - d, 0int,
{
    if d < 1 || d > l.depth(side) + 1 {
        None
    } else {
        match first_live(queue, orders) {
            Some(hash) => Some(hash),
            None => first_maker(orders, taker, l, side, d + 1),
        }
    }
}

/// The first order with which the taker trades in a pass over the side
/// `side` of the ladder `l`, from the level `d` places from the head
/// outwards; none where the pass ends without a trade, because the taker
/// crosses no level that holds an order that is not finished.
pub open spec fn first_maker(
    orders: Map<H256, LimitOrder>,
    taker: LimitOrder,
    l: LadderView,
    side: OrderType,
    d: int,
) -> Option<H256>
    decreases l.depth(side) + 2 - d, 1int,
{
    if d < 1 || pass_ends(taker, l, side, d) {
        None
    } else {
        first_maker_from(orders, taker, l, side, d, l.levels[l.chain[l.away(side, d)]].orders)
    }
}

/// Where a pass stands: the exchange and the taker as the trades so far have
/// left them, the hashes that are left for the trades to come, and the fault
/// at which the pass has stopped, if it has.
pub struct Walk {
    pub exchange: ModuleView,
    pub taker: LimitOrder,
    pub hashes: Seq<H256>,
    pub fault: Option<Error>,
}

impl ModuleView {
    /// The fault of the exchange in a trade of the taker with the maker
    /// `maker_hash` that is to be recorded under `trade_hash`, if the host
    /// refuses nothing: the refusal of the amounts that the two are to
    /// exchange, else the refusal to settle them, else a hash that names a
    /// trade already, else the nonces used up.
    pub open spec fn trade_fault(self, taker: LimitOrder, maker_hash: H256, trade_hash: H256) -> Option<
        Error,
    > {
        let maker = self.orders[maker_hash];
        match ex_amount(maker, taker) {
            Err(e) => Some(e),
            Ok(amounts) => match settlement(maker, taker, amounts.0, amounts.1) {
                Err(e) => Some(e),
                Ok(_) => if self.trades.contains_key(trade_hash) {
                    Some(Error::HashCollision)
                } else if self.nonce == u64::MAX {
                    Some(Error::Overflow)
                } else {
                    None
                },
            },
        }
    }

    /// The exchange and the taker after the taker has traded with the maker
    /// `maker_hash`, for the amounts that the two are to exchange, and the
    /// trade has been recorded under `trade_hash`.
    pub open spec fn traded_with(
        self,
        tp: H256,
        tpair: TradePair,
        taker: LimitOrder,
        maker_hash: H256,
        trade_hash: H256,
    ) -> (ModuleView, LimitOrder) {
        let maker = self.orders[maker_hash];
        let amounts = ex_amount(maker, taker).unwrap();
        let s = settlement(maker, taker, amounts.0, amounts.1).unwrap();
        (self.recorded(tp, tpair, s.maker, s.taker, amounts.0, amounts.1, trade_hash), s.taker)
    }

    /// Where the pass stands after the taker has gone through the orders of
    /// `queue`, oldest first, until it is filled or the queue is used up or a
    /// trade is at fault. An order that is finished is gone by; with every
    /// other order a trade is made and recorded under the next of `hashes`.
    pub open spec fn fill_level(
        self,
        tp: H256,
        tpair: TradePair,
        taker: LimitOrder,
        queue: Seq<H256>,
        hashes: Seq<H256>,
    ) -> Walk
        decreases queue.len(),
    {
        if queue.len() == 0 || taker.status == OrderStatus::Filled {
            Walk { exchange: self, taker, hashes, fault: None }
        } else if done(self.orders, queue[0]) {
            self.fill_level(tp, tpair, taker, queue.skip(1), hashes)
        } else if self.trade_fault(taker, queue[0], hashes[0]) is Some {
            Walk { exchange: self, taker, hashes, fault: self.trade_fault(taker, queue[0], hashes[0]) }
        } else {
            let next = self.traded_with(tp, tpair, taker, queue[0], hashes[0]);
            next.0.fill_level(tp, tpair, next.1, queue.skip(1), hashes.skip(1))
        }
    }

    /// Where the pass stands after the taker has gone through the levels of
    /// the side `side` of the ladder `l`, from the one that is `d` places
    /// from the head outwards, until it is filled or meets a level that it
    /// does not cross or the side is used up or a trade is at fault.
    pub open spec fn fill_side(
        self,
        tp: H256,
        tpair: TradePair,
        taker: LimitOrder,
        l: LadderView,
        side: OrderType,
        d: int,
        hashes: Seq<H256>,
    ) -> Walk
        decreases l.depth(side) + 2 - d,
    {
        if d < 1 || pass_ends(taker, l, side, d) {
            Walk { exchange: self, taker, hashes, fault: None }
        } else {
            self.resume(
                tp,
                tpair,
                taker,
                l,
                side,
                d,
                l.levels[l.chain[l.away(side, d)]].orders,
                hashes,
            )
        }
    }

    /// As [`ModuleView::fill_side`], for a pass that stands in the middle of
    /// the level that is `d` places from the head, with `queue` left of it.
    pub open spec fn resume(
        self,
        tp: H256,
        tpair: TradePair,
        taker: LimitOrder,
        l: LadderView,
        side: OrderType,
        d: int,
        queue: Seq<H256>,
        hashes: Seq<H256>,
    ) -> Walk
        decreases l.depth(side) + 2 - d, queue.len() + 1,
    {
        if d < 1 || d > l.depth(side) + 1 {
            Walk { exchange: self, taker, hashes, fault: None }
        } else {
            let level = self.fill_level(tp, tpair, taker, queue, hashes);
            if level.fault is Some {
                level
            } else {
                level.exchange.fill_side(tp, tpair, level.taker, l, side, d + 1, level.hashes)
            }
        }
    }

    /// The first order with which the stored order `taker` trades in a
    /// matching pass in the pair `tp`; none where the pass makes no trade,
    /// and so asks nothing of the host.
    pub open spec fn first_trade(self, tp: H256, taker: LimitOrder) -> Option<H256> {
        first_maker(self.orders, taker, self.ladder(tp), taker.otype.flip(), 1)
    }

    /// Where a matching pass for the stored order `taker` in the pair `tp`
    /// ends, before the pruning, if the host refuses nothing and gives
    /// `hashes` to the trades.
    pub open spec fn walk(self, tp: H256, taker: LimitOrder, hashes: Seq<H256>) -> Walk {
        self.touched(tp).fill_side(
            tp,
            self.trade_pairs_by_hash[tp],
            taker,
            self.ladder(tp),
            taker.otype.flip(),
            1,
            hashes,
        )
    }

    /// The exchange after a matching pass for the stored order `taker` in
    /// the pair `tp`, whose trades are recorded under `hashes`: the ladder of
    /// the pair is stored, the taker trades with the other side, and that
    /// side is pruned with the orders as the trades left them.
    pub open spec fn pass(self, tp: H256, taker: LimitOrder, hashes: Seq<H256>) -> ModuleView {
        let end = self.walk(tp, taker, hashes);
        end.exchange.with_ladder(
            tp,
            self.ladder(tp).sweep(taker.otype.flip(), end.exchange.orders).0,
        )
    }

    /// The fault at which a matching pass for the stored order `taker` in
    /// the pair `tp` stops, if the host refuses nothing and gives `hashes` to
    /// the trades; none where the pass goes to its end.
    pub open spec fn pass_fault(self, tp: H256, taker: LimitOrder, hashes: Seq<H256>) -> Option<
        Error,
    > {
        self.walk(tp, taker, hashes).fault
    }

    /// The pass that led from `start` to this exchange goes on as a pass from
    /// here: with `used` the hashes of the trades made so far, the pass from
    /// the start with the hashes `used + rest` is the pass from here, before
    /// the level `d` places from the head, with the hashes `rest`.
    pub open spec fn on_side(
        self,
        start: ModuleView,
        tp: H256,
        tpair: TradePair,
        taker: LimitOrder,
        taker0: LimitOrder,
        l: LadderView,
        d: int,
        used: Seq<H256>,
        rest: Seq<H256>,
    ) -> bool {
        start.fill_side(tp, tpair, taker0, l, taker0.otype.flip(), 1, used + rest) == self.fill_side(
            tp,
            tpair,
            taker,
            l,
            taker0.otype.flip(),
            d,
            rest,
        )
    }

    /// As [`ModuleView::on_side`], for a pass that stands in the middle of
    /// the level that is `d` places from the head, with `queue` left of it.
    pub open spec fn in_level(
        self,
        start: ModuleView,
        tp: H256,
        tpair: TradePair,
        taker: LimitOrder,
        taker0: LimitOrder,
        l: LadderView,
        d: int,
        queue: Seq<H256>,
        used: Seq<H256>,
        rest: Seq<H256>,
    ) -> bool {
        start.fill_side(tp, tpair, taker0, l, taker0.otype.flip(), 1, used + rest) == self.resume(
            tp,
            tpair,
            taker,
            l,
            taker0.otype.flip(),
            d,
            queue,
            rest,
        )
    }

    /// The requests to the token ledger that go with the trades of
    /// [`ModuleView::fill_level`], in the order in which the host is handed
    /// them: for each trade those of [`requests_of_trade`].
    pub open spec fn requests_level(
        self,
        tp: H256,
        tpair: TradePair,
        taker: LimitOrder,
        queue: Seq<H256>,
        hashes: Seq<H256>,
    ) -> Seq<TokenOp>
        decreases queue.len(),
    {
        if queue.len() == 0 || taker.status == OrderStatus::Filled {
            Seq::empty()
        } else if done(self.orders, queue[0]) {
            self.requests_level(tp, tpair, taker, queue.skip(1), hashes)
        } else if self.trade_fault(taker, queue[0], hashes[0]) is Some {
            Seq::empty()
        } else {
            let next = self.traded_with(tp, tpair, taker, queue[0], hashes[0]);
            requests_of_trade(tpair, self.orders[queue[0]], taker) + next.0.requests_level(
                tp,
                tpair,
                next.1,
                queue.skip(1),
                hashes.skip(1),
            )
        }
    }

    /// The requests to the token ledger that go with the trades of
    /// [`ModuleView::fill_side`].
    pub open spec fn requests_side(
        self,
        tp: H256,
        tpair: TradePair,
        taker: LimitOrder,
        l: LadderView,
        side: OrderType,
        d: int,
        hashes: Seq<H256>,
    ) -> Seq<TokenOp>
        decreases l.depth(side) + 2 - d,
    {
        if d < 1 || pass_ends(taker, l, side, d) {
            Seq::empty()
        } else {
            self.requests_resume(
                tp,
                tpair,
                taker,
                l,
                side,
                d,
                l.levels[l.chain[l.away(side, d)]].orders,
                hashes,
            )
        }
    }

    /// The requests to the token ledger that go with the trades of
    /// [`ModuleView::resume`].
    pub open spec fn requests_resume(
        self,
        tp: H256,
        tpair: TradePair,
        taker: LimitOrder,
        l: LadderView,
        side: OrderType,
        d: int,
        queue: Seq<H256>,
        hashes: Seq<H256>,
    ) -> Seq<TokenOp>
        decreases l.depth(side) + 2 - d, queue.len() + 1,
    {
        if d < 1 || d > l.depth(side) + 1 {
            Seq::empty()
        } else {
            let level = self.fill_level(tp, tpair, taker, queue, hashes);
            let first = self.requests_level(tp, tpair, taker, queue, hashes);
            if level.fault is Some {
                first
            } else {
                first + level.exchange.requests_side(
                    tp,
                    tpair,
                    level.taker,
                    l,
                    side,
                    d + 1,
                    level.hashes,
                )
            }
        }
    }

    /// The requests to the token ledger that go with the trades of a
    /// matching pass for the stored order `taker` in the pair `tp`, if the
    /// host refuses nothing and gives `hashes` to the trades, in the order
    /// in which the host is handed them.
    pub open spec fn requests(self, tp: H256, taker: LimitOrder, hashes: Seq<H256>) -> Seq<TokenOp> {
        self.touched(tp).requests_side(
            tp,
            self.trade_pairs_by_hash[tp],
            taker,
            self.ladder(tp),
            taker.otype.flip(),
            1,
            hashes,
        )
    }

    /// The requests of the pass that led from `start` to this exchange go on
    /// as those of a pass from here: with `since` the requests made so far,
    /// those of the pass from the start with the hashes `used + rest` are
    /// `since` and those of the pass from here, before the level `d` places
    /// from the head, with the hashes `rest`.
    pub open spec fn asked_on_side(
        self,
        start: ModuleView,
        tp: H256,
        tpair: TradePair,
        taker: LimitOrder,
        taker0: LimitOrder,
        l: LadderView,
        d: int,
        used: Seq<H256>,
        rest: Seq<H256>,
        since: Seq<TokenOp>,
    ) -> bool {
        start.requests_side(tp, tpair, taker0, l, taker0.otype.flip(), 1, used + rest) == since
            + self.requests_side(tp, tpair, taker, l, taker0.otype.flip(), d, rest)
    }

    /// As [`ModuleView::asked_on_side`], for a pass that stands in the
    /// middle of the level that is `d` places from the head, with `queue`
    /// left of it.
    pub open spec fn asked_in_level(
        self,
        start: ModuleView,
        tp: H256,
        tpair: TradePair,
        taker: LimitOrder,
        taker0: LimitOrder,
        l: LadderView,
        d: int,
        queue: Seq<H256>,
        used: Seq<H256>,
        rest: Seq<H256>,
        since: Seq<TokenOp>,
    ) -> bool {
        start.requests_side(tp, tpair, taker0, l, taker0.otype.flip(), 1, used + rest) == since
            + self.requests_resume(tp, tpair, taker, l, taker0.otype.flip(), d, queue, rest)
    }

    /// The requests of a pass that has not ended go on in the next level.
    pub proof fn lemma_asked_enter_level(
        self,
        start: ModuleView,
        tp: H256,
        tpair: TradePair,
        taker: LimitOrder,
        taker0: LimitOrder,
        l: LadderView,
        d: int,
        used: Seq<H256>,
        since: Seq<TokenOp>,
    )
        requires
            d >= 1,
            !pass_ends(taker, l, taker0.otype.flip(), d),
            forall|rest: Seq<H256>| #[trigger]
                self.asked_on_side(start, tp, tpair, taker, taker0, l, d, used, rest, since),
        ensures
            forall|rest: Seq<H256>| #[trigger]
                self.asked_in_level(
                    start,
                    tp,
                    tpair,
                    taker,
                    taker0,
                    l,
                    d,
                    l.levels[l.chain[l.away(taker0.otype.flip(), d)]].orders,
                    used,
                    rest,
                    since,
                ),
    {
        let queue = l.levels[l.chain[l.away(taker0.otype.flip(), d)]].orders;
        assert forall|rest: Seq<H256>| #[trigger]
            self.asked_in_level(start, tp, tpair, taker, taker0, l, d, queue, used, rest, since) by {
            assert(self.asked_on_side(start, tp, tpair, taker, taker0, l, d, used, rest, since));
        }
    }

    /// A finished order that is gone by adds no request.
    pub proof fn lemma_asked_skip_step(
        self,
        start: ModuleView,
        tp: H256,
        tpair: TradePair,
        taker: LimitOrder,
        taker0: LimitOrder,
        l: LadderView,
        d: int,
        queue: Seq<H256>,
        i: int,
        used: Seq<H256>,
        since: Seq<TokenOp>,
    )
        requires
            1 <= d <= l.depth(taker0.otype.flip()) + 1,
            0 <= i < queue.len(),
            taker.status != OrderStatus::Filled,
            done(self.orders, queue[i]),
            forall|rest: Seq<H256>| #[trigger]
                self.asked_in_level(
                    start,
                    tp,
                    tpair,
                    taker,
                    taker0,
                    l,
                    d,
                    queue.skip(i),
                    used,
                    rest,
                    since,
                ),
        ensures
            forall|rest: Seq<H256>| #[trigger]
                self.asked_in_level(
                    start,
                    tp,
                    tpair,
                    taker,
                    taker0,
                    l,
                    d,
                    queue.skip(i + 1),
                    used,
                    rest,
                    since,
                ),
    {
        assert forall|rest: Seq<H256>| #[trigger]
            self.asked_in_level(
                start,
                tp,
                tpair,
                taker,
                taker0,
                l,
                d,
                queue.skip(i + 1),
                used,
                rest,
                since,
            ) by {
            assert(self.asked_in_level(
                start,
                tp,
                tpair,
                taker,
                taker0,
                l,
                d,
                queue.skip(i),
                used,
                rest,
                since,
            ));
            assert(queue.skip(i)[0] == queue[i]);
            assert(queue.skip(i).skip(1) =~= queue.skip(i + 1));
            assert(self.fill_level(tp, tpair, taker, queue.skip(i), rest) == self.fill_level(
                tp,
                tpair,
                taker,
                queue.skip(i + 1),
                rest,
            ));
            assert(self.requests_level(tp, tpair, taker, queue.skip(i), rest)
                == self.requests_level(tp, tpair, taker, queue.skip(i + 1), rest));
        }
    }

    /// The requests of a pass that stands before an order with which the
    /// taker trades are those of the trade and those of the pass after it.
    pub proof fn lemma_requests_of_step(
        self,
        tp: H256,
        tpair: TradePair,
        taker: LimitOrder,
        l: LadderView,
        side: OrderType,
        d: int,
        queue: Seq<H256>,
        hashes: Seq<H256>,
    )
        requires
            1 <= d <= l.depth(side) + 1,
            0 < queue.len(),
            taker.status != OrderStatus::Filled,
            !done(self.orders, queue[0]),
            self.trade_fault(taker, queue[0], hashes[0]) is None,
        ensures
            self.requests_resume(tp, tpair, taker, l, side, d, queue, hashes) == requests_of_trade(
                tpair,
                self.orders[queue[0]],
                taker,
            ) + self.traded_with(tp, tpair, taker, queue[0], hashes[0]).0.requests_resume(
                tp,
                tpair,
                self.traded_with(tp, tpair, taker, queue[0], hashes[0]).1,
                l,
                side,
                d,
                queue.skip(1),
                hashes.skip(1),
            ),
    {
        let next = self.traded_with(tp, tpair, taker, queue[0], hashes[0]);
        let ops = requests_of_trade(tpair, self.orders[queue[0]], taker);
        let level = next.0.fill_level(tp, tpair, next.1, queue.skip(1), hashes.skip(1));
        let later = next.0.requests_level(tp, tpair, next.1, queue.skip(1), hashes.skip(1));
        assert(self.fill_level(tp, tpair, taker, queue, hashes) == level);
        assert(self.requests_level(tp, tpair, taker, queue, hashes) == ops + later);
        if level.fault is None {
            let onward = level.exchange.requests_side(
                tp,
                tpair,
                level.taker,
                l,
                side,
                d + 1,
                level.hashes,
            );
            assert(ops + later + onward =~= ops + (later + onward));
        }
    }

    /// A trade with the oldest order of what is left of a level adds its
    /// requests to those of the pass.
    pub proof fn lemma_asked_trade_step(
        self,
        start: ModuleView,
        tp: H256,
        tpair: TradePair,
        taker: LimitOrder,
        taker0: LimitOrder,
        l: LadderView,
        d: int,
        queue: Seq<H256>,
        i: int,
        used: Seq<H256>,
        trade_hash: H256,
        since: Seq<TokenOp>,
    )
        requires
            1 <= d <= l.depth(taker0.otype.flip()) + 1,
            0 <= i < queue.len(),
            taker.status != OrderStatus::Filled,
            !done(self.orders, queue[i]),
            self.trade_fault(taker, queue[i], trade_hash) is None,
            forall|rest: Seq<H256>| #[trigger]
                self.asked_in_level(
                    start,
                    tp,
                    tpair,
                    taker,
                    taker0,
                    l,
                    d,
                    queue.skip(i),
                    used,
                    rest,
                    since,
                ),
        ensures
            forall|rest: Seq<H256>| #[trigger]
                self.traded_with(tp, tpair, taker, queue[i], trade_hash).0.asked_in_level(
                    start,
                    tp,
                    tpair,
                    self.traded_with(tp, tpair, taker, queue[i], trade_hash).1,
                    taker0,
                    l,
                    d,
                    queue.skip(i + 1),
                    used.push(trade_hash),
                    rest,
                    since + requests_of_trade(tpair, self.orders[queue[i]], taker),
                ),
    {
        let next = self.traded_with(tp, tpair, taker, queue[i], trade_hash);
        let ops = requests_of_trade(tpair, self.orders[queue[i]], taker);
        let side = taker0.otype.flip();
        assert forall|rest: Seq<H256>| #[trigger]
            next.0.asked_in_level(
                start,
                tp,
                tpair,
                next.1,
                taker0,
                l,
                d,
                queue.skip(i + 1),
                used.push(trade_hash),
                rest,
                since + ops,
            ) by {
            let more = seq![trade_hash] + rest;
            assert(self.asked_in_level(
                start,
                tp,
                tpair,
                taker,
                taker0,
                l,
                d,
                queue.skip(i),
                used,
                more,
                since,
            ));
            assert(used + more =~= used.push(trade_hash) + rest);
            assert(queue.skip(i)[0] == queue[i]);
            assert(more[0] == trade_hash);
            assert(queue.skip(i).skip(1) =~= queue.skip(i + 1));
            assert(more.skip(1) =~= rest);
            self.lemma_requests_of_step(tp, tpair, taker, l, side, d, queue.skip(i), more);
            let onward = next.0.requests_resume(
                tp,
                tpair,
                next.1,
                l,
                side,
                d,
                queue.skip(i + 1),
                rest,
            );
            assert(since + (ops + onward) =~= since + ops + onward);
        }
    }

    /// The requests of a pass that has used up a level go on before the
    /// next one.
    pub proof fn lemma_asked_leave_level(
        self,
        start: ModuleView,
        tp: H256,
        tpair: TradePair,
        taker: LimitOrder,
        taker0: LimitOrder,
        l: LadderView,
        d: int,
        queue: Seq<H256>,
        used: Seq<H256>,
        since: Seq<TokenOp>,
    )
        requires
            1 <= d <= l.depth(taker0.otype.flip()) + 1,
            queue.len() == 0 || taker.status == OrderStatus::Filled,
            forall|rest: Seq<H256>| #[trigger]
                self.asked_in_level(start, tp, tpair, taker, taker0, l, d, queue, used, rest, since),
        ensures
            forall|rest: Seq<H256>| #[trigger]
                self.asked_on_side(start, tp, tpair, taker, taker0, l, d + 1, used, rest, since),
    {
        assert forall|rest: Seq<H256>| #[trigger]
            self.asked_on_side(start, tp, tpair, taker, taker0, l, d + 1, used, rest, since) by {
            assert(self.asked_in_level(start, tp, tpair, taker, taker0, l, d, queue, used, rest, since));
            let onward = self.requests_side(tp, tpair, taker, l, taker0.otype.flip(), d + 1, rest);
            assert(Seq::<TokenOp>::empty() + onward =~= onward);
        }
    }

    /// Where the pass ends, the requests of the pass from the start with
    /// the hashes of the trades that were made are those made so far.
    pub proof fn lemma_asked_pass_ended(
        self,
        start: ModuleView,
        tp: H256,
        tpair: TradePair,
        taker: LimitOrder,
        taker0: LimitOrder,
        l: LadderView,
        d: int,
        used: Seq<H256>,
        since: Seq<TokenOp>,
    )
        requires
            pass_ends(taker, l, taker0.otype.flip(), d),
            forall|rest: Seq<H256>| #[trigger]
                self.asked_on_side(start, tp, tpair, taker, taker0, l, d, used, rest, since),
        ensures
            start.requests_side(tp, tpair, taker0, l, taker0.otype.flip(), 1, used) == since,
    {
        let none = Seq::<H256>::empty();
        assert(self.asked_on_side(start, tp, tpair, taker, taker0, l, d, used, none, since));
        assert(used + none =~= used);
        assert(since + Seq::<TokenOp>::empty() =~= since);
    }

    /// A pass that has not ended enters the next level.
    pub proof fn lemma_enter_level(
        self,
        start: ModuleView,
        tp: H256,
        tpair: TradePair,
        taker: LimitOrder,
        taker0: LimitOrder,
        l: LadderView,
        d: int,
        used: Seq<H256>,
    )
        requires
            d >= 1,
            !pass_ends(taker, l, taker0.otype.flip(), d),
            forall|rest: Seq<H256>| #[trigger]
                self.on_side(start, tp, tpair, taker, taker0, l, d, used, rest),
        ensures
            forall|rest: Seq<H256>| #[trigger]
                self.in_level(
                    start,
                    tp,
                    tpair,
                    taker,
                    taker0,
                    l,
                    d,
                    l.levels[l.chain[l.away(taker0.otype.flip(), d)]].orders,
                    used,
                    rest,
                ),
    {
        let queue = l.levels[l.chain[l.away(taker0.otype.flip(), d)]].orders;
        assert forall|rest: Seq<H256>| #[trigger]
            self.in_level(start, tp, tpair, taker, taker0, l, d, queue, used, rest) by {
            assert(self.on_side(start, tp, tpair, taker, taker0, l, d, used, rest));
        }
    }

    /// A finished order at the front of what is left of a level is gone by.
    pub proof fn lemma_skip_step(
        self,
        start: ModuleView,
        tp: H256,
        tpair: TradePair,
        taker: LimitOrder,
        taker0: LimitOrder,
        l: LadderView,
        d: int,
        queue: Seq<H256>,
        i: int,
        used: Seq<H256>,
    )
        requires
            1 <= d <= l.depth(taker0.otype.flip()) + 1,
            0 <= i < queue.len(),
            taker.status != OrderStatus::Filled,
            done(self.orders, queue[i]),
            forall|rest: Seq<H256>| #[trigger]
                self.in_level(start, tp, tpair, taker, taker0, l, d, queue.skip(i), used, rest),
        ensures
            forall|rest: Seq<H256>| #[trigger]
                self.in_level(start, tp, tpair, taker, taker0, l, d, queue.skip(i + 1), used, rest),
    {
        assert forall|rest: Seq<H256>| #[trigger]
            self.in_level(start, tp, tpair, taker, taker0, l, d, queue.skip(i + 1), used, rest) by {
            assert(self.in_level(start, tp, tpair, taker, taker0, l, d, queue.skip(i), used, rest));
            assert(queue.skip(i)[0] == queue[i]);
            assert(queue.skip(i).skip(1) =~= queue.skip(i + 1));
            assert(self.fill_level(tp, tpair, taker, queue.skip(i), rest) == self.fill_level(
                tp,
                tpair,
                taker,
                queue.skip(i + 1),
                rest,
            ));
        }
    }

    /// A trade with the oldest order of what is left of a level takes the
    /// pass one order on.
    pub proof fn lemma_trade_step(
        self,
        start: ModuleView,
        tp: H256,
        tpair: TradePair,
        taker: LimitOrder,
        taker0: LimitOrder,
        l: LadderView,
        d: int,
        queue: Seq<H256>,
        i: int,
        used: Seq<H256>,
        trade_hash: H256,
    )
        requires
            1 <= d <= l.depth(taker0.otype.flip()) + 1,
            0 <= i < queue.len(),
            taker.status != OrderStatus::Filled,
            !done(self.orders, queue[i]),
            self.trade_fault(taker, queue[i], trade_hash) is None,
            forall|rest: Seq<H256>| #[trigger]
                self.in_level(start, tp, tpair, taker, taker0, l, d, queue.skip(i), used, rest),
        ensures
            forall|rest: Seq<H256>| #[trigger]
                self.traded_with(tp, tpair, taker, queue[i], trade_hash).0.in_level(
                    start,
                    tp,
                    tpair,
                    self.traded_with(tp, tpair, taker, queue[i], trade_hash).1,
                    taker0,
                    l,
                    d,
                    queue.skip(i + 1),
                    used.push(trade_hash),
                    rest,
                ),
    {
        let next = self.traded_with(tp, tpair, taker, queue[i], trade_hash);
        assert forall|rest: Seq<H256>| #[trigger]
            next.0.in_level(
                start,
                tp,
                tpair,
                next.1,
                taker0,
                l,
                d,
                queue.skip(i + 1),
                used.push(trade_hash),
                rest,
            ) by {
            let more = seq![trade_hash] + rest;
            assert(self.in_level(start, tp, tpair, taker, taker0, l, d, queue.skip(i), used, more));
            assert(used + more =~= used.push(trade_hash) + rest);
            assert(queue.skip(i)[0] == queue[i]);
            assert(more[0] == trade_hash);
            assert(queue.skip(i).skip(1) =~= queue.skip(i + 1));
            assert(more.skip(1) =~= rest);
            assert(self.fill_level(tp, tpair, taker, queue.skip(i), more) == next.0.fill_level(
                tp,
                tpair,
                next.1,
                queue.skip(i + 1),
                rest,
            ));
        }
    }

    /// A trade that is at fault stops the pass with that fault.
    pub proof fn lemma_fault_step(
        self,
        start: ModuleView,
        tp: H256,
        tpair: TradePair,
        taker: LimitOrder,
        taker0: LimitOrder,
        l: LadderView,
        d: int,
        queue: Seq<H256>,
        i: int,
        used: Seq<H256>,
        trade_hash: H256,
    )
        requires
            1 <= d <= l.depth(taker0.otype.flip()) + 1,
            0 <= i < queue.len(),
            taker.status != OrderStatus::Filled,
            !done(self.orders, queue[i]),
            self.trade_fault(taker, queue[i], trade_hash) is Some,
            forall|rest: Seq<H256>| #[trigger]
                self.in_level(start, tp, tpair, taker, taker0, l, d, queue.skip(i), used, rest),
        ensures
            start.fill_side(tp, tpair, taker0, l, taker0.otype.flip(), 1, used.push(trade_hash)).fault
                == self.trade_fault(taker, queue[i], trade_hash),
    {
        let more = seq![trade_hash];
        assert(self.in_level(start, tp, tpair, taker, taker0, l, d, queue.skip(i), used, more));
        assert(used + more =~= used.push(trade_hash));
        assert(queue.skip(i)[0] == queue[i]);
        assert(more[0] == trade_hash);
    }

    /// A pass that has used up a level stands before the next one.
    pub proof fn lemma_leave_level(
        self,
        start: ModuleView,
        tp: H256,
        tpair: TradePair,
        taker: LimitOrder,
        taker0: LimitOrder,
        l: LadderView,
        d: int,
        queue: Seq<H256>,
        used: Seq<H256>,
    )
        requires
            1 <= d <= l.depth(taker0.otype.flip()) + 1,
            queue.len() == 0 || taker.status == OrderStatus::Filled,
            forall|rest: Seq<H256>| #[trigger]
                self.in_level(start, tp, tpair, taker, taker0, l, d, queue, used, rest),
        ensures
            forall|rest: Seq<H256>| #[trigger]
                self.on_side(start, tp, tpair, taker, taker0, l, d + 1, used, rest),
    {
        assert forall|rest: Seq<H256>| #[trigger]
            self.on_side(start, tp, tpair, taker, taker0, l, d + 1, used, rest) by {
            assert(self.in_level(start, tp, tpair, taker, taker0, l, d, queue, used, rest));
        }
    }

    /// Where the pass ends, the pass from the start with the hashes of the
    /// trades that were made leads here without a fault, and uses up those
    /// hashes.
    pub proof fn lemma_pass_ended(
        self,
        start: ModuleView,
        tp: H256,
        tpair: TradePair,
        taker: LimitOrder,
        taker0: LimitOrder,
        l: LadderView,
        d: int,
        used: Seq<H256>,
    )
        requires
            pass_ends(taker, l, taker0.otype.flip(), d),
            forall|rest: Seq<H256>| #[trigger]
                self.on_side(start, tp, tpair, taker, taker0, l, d, used, rest),
        ensures
            start.fill_side(tp, tpair, taker0, l, taker0.otype.flip(), 1, used) == (Walk {
                exchange: self,
                taker,
                hashes: Seq::<H256>::empty(),
                fault: None,
            }),
    {
        let none = Seq::<H256>::empty();
        assert(self.on_side(start, tp, tpair, taker, taker0, l, d, used, none));
        assert(used + none =~= used);
    }
}

/// A finished order at the front of a queue is not the first with which a
/// taker trades; an order that is not finished is.
pub proof fn lemma_first_live_step(queue: Seq<H256>, orders: Map<H256, LimitOrder>, i: int)
    requires
        0 <= i < queue.len(),
    ensures
        done(orders, queue[i]) ==> first_live(queue.skip(i), orders) == first_live(
            queue.skip(i + 1),
            orders,
        ),
        !done(orders, queue[i]) ==> first_live(queue.skip(i), orders) == Some(queue[i]),
{
    assert(queue.skip(i)[0] == queue[i]);
    assert(queue.skip(i).skip(1) =~= queue.skip(i + 1));
}

} // verus!
