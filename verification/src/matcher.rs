//! The matching of an arriving order against the resting orders of the other
//! side, best price first and oldest order first within a price.

use vstd::prelude::*;
use crate::amounts::ex_amount;
use crate::engine::{live, order_ok, Module, ModuleView};
use crate::escrow::{law_frozen_funds_stay_in_balance, requests_of_trade};
use crate::host::{HashRequest, Trait};
use crate::ladder::{done, LinkedItem};
use crate::matching::{room_for, same_order};
use crate::pass::{first_maker, first_maker_from, lemma_first_live_step, pass_ends, Walk};
use crate::stores::with_pushed;
use crate::table::{Dup, Key};
use crate::transfers::TokenOp;
use crate::types::{
    Balance, Error, LadderFault, LimitOrder, OrderStatus, OrderType, OwnerPair, Price, Trade,
    TradePair, H256, PMAX, PMIN,
};

verus! {

impl ModuleView {
    /// The exchange after a trade has been recorded: the two orders as the
    /// trade left them, the trade under its hash, and the hash at the end of
    /// the lists of both orders, of both owners, of both owners within the
    /// pair, and of the pair; one nonce is used up.
    pub open spec fn recorded(
        self,
        tp_hash: H256,
        tp: TradePair,
        maker: LimitOrder,
        taker: LimitOrder,
        base_qty: Balance,
        quote_qty: Balance,
        trade_hash: H256,
    ) -> ModuleView {
        ModuleView {
            orders: self.orders.insert(taker.hash, taker).insert(maker.hash, maker),
            trades: self.trades.insert(
                trade_hash,
                Trade::of(trade_hash, tp.base, tp.quote, maker, taker, base_qty, quote_qty),
            ),
            order_owned_trades: with_pushed(
                with_pushed(self.order_owned_trades, taker.hash, trade_hash),
                maker.hash,
                trade_hash,
            ),
            owned_trades: with_pushed(
                with_pushed(self.owned_trades, taker.owner, trade_hash),
                maker.owner,
                trade_hash,
            ),
            owned_tp_trades: with_pushed(
                with_pushed(
                    self.owned_tp_trades,
                    OwnerPair { owner: taker.owner, pair: tp_hash },
                    trade_hash,
                ),
                OwnerPair { owner: maker.owner, pair: tp_hash },
                trade_hash,
            ),
            trade_pair_owned_trades: with_pushed(self.trade_pair_owned_trades, tp_hash, trade_hash),
            nonce: (self.nonce + 1) as u64,
            ..self
        }
    }
}

/// The requests for the hashes of the trades of a pass in the pair `tpair`,
/// which began when the nonce was `nonce`, and whose trades stand in
/// `trades` under `hashes`: the request for each trade names the tokens of
/// the pair, the amounts of the trade, and the nonce as it was when the
/// trade was made, one more with every trade.
pub open spec fn trade_requests(
    tpair: TradePair,
    nonce: u64,
    trades: Map<H256, Trade>,
    hashes: Seq<H256>,
) -> Seq<HashRequest> {
    Seq::new(
        hashes.len(),
        |k: int|
            HashRequest::Trade {
                base: tpair.base,
                quote: tpair.quote,
                base_amount: trades[hashes[k]].base_amount,
                quote_amount: trades[hashes[k]].quote_amount,
                nonce: (nonce + k) as u64,
            },
    )
}

/// Every hash of `hashes` names a trade in `trades`.
pub open spec fn all_stored(trades: Map<H256, Trade>, hashes: Seq<H256>) -> bool {
    forall|k: int| 0 <= k < hashes.len() ==> trades.contains_key(#[trigger] hashes[k])
}

/// A trade that is recorded adds its request to those of the pass.
pub proof fn lemma_request_step(
    now: ModuleView,
    tp_hash: H256,
    tpair: TradePair,
    maker: LimitOrder,
    taker: LimitOrder,
    base_qty: Balance,
    quote_qty: Balance,
    trade_hash: H256,
    nonce: u64,
    used: Seq<H256>,
)
    requires
        !now.trades.contains_key(trade_hash),
        now.nonce < u64::MAX,
        now.nonce == nonce + used.len(),
        all_stored(now.trades, used),
    ensures
        ({
            let after = now.recorded(tp_hash, tpair, maker, taker, base_qty, quote_qty, trade_hash);
            &&& after.nonce == nonce + used.len() + 1
            &&& all_stored(after.trades, used.push(trade_hash))
            &&& trade_requests(tpair, nonce, after.trades, used.push(trade_hash)) == trade_requests(
                tpair,
                nonce,
                now.trades,
                used,
            ).push(
                HashRequest::Trade {
                    base: tpair.base,
                    quote: tpair.quote,
                    base_amount: base_qty,
                    quote_amount: quote_qty,
                    nonce: now.nonce,
                },
            )
        }),
{
    let after = now.recorded(tp_hash, tpair, maker, taker, base_qty, quote_qty, trade_hash);
    let more = used.push(trade_hash);
    assert forall|k: int| 0 <= k < more.len() implies after.trades.contains_key(
        #[trigger] more[k],
    ) by {
        if k < used.len() {
            assert(now.trades.contains_key(used[k]));
        }
    }
    assert forall|k: int| 0 <= k < used.len() implies after.trades[used[k]] == now.trades[used[k]] by {
        assert(now.trades.contains_key(used[k]));
    }
    assert(trade_requests(tpair, nonce, after.trades, more) =~= trade_requests(
        tpair,
        nonce,
        now.trades,
        used,
    ).push(
        HashRequest::Trade {
            base: tpair.base,
            quote: tpair.quote,
            base_amount: base_qty,
            quote_amount: quote_qty,
            nonce: now.nonce,
        },
    ));
}

impl Module {
    /// The key of the level that comes next in a walk away from the head:
    /// the one before `item` on the buy side, the one after it on the sell
    /// side.
    pub fn next_match_price(item: &LinkedItem, otype: OrderType) -> (r: Option<Price>)
        ensures
            r == (if otype == OrderType::Buy {
                item.prev
            } else {
                item.next
            }),
    {
        if otype == OrderType::Buy {
            item.prev
        } else {
            item.next
        }
    }

    /// Whether an order of `order_price` crosses a level of
    /// `linked_item_price`: a buy order at or above it, a sell order at or
    /// below it.
    pub open spec fn crosses(order_price: Price, order_type: OrderType, linked_item_price: Price) -> bool {
        match order_type {
            OrderType::Buy => order_price >= linked_item_price,
            OrderType::Sell => order_price <= linked_item_price,
        }
    }

    /// Whether an order of `order_price` crosses a level of
    /// `linked_item_price`.
    pub fn price_matched(order_price: Price, order_type: OrderType, linked_item_price: Price) -> (r:
        bool)
        ensures
            r == Self::crosses(order_price, order_type, linked_item_price),
    {
        match order_type {
            OrderType::Buy => order_price >= linked_item_price,
            OrderType::Sell => order_price <= linked_item_price,
        }
    }

    /// The request for the hash of a trade of `base_qty` against `quote_qty`
    /// in the pair `tp`: it holds the nonce of the exchange.
    pub fn trade_request(&self, tp: &TradePair, base_qty: Balance, quote_qty: Balance) -> (r:
        HashRequest)
        ensures
            r == (HashRequest::Trade {
                base: tp.base,
                quote: tp.quote,
                base_amount: base_qty,
                quote_amount: quote_qty,
                nonce: self@.nonce,
            }),
    {
        HashRequest::Trade {
            base: tp.base,
            quote: tp.quote,
            base_amount: base_qty,
            quote_amount: quote_qty,
            nonce: self.nonce,
        }
    }

    /// Records a trade between `maker_order` and `taker_order`, both as the
    /// trade left them, under `trade_hash`. A hash that names a trade already
    /// is refused, and so is a new trade when the nonces are used up; nothing
    /// changes then.
    pub fn record_trade(
        &mut self,
        tp_hash: H256,
        tp: &TradePair,
        maker_order: &LimitOrder,
        taker_order: &LimitOrder,
        base_qty: Balance,
        quote_qty: Balance,
        trade_hash: H256,
    ) -> (r: Result<(), Error>)
        ensures
            final(self).asked@ == old(self).asked@,
            final(self).hashed@ == old(self).hashed@,
            match r {
                Ok(()) => {
                    &&& !old(self)@.trades.contains_key(trade_hash)
                    &&& old(self)@.nonce < u64::MAX
                    &&& final(self)@ == old(self)@.recorded(
                        tp_hash,
                        *tp,
                        *maker_order,
                        *taker_order,
                        base_qty,
                        quote_qty,
                        trade_hash,
                    )
                },
                Err(e) => {
                    &&& final(self)@ == old(self)@
                    &&& e == (if old(self)@.trades.contains_key(trade_hash) {
                        Error::HashCollision
                    } else {
                        Error::Overflow
                    })
                    &&& old(self)@.trades.contains_key(trade_hash) || old(self)@.nonce == u64::MAX
                },
            },
    {
        if self.trades.contains_key(&trade_hash) {
            return Err(Error::HashCollision);
        }
        if self.nonce == u64::MAX {
            return Err(Error::Overflow);
        }
        self.nonce = self.nonce + 1;
        self.orders.insert(taker_order.hash, *taker_order);
        self.orders.insert(maker_order.hash, *maker_order);
        let trade = Trade::new(
            trade_hash,
            tp.base,
            tp.quote,
            maker_order,
            taker_order,
            base_qty,
            quote_qty,
        );
        self.trades.insert(trade_hash, trade);
        self.order_owned_trades.add_trade(taker_order.hash, trade_hash);
        self.order_owned_trades.add_trade(maker_order.hash, trade_hash);
        self.owned_trades.add_trade(taker_order.owner, trade_hash);
        self.owned_trades.add_trade(maker_order.owner, trade_hash);
        self.owned_tp_trades.add_trade(taker_order.owner, tp_hash, trade_hash);
        self.owned_tp_trades.add_trade(maker_order.owner, tp_hash, trade_hash);
        self.trade_pair_owned_trades.add_trade(tp_hash, trade_hash);
        Ok(())
    }

    /// Matches the order `order`, which is stored and rests nowhere, against
    /// the other side of the ladder of the pair `tp_hash`, and says whether
    /// the order is filled.
    ///
    /// The levels of the other side are taken from the head outwards while
    /// the order crosses their price, and the orders of each level from the
    /// oldest on. An order that is finished, as one that was canceled from
    /// outside, is gone by and left as it is. With every other one a trade
    /// is made at the price of the resting order, for the amounts of [`Module::calculate_ex_amount`]: the
    /// host is handed the requests of [`Module::exchange_ops`], the orders
    /// are brought up to date as [`Module::settle`] says, the host is handed
    /// the requests of [`Module::dust_ops`], and the trade is recorded under
    /// the hash that the host gives for [`Module::trade_request`]. The pass ends when the
    /// order is filled or no level is left that it crosses. Then the levels
    /// that the pass has emptied are pruned.
    ///
    /// The requests that the host has granted are entered in the journal,
    /// in the order in which they were made: they are those of
    /// [`ModuleView::requests`] for the hashes that the host gave. For an
    /// order of the pair, what the live orders of every account have left to
    /// sell of every token follows them: it has gone down by what they
    /// unfreeze for the account. So frozen funds that were in balance stay
    /// in balance. The requests for the hashes of the trades are entered in
    /// their journal: they are those of [`trade_requests`] for the trades
    /// that the pass has recorded.
    ///
    /// Any refusal of the host, and any amount out of range, ends the pass
    /// with an error, and leaves the exchange as it was before the call;
    /// what the host has done by then is for the host to undo. An order that
    /// meets nothing to trade with is never refused; amounts of the first
    /// trade that are refused are the result, before the host is asked
    /// anything; any other error that is not the host's is the fault of the
    /// pass for the hashes that the host gave; and the pass never finds the
    /// ladder and the orders in disagreement.
    pub fn order_match<T: Trait>(&mut self, host: &mut T, tp_hash: H256, order: LimitOrder) -> (r:
        Result<bool, Error>)
        requires
            old(self).wf(),
            old(self)@.orders.contains_key(order.hash),
            old(self)@.orders[order.hash] == order,
            live(order),
            old(self)@.rests_nowhere(order.hash),
        ensures
            old(self)@.pair_of(order) == Some(tp_hash) && old(self).in_balance()
                ==> final(self).in_balance(),
            !old(self)@.trade_pairs_by_hash.contains_key(tp_hash) ==> r == Err::<bool, Error>(
                Error::InvalidArgument,
            ) && final(self)@ == old(self)@,
            old(self)@.trade_pairs_by_hash.contains_key(tp_hash) && old(self)@.first_trade(
                tp_hash,
                order,
            ) is None ==> r == Ok::<bool, Error>(false),
            old(self)@.trade_pairs_by_hash.contains_key(tp_hash) && old(self)@.first_trade(
                tp_hash,
                order,
            ) is Some ==> (ex_amount(
                old(self)@.orders[old(self)@.first_trade(tp_hash, order).unwrap()],
                order,
            ) matches Err(e0) ==> r == Err::<bool, Error>(e0)),
            match r {
                Ok(filled) => {
                    &&& final(self).wf()
                    &&& exists|hashes: Seq<H256>| #[trigger]
                        old(self)@.pass(tp_hash, order, hashes) == final(self)@ && old(
                            self,
                        )@.pass_fault(tp_hash, order, hashes) is None
                            && final(self).hashed@ == old(self).hashed@ + trade_requests(
                            old(self)@.trade_pairs_by_hash[tp_hash],
                            old(self)@.nonce,
                            final(self)@.trades,
                            hashes,
                        ) && final(self).asked@ == old(self).asked@ + old(self)@.requests(
                            tp_hash,
                            order,
                            hashes,
                        )
                    &&& final(self)@.matched(old(self)@, tp_hash, order)
                    &&& filled == (final(self)@.orders[order.hash].status == OrderStatus::Filled)
                    &&& !filled ==> live(final(self)@.orders[order.hash])
                    &&& !filled ==> room_for(final(self)@.ladder(tp_hash), order)
                    &&& old(self).asked@.is_prefix_of(final(self).asked@)
                    &&& old(self)@.pair_of(order) == Some(tp_hash) ==> final(self)@.escrow_follows(
                        old(self)@,
                        final(self).asked@.skip(old(self).asked@.len() as int),
                    )
                },
                Err(e) => {
                    &&& final(self)@ == old(self)@
                    &&& final(self).asked@ == old(self).asked@
                    &&& final(self).hashed@ == old(self).hashed@
                    &&& !(e is LadderInvariant)
                    &&& old(self)@.trade_pairs_by_hash.contains_key(tp_hash) && !(e is TokenOp)
                        ==> exists|hashes: Seq<H256>| #[trigger]
                        old(self)@.pass_fault(tp_hash, order, hashes) == Some(e)
                },
            },
    {
        let backup = self.dup();
        let asked = self.asked;
        let hashed = self.hashed;
        let r = self.match_pass(host, tp_hash, order);
        if r.is_err() {
            *self = backup;
            self.asked = asked;
            self.hashed = hashed;
        } else {
            proof {
                if old(self)@.pair_of(order) == Some(tp_hash) && old(self).in_balance() {
                    law_frozen_funds_stay_in_balance(
                        old(self)@,
                        self@,
                        old(self).asked@,
                        self.asked@,
                    );
                }
            }
        }
        r
    }

    /// Makes the matching pass of [`Module::order_match`], but for what the
    /// exchange holds after a refusal.
    #[verifier::rlimit(40)]
    fn match_pass<T: Trait>(&mut self, host: &mut T, tp_hash: H256, order: LimitOrder) -> (r:
        Result<bool, Error>)
        requires
            old(self).wf(),
            old(self)@.orders.contains_key(order.hash),
            old(self)@.orders[order.hash] == order,
            live(order),
            old(self)@.rests_nowhere(order.hash),
        ensures
            !old(self)@.trade_pairs_by_hash.contains_key(tp_hash) ==> r == Err::<bool, Error>(
                Error::InvalidArgument,
            ) && final(self)@ == old(self)@,
            old(self)@.trade_pairs_by_hash.contains_key(tp_hash) && old(self)@.first_trade(
                tp_hash,
                order,
            ) is None ==> r == Ok::<bool, Error>(false),
            old(self)@.trade_pairs_by_hash.contains_key(tp_hash) && old(self)@.first_trade(
                tp_hash,
                order,
            ) is Some ==> (ex_amount(
                old(self)@.orders[old(self)@.first_trade(tp_hash, order).unwrap()],
                order,
            ) matches Err(e0) ==> r == Err::<bool, Error>(e0)),
            match r {
                Ok(filled) => {
                    &&& final(self).wf()
                    &&& exists|hashes: Seq<H256>| #[trigger]
                        old(self)@.pass(tp_hash, order, hashes) == final(self)@ && old(
                            self,
                        )@.pass_fault(tp_hash, order, hashes) is None
                            && final(self).hashed@ == old(self).hashed@ + trade_requests(
                            old(self)@.trade_pairs_by_hash[tp_hash],
                            old(self)@.nonce,
                            final(self)@.trades,
                            hashes,
                        ) && final(self).asked@ == old(self).asked@ + old(self)@.requests(
                            tp_hash,
                            order,
                            hashes,
                        )
                    &&& final(self)@.matched(old(self)@, tp_hash, order)
                    &&& filled == (final(self)@.orders[order.hash].status == OrderStatus::Filled)
                    &&& !filled ==> live(final(self)@.orders[order.hash])
                    &&& !filled ==> room_for(final(self)@.ladder(tp_hash), order)
                    &&& old(self).asked@.is_prefix_of(final(self).asked@)
                    &&& old(self)@.pair_of(order) == Some(tp_hash) ==> final(self)@.escrow_follows(
                        old(self)@,
                        final(self).asked@.skip(old(self).asked@.len() as int),
                    )
                },
                Err(e) => {
                    &&& !(e is LadderInvariant)
                    &&& old(self)@.trade_pairs_by_hash.contains_key(tp_hash) && !(e is TokenOp)
                        ==> exists|hashes: Seq<H256>| #[trigger]
                        old(self)@.pass_fault(tp_hash, order, hashes) == Some(e)
                },
            },
    {
        let ghost before = self@;
        let tp = match self.trade_pairs_by_hash.get(&tp_hash) {
            Some(tp) => *tp,
            None => {
                return Err(Error::InvalidArgument);
            },
        };
        let mut taker = order;
        let otype = taker.otype;
        let oprice = taker.price;
        let side = otype.not();
        let end_item_price;
        if otype == OrderType::Buy {
            end_item_price = Some(PMIN);
        } else {
            end_item_price = Some(PMAX);
        }
        proof {
            before.lemma_sentinels_empty(tp_hash);
            before.ladder(tp_hash).lemma_frame();
            before.lemma_touched(tp_hash);
        }
        let mut head = self.linked_item_list.read_head(tp_hash);
        let ghost start = self@;
        let ghost l = start.ladder(tp_hash);
        proof {
            assert(start == before.touched(tp_hash));
            assert(l == before.ladder(tp_hash));
            start.lemma_pass_start(tp_hash, tp, order);
        }
        let ghost mut cd: int = 0;
        let ghost mut i1: int = 0;
        let ghost mut used: Seq<H256> = Seq::empty();
        let ghost mut begun: bool = false;
        let ghost first = first_maker(start.orders, order, l, side, 1);
        let ghost mut since: Seq<TokenOp> = Seq::empty();
        let ghost mut named: Seq<HashRequest> = Seq::empty();
        let ghost in_pair = before.pair_of(order) == Some(tp_hash);
        proof {
            start.lemma_escrow_kept(start);
            assert forall|rest: Seq<H256>| #[trigger]
                start.on_side(start, tp_hash, tp, taker, order, l, 1, used, rest) by {
                assert(used + rest =~= rest);
            }
            assert forall|rest: Seq<H256>| #[trigger]
                start.asked_on_side(start, tp_hash, tp, taker, order, l, 1, used, rest, since) by {
                assert(used + rest =~= rest);
                assert(since + start.requests_side(tp_hash, tp, order, l, side, 1, rest)
                    =~= start.requests_side(tp_hash, tp, order, l, side, 1, rest));
            }
        }
        loop
            invariant_except_break
                forall|rest: Seq<H256>| #[trigger]
                    self@.on_side(start, tp_hash, tp, taker, order, l, cd + 1, used, rest),
                forall|rest: Seq<H256>| #[trigger]
                    self@.asked_on_side(start, tp_hash, tp, taker, order, l, cd + 1, used, rest, since),
                !begun ==> first == first_maker(start.orders, order, l, side, cd + 1),
            invariant
                self.asked@ == old(self).asked@,
                self.hashed@ == old(self).hashed@,
                self@.nonce == old(self)@.nonce + used.len(),
                all_stored(self@.trades, used),
                named == trade_requests(tp, old(self)@.nonce, self@.trades, used),
                in_pair == (old(self)@.pair_of(order) == Some(tp_hash)),
                in_pair ==> self@.escrow_follows(start, since),
                old(self)@.trade_pairs_by_hash.contains_key(tp_hash),
                start == old(self)@.touched(tp_hash),
                tp == old(self)@.trade_pairs_by_hash[tp_hash],
                live(order),
                first == old(self)@.first_trade(tp_hash, order),
                begun ==> first is Some && ex_amount(start.orders[first.unwrap()], order) is Ok,
                !begun ==> self@ == start && taker == order,
                start.wf(),
                start.rests_nowhere(order.hash),
                l == start.ladder(tp_hash),
                l.wf(),
                self@.matching(start, tp_hash, tp, taker, order, cd, i1),
                0 <= cd <= l.depth(side) + 1,
                0 <= i1,
                l == old(self)@.ladder(tp_hash),
                head@ == l.levels[l.chain[l.away(side, cd)]],
                live(taker) || taker.status == OrderStatus::Filled,
                taker.status != OrderStatus::Filled ==> i1 == 0,
                side == order.otype.flip(),
                otype == order.otype,
                oprice == order.price,
                end_item_price == (if otype == OrderType::Buy {
                    Some(PMIN)
                } else {
                    Some(PMAX)
                }),
            ensures
                self@.matching(start, tp_hash, tp, taker, order, cd, i1),
                start.fill_side(tp_hash, tp, order, l, side, 1, used) == (Walk {
                    exchange: self@,
                    taker,
                    hashes: Seq::<H256>::empty(),
                    fault: None,
                }),
                start.requests_side(tp_hash, tp, order, l, side, 1, used) == since,
                !begun ==> first is None,
                0 <= cd <= l.depth(side) + 1,
                0 <= i1,
                taker.status != OrderStatus::Filled ==> i1 == 0 && (cd == l.depth(side) + 1
                    || !Self::crosses(
                    order.price,
                    order.otype,
                    l.chain[l.away(side, cd + 1)].unwrap(),
                )),
            decreases l.depth(side) + 1 - cd,
        {
            if taker.status == OrderStatus::Filled {
                proof {
                    self@.lemma_pass_ended(start, tp_hash, tp, taker, order, l, cd + 1, used);
                    self@.lemma_asked_pass_ended(
                        start,
                        tp_hash,
                        tp,
                        taker,
                        order,
                        l,
                        cd + 1,
                        used,
                        since,
                    );
                }
                break ;
            }
            let item_price = Self::next_match_price(&head, side);
            proof {
                l.lemma_frame();
                l.lemma_links(l.away(side, cd));
                assert(taker.price == order.price && taker.otype == order.otype) by {
                    assert(start.orders.contains_key(order.hash));
                    assert(self@.orders.contains_key(order.hash));
                    assert(same_order(self@.orders[order.hash], start.orders[order.hash]));
                }
            }
            if item_price.same(&end_item_price) {
                proof {
                    self@.lemma_pass_ended(start, tp_hash, tp, taker, order, l, cd + 1, used);
                    self@.lemma_asked_pass_ended(
                        start,
                        tp_hash,
                        tp,
                        taker,
                        order,
                        l,
                        cd + 1,
                        used,
                        since,
                    );
                }
                break ;
            }
            let ghost p = l.away(side, cd + 1);
            proof {
                assert(item_price == l.chain[p]);
                l.lemma_links(p);
            }
            let item_price = match item_price {
                Some(price) => price,
                None => {
                    proof {
                        assert(false);
                    }
                    return Err(Error::LadderInvariant(LadderFault::MissingLevel));
                },
            };
            if !Self::price_matched(oprice, otype, item_price) {
                proof {
                    self@.lemma_pass_ended(start, tp_hash, tp, taker, order, l, cd + 1, used);
                    self@.lemma_asked_pass_ended(
                        start,
                        tp_hash,
                        tp,
                        taker,
                        order,
                        l,
                        cd + 1,
                        used,
                        since,
                    );
                }
                break ;
            }
            let item = match self.linked_item_list.get(tp_hash, Some(item_price)) {
                Some(item) => item,
                None => {
                    proof {
                        assert(false);
                    }
                    return Err(Error::LadderInvariant(LadderFault::MissingLevel));
                },
            };
            let mut i: usize = 0;
            let ghost mut gone: int = 0;
            proof {
                assert(item@ == l.levels[l.chain[p]]);
                assert(!pass_ends(taker, l, side, cd + 1));
                self@.lemma_enter_level(start, tp_hash, tp, taker, order, l, cd + 1, used);
                self@.lemma_asked_enter_level(start, tp_hash, tp, taker, order, l, cd + 1, used, since);
                assert(item.orders@.skip(0) =~= item.orders@);
                assert(item.orders@.skip(0) == l.levels[l.chain[l.away(side, cd + 1)]].orders);
            }
            while i < item.orders.len()
                invariant_except_break
                    live(taker),
                    i1 == 0,
                    gone == i,
                    self@.matching(start, tp_hash, tp, taker, order, cd, i as int),
                invariant
                    forall|rest: Seq<H256>| #[trigger]
                        self@.in_level(
                            start,
                            tp_hash,
                            tp,
                            taker,
                            order,
                            l,
                            cd + 1,
                            item.orders@.skip(gone),
                            used,
                            rest,
                        ),
                    forall|rest: Seq<H256>| #[trigger]
                        self@.asked_in_level(
                            start,
                            tp_hash,
                            tp,
                            taker,
                            order,
                            l,
                            cd + 1,
                            item.orders@.skip(gone),
                            used,
                            rest,
                            since,
                        ),
                    self.asked@ == old(self).asked@,
                    self.hashed@ == old(self).hashed@,
                    self@.nonce == old(self)@.nonce + used.len(),
                    all_stored(self@.trades, used),
                    named == trade_requests(tp, old(self)@.nonce, self@.trades, used),
                    in_pair == (old(self)@.pair_of(order) == Some(tp_hash)),
                in_pair ==> self@.escrow_follows(start, since),
                    0 <= gone <= item.orders.len(),
                    l == old(self)@.ladder(tp_hash),
                    start == old(self)@.touched(tp_hash),
                    tp == old(self)@.trade_pairs_by_hash[tp_hash],
                    live(order),
                    first == old(self)@.first_trade(tp_hash, order),
                    begun ==> first is Some && ex_amount(start.orders[first.unwrap()], order) is Ok,
                    !begun ==> self@ == start && taker == order && first == first_maker_from(
                        start.orders,
                        order,
                        l,
                        side,
                        cd + 1,
                        item.orders@.skip(gone),
                    ),
                    old(self)@.trade_pairs_by_hash.contains_key(tp_hash),
                    start.wf(),
                    start.rests_nowhere(order.hash),
                    l == start.ladder(tp_hash),
                    l.wf(),
                    0 <= cd <= l.depth(side),
                    p == l.away(side, cd + 1),
                    0 <= p < l.chain.len(),
                    item@ == l.levels[l.chain[p]],
                    l.chain[p] == Some(item_price),
                    0 <= i <= item.orders.len(),
                    Self::crosses(oprice, otype, item_price),
                    side == order.otype.flip(),
                    otype == order.otype,
                    oprice == order.price,
                ensures
                    taker.status == OrderStatus::Filled || (live(taker) && i == item.orders.len()
                        && i1 == 0 && gone == i),
                    taker.status == OrderStatus::Filled ==> 0 <= i1 && self@.matching(
                        start,
                        tp_hash,
                        tp,
                        taker,
                        order,
                        cd,
                        i1,
                    ),
                    taker.status != OrderStatus::Filled ==> self@.matching(
                        start,
                        tp_hash,
                        tp,
                        taker,
                        order,
                        cd,
                        i as int,
                    ),
                decreases item.orders.len() - i,
            {
                let ghost now = self@;
                let ghost so_far = since;
                let o_hash = item.orders[i];
                proof {
                    assert(now.place_ok(tp_hash, l, side, cd, i as int, p, i as int));
                    assert(now.resting_ok(tp_hash, l.chain[p], o_hash));
                }
                let o = match self.orders.get(&o_hash) {
                    Some(o) => *o,
                    None => {
                        proof {
                            assert(false);
                        }
                        return Err(Error::LadderInvariant(LadderFault::MissingOrder));
                    },
                };
                if o.is_finished() {
                    proof {
                        now.lemma_skip(start, tp_hash, tp, taker, order, cd, i as int);
                        now.lemma_skip_step(
                            start,
                            tp_hash,
                            tp,
                            taker,
                            order,
                            l,
                            cd + 1,
                            item.orders@,
                            i as int,
                            used,
                        );
                        now.lemma_asked_skip_step(
                            start,
                            tp_hash,
                            tp,
                            taker,
                            order,
                            l,
                            cd + 1,
                            item.orders@,
                            i as int,
                            used,
                            since,
                        );
                        lemma_first_live_step(item.orders@, start.orders, i as int);
                        gone = gone + 1;
                    }
                } else {
                    proof {
                        assert(order_ok(o));
                        assert(live(o));
                        lemma_first_live_step(item.orders@, start.orders, i as int);
                    }
                    let (base_qty, quote_qty) = match Self::calculate_ex_amount(&o, &taker) {
                        Ok(amounts) => amounts,
                        Err(e) => {
                            proof {
                                now.lemma_fault_step(
                                    start,
                                    tp_hash,
                                    tp,
                                    taker,
                                    order,
                                    l,
                                    cd + 1,
                                    item.orders@,
                                    i as int,
                                    used,
                                    o_hash,
                                );
                                assert(old(self)@.pass_fault(tp_hash, order, used.push(o_hash)) == Some(e));
                            }
                            return Err(e);
                        },
                    };
                    proof {
                        begun = true;
                    }
                    let ops = Self::exchange_ops(&tp, &o, &taker, base_qty, quote_qty);
                    match Self::perform_all(host, &ops) {
                        Ok(()) => {},
                        Err(e) => {
                            return Err(e);
                        },
                    }
                    proof {
                        since = since + ops@;
                    }
                    let s = match Self::settle(&o, &taker, base_qty, quote_qty) {
                        Ok(s) => s,
                        Err(e) => {
                            proof {
                                now.lemma_fault_step(
                                    start,
                                    tp_hash,
                                    tp,
                                    taker,
                                    order,
                                    l,
                                    cd + 1,
                                    item.orders@,
                                    i as int,
                                    used,
                                    o_hash,
                                );
                                assert(old(self)@.pass_fault(tp_hash, order, used.push(o_hash)) == Some(e));
                            }
                            return Err(e);
                        },
                    };
                    let dust = Self::dust_ops(&tp, &o, &taker, &s);
                    match Self::perform_all(host, &dust) {
                        Ok(()) => {},
                        Err(e) => {
                            return Err(e);
                        },
                    }
                    proof {
                        since = since + dust@;
                    }
                    let request = self.trade_request(&tp, base_qty, quote_qty);
                    let trade_hash = host.hash(request);
                    proof {
                        named = named.push(request);
                    }
                    match self.record_trade(
                        tp_hash,
                        &tp,
                        &s.maker,
                        &s.taker,
                        base_qty,
                        quote_qty,
                        trade_hash,
                    ) {
                        Ok(()) => {},
                        Err(e) => {
                            proof {
                                now.lemma_fault_step(
                                    start,
                                    tp_hash,
                                    tp,
                                    taker,
                                    order,
                                    l,
                                    cd + 1,
                                    item.orders@,
                                    i as int,
                                    used,
                                    trade_hash,
                                );
                                assert(old(self)@.pass_fault(tp_hash, order, used.push(trade_hash))
                                    == Some(e));
                            }
                            return Err(e);
                        },
                    }
                    proof {
                        let after = now.lemma_step(
                            start,
                            tp_hash,
                            tp,
                            taker,
                            order,
                            cd,
                            i as int,
                            o,
                            base_qty,
                            quote_qty,
                            s,
                            trade_hash,
                        );
                        assert(self@ == after);
                        now.lemma_trade_step(
                            start,
                            tp_hash,
                            tp,
                            taker,
                            order,
                            l,
                            cd + 1,
                            item.orders@,
                            i as int,
                            used,
                            trade_hash,
                        );
                        assert(now.traded_with(tp_hash, tp, taker, o_hash, trade_hash) == (after, s.taker));
                        assert(item.orders@[i as int] == o_hash);
                        lemma_request_step(
                            now,
                            tp_hash,
                            tp,
                            s.maker,
                            s.taker,
                            base_qty,
                            quote_qty,
                            trade_hash,
                            old(self)@.nonce,
                            used,
                        );
                        if in_pair {
                            now.lemma_escrow_step(
                                start,
                                tp_hash,
                                tp,
                                taker,
                                order,
                                cd,
                                i as int,
                                o_hash,
                                trade_hash,
                                so_far,
                            );
                        }
                        assert(ops@ + dust@ == requests_of_trade(tp, o, taker));
                        assert(since =~= so_far + ops@ + dust@);
                        assert(so_far + ops@ + dust@ =~= so_far + (ops@ + dust@));
                        now.lemma_asked_trade_step(
                            start,
                            tp_hash,
                            tp,
                            taker,
                            order,
                            l,
                            cd + 1,
                            item.orders@,
                            i as int,
                            used,
                            trade_hash,
                            so_far,
                        );
                        used = used.push(trade_hash);
                        gone = gone + 1;
                        assert forall|rest: Seq<H256>| #[trigger]
                            after.asked_in_level(
                                start,
                                tp_hash,
                                tp,
                                s.taker,
                                order,
                                l,
                                cd + 1,
                                item.orders@.skip(gone),
                                used,
                                rest,
                                since,
                            ) by {
                            assert(now.traded_with(
                                tp_hash,
                                tp,
                                taker,
                                item.orders@[i as int],
                                trade_hash,
                            ).0.asked_in_level(
                                start,
                                tp_hash,
                                tp,
                                now.traded_with(tp_hash, tp, taker, item.orders@[i as int], trade_hash).1,
                                order,
                                l,
                                cd + 1,
                                item.orders@.skip(i as int + 1),
                                used,
                                rest,
                                so_far + requests_of_trade(tp, now.orders[item.orders@[i as int]], taker),
                            ));
                        }
                        assert forall|rest: Seq<H256>| #[trigger]
                            after.in_level(
                                start,
                                tp_hash,
                                tp,
                                s.taker,
                                order,
                                l,
                                cd + 1,
                                item.orders@.skip(gone),
                                used,
                                rest,
                            ) by {
                            assert(now.traded_with(
                                tp_hash,
                                tp,
                                taker,
                                item.orders@[i as int],
                                trade_hash,
                            ).0.in_level(
                                start,
                                tp_hash,
                                tp,
                                now.traded_with(tp_hash, tp, taker, item.orders@[i as int], trade_hash).1,
                                order,
                                l,
                                cd + 1,
                                item.orders@.skip(i as int + 1),
                                used,
                                rest,
                            ));
                        }
                    }
                    taker = s.taker;
                    if taker.status == OrderStatus::Filled {
                        proof {
                            i1 = if done(self@.orders, o.hash) {
                                i as int + 1
                            } else {
                                i as int
                            };
                        }
                        break ;
                    }
                }
                i += 1;
            }
            proof {
                self@.lemma_leave_level(
                    start,
                    tp_hash,
                    tp,
                    taker,
                    order,
                    l,
                    cd + 1,
                    item.orders@.skip(gone),
                    used,
                );
                self@.lemma_asked_leave_level(
                    start,
                    tp_hash,
                    tp,
                    taker,
                    order,
                    l,
                    cd + 1,
                    item.orders@.skip(gone),
                    used,
                    since,
                );
            }
            if taker.status == OrderStatus::Filled {
                proof {
                    self@.lemma_pass_ended(start, tp_hash, tp, taker, order, l, cd + 1 + 1, used);
                    self@.lemma_asked_pass_ended(
                        start,
                        tp_hash,
                        tp,
                        taker,
                        order,
                        l,
                        cd + 1 + 1,
                        used,
                        since,
                    );
                }
                break ;
            }
            proof {
                self@.lemma_next_level(start, tp_hash, tp, taker, order, cd, i as int);
                cd = cd + 1;
            }
            head = item;
        }
        let ghost pass = self@;
        proof {
            assert(self.linked_item_list.wf()) by {
                assert forall|key1: H256| #[trigger]
                    self.linked_item_list@.contains_key(key1) implies self.linked_item_list@[key1].wf() by {
                    assert(start.ladders.contains_key(key1));
                }
            }
        }
        // the levels that the pass has emptied go; a level that keeps an
        // order ends the pruning, and stays
        let _ = self.linked_item_list.remove_items(tp_hash, side, &self.orders);
        proof {
            let after = pass.lemma_pass_end(start, tp_hash, tp, taker, order, cd, i1);
            assert(self@.ladders =~= after.ladders);
            assert(self@ == after);
            assert(before.pass(tp_hash, order, used) == self@);
            if in_pair {
                before.lemma_escrow_kept(start);
                pass.lemma_escrow_kept(self@);
                start.lemma_escrow_chain(before, pass, Seq::empty(), since);
                pass.lemma_escrow_chain(before, self@, Seq::empty() + since, Seq::empty());
                assert(Seq::<TokenOp>::empty() + since + Seq::<TokenOp>::empty() =~= since);
            }
            assert(before.pass_fault(tp_hash, order, used) is None);
            assert(before.requests(tp_hash, order, used) == since);
            assert(self@.matched(before, tp_hash, order)) by {
                assert forall|tp2: H256| tp2 != tp_hash implies #[trigger] self@.ladder(tp2)
                    == before.ladder(tp2) by {
                    assert(after.ladder(tp2) == start.ladder(tp2));
                }
                assert forall|h: H256, tp2: H256, key: Option<Price>| #[trigger]
                    before.rests(tp2, key, h) && self@.orders.contains_key(h) && live(
                        self@.orders[h],
                    ) implies self@.rests(tp2, key, h) by {
                    assert(start.rests(tp2, key, h));
                }
            }
        }
        // the requests that the host has granted are entered in the journals
        self.asked = Ghost(self.asked@ + since);
        self.hashed = Ghost(self.hashed@ + named);
        proof {
            assert(self.asked@.skip(old(self).asked@.len() as int) =~= since);
        }
        if taker.status == OrderStatus::Filled {
            Ok(true)
        } else {
            Ok(false)
        }
    }
}

} // verus!
