//! What the orders of an account have left to sell, and how it follows what
//! the host is asked to freeze and to unfreeze: the frozen funds stay in
//! balance with the journal of the requests that the host has granted.

use vstd::prelude::*;
use crate::amounts::ex_amount;
use crate::engine::{index_at, live, order_ok, Module, ModuleView};
use crate::matching::same_order;
use crate::settle::{law_trade_touches_remains_only, settlement};
use crate::transfers::{
    dust_return, exchange, lemma_unfrozen_of_trade, placing, sold_token, unfreezes, unfrozen,
    TokenOp,
};
use crate::types::{AccountId, LimitOrder, OrderStatus, OrderType, OwnerSlot, TradePair, H256};

verus! {

/// The token that an order sells: the base token if it buys, the quote token
/// if it sells.
pub open spec fn sells(order: LimitOrder) -> H256 {
    if order.otype == OrderType::Buy {
        order.base
    } else {
        order.quote
    }
}

/// How much of `token` the request `op` freezes for `who`.
pub open spec fn freezes(op: TokenOp, who: AccountId, token: H256) -> int {
    match op {
        TokenOp::Freeze { who: w, token: t, amount } => if w == who && t == token {
            amount as int
        } else {
            0
        },
        _ => 0,
    }
}

/// What an order has left to sell of `token`: nothing unless it is live and
/// sells that token.
pub open spec fn worth(order: LimitOrder, token: H256) -> int {
    if live(order) && sells(order) == token {
        order.remained_sell_amount as int
    } else {
        0
    }
}

/// How much of `token` the requests `ops` leave frozen for `who`: what they
/// freeze, less what they unfreeze.
pub open spec fn held(ops: Seq<TokenOp>, who: AccountId, token: H256) -> int
    decreases ops.len(),
{
    if ops.len() == 0 {
        0
    } else {
        held(ops.drop_last(), who, token) + freezes(ops.last(), who, token) - unfreezes(
            ops.last(),
            who,
            token,
        )
    }
}

/// What two lists of requests leave frozen is the sum of what each leaves
/// frozen.
pub proof fn lemma_held_sum(a: Seq<TokenOp>, b: Seq<TokenOp>, who: AccountId, token: H256)
    ensures
        held(a + b, who, token) == held(a, who, token) + held(b, who, token),
    decreases b.len(),
{
    if b.len() == 0 {
        assert(a + b =~= a);
    } else {
        assert((a + b).drop_last() =~= a + b.drop_last());
        assert((a + b).last() == b.last());
        lemma_held_sum(a, b.drop_last(), who, token);
    }
}

/// Requests that freeze nothing leave frozen, in the negative, what they
/// unfreeze.
pub proof fn lemma_held_unfrozen(ops: Seq<TokenOp>, who: AccountId, token: H256)
    requires
        forall|i: int| 0 <= i < ops.len() ==> !(#[trigger] ops[i] is Freeze),
    ensures
        held(ops, who, token) == -unfrozen(ops, who, token),
    decreases ops.len(),
{
    if ops.len() > 0 {
        assert(!(ops[ops.len() - 1] is Freeze));
        assert forall|i: int| 0 <= i < ops.drop_last().len() implies !(
        #[trigger] ops.drop_last()[i] is Freeze) by {
            assert(ops.drop_last()[i] == ops[i]);
        }
        lemma_held_unfrozen(ops.drop_last(), who, token);
    }
}

/// The request of a placing leaves frozen what it freezes.
pub proof fn lemma_held_placing(op: TokenOp, who: AccountId, token: H256)
    ensures
        held(seq![op], who, token) == freezes(op, who, token) - unfreezes(op, who, token),
{
    let one = seq![op];
    assert(one.drop_last() =~= Seq::<TokenOp>::empty());
    assert(one.last() == op);
    assert(held(one.drop_last(), who, token) == 0);
}

impl ModuleView {
    /// What the `i`-th order of the account `who` has left to sell of
    /// `token`: nothing unless it is live and sells that token.
    pub open spec fn left_at(self, who: AccountId, token: H256, i: u64) -> int {
        worth(self.orders[self.owned_orders[OwnerSlot { owner: who, index: i }]], token)
    }

    /// What the first `n` orders of the account `who` have left to sell of
    /// `token`.
    pub open spec fn left_upto(self, who: AccountId, token: H256, n: nat) -> int
        decreases n,
    {
        if n == 0 {
            0
        } else {
            self.left_upto(who, token, (n - 1) as nat) + self.left_at(who, token, (n - 1) as u64)
        }
    }

    /// What the live orders of the account `who` have left to sell of
    /// `token`, all together.
    pub open spec fn left_to_sell(self, who: AccountId, token: H256) -> int {
        self.left_upto(who, token, index_at(self.owned_orders_index, who) as nat)
    }

    /// Two exchanges in which the first `n` orders of an account have the
    /// same left to sell have the same sum.
    pub proof fn lemma_left_same(self, other: ModuleView, who: AccountId, token: H256, n: nat)
        requires
            n <= u64::MAX,
            forall|i: u64| i < n ==> #[trigger] self.left_at(who, token, i) == other.left_at(who, token, i),
        ensures
            self.left_upto(who, token, n) == other.left_upto(who, token, n),
        decreases n,
    {
        if n > 0 {
            self.lemma_left_same(other, who, token, (n - 1) as nat);
            assert(self.left_at(who, token, (n - 1) as u64) == other.left_at(
                who,
                token,
                (n - 1) as u64,
            ));
        }
    }

    /// Two exchanges in which the first `n` orders of an account have the
    /// same left to sell, but for the order at place `at`, differ in the sum
    /// by what that order differs.
    pub proof fn lemma_left_but_one(
        self,
        other: ModuleView,
        who: AccountId,
        token: H256,
        n: nat,
        at: u64,
    )
        requires
            n <= u64::MAX,
            at < n,
            forall|i: u64|
                i < n && i != at ==> #[trigger] self.left_at(who, token, i) == other.left_at(
                    who,
                    token,
                    i,
                ),
        ensures
            other.left_upto(who, token, n) == self.left_upto(who, token, n) + other.left_at(
                who,
                token,
                at,
            ) - self.left_at(who, token, at),
        decreases n,
    {
        if n - 1 == at {
            self.lemma_left_same(other, who, token, (n - 1) as nat);
        } else {
            self.lemma_left_but_one(other, who, token, (n - 1) as nat, at);
            assert(self.left_at(who, token, (n - 1) as u64) == other.left_at(
                who,
                token,
                (n - 1) as u64,
            ));
        }
    }

    /// An order that takes the place of a stored one, with the same owner,
    /// changes what the owner's orders have left to sell by what the two
    /// orders differ in that, and changes nothing for another account.
    pub proof fn lemma_left_after_update(self, order: LimitOrder, who: AccountId, token: H256)
        requires
            self.owned_ok(),
            self.orders.contains_key(order.hash),
            self.orders[order.hash].owner == order.owner,
        ensures
            (ModuleView { orders: self.orders.insert(order.hash, order), ..self }).left_to_sell(
                who,
                token,
            ) == self.left_to_sell(who, token) + (if who == order.owner {
                worth(order, token) - worth(self.orders[order.hash], token)
            } else {
                0
            }),
    {
        let after = ModuleView { orders: self.orders.insert(order.hash, order), ..self };
        let n = index_at(self.owned_orders_index, who);
        let at = choose|i: u64| #[trigger] self.owns(self.orders[order.hash].owner, i, order.hash);
        assert(self.owns(order.owner, at, order.hash));
        if who == order.owner {
            assert forall|i: u64| i < n && i != at implies #[trigger] self.left_at(who, token, i)
                == after.left_at(who, token, i) by {
                assert(self.slot_ok(who, i));
                if i < at {
                    assert(self.slots_differ(who, i, at));
                } else {
                    assert(self.slots_differ(who, at, i));
                }
            }
            self.lemma_left_but_one(after, who, token, n as nat, at);
        } else {
            assert forall|i: u64| i < n implies #[trigger] self.left_at(who, token, i) == after.left_at(
                who,
                token,
                i,
            ) by {
                assert(self.slot_ok(who, i));
            }
            self.lemma_left_same(after, who, token, n as nat);
        }
    }
}

/// Placing freezes what is left to sell. After a fresh order has been stored,
/// the live orders of every account have left to sell of every token what
/// they had before and what the request of the placing freezes.
pub proof fn law_placing_freezes_what_is_left(
    m: ModuleView,
    order: LimitOrder,
    tp: H256,
    who: AccountId,
    token: H256,
)
    requires
        m.wf(),
        !m.orders.contains_key(order.hash),
        order_ok(order),
        order.status == OrderStatus::Created,
        index_at(m.owned_orders_index, order.owner) < u64::MAX,
    ensures
        m.with_order(order, tp).left_to_sell(who, token) == m.left_to_sell(who, token) + freezes(
            placing(
                TradePair { hash: tp, base: order.base, quote: order.quote },
                order.owner,
                order.otype,
                order.sell_amount,
            ),
            who,
            token,
        ),
{
    let after = m.with_order(order, tp);
    let n = index_at(m.owned_orders_index, who);
    assert forall|i: u64| i < n implies #[trigger] m.left_at(who, token, i) == after.left_at(
        who,
        token,
        i,
    ) by {
        assert(m.slot_ok(who, i));
    }
    m.lemma_left_same(after, who, token, n as nat);
    if who == order.owner {
        assert(after.left_at(who, token, n) == worth(order, token));
    }
}

/// A trade unfreezes what is no longer left to sell. After the taker `taker`
/// has traded with the resting order `maker_hash` of the other side, the live
/// orders of every account have left to sell of every token what they had
/// before, less what the requests of the trade unfreeze. So what the host is
/// asked to hold frozen for an account is at all times what the live orders
/// of the account have left to sell.
pub proof fn law_trade_unfreezes_what_is_sold(
    m: ModuleView,
    tp: H256,
    taker: LimitOrder,
    maker_hash: H256,
    trade_hash: H256,
    who: AccountId,
    token: H256,
)
    requires
        m.wf(),
        m.trade_pairs_by_hash.contains_key(tp),
        m.orders.contains_key(taker.hash),
        m.orders[taker.hash] == taker,
        live(taker),
        m.pair_of(taker) == Some(tp),
        m.may_rest(tp, maker_hash),
        maker_hash != taker.hash,
        m.orders[maker_hash].otype == taker.otype.flip(),
        ex_amount(m.orders[maker_hash], taker) is Ok,
        settlement(
            m.orders[maker_hash],
            taker,
            ex_amount(m.orders[maker_hash], taker).unwrap().0,
            ex_amount(m.orders[maker_hash], taker).unwrap().1,
        ) is Ok,
    ensures
        ({
            let tpair = m.trade_pairs_by_hash[tp];
            let maker = m.orders[maker_hash];
            let amounts = ex_amount(maker, taker).unwrap();
            let s = settlement(maker, taker, amounts.0, amounts.1).unwrap();
            m.traded_with(tp, tpair, taker, maker_hash, trade_hash).0.left_to_sell(who, token)
                == m.left_to_sell(who, token) - unfrozen(
                exchange(tpair, maker, taker, amounts.0, amounts.1) + dust_return(
                    tpair,
                    maker,
                    taker,
                    s,
                ),
                who,
                token,
            )
        }),
{
    lemma_trade_unfreezes(m, tp, taker, maker_hash, trade_hash, who, token);
}

/// What [`law_trade_unfreezes_what_is_sold`] says, of an exchange in the
/// middle of a pass: its pairs, records and lists of orders are in order,
/// whatever stands on its ladders.
pub proof fn lemma_trade_unfreezes(
    m: ModuleView,
    tp: H256,
    taker: LimitOrder,
    maker_hash: H256,
    trade_hash: H256,
    who: AccountId,
    token: H256,
)
    requires
        m.pairs_ok(),
        m.records_ok(),
        m.owned_ok(),
        m.trade_pairs_by_hash.contains_key(tp),
        m.orders.contains_key(taker.hash),
        m.orders[taker.hash] == taker,
        live(taker),
        m.pair_of(taker) == Some(tp),
        m.may_rest(tp, maker_hash),
        maker_hash != taker.hash,
        m.orders[maker_hash].otype == taker.otype.flip(),
        ex_amount(m.orders[maker_hash], taker) is Ok,
        settlement(
            m.orders[maker_hash],
            taker,
            ex_amount(m.orders[maker_hash], taker).unwrap().0,
            ex_amount(m.orders[maker_hash], taker).unwrap().1,
        ) is Ok,
    ensures
        ({
            let tpair = m.trade_pairs_by_hash[tp];
            let maker = m.orders[maker_hash];
            let amounts = ex_amount(maker, taker).unwrap();
            let s = settlement(maker, taker, amounts.0, amounts.1).unwrap();
            m.traded_with(tp, tpair, taker, maker_hash, trade_hash).0.left_to_sell(who, token)
                == m.left_to_sell(who, token) - unfrozen(
                exchange(tpair, maker, taker, amounts.0, amounts.1) + dust_return(
                    tpair,
                    maker,
                    taker,
                    s,
                ),
                who,
                token,
            )
        }),
{
    let tpair = m.trade_pairs_by_hash[tp];
    let maker = m.orders[maker_hash];
    let amounts = ex_amount(maker, taker).unwrap();
    let s = settlement(maker, taker, amounts.0, amounts.1).unwrap();
    let after = m.traded_with(tp, tpair, taker, maker_hash, trade_hash).0;
    // the orders change one after the other
    let first = ModuleView { orders: m.orders.insert(taker.hash, s.taker), ..m };
    let second = ModuleView { orders: first.orders.insert(maker_hash, s.maker), ..first };
    law_trade_touches_remains_only(maker, taker, amounts.0, amounts.1, s);
    lemma_unfrozen_of_trade(tpair, maker, taker, amounts.0, amounts.1, s, who, token);
    m.lemma_left_after_update(s.taker, who, token);
    m.lemma_owned_kept(first);
    first.lemma_left_after_update(s.maker, who, token);
    assert(second.orders == after.orders);
    assert(second.owned_orders == after.owned_orders);
    assert(second.owned_orders_index == after.owned_orders_index);
    assert forall|i: u64| second.left_at(who, token, i) == after.left_at(who, token, i) by {}
    second.lemma_left_same(after, who, token, index_at(m.owned_orders_index, who) as nat);
    // the tokens that the two orders sell are those of the pair
    assert(sells(taker) == sold_token(tpair, taker.otype));
    assert(sells(maker) == sold_token(tpair, taker.otype.flip()));
    assert(s.taker.status == OrderStatus::Filled ==> s.taker.remained_sell_amount == 0);
    assert(s.maker.status == OrderStatus::Filled ==> s.maker.remained_sell_amount == 0);
}

impl ModuleView {
    /// The escrow follows the requests: what the live orders of every
    /// account have left to sell of every token is what they had in
    /// `before`, and what the requests `ops` freeze, less what they
    /// unfreeze.
    pub open spec fn escrow_follows(self, before: ModuleView, ops: Seq<TokenOp>) -> bool {
        forall|who: AccountId, token: H256| #[trigger]
            self.left_to_sell(who, token) == before.left_to_sell(who, token) + held(ops, who, token)
    }

    /// An exchange with the same orders and the same lists of orders has
    /// the same left to sell: no request is needed to follow it.
    pub proof fn lemma_escrow_kept(self, after: ModuleView)
        requires
            after.orders == self.orders,
            after.owned_orders == self.owned_orders,
            after.owned_orders_index == self.owned_orders_index,
        ensures
            after.escrow_follows(self, Seq::<TokenOp>::empty()),
    {
        assert forall|who: AccountId, token: H256| #[trigger]
            after.left_to_sell(who, token) == self.left_to_sell(who, token) + held(
                Seq::<TokenOp>::empty(),
                who,
                token,
            ) by {
            assert forall|i: u64| #[trigger]
                self.left_at(who, token, i) == after.left_at(who, token, i) by {}
            self.lemma_left_same(after, who, token, index_at(self.owned_orders_index, who) as nat);
        }
    }

    /// The requests of two steps, one after the other, are followed by the
    /// two steps together.
    pub proof fn lemma_escrow_chain(
        self,
        before: ModuleView,
        after: ModuleView,
        first: Seq<TokenOp>,
        second: Seq<TokenOp>,
    )
        requires
            self.escrow_follows(before, first),
            after.escrow_follows(self, second),
        ensures
            after.escrow_follows(before, first + second),
    {
        assert forall|who: AccountId, token: H256| #[trigger]
            after.left_to_sell(who, token) == before.left_to_sell(who, token) + held(
                first + second,
                who,
                token,
            ) by {
            assert(self.left_to_sell(who, token) == before.left_to_sell(who, token) + held(
                first,
                who,
                token,
            ));
            lemma_held_sum(first, second, who, token);
        }
    }

    /// The escrow follows the requests of a trade: what
    /// [`law_trade_unfreezes_what_is_sold`] says, for every account and
    /// token at once.
    pub proof fn lemma_escrow_of_trade(
        self,
        tp: H256,
        taker: LimitOrder,
        maker_hash: H256,
        trade_hash: H256,
    )
        requires
            self.pairs_ok(),
            self.records_ok(),
            self.owned_ok(),
            self.trade_pairs_by_hash.contains_key(tp),
            self.orders.contains_key(taker.hash),
            self.orders[taker.hash] == taker,
            live(taker),
            self.pair_of(taker) == Some(tp),
            self.may_rest(tp, maker_hash),
            maker_hash != taker.hash,
            self.orders[maker_hash].otype == taker.otype.flip(),
            self.trade_fault(taker, maker_hash, trade_hash) is None,
        ensures
            self.traded_with(
                tp,
                self.trade_pairs_by_hash[tp],
                taker,
                maker_hash,
                trade_hash,
            ).0.escrow_follows(self, requests_of_trade(self.trade_pairs_by_hash[tp], self.orders[maker_hash], taker)),
    {
        let tpair = self.trade_pairs_by_hash[tp];
        let maker = self.orders[maker_hash];
        let ops = requests_of_trade(tpair, maker, taker);
        let after = self.traded_with(tp, tpair, taker, maker_hash, trade_hash).0;
        assert forall|who: AccountId, token: H256| #[trigger]
            after.left_to_sell(who, token) == self.left_to_sell(who, token) + held(ops, who, token) by {
            lemma_trade_unfreezes(self, tp, taker, maker_hash, trade_hash, who, token);
            assert forall|i: int| 0 <= i < ops.len() implies !(#[trigger] ops[i] is Freeze) by {}
            lemma_held_unfrozen(ops, who, token);
        }
    }

    /// One trade of a matching pass keeps the escrow following the requests.
    /// The trade is made with the maker at place `i` of the level after the
    /// `cd` levels that the pass has gone by, for a taker of the pair.
    pub proof fn lemma_escrow_step(
        self,
        start: ModuleView,
        tp: H256,
        tpair: TradePair,
        taker: LimitOrder,
        taker0: LimitOrder,
        cd: int,
        i: int,
        maker_hash: H256,
        trade_hash: H256,
        since: Seq<TokenOp>,
    )
        requires
            start.wf(),
            start.rests_nowhere(taker0.hash),
            start.trade_pairs_by_hash.contains_key(tp),
            tpair == start.trade_pairs_by_hash[tp],
            start.pair_of(taker0) == Some(tp),
            self.matching(start, tp, tpair, taker, taker0, cd, i),
            live(taker),
            start.ladder(tp).wf(),
            0 <= cd,
            0 <= start.ladder(tp).away(taker0.otype.flip(), cd + 1) < start.ladder(tp).chain.len(),
            0 <= i < start.ladder(tp).levels[start.ladder(tp).chain[start.ladder(tp).away(
                taker0.otype.flip(),
                cd + 1,
            )]].orders.len(),
            maker_hash == start.ladder(tp).levels[start.ladder(tp).chain[start.ladder(tp).away(
                taker0.otype.flip(),
                cd + 1,
            )]].orders[i],
            live(self.orders[maker_hash]),
            self.trade_fault(taker, maker_hash, trade_hash) is None,
            self.escrow_follows(start, since),
        ensures
            self.traded_with(tp, tpair, taker, maker_hash, trade_hash).0.escrow_follows(
                start,
                since + requests_of_trade(tpair, self.orders[maker_hash], taker),
            ),
    {
        let l = start.ladder(tp);
        let side = taker0.otype.flip();
        let p = l.away(side, cd + 1);
        let key = l.chain[p];
        l.lemma_frame();
        assert(l.levels.contains_key(key));
        assert(self.place_ok(tp, l, side, cd, i, p, i));
        assert(self.resting_ok(tp, key, maker_hash));
        assert(start.rests(tp, key, maker_hash)) by {
            assert(start.queue(tp, key)[i] == maker_hash);
        }
        assert(!start.rests(tp, key, taker0.hash));
        assert(maker_hash != taker0.hash);
        assert(same_order(self.orders[taker0.hash], start.orders[taker0.hash]));
        assert(taker.hash == taker0.hash);
        l.lemma_place(p);
        assert(self.ladder(tp) == l);
        assert(self.orders[maker_hash].otype == taker.otype.flip());
        start.lemma_owned_kept(self);
        assert(self.pairs_ok());
        assert(self.pair_of(taker) == Some(tp));
        self.lemma_escrow_of_trade(tp, taker, maker_hash, trade_hash);
        self.lemma_escrow_chain(
            start,
            self.traded_with(tp, tpair, taker, maker_hash, trade_hash).0,
            since,
            requests_of_trade(tpair, self.orders[maker_hash], taker),
        );
    }

    /// The escrow follows the request of a placing: what
    /// [`law_placing_freezes_what_is_left`] says, for every account and
    /// token at once.
    pub proof fn lemma_escrow_of_placing(self, order: LimitOrder, tp: H256)
        requires
            self.wf(),
            !self.orders.contains_key(order.hash),
            order_ok(order),
            order.status == OrderStatus::Created,
            index_at(self.owned_orders_index, order.owner) < u64::MAX,
        ensures
            self.with_order(order, tp).escrow_follows(
                self,
                seq![
                    placing(
                        TradePair { hash: tp, base: order.base, quote: order.quote },
                        order.owner,
                        order.otype,
                        order.sell_amount,
                    ),
                ],
            ),
    {
        let op = placing(
            TradePair { hash: tp, base: order.base, quote: order.quote },
            order.owner,
            order.otype,
            order.sell_amount,
        );
        assert forall|who: AccountId, token: H256| #[trigger]
            self.with_order(order, tp).left_to_sell(who, token) == self.left_to_sell(who, token)
                + held(seq![op], who, token) by {
            law_placing_freezes_what_is_left(self, order, tp, who, token);
            lemma_held_placing(op, who, token);
        }
    }
}

/// The requests that go with a trade of the taker with the maker, in the
/// order in which the host is handed them: those of the exchange of the
/// amounts, then those that give the dust back.
pub open spec fn requests_of_trade(tpair: TradePair, maker: LimitOrder, taker: LimitOrder) -> Seq<
    TokenOp,
> {
    let amounts = ex_amount(maker, taker).unwrap();
    let s = settlement(maker, taker, amounts.0, amounts.1).unwrap();
    exchange(tpair, maker, taker, amounts.0, amounts.1) + dust_return(tpair, maker, taker, s)
}

/// The frozen funds are in balance: what the requests `asked` have left
/// frozen for every account, of every token, is what the live orders of the
/// account have left to sell of it in the exchange `m`.
pub open spec fn in_balance(m: ModuleView, asked: Seq<TokenOp>) -> bool {
    forall|who: AccountId, token: H256| #[trigger]
        held(asked, who, token) == m.left_to_sell(who, token)
}

impl Module {
    /// The frozen funds are in balance: what the requests that the host has
    /// granted have left frozen for every account, of every token, is what
    /// the live orders of the account have left to sell of it.
    pub open spec fn in_balance(&self) -> bool {
        in_balance(self@, self.asked@)
    }
}

/// An exchange with no order is in balance with no request.
pub proof fn lemma_empty_in_balance()
    ensures
        in_balance(ModuleView::empty(), Seq::<TokenOp>::empty()),
{
    assert forall|who: AccountId, token: H256| #[trigger]
        held(Seq::<TokenOp>::empty(), who, token) == ModuleView::empty().left_to_sell(who, token) by {
        assert(ModuleView::empty().left_upto(who, token, 0) == 0);
    }
}

/// The frozen funds stay in balance. Where they are in balance with the
/// requests `asked`, and the journal has grown to `later`, and the escrow
/// follows the requests that were added, they are in balance with `later`.
pub proof fn law_frozen_funds_stay_in_balance(
    before: ModuleView,
    after: ModuleView,
    asked: Seq<TokenOp>,
    later: Seq<TokenOp>,
)
    requires
        in_balance(before, asked),
        asked.is_prefix_of(later),
        after.escrow_follows(before, later.skip(asked.len() as int)),
    ensures
        in_balance(after, later),
{
    let more = later.skip(asked.len() as int);
    assert(asked =~= later.subrange(0, asked.len() as int));
    assert(asked + more =~= later);
    assert forall|who: AccountId, token: H256| #[trigger]
        held(later, who, token) == after.left_to_sell(who, token) by {
        lemma_held_sum(asked, more, who, token);
        assert(held(asked, who, token) == before.left_to_sell(who, token));
        assert(after.left_to_sell(who, token) == before.left_to_sell(who, token) + held(
            more,
            who,
            token,
        ));
    }
}

/// The frozen funds balance. In an exchange at rest, what the live orders of
/// an account have left to sell of a token is the sum over the resting orders
/// of the account that sell the token: each place of the list of the account
/// counts what a resting order of the account has left to sell of the token,
/// or nothing; and each live resting order of the account that sells the
/// token is counted at one place, with what it has left to sell. Where the
/// frozen funds are in balance, that sum is what the requests that the host
/// has granted have left frozen for the account.
pub proof fn law_frozen_funds_balance(
    m: ModuleView,
    who: AccountId,
    token: H256,
    i: u64,
    tp: H256,
    key: Option<crate::types::Price>,
    hash: H256,
)
    requires
        m.settled(),
    ensures
        i < index_at(m.owned_orders_index, who) && m.left_at(who, token, i) != 0 ==> {
            let order = m.orders[m.owned_orders[OwnerSlot { owner: who, index: i }]];
            &&& m.rests_somewhere(order.hash)
            &&& order.owner == who
            &&& sells(order) == token
            &&& m.left_at(who, token, i) == order.remained_sell_amount
        },
        m.rests(tp, key, hash) && live(m.orders[hash]) && m.orders[hash].owner == who && sells(
            m.orders[hash],
        ) == token ==> exists|j: u64|
            j < index_at(m.owned_orders_index, who) && #[trigger] m.owns(who, j, hash) && m.left_at(
                who,
                token,
                j,
            ) == m.orders[hash].remained_sell_amount,
{
    if i < index_at(m.owned_orders_index, who) && m.left_at(who, token, i) != 0 {
        assert(m.slot_ok(who, i));
        let h = m.owned_orders[OwnerSlot { owner: who, index: i }];
        assert(m.orders.contains_key(h));
        assert(m.orders[h].hash == h);
    }
    if m.rests(tp, key, hash) && live(m.orders[hash]) && m.orders[hash].owner == who && sells(
        m.orders[hash],
    ) == token {
        crate::laws::law_resting_orders(m, tp, key, hash);
        let j = choose|j: u64| #[trigger] m.owns(m.orders[hash].owner, j, hash);
        assert(m.owns(who, j, hash));
    }
}

} // verus!
