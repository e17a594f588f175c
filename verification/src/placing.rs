//! The placing of a limit order: it is checked, stored, matched against the
//! book, and what is left of it comes to rest on the ladder.

use vstd::prelude::*;
use crate::amounts::counterparty_amount;
use crate::engine::{index_at, live, order_ok, Module, ModuleView};
use crate::escrow::law_frozen_funds_stay_in_balance;
use crate::host::{HashRequest, Trait};
use crate::ladder::LadderView;
use crate::matcher::trade_requests;
use crate::matching::room_for;
use crate::table::Dup;
use crate::transfers::{placing, TokenOp};
use crate::types::{
    AccountId, Balance, Error, Event, LimitOrder, OrderStatus, OrderType, OwnerSlot, PairSlot,
    Price, Tokens, TradePair, H256, PMAX,
};

verus! {

/// The pair and the counterparty amount of an order that `sender` wants to
/// place, or the reason for which the order is refused before the host is
/// asked anything: the pair of `base` and `quote` must exist, the price must
/// lie above the bottom sentinel's and below the top sentinel's, the amount
/// must not be zero, and the amount must convert at that price.
pub open spec fn order_checked(
    m: ModuleView,
    base: H256,
    quote: H256,
    otype: OrderType,
    price: Price,
    sell_amount: Balance,
) -> Result<(H256, Balance), Error> {
    if !m.trade_pair_hash_by_base_quote.contains_key(Tokens { base, quote }) {
        Err(Error::InvalidArgument)
    } else if price == 0 || sell_amount == 0 {
        Err(Error::InvalidArgument)
    } else if price == PMAX {
        Err(Error::InvalidArgument)
    } else {
        match counterparty_amount(otype, price, sell_amount) {
            Err(e) => Err(e),
            Ok(buy_amount) => Ok((m.trade_pair_hash_by_base_quote[Tokens { base, quote }], buy_amount)),
        }
    }
}

impl ModuleView {
    /// The exchange after the fresh order `order` of the pair `tp` has been
    /// stored: under its hash, at the end of the orders of its owner and of
    /// those of the pair; one nonce is used up.
    pub open spec fn with_order(self, order: LimitOrder, tp: H256) -> ModuleView {
        let own = index_at(self.owned_orders_index, order.owner);
        let all = index_at(self.trade_pair_owned_orders_index, tp);
        ModuleView {
            orders: self.orders.insert(order.hash, order),
            owned_orders: self.owned_orders.insert(
                OwnerSlot { owner: order.owner, index: own },
                order.hash,
            ),
            owned_orders_index: self.owned_orders_index.insert(order.owner, (own + 1) as u64),
            trade_pair_owned_orders: self.trade_pair_owned_orders.insert(
                PairSlot { pair: tp, index: all },
                order.hash,
            ),
            trade_pair_owned_orders_index: self.trade_pair_owned_orders_index.insert(
                tp,
                (all + 1) as u64,
            ),
            nonce: (self.nonce + 1) as u64,
            ..self
        }
    }

    /// Storing an order under a hash that names none keeps the exchange in
    /// order; the new order rests nowhere.
    pub proof fn lemma_with_order(self, order: LimitOrder, tp: H256)
        requires
            self.wf(),
            !self.orders.contains_key(order.hash),
            order_ok(order),
            index_at(self.owned_orders_index, order.owner) < u64::MAX,
        ensures
            self.with_order(order, tp).wf(),
            self.with_order(order, tp).rests_nowhere(order.hash),
            self.rests_nowhere(order.hash),
    {
        let after = self.with_order(order, tp);
        let own = index_at(self.owned_orders_index, order.owner);
        assert(after.owned_ok()) by {
            assert forall|who: AccountId, i: u64|
                i < index_at(after.owned_orders_index, who) implies #[trigger] after.slot_ok(who, i) by {
                if !(who == order.owner && i == own) {
                    assert(self.slot_ok(who, i));
                }
            }
            assert forall|who: AccountId, i: u64, j: u64|
                i < j < index_at(after.owned_orders_index, who) implies #[trigger] after.slots_differ(
                who,
                i,
                j,
            ) by {
                if who == order.owner && j == own {
                    assert(self.slot_ok(who, i));
                } else {
                    assert(self.slots_differ(who, i, j));
                }
            }
            assert forall|h: H256| #[trigger] after.orders.contains_key(h) implies exists|i: u64| #[trigger]
                after.owns(after.orders[h].owner, i, h) by {
                if h == order.hash {
                    assert(after.owns(order.owner, own, h));
                } else {
                    assert(self.orders.contains_key(h));
                    let i = choose|i: u64| #[trigger] self.owns(self.orders[h].owner, i, h);
                    assert(after.owns(after.orders[h].owner, i, h));
                }
            }
        }
        assert forall|tp2: H256, key: Option<Price>, i: int|
            after.ladder(tp2).levels.contains_key(key) && 0 <= i < after.queue(tp2, key).len() implies #[trigger] after.resting_ok(
            tp2,
            key,
            after.queue(tp2, key)[i],
        ) by {
            assert(self.resting_ok(tp2, key, self.queue(tp2, key)[i]));
        }
        assert forall|tp2: H256, key: Option<Price>|
            after.ladder(tp2).levels.contains_key(key) implies (#[trigger] after.queue(
            tp2,
            key,
        )).no_duplicates() && (Self::is_sentinel(key) || after.queue(tp2, key).len() > 0) by {
            assert(self.queue(tp2, key).no_duplicates());
        }
        assert forall|tp2: H256, key: Option<Price>| !#[trigger] self.rests(tp2, key, order.hash) by {
            if self.rests(tp2, key, order.hash) {
                let q = self.queue(tp2, key);
                let j = choose|j: int| 0 <= j < q.len() && q[j] == order.hash;
                assert(self.resting_ok(tp2, key, self.queue(tp2, key)[j]));
            }
        }
        assert forall|tp2: H256, key: Option<Price>| !#[trigger] after.rests(tp2, key, order.hash) by {
            assert(!self.rests(tp2, key, order.hash));
        }
    }

    /// An order that is live, rests nowhere and does not reach the best
    /// price of the other side may come to rest at its price: the exchange
    /// stays in order, and the order is the newest of its level.
    pub proof fn lemma_rested(self, tp: H256, hash: H256, otype: OrderType, after: LadderView)
        requires
            self.wf(),
            self.rests_nowhere(hash),
            self.may_rest(tp, hash),
            self.orders[hash].otype == otype,
            room_for(self.ladder(tp), self.orders[hash]),
            self.ladder(tp).appended(after, self.orders[hash].price, hash, otype),
            after.wf(),
        ensures
            self.with_ladder(tp, after).wf(),
            after.levels.contains_key(Some(self.orders[hash].price)),
            after.levels[Some(self.orders[hash].price)].orders.len() > 0,
            after.levels[Some(self.orders[hash].price)].orders.last() == hash,
            self.with_ladder(tp, after).rests(tp, Some(self.orders[hash].price), hash),
            forall|h: H256, tp2: H256, key: Option<Price>| #[trigger]
                self.rests(tp2, key, h) ==> self.with_ladder(tp, after).rests(tp2, key, h),
    {
        let l = self.ladder(tp);
        let price = self.orders[hash].price;
        let key = Some(price);
        let m = self.with_ladder(tp, after);
        LadderView::lemma_initial();
        self.lemma_owned_kept(m);
        assert(l.wf() && l.sorted());
        assert(m.ladder(tp) == after);
        assert forall|tp2: H256| tp2 != tp implies m.ladder(tp2) == self.ladder(tp2) by {}
        if l.levels.contains_key(key) {
            assert(after == l.pushed(key, hash));
            l.lemma_pushed(key, hash);
            l.lemma_side_by_price(price);
            assert forall|k: Option<Price>| after.levels.contains_key(k) implies l.levels.contains_key(
                k,
            ) && after.levels[k].orders == (if k == key {
                l.levels[k].orders.push(hash)
            } else {
                l.levels[k].orders
            }) by {}
            assert forall|k: Option<Price>| after.side_of(k) == l.side_of(k) by {}
        } else {
            let p = choose|p: int| #[trigger] l.slot(p, price, otype) && after == l.inserted(p, price, hash);
            l.lemma_inserted_sorted(p, price, hash, otype);
            l.lemma_inserted_sides(p, price, hash, otype);
            l.lemma_frame();
            assert(l.levels.contains_key(l.chain[p - 1]));
            assert(l.levels.contains_key(l.chain[p]));
            assert forall|k: Option<Price>| after.levels.contains_key(k) && k != key implies l.levels.contains_key(
                k,
            ) && after.levels[k].orders == l.levels[k].orders by {}
            assert(after.levels[key].orders =~= seq![hash]);
        }
        assert(m.rests(tp, key, hash)) by {
            let q = after.levels[key].orders;
            assert(q[q.len() - 1] == hash);
        }
        assert forall|h: H256, tp2: H256, k: Option<Price>| #[trigger] self.rests(tp2, k, h) implies m.rests(
            tp2,
            k,
            h,
        ) by {
            if tp2 == tp {
                let q = l.levels[k].orders;
                let j = choose|j: int| 0 <= j < q.len() && q[j] == h;
                assert(after.levels.contains_key(k));
                if k == key {
                    assert(after.levels[k].orders == q.push(hash));
                    assert(q.push(hash)[j] == h);
                } else {
                    assert(after.levels[k].orders == q);
                }
            }
        }
        assert(m.ladders_ok()) by {
            assert forall|tp2: H256| #[trigger] m.ladders.contains_key(tp2) implies m.ladders[tp2].wf()
                && m.ladders[tp2].sorted() by {
                if tp2 != tp {
                    assert(self.ladders.contains_key(tp2));
                }
            }
        }
        assert forall|tp2: H256, k: Option<Price>, i: int|
            m.ladder(tp2).levels.contains_key(k) && 0 <= i < m.queue(tp2, k).len() implies #[trigger] m.resting_ok(
            tp2,
            k,
            m.queue(tp2, k)[i],
        ) by {
            if tp2 != tp || k != key {
                assert(self.resting_ok(tp2, k, self.queue(tp2, k)[i]));
                if tp2 == tp {
                    assert(l.levels.contains_key(k));
                    assert(after.side_of(k) == l.side_of(k));
                }
            } else if l.levels.contains_key(key) && i < l.levels[key].orders.len() {
                assert(self.resting_ok(tp2, k, self.queue(tp2, k)[i]));
            }
        }
        assert forall|tp2: H256, k: Option<Price>|
            m.ladder(tp2).levels.contains_key(k) implies (#[trigger] m.queue(tp2, k)).no_duplicates()
            && (Self::is_sentinel(k) || m.queue(tp2, k).len() > 0) by {
            if tp2 != tp || k != key {
                assert(self.queue(tp2, k).no_duplicates());
            } else if l.levels.contains_key(key) {
                let q = l.levels[key].orders;
                assert(self.queue(tp, key).no_duplicates());
                assert(!self.rests(tp, key, hash));
                assert(!q.contains(hash));
                assert forall|x: int, y: int|
                    0 <= x < q.push(hash).len() && 0 <= y < q.push(hash).len() && x != y implies q.push(
                    hash,
                )[x] != q.push(hash)[y] by {
                    if x < q.len() {
                        assert(q.contains(q[x]));
                    }
                    if y < q.len() {
                        assert(q.contains(q[y]));
                    }
                }
            }
        }
    }
}

/// A fresh order: nothing of it is filled yet.
pub open spec fn created(
    hash: H256,
    base: H256,
    quote: H256,
    owner: AccountId,
    price: Price,
    sell_amount: Balance,
    buy_amount: Balance,
    otype: OrderType,
) -> LimitOrder {
    LimitOrder {
        hash,
        base,
        quote,
        owner,
        price,
        sell_amount,
        remained_sell_amount: sell_amount,
        buy_amount,
        remained_buy_amount: buy_amount,
        otype,
        status: OrderStatus::Created,
    }
}

impl ModuleView {
    /// The fault at which the placing of the fresh order `order` in the pair
    /// `tp` stops, if the host refuses nothing and gives `hashes` to the
    /// trades: a hash that names an order already, else the nonces or the
    /// running indices used up, else the fault of the matching pass; none
    /// where the placing goes to its end.
    pub open spec fn placing_fault(self, tp: H256, order: LimitOrder, hashes: Seq<H256>) -> Option<
        Error,
    > {
        if self.orders.contains_key(order.hash) {
            Some(Error::HashCollision)
        } else if self.nonce == u64::MAX || index_at(self.owned_orders_index, order.owner)
            == u64::MAX || index_at(self.trade_pair_owned_orders_index, tp) == u64::MAX {
            Some(Error::Overflow)
        } else {
            self.with_order(order, tp).pass_fault(tp, order, hashes)
        }
    }

    /// The placing of a fresh order in the pair `tp` can stop with the fault
    /// `e`: there are a hash for the order and hashes for the trades with
    /// which it does, if the host refuses nothing.
    pub open spec fn may_stop_with(
        self,
        tp: H256,
        base: H256,
        quote: H256,
        owner: AccountId,
        price: Price,
        sell_amount: Balance,
        buy_amount: Balance,
        otype: OrderType,
        e: Error,
    ) -> bool {
        exists|hash: H256, hashes: Seq<H256>| #[trigger]
            self.placing_fault(
                tp,
                created(hash, base, quote, owner, price, sell_amount, buy_amount, otype),
                hashes,
            ) == Some(e)
    }

    /// The exchange after the fresh order `order` of the pair `tp` has been
    /// stored and matched without a fault, with the trades recorded under
    /// `hashes`, and what is left of it has come to rest on the ladder of
    /// the pair: a filled
    /// order rests nowhere, so that the ladder is as the pass left it; an
    /// order that is not filled has been appended at its price, on its own
    /// side.
    pub open spec fn placed_with(
        self,
        before: ModuleView,
        tp: H256,
        order: LimitOrder,
        hashes: Seq<H256>,
    ) -> bool {
        let matched = before.with_order(order, tp).pass(tp, order, hashes);
        &&& before.placing_fault(tp, order, hashes) is None
        &&& if matched.orders[order.hash].status == OrderStatus::Filled {
            self == matched
        } else {
            &&& self == matched.with_ladder(tp, self.ladder(tp))
            &&& matched.ladder(tp).appended(
                self.ladder(tp),
                order.price,
                order.hash,
                order.otype,
            )
        }
    }

    /// What the placing of the fresh order `order` in the pair `tp` has made
    /// of the exchange `before`. The order has been stored under a hash that
    /// named no order, then matched, then put to rest, as
    /// [`ModuleView::placed_with`] says for the hashes that the host gave to
    /// the trades. With that, the trades have changed nothing but live orders
    /// of the pair, each at a price no worse for the new order than its
    /// limit; and the order is filled and rests nowhere, or is live and the
    /// newest of its level.
    pub open spec fn placed(self, before: ModuleView, tp: H256, order: LimitOrder) -> bool {
        let stored = before.with_order(order, tp);
        &&& !before.orders.contains_key(order.hash)
        &&& before.nonce < u64::MAX
        &&& exists|hashes: Seq<H256>| #[trigger] self.placed_with(before, tp, order, hashes)
        &&& self.traded(stored, tp, order)
        &&& self.orders.contains_key(order.hash)
        &&& if self.orders[order.hash].status == OrderStatus::Filled {
            self.rests_nowhere(order.hash)
        } else {
            &&& live(self.orders[order.hash])
            &&& self.ladder(tp).levels.contains_key(Some(order.price))
            &&& self.queue(tp, Some(order.price)).len() > 0
            &&& self.queue(tp, Some(order.price)).last() == order.hash
        }
    }
}

impl ModuleView {
    /// An exchange at rest is at rest again after an order has been placed:
    /// the live orders that rested still rest, and the new order is filled or
    /// has come to rest.
    pub proof fn lemma_settled_after_placing(
        self,
        stored: ModuleView,
        matched: ModuleView,
        after: ModuleView,
        tp: H256,
        order: LimitOrder,
    )
        requires
            self.settled(),
            !self.orders.contains_key(order.hash),
            stored == self.with_order(order, tp),
            matched.matched(stored, tp, order),
            after.wf(),
            after.orders == matched.orders,
            after.orders.contains_key(order.hash),
            forall|h: H256, tp2: H256, key: Option<Price>| #[trigger]
                matched.rests(tp2, key, h) ==> after.rests(tp2, key, h),
            live(after.orders[order.hash]) ==> after.rests_somewhere(order.hash),
        ensures
            after.settled(),
    {
        assert forall|h: H256| #[trigger] after.orders.contains_key(h) && live(
            after.orders[h],
        ) implies after.rests_somewhere(h) by {
            if h != order.hash {
                assert(stored.orders.contains_key(h));
                assert(matched.orders.contains_key(h));
                assert(stored.orders[h] == self.orders[h]);
                if matched.orders[h] != stored.orders[h] {
                    assert(live(stored.orders[h]));
                }
                assert(live(self.orders[h]));
                assert(self.orders.contains_key(h));
                assert(self.rests_somewhere(h));
                let (tp2, key) = choose|tp2: H256, key: Option<Price>| #[trigger]
                    self.rests(tp2, key, h);
                assert(stored.rests(tp2, key, h));
                assert(matched.rests(tp2, key, h));
                assert(after.rests(tp2, key, h));
            }
        }
    }
}

impl Module {
    /// Stores the fresh order `order` of the pair `tp`. A hash that names an
    /// order already is refused, and so is a new order when the nonces or
    /// the running indices are used up; nothing changes then.
    pub fn insert_order(&mut self, tp: H256, order: LimitOrder) -> (r: Result<(), Error>)
        ensures
            final(self).asked@ == old(self).asked@,
            final(self).hashed@ == old(self).hashed@,
            match r {
                Ok(()) => {
                    &&& !old(self)@.orders.contains_key(order.hash)
                    &&& old(self)@.nonce < u64::MAX
                    &&& index_at(old(self)@.owned_orders_index, order.owner) < u64::MAX
                    &&& index_at(old(self)@.trade_pair_owned_orders_index, tp) < u64::MAX
                    &&& final(self)@ == old(self)@.with_order(order, tp)
                },
                Err(e) => {
                    &&& final(self)@ == old(self)@
                    &&& e == (if old(self)@.orders.contains_key(order.hash) {
                        Error::HashCollision
                    } else {
                        Error::Overflow
                    })
                    &&& old(self)@.orders.contains_key(order.hash) || old(self)@.nonce == u64::MAX
                        || index_at(old(self)@.owned_orders_index, order.owner) == u64::MAX
                        || index_at(old(self)@.trade_pair_owned_orders_index, tp) == u64::MAX
                },
            },
    {
        if self.orders.contains_key(&order.hash) {
            return Err(Error::HashCollision);
        }
        if self.nonce == u64::MAX {
            return Err(Error::Overflow);
        }
        let owned_index = match self.owned_orders_index.get(&order.owner) {
            Some(index) => *index,
            None => 0,
        };
        let tp_owned_index = match self.trade_pair_owned_orders_index.get(&tp) {
            Some(index) => *index,
            None => 0,
        };
        if owned_index == u64::MAX || tp_owned_index == u64::MAX {
            return Err(Error::Overflow);
        }
        self.nonce = self.nonce + 1;
        self.orders.insert(order.hash, order);
        self.owned_orders.insert(OwnerSlot { owner: order.owner, index: owned_index }, order.hash);
        self.owned_orders_index.insert(order.owner, owned_index + 1);
        self.trade_pair_owned_orders.insert(PairSlot { pair: tp, index: tp_owned_index }, order.hash);
        self.trade_pair_owned_orders_index.insert(tp, tp_owned_index + 1);
        Ok(())
    }

    /// The request for the hash of a new order of `owner`: it holds the nonce
    /// of the exchange.
    pub fn order_request(
        &self,
        base: H256,
        quote: H256,
        price: Price,
        sell_amount: Balance,
        buy_amount: Balance,
        otype: OrderType,
        owner: AccountId,
    ) -> (r: HashRequest)
        ensures
            r == (HashRequest::Order {
                base,
                quote,
                price,
                sell_amount,
                buy_amount,
                otype,
                owner,
                nonce: self@.nonce,
            }),
    {
        HashRequest::Order {
            base,
            quote,
            price,
            sell_amount,
            buy_amount,
            otype,
            owner,
            nonce: self.nonce,
        }
    }

    /// Places an order as [`Module::create_limit_order`] does, but for what
    /// the exchange holds after a refusal.
    fn place<T: Trait>(
        &mut self,
        host: &mut T,
        sender: AccountId,
        base: H256,
        quote: H256,
        otype: OrderType,
        price: Price,
        sell_amount: Balance,
    ) -> (r: Result<Event, Error>)
        requires
            old(self).wf(),
        ensures
            r is Ok && old(self)@.settled() ==> final(self)@.settled(),
            match order_checked(old(self)@, base, quote, otype, price, sell_amount) {
                Err(e) => r == Err::<Event, Error>(e),
                Ok((tp, buy_amount)) => match r {
                    Ok(event) => {
                        &&& final(self).wf()
                        &&& event matches Event::OrderCreated(owner, b, q, hash, p, amount)
                        &&& owner == sender
                        &&& b == base
                        &&& q == quote
                        &&& p == price
                        &&& amount == sell_amount
                        &&& final(self)@.placed(
                            old(self)@,
                            tp,
                            created(hash, base, quote, sender, price, sell_amount, buy_amount, otype),
                        )
                        &&& old(self).asked@.is_prefix_of(final(self).asked@)
                        &&& final(self)@.escrow_follows(
                            old(self)@,
                            final(self).asked@.skip(old(self).asked@.len() as int),
                        )
                        &&& exists|hashes: Seq<H256>|
                            final(self).hashed@ == old(self).hashed@.push(
                                HashRequest::Order {
                                    base,
                                    quote,
                                    price,
                                    sell_amount,
                                    buy_amount,
                                    otype,
                                    owner: sender,
                                    nonce: old(self)@.nonce,
                                },
                            ) + #[trigger] trade_requests(
                                TradePair { hash: tp, base, quote },
                                (old(self)@.nonce + 1) as u64,
                                final(self)@.trades,
                                hashes,
                            ) && final(self).asked@ == old(self).asked@.push(
                                placing(TradePair { hash: tp, base, quote }, sender, otype, sell_amount),
                            ) + old(self)@.with_order(
                                created(hash, base, quote, sender, price, sell_amount, buy_amount, otype),
                                tp,
                            ).requests(
                                tp,
                                created(hash, base, quote, sender, price, sell_amount, buy_amount, otype),
                                hashes,
                            )
                    },
                    Err(e) => {
                        &&& !(e is LadderInvariant)
                        &&& e is InsufficientFunds || e is TokenOp || old(self)@.may_stop_with(
                            tp,
                            base,
                            quote,
                            sender,
                            price,
                            sell_amount,
                            buy_amount,
                            otype,
                            e,
                        )
                    },
                },
            },
    {
        let ghost before = self@;
        let tp = match self.ensure_trade_pair(base, quote) {
            Ok(tp) => tp,
            Err(e) => {
                return Err(e);
            },
        };
        match Self::ensure_bonds(price, sell_amount) {
            Ok(()) => {},
            Err(e) => {
                return Err(e);
            },
        }
        if price == PMAX {
            return Err(Error::InvalidArgument);
        }
        let buy_amount = match Self::ensure_counterparty_amount_bonds(otype, price, sell_amount) {
            Ok(amount) => amount,
            Err(e) => {
                return Err(e);
            },
        };
        let op_token_hash = Self::sold(&TradePair { hash: tp, base, quote }, otype);
        let request = self.order_request(base, quote, price, sell_amount, buy_amount, otype, sender);
        let hash = host.hash(request);
        self.hashed = Ghost(self.hashed@.push(request));
        let order = LimitOrder::new(hash, base, quote, sender, price, sell_amount, buy_amount, otype);
        match host.ensure_free_balance(sender, op_token_hash, sell_amount) {
            Ok(()) => {},
            Err(_) => {
                return Err(Error::InsufficientFunds);
            },
        }
        let freeze = Self::placing_op(&TradePair { hash: tp, base, quote }, sender, otype, sell_amount);
        match Self::perform(host, freeze) {
            Ok(()) => {},
            Err(e) => {
                return Err(e);
            },
        }
        self.asked = Ghost(self.asked@.push(freeze));
        let ghost pushed = self.asked@;
        match self.insert_order(tp, order) {
            Ok(()) => {},
            Err(e) => {
                proof {
                    assert(order == created(
                        hash,
                        base,
                        quote,
                        sender,
                        price,
                        sell_amount,
                        buy_amount,
                        otype,
                    ));
                    assert(order_checked(before, base, quote, otype, price, sell_amount) == Ok::<
                        (H256, Balance),
                        Error,
                    >((tp, buy_amount)));
                    assert(before.placing_fault(
                        tp,
                        created(hash, base, quote, sender, price, sell_amount, buy_amount, otype),
                        Seq::<H256>::empty(),
                    ) == Some(e));
                }
                return Err(e);
            },
        }
        let ghost stored = self@;
        proof {
            before.lemma_with_order(order, tp);
        }
        let filled = match self.order_match(host, tp, order) {
            Ok(filled) => filled,
            Err(e) => {
                proof {
                    if !(e is TokenOp) {
                        let hashes = choose|hashes: Seq<H256>| #[trigger]
                            stored.pass_fault(tp, order, hashes) == Some(e);
                        assert(order == created(
                            hash,
                            base,
                            quote,
                            sender,
                            price,
                            sell_amount,
                            buy_amount,
                            otype,
                        ));
                        assert(order_checked(before, base, quote, otype, price, sell_amount) == Ok::<
                            (H256, Balance),
                            Error,
                        >((tp, buy_amount)));
                        assert(before.placing_fault(
                            tp,
                            created(hash, base, quote, sender, price, sell_amount, buy_amount, otype),
                            hashes,
                        ) == Some(e));
                    }
                }
                return Err(e);
            },
        };
        let ghost matched = self@;
        let ghost hashes = choose|hashes: Seq<H256>| #[trigger]
            stored.pass(tp, order, hashes) == matched && stored.pass_fault(tp, order, hashes) is None
                && self.hashed@ == old(self).hashed@.push(request) + trade_requests(
                stored.trade_pairs_by_hash[tp],
                stored.nonce,
                matched.trades,
                hashes,
            ) && self.asked@ == pushed + stored.requests(tp, order, hashes);
        let ghost first = seq![freeze];
        let ghost more = self.asked@.skip(old(self).asked@.len() as int + 1);
        proof {
            let n = old(self).asked@.len() as int;
            assert(pushed.is_prefix_of(self.asked@));
            assert(pushed =~= self.asked@.subrange(0, n + 1));
            assert forall|k: int| 0 <= k <= n implies self.asked@[k] == #[trigger] pushed[k] by {
                assert(self.asked@.subrange(0, n + 1)[k] == self.asked@[k]);
            }
            assert(pushed[n] == freeze);
            assert(old(self).asked@ =~= self.asked@.subrange(0, n)) by {
                assert forall|k: int| 0 <= k < n implies old(self).asked@[k] == self.asked@[k] by {
                    assert(pushed[k] == old(self).asked@[k]);
                }
            }
            assert(self.asked@.skip(n) =~= first + more);
            assert(stored.pair_of(order) == Some(tp));
            before.lemma_escrow_of_placing(order, tp);
            stored.lemma_escrow_chain(before, matched, first, more);
            assert(stored.orders.contains_key(hash));
            assert(matched.orders.contains_key(hash));
        }
        if !filled {
            proof {
                assert(self.linked_item_list.wf()) by {
                    assert forall|key1: H256| #[trigger]
                        self.linked_item_list@.contains_key(key1) implies self.linked_item_list@[key1].wf() by {
                        assert(matched.ladders.contains_key(key1));
                    }
                }
                assert(stored.orders.contains_key(hash));
                assert(matched.orders.contains_key(hash));
                assert(crate::matching::same_order(matched.orders[hash], stored.orders[hash]));
            }
            self.linked_item_list.append(tp, price, hash, otype);
            proof {
                let after = self@.ladder(tp);
                assert(after.wf()) by {
                    assert(self.linked_item_list@.contains_key(tp));
                }
                matched.lemma_rested(tp, hash, otype, after);
                assert(self@.ladders =~= matched.with_ladder(tp, after).ladders);
                assert(self@ == matched.with_ladder(tp, after));
                assert forall|tp2: H256| tp2 != tp implies #[trigger] self@.ladder(tp2) == stored.ladder(
                    tp2,
                ) by {
                    assert(matched.ladder(tp2) == stored.ladder(tp2));
                }
                assert(self@.placed_with(before, tp, order, hashes));
            }
        } else {
            proof {
                assert(self@.placed_with(before, tp, order, hashes));
            }
        }
        proof {
            if before.settled() {
                before.lemma_settled_after_placing(stored, matched, self@, tp, order);
            }
            matched.lemma_escrow_kept(self@);
            assert(self@.trades == matched.trades);
            assert(stored.trade_pairs_by_hash[tp] == (TradePair { hash: tp, base, quote }));
            assert(stored.nonce == before.nonce + 1);
            assert(self.hashed@ == old(self).hashed@.push(request) + trade_requests(
                TradePair { hash: tp, base, quote },
                (before.nonce + 1) as u64,
                self@.trades,
                hashes,
            ));
            assert(order == created(hash, base, quote, sender, price, sell_amount, buy_amount, otype));
            assert(self.asked@ == old(self).asked@.push(freeze) + before.with_order(
                order,
                tp,
            ).requests(tp, order, hashes));
            matched.lemma_escrow_chain(before, self@, first + more, Seq::empty());
            assert(first + more + Seq::<TokenOp>::empty() =~= first + more);
        }
        Ok(Event::OrderCreated(sender, base, quote, hash, price, sell_amount))
    }

    /// Places a limit order of `sender` in the pair of `base` and `quote`: it
    /// sells `sell_amount` at `price`, of base if it buys and of quote if it
    /// sells.
    ///
    /// The pair must exist, the price and the amount must be in range, and
    /// the amount must convert at that price without a remainder. The host
    /// derives the hash of the order from the nonce, confirms that the free
    /// balance covers the amount, and freezes it. The order is stored, then
    /// matched against the book as [`Module::order_match`] does, and what is
    /// left of it comes to rest on the ladder at its price.
    ///
    /// The request to freeze the amount is that of [`Module::placing_op`];
    /// it is the first that the call enters in the journal, before those of
    /// the matching. What the live orders of every account have left to sell
    /// of every token follows the requests of the call, so frozen funds that
    /// were in balance stay in balance. The request for the hash of the
    /// order is that of [`Module::order_request`], with the nonce as it was
    /// before the call; the requests for the hashes of the trades follow it
    /// in their journal.
    ///
    /// After any refusal the exchange is as it was before the call; what the
    /// host has done by then is for the host to undo.
    pub fn create_limit_order<T: Trait>(
        &mut self,
        host: &mut T,
        sender: AccountId,
        base: H256,
        quote: H256,
        otype: OrderType,
        price: Price,
        sell_amount: Balance,
    ) -> (r: Result<Event, Error>)
        requires
            old(self).wf(),
        ensures
            final(self).wf(),
            old(self).in_balance() ==> final(self).in_balance(),
            old(self)@.settled() ==> final(self)@.settled(),
            match order_checked(old(self)@, base, quote, otype, price, sell_amount) {
                Err(e) => r == Err::<Event, Error>(e),
                Ok((tp, buy_amount)) => match r {
                    Ok(event) => {
                        &&& event matches Event::OrderCreated(owner, b, q, hash, p, amount)
                        &&& owner == sender
                        &&& b == base
                        &&& q == quote
                        &&& p == price
                        &&& amount == sell_amount
                        &&& final(self)@.placed(
                            old(self)@,
                            tp,
                            created(hash, base, quote, sender, price, sell_amount, buy_amount, otype),
                        )
                        &&& old(self).asked@.is_prefix_of(final(self).asked@)
                        &&& final(self)@.escrow_follows(
                            old(self)@,
                            final(self).asked@.skip(old(self).asked@.len() as int),
                        )
                        &&& exists|hashes: Seq<H256>|
                            final(self).hashed@ == old(self).hashed@.push(
                                HashRequest::Order {
                                    base,
                                    quote,
                                    price,
                                    sell_amount,
                                    buy_amount,
                                    otype,
                                    owner: sender,
                                    nonce: old(self)@.nonce,
                                },
                            ) + #[trigger] trade_requests(
                                TradePair { hash: tp, base, quote },
                                (old(self)@.nonce + 1) as u64,
                                final(self)@.trades,
                                hashes,
                            ) && final(self).asked@ == old(self).asked@.push(
                                placing(TradePair { hash: tp, base, quote }, sender, otype, sell_amount),
                            ) + old(self)@.with_order(
                                created(hash, base, quote, sender, price, sell_amount, buy_amount, otype),
                                tp,
                            ).requests(
                                tp,
                                created(hash, base, quote, sender, price, sell_amount, buy_amount, otype),
                                hashes,
                            )
                        &&& final(self)@.nonce > old(self)@.nonce
                        &&& final(self)@.ladder(tp).sorted()
                    },
                    Err(e) => {
                        &&& !(e is LadderInvariant)
                        &&& e is InsufficientFunds || e is TokenOp || old(self)@.may_stop_with(
                            tp,
                            base,
                            quote,
                            sender,
                            price,
                            sell_amount,
                            buy_amount,
                            otype,
                            e,
                        )
                    },
                },
            },
            r is Err ==> final(self)@ == old(self)@ && final(self).asked@ == old(self).asked@
                && final(self).hashed@ == old(self).hashed@,
    {
        let backup = self.dup();
        let asked = self.asked;
        let hashed = self.hashed;
        let r = self.place(host, sender, base, quote, otype, price, sell_amount);
        if r.is_err() {
            *self = backup;
            self.asked = asked;
            self.hashed = hashed;
        } else {
            proof {
                let tp = order_checked(old(self)@, base, quote, otype, price, sell_amount).unwrap().0;
                LadderView::lemma_initial();
                if old(self).in_balance() {
                    law_frozen_funds_stay_in_balance(
                        old(self)@,
                        self@,
                        old(self).asked@,
                        self.asked@,
                    );
                }
            }
        }
        r
    }
}

} // verus!
