//! The state of the exchange and what holds of it between two calls.

use vstd::prelude::*;
use crate::amounts::counterparty_amount;
use crate::escrow::lemma_empty_in_balance;
use crate::host::HashRequest;
use crate::ladder::LadderView;
use crate::linked_list::LinkedList;
use crate::stores::{OrderOwnedTrades, OwnedTPTrades, OwnedTrades, TradePairOwnedTrades};
use crate::table::{Dup, Table};
use crate::transfers::TokenOp;
use crate::types::{
    AccountId, Balance, Error, LimitOrder, OrderStatus, OwnerPair, OwnerSlot, PairSlot, Price,
    Tokens, Trade, TradePair, H256, PMAX, PMIN,
};

verus! {

/// The exchange: its trade pairs, orders, price ladders and trades.
///
/// The fields are open, as the storage of a host is to its other modules:
/// one that cancels an order writes the status of the order here. So no
/// function takes the state of the exchange for granted: each says in its
/// `requires` what it needs of it, and a caller that has written to a field
/// has to show that for itself.
pub struct Module {
    /// The trade pairs by their hash.
    pub trade_pairs_by_hash: Table<H256, TradePair>,
    /// The hash of the trade pair of a base and a quote token.
    pub trade_pair_hash_by_base_quote: Table<Tokens, H256>,
    /// The orders by their hash.
    pub orders: Table<H256, LimitOrder>,
    /// The orders of each account, by a running index.
    pub owned_orders: Table<OwnerSlot, H256>,
    /// How many orders each account has placed.
    pub owned_orders_index: Table<AccountId, u64>,
    /// The orders of each trade pair, by a running index.
    pub trade_pair_owned_orders: Table<PairSlot, H256>,
    /// How many orders were placed in each trade pair.
    pub trade_pair_owned_orders_index: Table<H256, u64>,
    /// The price ladder of each trade pair.
    pub linked_item_list: LinkedList,
    /// The trades by their hash.
    pub trades: Table<H256, Trade>,
    /// The trades of each account.
    pub owned_trades: OwnedTrades,
    /// The trades of each account within each trade pair.
    pub owned_tp_trades: OwnedTPTrades,
    /// The trades of each trade pair.
    pub trade_pair_owned_trades: TradePairOwnedTrades,
    /// The trades of each order.
    pub order_owned_trades: OrderOwnedTrades,
    /// How many hashes were derived so far.
    pub nonce: u64,
    /// The requests that the token ledger of the host has granted, in
    /// order: a journal for contracts to speak of, which is no part of the
    /// view and takes no room at run time. The function that hands a
    /// request to the host enters it here once the host has granted it. A
    /// call that fails leaves the journal as it was, as the host takes back
    /// what it did for that call.
    pub asked: Ghost<Seq<TokenOp>>,
    /// The requests for a hash that the host has answered, in order: a
    /// journal as [`Module::asked`] is, kept in the same way.
    pub hashed: Ghost<Seq<HashRequest>>,
}

/// The exchange as a mathematical value.
pub struct ModuleView {
    pub trade_pairs_by_hash: Map<H256, TradePair>,
    pub trade_pair_hash_by_base_quote: Map<Tokens, H256>,
    pub orders: Map<H256, LimitOrder>,
    pub owned_orders: Map<OwnerSlot, H256>,
    pub owned_orders_index: Map<AccountId, u64>,
    pub trade_pair_owned_orders: Map<PairSlot, H256>,
    pub trade_pair_owned_orders_index: Map<H256, u64>,
    pub ladders: Map<H256, LadderView>,
    pub trades: Map<H256, Trade>,
    pub owned_trades: Map<AccountId, Seq<H256>>,
    pub owned_tp_trades: Map<OwnerPair, Seq<H256>>,
    pub trade_pair_owned_trades: Map<H256, Seq<H256>>,
    pub order_owned_trades: Map<H256, Seq<H256>>,
    pub nonce: u64,
}

impl View for Module {
    type V = ModuleView;

    open spec fn view(&self) -> ModuleView {
        ModuleView {
            trade_pairs_by_hash: self.trade_pairs_by_hash@,
            trade_pair_hash_by_base_quote: self.trade_pair_hash_by_base_quote@,
            orders: self.orders@,
            owned_orders: self.owned_orders@,
            owned_orders_index: self.owned_orders_index@,
            trade_pair_owned_orders: self.trade_pair_owned_orders@,
            trade_pair_owned_orders_index: self.trade_pair_owned_orders_index@,
            ladders: self.linked_item_list@,
            trades: self.trades@,
            owned_trades: self.owned_trades@,
            owned_tp_trades: self.owned_tp_trades@,
            trade_pair_owned_trades: self.trade_pair_owned_trades@,
            order_owned_trades: self.order_owned_trades@,
            nonce: self.nonce,
        }
    }
}

impl Dup for Module {
    fn dup(&self) -> (r: Self) {
        Module {
            trade_pairs_by_hash: self.trade_pairs_by_hash.dup(),
            trade_pair_hash_by_base_quote: self.trade_pair_hash_by_base_quote.dup(),
            orders: self.orders.dup(),
            owned_orders: self.owned_orders.dup(),
            owned_orders_index: self.owned_orders_index.dup(),
            trade_pair_owned_orders: self.trade_pair_owned_orders.dup(),
            trade_pair_owned_orders_index: self.trade_pair_owned_orders_index.dup(),
            linked_item_list: self.linked_item_list.dup(),
            trades: self.trades.dup(),
            owned_trades: self.owned_trades.dup(),
            owned_tp_trades: self.owned_tp_trades.dup(),
            trade_pair_owned_trades: self.trade_pair_owned_trades.dup(),
            order_owned_trades: self.order_owned_trades.dup(),
            nonce: self.nonce,
            asked: self.asked,
            hashed: self.hashed,
        }
    }
}

/// The running index under `key`, zero where none is stored.
pub open spec fn index_at<K>(indices: Map<K, u64>, key: K) -> u64 {
    if indices.contains_key(key) {
        indices[key]
    } else {
        0
    }
}

/// An order that may rest on the ladder: neither filled nor canceled.
pub open spec fn live(order: LimitOrder) -> bool {
    order.status == OrderStatus::Created || order.status == OrderStatus::PartialFilled
}

/// A valid order: its price lies between those of the sentinels; it sells
/// something, and what it buys is the counterparty amount of that; what it
/// has left to sell and to buy is no more than that; a created order has all
/// of it left, a filled order nothing, and a live order has something left
/// to buy.
pub open spec fn order_ok(order: LimitOrder) -> bool {
    &&& PMIN < order.price < PMAX
    &&& order.sell_amount > 0
    &&& counterparty_amount(order.otype, order.price, order.sell_amount) == Ok::<Balance, Error>(
        order.buy_amount,
    )
    &&& order.remained_sell_amount <= order.sell_amount
    &&& order.remained_buy_amount <= order.buy_amount
    &&& order.status == OrderStatus::Created ==> order.remained_sell_amount == order.sell_amount
        && order.remained_buy_amount == order.buy_amount
    &&& order.status == OrderStatus::Filled ==> order.remained_sell_amount == 0
        && order.remained_buy_amount == 0
    &&& live(order) ==> order.remained_buy_amount > 0
}

impl ModuleView {
    /// An exchange with no pair, no order and no trade.
    pub open spec fn empty() -> ModuleView {
        ModuleView {
            trade_pairs_by_hash: Map::empty(),
            trade_pair_hash_by_base_quote: Map::empty(),
            orders: Map::empty(),
            owned_orders: Map::empty(),
            owned_orders_index: Map::empty(),
            trade_pair_owned_orders: Map::empty(),
            trade_pair_owned_orders_index: Map::empty(),
            ladders: Map::empty(),
            trades: Map::empty(),
            owned_trades: Map::empty(),
            owned_tp_trades: Map::empty(),
            trade_pair_owned_trades: Map::empty(),
            order_owned_trades: Map::empty(),
            nonce: 0,
        }
    }

    /// The ladder of the pair `tp`: the stored one, or, for a pair that was
    /// never touched, the three sentinels.
    pub open spec fn ladder(self, tp: H256) -> LadderView {
        if self.ladders.contains_key(tp) {
            self.ladders[tp]
        } else {
            LadderView::initial()
        }
    }

    /// The exchange after the ladder of the pair `tp` has become `l`.
    pub open spec fn with_ladder(self, tp: H256, l: LadderView) -> ModuleView {
        ModuleView { ladders: self.ladders.insert(tp, l), ..self }
    }

    /// The exchange with the ladder of the pair `tp` stored, as the first
    /// reading of its head leaves it.
    pub open spec fn touched(self, tp: H256) -> ModuleView {
        self.with_ladder(tp, self.ladder(tp))
    }

    /// The orders that rest at the price `key` of the pair `tp`, oldest
    /// first.
    pub open spec fn queue(self, tp: H256, key: Option<Price>) -> Seq<H256> {
        self.ladder(tp).levels[key].orders
    }

    /// The order `hash` rests in the pair `tp` at the price `key`.
    pub open spec fn rests(self, tp: H256, key: Option<Price>, hash: H256) -> bool {
        self.ladder(tp).levels.contains_key(key) && self.queue(tp, key).contains(hash)
    }

    /// The order `hash` rests somewhere.
    pub open spec fn rests_somewhere(self, hash: H256) -> bool {
        exists|tp: H256, key: Option<Price>| #[trigger] self.rests(tp, key, hash)
    }

    /// The trade pair of the tokens of `order`, if there is one.
    pub open spec fn pair_of(self, order: LimitOrder) -> Option<H256> {
        let tokens = Tokens { base: order.base, quote: order.quote };
        if self.trade_pair_hash_by_base_quote.contains_key(tokens) {
            Some(self.trade_pair_hash_by_base_quote[tokens])
        } else {
            None
        }
    }

    /// The order `hash` belongs to the pair `tp`: it is stored under its hash,
    /// its price is that of no sentinel, and its tokens are those of the
    /// pair.
    pub open spec fn belongs(self, tp: H256, hash: H256) -> bool {
        &&& self.orders.contains_key(hash)
        &&& self.orders[hash].hash == hash
        &&& PMIN < self.orders[hash].price < PMAX
        &&& self.pair_of(self.orders[hash]) == Some(tp)
    }

    /// The order `hash` may come to rest in the pair `tp`: it belongs to the
    /// pair and is neither filled nor canceled.
    pub open spec fn may_rest(self, tp: H256, hash: H256) -> bool {
        self.belongs(tp, hash) && live(self.orders[hash])
    }

    /// The order `hash` may stand in the queue of the level `key` of the pair
    /// `tp`: it belongs to the pair, its price is that of the level, and the
    /// level stands on its side of the ladder. It may be finished, as an
    /// order is that was filled by the pass that is under way, or canceled
    /// from outside; the next pruning of its level takes it out.
    pub open spec fn resting_ok(self, tp: H256, key: Option<Price>, hash: H256) -> bool {
        &&& self.belongs(tp, hash)
        &&& key == Some(self.orders[hash].price)
        &&& self.ladder(tp).side_of(key) == self.orders[hash].otype
    }

    /// Every ladder is well-formed and not crossed.
    pub open spec fn ladders_ok(self) -> bool {
        forall|tp: H256| #[trigger]
            self.ladders.contains_key(tp) ==> self.ladders[tp].wf() && self.ladders[tp].sorted()
    }

    /// The key of a sentinel or of the head.
    pub open spec fn is_sentinel(key: Option<Price>) -> bool {
        key == None::<Price> || key == Some(PMIN) || key == Some(PMAX)
    }

    /// Every order on a ladder may stand where it does, and stands there
    /// once; every level but the sentinels holds an order.
    pub open spec fn resting_orders_ok(self) -> bool {
        &&& forall|tp: H256, key: Option<Price>, i: int|
            self.ladder(tp).levels.contains_key(key) && 0 <= i < self.queue(tp, key).len()
                ==> #[trigger] self.resting_ok(tp, key, self.queue(tp, key)[i])
        &&& forall|tp: H256, key: Option<Price>|
            self.ladder(tp).levels.contains_key(key) ==> (#[trigger] self.queue(
                tp,
                key,
            )).no_duplicates() && (Self::is_sentinel(key) || self.queue(tp, key).len() > 0)
    }

    /// Every record is stored under its own hash, and every order is valid.
    pub open spec fn records_ok(self) -> bool {
        &&& forall|h: H256| #[trigger]
            self.orders.contains_key(h) ==> self.orders[h].hash == h && order_ok(self.orders[h])
        &&& forall|h: H256| #[trigger]
            self.trades.contains_key(h) ==> self.trades[h].hash == h
        &&& forall|h: H256| #[trigger]
            self.trade_pairs_by_hash.contains_key(h) ==> self.trade_pairs_by_hash[h].hash == h
    }

    /// The pairs and the index of their tokens agree; the tokens of a pair
    /// differ; no pair has the tokens of another one in either order.
    pub open spec fn pairs_ok(self) -> bool {
        &&& forall|h: H256| #[trigger]
            self.trade_pairs_by_hash.contains_key(h) ==> {
                let tp = self.trade_pairs_by_hash[h];
                &&& tp.base != tp.quote
                &&& self.trade_pair_hash_by_base_quote.contains_key(
                    Tokens { base: tp.base, quote: tp.quote },
                )
                &&& self.trade_pair_hash_by_base_quote[Tokens { base: tp.base, quote: tp.quote }]
                    == h
            }
        &&& forall|t: Tokens| #[trigger]
            self.trade_pair_hash_by_base_quote.contains_key(t) ==> {
                let h = self.trade_pair_hash_by_base_quote[t];
                &&& self.trade_pairs_by_hash.contains_key(h)
                &&& self.trade_pairs_by_hash[h] == (TradePair { hash: h, base: t.base, quote: t.quote })
                &&& !self.trade_pair_hash_by_base_quote.contains_key(
                    Tokens { base: t.quote, quote: t.base },
                )
            }
    }

    /// The order `hash` is the `i`-th order of the account `who`.
    pub open spec fn owns(self, who: AccountId, i: u64, hash: H256) -> bool {
        &&& i < index_at(self.owned_orders_index, who)
        &&& self.owned_orders.contains_key(OwnerSlot { owner: who, index: i })
        &&& self.owned_orders[OwnerSlot { owner: who, index: i }] == hash
    }

    /// The `i`-th place of the list of the account `who` holds a stored order
    /// of that owner.
    pub open spec fn slot_ok(self, who: AccountId, i: u64) -> bool {
        let slot = OwnerSlot { owner: who, index: i };
        &&& self.owned_orders.contains_key(slot)
        &&& self.orders.contains_key(self.owned_orders[slot])
        &&& self.orders[self.owned_orders[slot]].owner == who
    }

    /// The places `i` and `j` of the list of the account `who` hold
    /// different orders.
    pub open spec fn slots_differ(self, who: AccountId, i: u64, j: u64) -> bool {
        self.owned_orders[OwnerSlot { owner: who, index: i }] != self.owned_orders[OwnerSlot {
            owner: who,
            index: j,
        }]
    }

    /// The lists of the orders of the accounts and the orders agree: each
    /// place of a list up to its running index holds a stored order of that
    /// owner, no order stands at two places, and every stored order stands
    /// in the list of its owner.
    pub open spec fn owned_ok(self) -> bool {
        &&& forall|who: AccountId, i: u64|
            i < index_at(self.owned_orders_index, who) ==> #[trigger] self.slot_ok(who, i)
        &&& forall|who: AccountId, i: u64, j: u64|
            i < j < index_at(self.owned_orders_index, who) ==> #[trigger] self.slots_differ(
                who,
                i,
                j,
            )
        &&& forall|h: H256| #[trigger]
            self.orders.contains_key(h) ==> exists|i: u64| #[trigger]
                self.owns(self.orders[h].owner, i, h)
    }

    /// The lists of orders stay in agreement with the orders as long as the
    /// lists stay as they are, the same orders are stored, and each keeps its
    /// owner.
    pub proof fn lemma_owned_kept(self, after: ModuleView)
        requires
            self.owned_ok(),
            after.owned_orders == self.owned_orders,
            after.owned_orders_index == self.owned_orders_index,
            forall|h: H256| after.orders.contains_key(h) <==> self.orders.contains_key(h),
            forall|h: H256| #[trigger]
                self.orders.contains_key(h) ==> after.orders[h].owner == self.orders[h].owner,
        ensures
            after.owned_ok(),
    {
        assert forall|who: AccountId, i: u64|
            i < index_at(after.owned_orders_index, who) implies #[trigger] after.slot_ok(who, i) by {
            assert(self.slot_ok(who, i));
            assert(self.orders.contains_key(self.owned_orders[OwnerSlot { owner: who, index: i }]));
        }
        assert forall|who: AccountId, i: u64, j: u64|
            i < j < index_at(after.owned_orders_index, who) implies #[trigger] after.slots_differ(
            who,
            i,
            j,
        ) by {
            assert(self.slots_differ(who, i, j));
        }
        assert forall|h: H256| #[trigger] after.orders.contains_key(h) implies exists|i: u64| #[trigger]
            after.owns(after.orders[h].owner, i, h) by {
            assert(self.orders.contains_key(h));
            let i = choose|i: u64| #[trigger] self.owns(self.orders[h].owner, i, h);
            assert(after.owns(after.orders[h].owner, i, h));
        }
    }

    /// What holds of the exchange between two calls.
    pub open spec fn wf(self) -> bool {
        &&& self.ladders_ok()
        &&& self.resting_orders_ok()
        &&& self.records_ok()
        &&& self.pairs_ok()
        &&& self.owned_ok()
    }
}

impl ModuleView {
    /// The exchange is in order and at rest: every live order rests on a
    /// ladder. This holds between two calls, though not in the middle of the
    /// placing of an order, while the order is matched.
    pub open spec fn settled(self) -> bool {
        &&& self.wf()
        &&& forall|h: H256| #[trigger]
            self.orders.contains_key(h) && live(self.orders[h]) ==> self.rests_somewhere(h)
    }
}

impl Module {
    /// What holds of the exchange between two calls.
    pub open spec fn wf(&self) -> bool {
        self@.wf()
    }

    /// An exchange with no pair, no order and no trade.
    pub fn new() -> (r: Self)
        ensures
            r.wf(),
            r@.settled(),
            r@ == ModuleView::empty(),
            r.asked@ == Seq::<TokenOp>::empty(),
            r.hashed@ == Seq::<HashRequest>::empty(),
            r.in_balance(),
    {
        let r = Module {
            trade_pairs_by_hash: Table::new(),
            trade_pair_hash_by_base_quote: Table::new(),
            orders: Table::new(),
            owned_orders: Table::new(),
            owned_orders_index: Table::new(),
            trade_pair_owned_orders: Table::new(),
            trade_pair_owned_orders_index: Table::new(),
            linked_item_list: LinkedList::new(),
            trades: Table::new(),
            owned_trades: OwnedTrades::new(),
            owned_tp_trades: OwnedTPTrades::new(),
            trade_pair_owned_trades: TradePairOwnedTrades::new(),
            order_owned_trades: OrderOwnedTrades::new(),
            nonce: 0,
            asked: Ghost(Seq::empty()),
            hashed: Ghost(Seq::empty()),
        };
        proof {
            lemma_empty_in_balance();
            LadderView::lemma_initial();
            let l = LadderView::initial();
            assert forall|tp: H256, key: Option<Price>|
                r@.ladder(tp).levels.contains_key(key) implies (#[trigger] r@.queue(tp, key)).len()
                == 0 by {}
        }
        r
    }
}

} // verus!
