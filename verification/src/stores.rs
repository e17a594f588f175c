//! The lists of trades by order, by trade pair, by account, and by account
//! within a trade pair. Each list is in the order in which the trades were
//! made, and nothing ever leaves it.

use vstd::prelude::*;
use crate::table::{Dup, Key, Table};
use crate::types::{AccountId, OwnerPair, H256};

verus! {

/// The list under `key`, empty where none is stored.
pub open spec fn list_of<K>(lists: Map<K, Seq<H256>>, key: K) -> Seq<H256> {
    if lists.contains_key(key) {
        lists[key]
    } else {
        Seq::empty()
    }
}

/// The lists after `hash` has joined the end of the list under `key`.
pub open spec fn with_pushed<K>(lists: Map<K, Seq<H256>>, key: K, hash: H256) -> Map<K, Seq<H256>> {
    lists.insert(key, list_of(lists, key).push(hash))
}

/// Every list of `before` is the front of the list under the same key in
/// `after`: the lists have grown at the end only.
pub open spec fn grown<K>(before: Map<K, Seq<H256>>, after: Map<K, Seq<H256>>) -> bool {
    forall|key: K| #[trigger] list_of(before, key).is_prefix_of(list_of(after, key))
}

/// Lists that have had a hash added at the end have grown.
pub proof fn lemma_pushed_grown<K>(
    before: Map<K, Seq<H256>>,
    lists: Map<K, Seq<H256>>,
    key: K,
    hash: H256,
)
    requires
        grown(before, lists),
    ensures
        grown(before, with_pushed(lists, key, hash)),
{
    let after = with_pushed(lists, key, hash);
    assert forall|k: K| #[trigger] list_of(before, k).is_prefix_of(list_of(after, k)) by {
        assert(list_of(before, k).is_prefix_of(list_of(lists, k)));
        if k == key {
            let a = list_of(before, k);
            let b = list_of(lists, k);
            assert(list_of(after, k) == b.push(hash));
            assert(a =~= b.push(hash).subrange(0, a.len() as int));
        } else {
            assert(list_of(after, k) == list_of(lists, k));
        }
    }
}

/// Lists have grown from themselves.
pub proof fn lemma_same_grown<K>(lists: Map<K, Seq<H256>>)
    ensures
        grown(lists, lists),
{
    assert forall|k: K| #[trigger] list_of(lists, k).is_prefix_of(list_of(lists, k)) by {
        let a = list_of(lists, k);
        assert(a =~= a.subrange(0, a.len() as int));
    }
}

/// Adds `hash` at the end of the list under `key`.
fn push_to<K: Key>(lists: &mut Table<K, Vec<H256>>, key: K, hash: H256)
    ensures
        final(lists)@ == with_pushed(old(lists)@, key, hash),
{
    let mut trades;
    if let Some(ts) = lists.get(&key) {
        trades = ts.dup();
    } else {
        trades = Vec::new();
    }
    trades.push(hash);
    lists.insert(key, trades);
}

/// A copy of the list under `key`, if one is stored.
fn list_at<K: Key>(lists: &Table<K, Vec<H256>>, key: K) -> (r: Option<Vec<H256>>)
    ensures
        match r {
            Some(v) => lists@.contains_key(key) && v@ == lists@[key],
            None => !lists@.contains_key(key),
        },
{
    match lists.get(&key) {
        Some(ts) => Some(ts.dup()),
        None => None,
    }
}

/// The trades of each order.
pub struct OrderOwnedTrades {
    lists: Table<H256, Vec<H256>>,
}

impl View for OrderOwnedTrades {
    type V = Map<H256, Seq<H256>>;

    closed spec fn view(&self) -> Map<H256, Seq<H256>> {
        self.lists@
    }
}

impl Dup for OrderOwnedTrades {
    fn dup(&self) -> (r: Self) {
        OrderOwnedTrades { lists: self.lists.dup() }
    }
}

impl OrderOwnedTrades {
    /// No trade yet.
    pub fn new() -> (r: Self)
        ensures
            r@ == Map::<H256, Seq<H256>>::empty(),
    {
        OrderOwnedTrades { lists: Table::new() }
    }

    /// Adds the trade `trade_hash` at the end of the list of `order_hash`.
    pub fn add_trade(&mut self, order_hash: H256, trade_hash: H256)
        ensures
            final(self)@ == with_pushed(old(self)@, order_hash, trade_hash),
    {
        push_to(&mut self.lists, order_hash, trade_hash);
    }

    /// The trades of `order_hash`, oldest first, if it has any.
    pub fn get(&self, order_hash: H256) -> (r: Option<Vec<H256>>)
        ensures
            match r {
                Some(v) => self@.contains_key(order_hash) && v@ == self@[order_hash],
                None => !self@.contains_key(order_hash),
            },
    {
        list_at(&self.lists, order_hash)
    }
}

/// The trades of each trade pair.
pub struct TradePairOwnedTrades {
    lists: Table<H256, Vec<H256>>,
}

impl View for TradePairOwnedTrades {
    type V = Map<H256, Seq<H256>>;

    closed spec fn view(&self) -> Map<H256, Seq<H256>> {
        self.lists@
    }
}

impl Dup for TradePairOwnedTrades {
    fn dup(&self) -> (r: Self) {
        TradePairOwnedTrades { lists: self.lists.dup() }
    }
}

impl TradePairOwnedTrades {
    /// No trade yet.
    pub fn new() -> (r: Self)
        ensures
            r@ == Map::<H256, Seq<H256>>::empty(),
    {
        TradePairOwnedTrades { lists: Table::new() }
    }

    /// Adds the trade `trade_hash` at the end of the list of the pair
    /// `tp_hash`.
    pub fn add_trade(&mut self, tp_hash: H256, trade_hash: H256)
        ensures
            final(self)@ == with_pushed(old(self)@, tp_hash, trade_hash),
    {
        push_to(&mut self.lists, tp_hash, trade_hash);
    }

    /// The trades of the pair `tp_hash`, oldest first, if it has any.
    pub fn get(&self, tp_hash: H256) -> (r: Option<Vec<H256>>)
        ensures
            match r {
                Some(v) => self@.contains_key(tp_hash) && v@ == self@[tp_hash],
                None => !self@.contains_key(tp_hash),
            },
    {
        list_at(&self.lists, tp_hash)
    }
}

/// The trades of each account.
pub struct OwnedTrades {
    lists: Table<AccountId, Vec<H256>>,
}

impl View for OwnedTrades {
    type V = Map<AccountId, Seq<H256>>;

    closed spec fn view(&self) -> Map<AccountId, Seq<H256>> {
        self.lists@
    }
}

impl Dup for OwnedTrades {
    fn dup(&self) -> (r: Self) {
        OwnedTrades { lists: self.lists.dup() }
    }
}

impl OwnedTrades {
    /// No trade yet.
    pub fn new() -> (r: Self)
        ensures
            r@ == Map::<AccountId, Seq<H256>>::empty(),
    {
        OwnedTrades { lists: Table::new() }
    }

    /// Adds the trade `trade_hash` at the end of the list of `account_id`.
    pub fn add_trade(&mut self, account_id: AccountId, trade_hash: H256)
        ensures
            final(self)@ == with_pushed(old(self)@, account_id, trade_hash),
    {
        push_to(&mut self.lists, account_id, trade_hash);
    }

    /// The trades of `account_id`, oldest first, if it has any.
    pub fn get(&self, account_id: AccountId) -> (r: Option<Vec<H256>>)
        ensures
            match r {
                Some(v) => self@.contains_key(account_id) && v@ == self@[account_id],
                None => !self@.contains_key(account_id),
            },
    {
        list_at(&self.lists, account_id)
    }
}

/// The trades of each account within each trade pair.
pub struct OwnedTPTrades {
    lists: Table<OwnerPair, Vec<H256>>,
}

impl View for OwnedTPTrades {
    type V = Map<OwnerPair, Seq<H256>>;

    closed spec fn view(&self) -> Map<OwnerPair, Seq<H256>> {
        self.lists@
    }
}

impl Dup for OwnedTPTrades {
    fn dup(&self) -> (r: Self) {
        OwnedTPTrades { lists: self.lists.dup() }
    }
}

impl OwnedTPTrades {
    /// No trade yet.
    pub fn new() -> (r: Self)
        ensures
            r@ == Map::<OwnerPair, Seq<H256>>::empty(),
    {
        OwnedTPTrades { lists: Table::new() }
    }

    /// Adds the trade `trade_hash` at the end of the list of `account_id`
    /// within the pair `tp_hash`.
    pub fn add_trade(&mut self, account_id: AccountId, tp_hash: H256, trade_hash: H256)
        ensures
            final(self)@ == with_pushed(
                old(self)@,
                OwnerPair { owner: account_id, pair: tp_hash },
                trade_hash,
            ),
    {
        push_to(&mut self.lists, OwnerPair { owner: account_id, pair: tp_hash }, trade_hash);
    }

    /// The trades of `account_id` within the pair `tp_hash`, oldest first, if
    /// it has any.
    pub fn get(&self, account_id: AccountId, tp_hash: H256) -> (r: Option<Vec<H256>>)
        ensures
            match r {
                Some(v) => self@.contains_key(OwnerPair { owner: account_id, pair: tp_hash }) && v@
                    == self@[OwnerPair { owner: account_id, pair: tp_hash }],
                None => !self@.contains_key(OwnerPair { owner: account_id, pair: tp_hash }),
            },
    {
        list_at(&self.lists, OwnerPair { owner: account_id, pair: tp_hash })
    }
}

} // verus!
