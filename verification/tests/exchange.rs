use std::collections::HashMap;

use trade::engine::Module;
use std::cell::RefCell;

use trade::host::{HashRequest, Trait};
use trade::ladder::LinkedItem;
use trade::settle::Settlement;
use trade::transfers::TokenOp;
use trade::types::{
    Error, Event, LadderFault, LimitOrder, OrderStatus, OrderType, OwnerSlot, PairSlot, TokenFault, Tokens,
    Trade, TradePair, H256, PMAX, PMIN,
};

const ALICE: u64 = 10;
const BOB: u64 = 20;
const CHARLIE: u64 = 30;

/// Prices in whole units.
const ONE: u64 = 100_000_000;

fn h(n: u128) -> H256 {
    H256 { hi: 0, lo: n }
}

/// A token ledger in memory. It can be told to refuse the n-th transfer, and
/// to hand out a fixed hash.
struct Host {
    owners: HashMap<H256, u64>,
    free: HashMap<(u64, H256), u128>,
    frozen: HashMap<(u64, H256), u128>,
    transfers: usize,
    refuse_transfer: Option<usize>,
    refuse_freeze: bool,
    fixed_hash: Option<H256>,
    calls: Vec<TokenOp>,
    asked: RefCell<Vec<HashRequest>>,
}

impl Host {
    fn new() -> Host {
        Host {
            owners: HashMap::new(),
            free: HashMap::new(),
            frozen: HashMap::new(),
            transfers: 0,
            refuse_transfer: None,
            refuse_freeze: false,
            fixed_hash: None,
            calls: Vec::new(),
            asked: RefCell::new(Vec::new()),
        }
    }

    fn issue(&mut self, owner: u64, token: H256, supply: u128) {
        self.owners.insert(token, owner);
        self.free.insert((owner, token), supply);
    }

    fn frozen_balance(&self, who: u64, token: H256) -> u128 {
        *self.frozen.get(&(who, token)).unwrap_or(&0)
    }

    fn hash_of(&self, kind: u128, nonce: u64) -> H256 {
        match self.fixed_hash {
            Some(x) => x,
            None => H256 { hi: kind, lo: nonce as u128 },
        }
    }
}

impl Trait for Host {
    fn free_balance(&self, who: u64, token: H256) -> u128 {
        *self.free.get(&(who, token)).unwrap_or(&0)
    }

    fn ensure_free_balance(&self, who: u64, token: H256, amount: u128) -> Result<(), TokenFault> {
        if self.free_balance(who, token) >= amount {
            Ok(())
        } else {
            Err(TokenFault { code: 1 })
        }
    }

    fn freeze(&mut self, who: u64, token: H256, amount: u128) -> Result<(), TokenFault> {
        self.calls.push(TokenOp::Freeze { who, token, amount });
        if self.refuse_freeze || self.free_balance(who, token) < amount {
            return Err(TokenFault { code: 2 });
        }
        *self.free.entry((who, token)).or_insert(0) -= amount;
        *self.frozen.entry((who, token)).or_insert(0) += amount;
        Ok(())
    }

    fn unfreeze(&mut self, who: u64, token: H256, amount: u128) -> Result<(), TokenFault> {
        self.calls.push(TokenOp::Unfreeze { who, token, amount });
        if self.frozen_balance(who, token) < amount {
            return Err(TokenFault { code: 3 });
        }
        *self.frozen.entry((who, token)).or_insert(0) -= amount;
        *self.free.entry((who, token)).or_insert(0) += amount;
        Ok(())
    }

    fn transfer(&mut self, from: u64, to: u64, token: H256, amount: u128) -> Result<(), TokenFault> {
        self.calls.push(TokenOp::Transfer { from, to, token, amount });
        self.transfers += 1;
        if self.refuse_transfer == Some(self.transfers) || self.free_balance(from, token) < amount {
            return Err(TokenFault { code: 4 });
        }
        *self.free.entry((from, token)).or_insert(0) -= amount;
        *self.free.entry((to, token)).or_insert(0) += amount;
        Ok(())
    }

    fn owner(&self, token: H256) -> Option<u64> {
        self.owners.get(&token).copied()
    }

    fn hash(&self, request: HashRequest) -> H256 {
        self.asked.borrow_mut().push(request);
        match request {
            HashRequest::Pair { nonce, .. } => self.hash_of(1, nonce),
            HashRequest::Order { nonce, .. } => self.hash_of(2, nonce),
            HashRequest::Trade { nonce, .. } => self.hash_of(3, nonce),
        }
    }
}

struct Market {
    module: Module,
    host: Host,
    base: H256,
    quote: H256,
    tp: H256,
}

/// Alice owns the base token, Bob the quote token, and the pair exists.
fn market() -> Market {
    let mut host = Host::new();
    let base = h(66);
    let quote = h(77);
    host.issue(ALICE, base, 21000000);
    host.issue(BOB, quote, 10000000);
    let mut module = Module::new();
    let event = module.do_create_trade_pair(&host, ALICE, base, quote).unwrap();
    let tp = match event {
        Event::TradePairCreated(_, tp, _, _, _) => tp,
        _ => panic!("not a pair"),
    };
    Market { module, host, base, quote, tp }
}

impl Market {
    fn order(&mut self, who: u64, otype: OrderType, price: u64, sell: u128) -> Result<H256, Error> {
        let r = self
            .module
            .create_limit_order(&mut self.host, who, self.base, self.quote, otype, price, sell);
        match r {
            Ok(Event::OrderCreated(owner, base, quote, hash, p, amount)) => {
                assert_eq!(owner, who);
                assert_eq!(base, self.base);
                assert_eq!(quote, self.quote);
                assert_eq!(p, price);
                assert_eq!(amount, sell);
                self.check_not_crossed();
                Ok(hash)
            }
            Ok(_) => panic!("not an order"),
            Err(e) => Err(e),
        }
    }

    fn get(&self, hash: H256) -> LimitOrder {
        *self.module.orders.get(&hash).unwrap()
    }

    fn level(&self, key: Option<u64>) -> LinkedItem {
        self.module.linked_item_list.get(self.tp, key).unwrap()
    }

    fn best_bid(&self) -> u64 {
        self.level(None).prev.unwrap()
    }

    fn best_ask(&self) -> u64 {
        self.level(None).next.unwrap()
    }

    fn check_not_crossed(&self) {
        assert!(self.best_bid() < self.best_ask());
    }

    /// The prices from the bottom to the top along `next`, the head as `None`.
    fn walk_up(&self) -> Vec<Option<u64>> {
        let mut keys = Vec::new();
        let mut cur = self.level(Some(PMIN));
        loop {
            keys.push(cur.price);
            if cur.price == Some(PMAX) {
                break;
            }
            cur = self.level(cur.next);
        }
        keys
    }

    fn trades(&self) -> Vec<Trade> {
        match self.module.trade_pair_owned_trades.get(self.tp) {
            None => Vec::new(),
            Some(hashes) => hashes.iter().map(|t| *self.module.trades.get(t).unwrap()).collect(),
        }
    }
}

fn item(price: Option<u64>, prev: Option<u64>, next: Option<u64>, orders: Vec<H256>) -> LinkedItem {
    LinkedItem { price, next, prev, orders }
}

#[test]
fn a_new_exchange_is_empty() {
    let m = Module::new();
    assert_eq!(m.nonce, 0);
    assert!(m.orders.get(&h(1)).is_none());
    assert!(m.trades.get(&h(1)).is_none());
    assert!(m.trade_pairs_by_hash.get(&h(1)).is_none());
    assert_eq!(m.linked_item_list.get(h(1), None), Some(item(None, Some(PMIN), Some(PMAX), vec![])));
}

#[test]
fn create_pair() {
    let m = market();
    assert_eq!(
        m.module.trade_pairs_by_hash.get(&m.tp),
        Some(&TradePair { hash: m.tp, base: m.base, quote: m.quote })
    );
    assert_eq!(
        m.module.trade_pair_hash_by_base_quote.get(&Tokens { base: m.base, quote: m.quote }),
        Some(&m.tp)
    );
    assert_eq!(m.module.ensure_trade_pair(m.base, m.quote), Ok(m.tp));
    assert_eq!(m.module.nonce, 1);
}

#[test]
fn create_pair_makes_the_pair_known() {
    let mut host = Host::new();
    host.issue(ALICE, h(66), 1);
    host.issue(BOB, h(77), 1);
    let mut module = Module::new();
    let event = module.do_create_trade_pair(&host, BOB, h(66), h(77)).unwrap();
    let hash = H256 { hi: 1, lo: 0 };
    assert_eq!(
        event,
        Event::TradePairCreated(BOB, hash, h(66), h(77), TradePair { hash, base: h(66), quote: h(77) })
    );
}

#[test]
fn create_pair_refuses_identical_tokens() {
    let mut m = market();
    assert_eq!(
        m.module.do_create_trade_pair(&m.host, ALICE, m.base, m.base),
        Err(Error::InvalidArgument)
    );
    assert_eq!(m.module.nonce, 1);
}

#[test]
fn create_pair_refuses_an_unknown_token() {
    let mut m = market();
    assert_eq!(
        m.module.do_create_trade_pair(&m.host, ALICE, m.base, h(5)),
        Err(Error::InvalidArgument)
    );
    assert_eq!(
        m.module.do_create_trade_pair(&m.host, ALICE, h(5), m.base),
        Err(Error::InvalidArgument)
    );
}

#[test]
fn create_pair_refuses_a_sender_who_owns_neither_token() {
    let mut host = Host::new();
    host.issue(ALICE, h(66), 1);
    host.issue(BOB, h(77), 1);
    let mut module = Module::new();
    assert_eq!(
        module.do_create_trade_pair(&host, CHARLIE, h(66), h(77)),
        Err(Error::Unauthorized)
    );
    assert_eq!(module.nonce, 0);
    assert!(module.ensure_trade_pair(h(66), h(77)).is_err());
}

#[test]
fn create_pair_refuses_a_second_pair_of_the_same_tokens() {
    let mut m = market();
    assert_eq!(
        m.module.do_create_trade_pair(&m.host, ALICE, m.base, m.quote),
        Err(Error::InvalidArgument)
    );
    assert_eq!(
        m.module.do_create_trade_pair(&m.host, BOB, m.quote, m.base),
        Err(Error::InvalidArgument)
    );
    assert_eq!(m.module.nonce, 1);
}

#[test]
fn create_pair_refuses_a_hash_that_is_taken() {
    let mut m = market();
    m.host.issue(CHARLIE, h(88), 1);
    m.host.fixed_hash = Some(m.tp);
    assert_eq!(
        m.module.do_create_trade_pair(&m.host, CHARLIE, m.base, h(88)),
        Err(Error::HashCollision)
    );
    assert!(m.module.ensure_trade_pair(m.base, h(88)).is_err());
    assert_eq!(m.module.nonce, 1);
}

#[test]
fn check_trade_pair_on_given_owners() {
    let m = market();
    assert_eq!(m.module.check_trade_pair(ALICE, h(1), h(2), Some(ALICE), Some(BOB)), Ok(()));
    assert_eq!(m.module.check_trade_pair(BOB, h(1), h(2), Some(ALICE), Some(BOB)), Ok(()));
    assert_eq!(
        m.module.check_trade_pair(ALICE, h(1), h(1), Some(ALICE), Some(ALICE)),
        Err(Error::InvalidArgument)
    );
    assert_eq!(
        m.module.check_trade_pair(ALICE, h(1), h(2), None, Some(BOB)),
        Err(Error::InvalidArgument)
    );
    assert_eq!(
        m.module.check_trade_pair(ALICE, h(1), h(2), Some(ALICE), None),
        Err(Error::InvalidArgument)
    );
    assert_eq!(
        m.module.check_trade_pair(CHARLIE, h(1), h(2), Some(ALICE), Some(BOB)),
        Err(Error::Unauthorized)
    );
    assert_eq!(
        m.module.check_trade_pair(ALICE, m.quote, m.base, Some(BOB), Some(ALICE)),
        Err(Error::InvalidArgument)
    );
}

#[test]
fn ensure_trade_pair_knows_one_order_of_the_tokens() {
    let m = market();
    assert_eq!(m.module.ensure_trade_pair(m.base, m.quote), Ok(m.tp));
    assert_eq!(m.module.ensure_trade_pair(m.quote, m.base), Err(Error::InvalidArgument));
    assert_eq!(m.module.ensure_trade_pair(m.base, h(5)), Err(Error::InvalidArgument));
}

#[test]
fn lone_order_rests() {
    let mut m = market();
    let o = m.order(BOB, OrderType::Sell, 18 * ONE, 200).unwrap();
    assert_eq!(m.level(Some(18 * ONE)), item(Some(18 * ONE), None, Some(PMAX), vec![o]));
    assert_eq!(m.best_ask(), 18 * ONE);
    assert_eq!(m.best_bid(), PMIN);
    assert!(m.trades().is_empty());
    assert_eq!(m.host.frozen_balance(BOB, m.quote), 200);
    assert_eq!(m.host.free_balance(BOB, m.quote), 10000000 - 200);
    let order = m.get(o);
    assert_eq!(
        order,
        LimitOrder {
            hash: o,
            base: m.base,
            quote: m.quote,
            owner: BOB,
            price: 18 * ONE,
            sell_amount: 200,
            remained_sell_amount: 200,
            buy_amount: 3600,
            remained_buy_amount: 3600,
            otype: OrderType::Sell,
            status: OrderStatus::Created,
        }
    );
}

#[test]
fn orders_are_listed_by_owner_and_by_pair() {
    let mut m = market();
    let o1 = m.order(BOB, OrderType::Sell, 18 * ONE, 200).unwrap();
    let o2 = m.order(ALICE, OrderType::Buy, 6 * ONE, 300).unwrap();
    let o3 = m.order(BOB, OrderType::Sell, 19 * ONE, 100).unwrap();
    assert_eq!(m.module.owned_orders.get(&OwnerSlot { owner: BOB, index: 0 }), Some(&o1));
    assert_eq!(m.module.owned_orders.get(&OwnerSlot { owner: BOB, index: 1 }), Some(&o3));
    assert_eq!(m.module.owned_orders.get(&OwnerSlot { owner: ALICE, index: 0 }), Some(&o2));
    assert_eq!(m.module.owned_orders.get(&OwnerSlot { owner: ALICE, index: 1 }), None);
    assert_eq!(m.module.owned_orders_index.get(&BOB), Some(&2));
    assert_eq!(m.module.trade_pair_owned_orders.get(&PairSlot { pair: m.tp, index: 0 }), Some(&o1));
    assert_eq!(m.module.trade_pair_owned_orders.get(&PairSlot { pair: m.tp, index: 1 }), Some(&o2));
    assert_eq!(m.module.trade_pair_owned_orders.get(&PairSlot { pair: m.tp, index: 2 }), Some(&o3));
    assert_eq!(m.module.trade_pair_owned_orders_index.get(&m.tp), Some(&3));
}

#[test]
fn exact_fill() {
    let mut m = market();
    let o1 = m.order(BOB, OrderType::Sell, 18 * ONE, 200).unwrap();
    let o2 = m.order(ALICE, OrderType::Buy, 18 * ONE, 3600).unwrap();
    let trades = m.trades();
    assert_eq!(trades.len(), 1);
    let t = trades[0];
    assert_eq!(
        t,
        Trade {
            hash: t.hash,
            base: m.base,
            quote: m.quote,
            buyer: ALICE,
            seller: BOB,
            maker: BOB,
            taker: ALICE,
            otype: OrderType::Buy,
            price: 18 * ONE,
            base_amount: 3600,
            quote_amount: 200,
        }
    );
    assert_eq!(m.get(o1).status, OrderStatus::Filled);
    assert_eq!(m.get(o2).status, OrderStatus::Filled);
    assert_eq!(m.get(o1).remained_sell_amount, 0);
    assert_eq!(m.get(o1).remained_buy_amount, 0);
    assert_eq!(m.get(o2).remained_sell_amount, 0);
    assert_eq!(m.get(o2).remained_buy_amount, 0);
    // the ladder is back to its sentinels
    assert_eq!(m.walk_up(), vec![Some(PMIN), None, Some(PMAX)]);
    assert_eq!(m.level(None), item(None, Some(PMIN), Some(PMAX), vec![]));
    assert_eq!(m.level(Some(PMIN)), item(Some(PMIN), Some(PMAX), None, vec![]));
    assert_eq!(m.level(Some(PMAX)), item(Some(PMAX), None, Some(PMIN), vec![]));
    // the tokens have changed hands and nothing is frozen
    assert_eq!(m.host.free_balance(ALICE, m.base), 21000000 - 3600);
    assert_eq!(m.host.free_balance(ALICE, m.quote), 200);
    assert_eq!(m.host.free_balance(BOB, m.quote), 10000000 - 200);
    assert_eq!(m.host.free_balance(BOB, m.base), 3600);
    assert_eq!(m.host.frozen_balance(ALICE, m.base), 0);
    assert_eq!(m.host.frozen_balance(BOB, m.quote), 0);
}

#[test]
fn exact_fill_by_a_selling_taker() {
    let mut m = market();
    let o1 = m.order(ALICE, OrderType::Buy, 18 * ONE, 3600).unwrap();
    assert_eq!(m.best_bid(), 18 * ONE);
    let o2 = m.order(BOB, OrderType::Sell, 18 * ONE, 200).unwrap();
    let trades = m.trades();
    assert_eq!(trades.len(), 1);
    let t = trades[0];
    assert_eq!(t.buyer, ALICE);
    assert_eq!(t.seller, BOB);
    assert_eq!(t.maker, ALICE);
    assert_eq!(t.taker, BOB);
    assert_eq!(t.otype, OrderType::Sell);
    assert_eq!(t.price, 18 * ONE);
    assert_eq!(t.base_amount, 3600);
    assert_eq!(t.quote_amount, 200);
    assert_eq!(m.get(o1).status, OrderStatus::Filled);
    assert_eq!(m.get(o2).status, OrderStatus::Filled);
    assert_eq!(m.walk_up(), vec![Some(PMIN), None, Some(PMAX)]);
}

/// Bob's sells at 10, 11, 11 and 18, and Alice's buy at 6.
fn loaded() -> (Market, [H256; 5]) {
    let mut m = market();
    let o1 = m.order(BOB, OrderType::Sell, 18 * ONE, 200).unwrap();
    let o2 = m.order(BOB, OrderType::Sell, 10 * ONE, 11).unwrap();
    let o3 = m.order(BOB, OrderType::Sell, 11 * ONE, 10).unwrap();
    let o4 = m.order(BOB, OrderType::Sell, 11 * ONE, 10000).unwrap();
    let o101 = m.order(ALICE, OrderType::Buy, 6 * ONE, 300).unwrap();
    (m, [o1, o2, o3, o4, o101])
}

#[test]
fn orders_that_do_not_cross_rest() {
    let (m, [o1, o2, o3, o4, o101]) = loaded();
    assert!(m.trades().is_empty());
    assert_eq!(
        m.walk_up(),
        vec![
            Some(PMIN),
            Some(6 * ONE),
            None,
            Some(10 * ONE),
            Some(11 * ONE),
            Some(18 * ONE),
            Some(PMAX)
        ]
    );
    assert_eq!(m.level(Some(6 * ONE)), item(Some(6 * ONE), Some(PMIN), None, vec![o101]));
    assert_eq!(m.level(None), item(None, Some(6 * ONE), Some(10 * ONE), vec![]));
    assert_eq!(m.level(Some(10 * ONE)), item(Some(10 * ONE), None, Some(11 * ONE), vec![o2]));
    assert_eq!(
        m.level(Some(11 * ONE)),
        item(Some(11 * ONE), Some(10 * ONE), Some(18 * ONE), vec![o3, o4])
    );
    assert_eq!(m.level(Some(18 * ONE)), item(Some(18 * ONE), Some(11 * ONE), Some(PMAX), vec![o1]));
    assert_eq!(m.host.frozen_balance(BOB, m.quote), 200 + 11 + 10 + 10000);
    assert_eq!(m.host.frozen_balance(ALICE, m.base), 300);
}

#[test]
fn sweep_of_several_levels() {
    let (mut m, [o1, o2, o3, o4, o101]) = loaded();
    let o102 = m.order(ALICE, OrderType::Buy, 11 * ONE, 550).unwrap();
    let trades = m.trades();
    assert_eq!(trades.len(), 3);
    let amounts: Vec<(u64, u128, u128)> =
        trades.iter().map(|t| (t.price, t.base_amount, t.quote_amount)).collect();
    assert_eq!(
        amounts,
        vec![(10 * ONE, 110, 11), (11 * ONE, 110, 10), (11 * ONE, 319, 29)]
    );
    for t in trades.iter() {
        assert_eq!(t.buyer, ALICE);
        assert_eq!(t.seller, BOB);
        assert_eq!(t.maker, BOB);
        assert_eq!(t.taker, ALICE);
        assert_eq!(t.otype, OrderType::Buy);
        assert!(t.price <= 11 * ONE);
    }
    assert_eq!(m.get(o2).status, OrderStatus::Filled);
    assert_eq!(m.get(o3).status, OrderStatus::Filled);
    assert_eq!(m.get(o4).status, OrderStatus::PartialFilled);
    assert_eq!(m.get(o4).remained_sell_amount, 9971);
    assert_eq!(m.get(o4).remained_buy_amount, 109681);
    assert_eq!(m.get(o102).status, OrderStatus::Filled);
    assert_eq!(m.get(o102).remained_sell_amount, 0);
    assert_eq!(m.get(o102).remained_buy_amount, 0);
    assert_eq!(m.get(o1).status, OrderStatus::Created);
    assert_eq!(m.get(o101).status, OrderStatus::Created);
    assert_eq!(
        m.walk_up(),
        vec![Some(PMIN), Some(6 * ONE), None, Some(11 * ONE), Some(18 * ONE), Some(PMAX)]
    );
    assert_eq!(m.level(Some(11 * ONE)), item(Some(11 * ONE), None, Some(18 * ONE), vec![o4]));
    // what is frozen is what the resting orders have left to sell
    assert_eq!(m.host.frozen_balance(BOB, m.quote), 9971 + 200);
    assert_eq!(m.host.frozen_balance(ALICE, m.base), 300);
    // the taker got its 50 quote for 539 base; 11 base of dust came back
    assert_eq!(m.host.free_balance(ALICE, m.quote), 50);
    assert_eq!(m.host.free_balance(ALICE, m.base), 21000000 - 300 - 539);
}

#[test]
fn taker_remainder_rests() {
    let (mut m, [o1, _o2, _o3, o4, o101]) = loaded();
    m.order(ALICE, OrderType::Buy, 11 * ONE, 550).unwrap();
    let o103 = m.order(ALICE, OrderType::Buy, 18 * ONE, 18 * 13211).unwrap();
    let trades = m.trades();
    assert_eq!(trades.len(), 5);
    assert_eq!(
        (trades[3].price, trades[3].base_amount, trades[3].quote_amount),
        (11 * ONE, 109681, 9971)
    );
    assert_eq!(
        (trades[4].price, trades[4].base_amount, trades[4].quote_amount),
        (18 * ONE, 3600, 200)
    );
    assert_eq!(m.get(o4).status, OrderStatus::Filled);
    assert_eq!(m.get(o4).remained_sell_amount, 0);
    assert_eq!(m.get(o1).status, OrderStatus::Filled);
    assert_eq!(m.get(o1).remained_sell_amount, 0);
    let rest = m.get(o103);
    assert_eq!(rest.status, OrderStatus::PartialFilled);
    assert_eq!(rest.sell_amount, 237798);
    assert_eq!(rest.buy_amount, 13211);
    assert_eq!(rest.remained_sell_amount, 237798 - 109681 - 3600);
    assert_eq!(rest.remained_buy_amount, 13211 - 9971 - 200);
    // only the buy side is left, at 6 and 18
    assert_eq!(
        m.walk_up(),
        vec![Some(PMIN), Some(6 * ONE), Some(18 * ONE), None, Some(PMAX)]
    );
    assert_eq!(m.level(Some(6 * ONE)), item(Some(6 * ONE), Some(PMIN), Some(18 * ONE), vec![o101]));
    assert_eq!(m.level(Some(18 * ONE)), item(Some(18 * ONE), Some(6 * ONE), None, vec![o103]));
    assert_eq!(m.level(None), item(None, Some(18 * ONE), Some(PMAX), vec![]));
    assert_eq!(m.level(Some(PMAX)), item(Some(PMAX), None, Some(PMIN), vec![]));
    assert_eq!(m.host.frozen_balance(BOB, m.quote), 0);
    assert_eq!(m.host.frozen_balance(ALICE, m.base), 300 + rest.remained_sell_amount);
}

#[test]
fn sentinels_after_everything_is_filled() {
    let mut m = market();
    m.order(BOB, OrderType::Sell, 10 * ONE, 11).unwrap();
    m.order(BOB, OrderType::Sell, 11 * ONE, 10).unwrap();
    m.order(ALICE, OrderType::Buy, 6 * ONE, 300).unwrap();
    m.order(ALICE, OrderType::Buy, 10 * ONE, 110).unwrap();
    m.order(ALICE, OrderType::Buy, 11 * ONE, 110).unwrap();
    m.order(BOB, OrderType::Sell, 6 * ONE, 50).unwrap();
    assert_eq!(m.trades().len(), 3);
    assert_eq!(m.level(None), item(None, Some(PMIN), Some(PMAX), vec![]));
    assert_eq!(m.level(Some(PMIN)), item(Some(PMIN), Some(PMAX), None, vec![]));
    assert_eq!(m.level(Some(PMAX)), item(Some(PMAX), None, Some(PMIN), vec![]));
}

#[test]
fn a_fill_beyond_what_the_taker_wants_is_refused() {
    let mut m = market();
    let a = m.order(BOB, OrderType::Sell, 10 * ONE, 11).unwrap();
    let b = m.order(BOB, OrderType::Sell, 11 * ONE, 10).unwrap();
    // Alice wants 20 quote for 220 base. The first trade gives her 11 quote
    // for 110 base; the second would give her 10 more for the rest.
    assert_eq!(m.order(ALICE, OrderType::Buy, 11 * ONE, 220), Err(Error::Overflow));
    assert!(m.trades().is_empty());
    assert_eq!(m.get(a).status, OrderStatus::Created);
    assert_eq!(m.get(b).status, OrderStatus::Created);
    assert_eq!(
        m.walk_up(),
        vec![Some(PMIN), None, Some(10 * ONE), Some(11 * ONE), Some(PMAX)]
    );
}

#[test]
fn same_price_is_matched_oldest_first() {
    let mut m = market();
    let a = m.order(BOB, OrderType::Sell, 11 * ONE, 10).unwrap();
    let b = m.order(BOB, OrderType::Sell, 11 * ONE, 20).unwrap();
    let c = m.order(BOB, OrderType::Sell, 11 * ONE, 30).unwrap();
    assert_eq!(m.level(Some(11 * ONE)).orders, vec![a, b, c]);
    m.order(ALICE, OrderType::Buy, 11 * ONE, 330).unwrap();
    assert_eq!(m.get(a).status, OrderStatus::Filled);
    assert_eq!(m.get(b).status, OrderStatus::Filled);
    assert_eq!(m.get(c).status, OrderStatus::Created);
    assert_eq!(m.level(Some(11 * ONE)).orders, vec![c]);
    let trades = m.trades();
    assert_eq!(trades.len(), 2);
    assert_eq!(trades[0].quote_amount, 10);
    assert_eq!(trades[1].quote_amount, 20);
}

#[test]
fn better_prices_are_matched_first() {
    let mut m = market();
    let far = m.order(ALICE, OrderType::Buy, 5 * ONE, 500).unwrap();
    let near = m.order(ALICE, OrderType::Buy, 10 * ONE, 500).unwrap();
    // Bob sells 50 quote for 250 base at 5 or better
    let taker = m.order(BOB, OrderType::Sell, 5 * ONE, 50).unwrap();
    let trades = m.trades();
    assert_eq!(trades.len(), 1);
    // at the maker's 10, Bob gets his 250 base for 25 quote
    assert_eq!(trades[0].price, 10 * ONE);
    assert_eq!(trades[0].base_amount, 250);
    assert_eq!(trades[0].quote_amount, 25);
    assert!(trades[0].price >= 5 * ONE);
    assert_eq!(m.get(taker).status, OrderStatus::Filled);
    assert_eq!(m.get(near).status, OrderStatus::PartialFilled);
    assert_eq!(m.get(far).status, OrderStatus::Created);
    // 25 quote of dust went back to Bob
    assert_eq!(m.host.frozen_balance(BOB, m.quote), 0);
    assert_eq!(m.host.free_balance(BOB, m.quote), 10000000 - 25);
}

#[test]
fn trades_are_listed_by_order_account_and_pair() {
    let (mut m, [_o1, o2, o3, o4, _o101]) = loaded();
    let o102 = m.order(ALICE, OrderType::Buy, 11 * ONE, 550).unwrap();
    let hashes = m.module.trade_pair_owned_trades.get(m.tp).unwrap();
    assert_eq!(hashes.len(), 3);
    assert_eq!(m.module.owned_trades.get(ALICE), Some(hashes.clone()));
    assert_eq!(m.module.owned_trades.get(BOB), Some(hashes.clone()));
    assert_eq!(m.module.owned_tp_trades.get(ALICE, m.tp), Some(hashes.clone()));
    assert_eq!(m.module.owned_tp_trades.get(BOB, m.tp), Some(hashes.clone()));
    assert_eq!(m.module.order_owned_trades.get(o102), Some(hashes.clone()));
    assert_eq!(m.module.order_owned_trades.get(o2), Some(vec![hashes[0]]));
    assert_eq!(m.module.order_owned_trades.get(o3), Some(vec![hashes[1]]));
    assert_eq!(m.module.order_owned_trades.get(o4), Some(vec![hashes[2]]));
    assert_eq!(m.module.owned_trades.get(CHARLIE), None);
    assert_eq!(m.module.owned_tp_trades.get(ALICE, h(5)), None);
    for x in hashes.iter() {
        assert_eq!(m.module.trades.get(x).unwrap().hash, *x);
    }
}

#[test]
fn nonce_rises_with_every_pair_order_and_trade() {
    let mut m = market();
    assert_eq!(m.module.nonce, 1);
    let o1 = m.order(BOB, OrderType::Sell, 18 * ONE, 200).unwrap();
    assert_eq!(m.module.nonce, 2);
    assert_eq!(o1, H256 { hi: 2, lo: 1 });
    let o2 = m.order(ALICE, OrderType::Buy, 18 * ONE, 3600).unwrap();
    // one for the order, one for the trade
    assert_eq!(m.module.nonce, 4);
    assert_eq!(o2, H256 { hi: 2, lo: 2 });
    assert_eq!(m.trades()[0].hash, H256 { hi: 3, lo: 3 });
}

#[test]
fn filled_orders_are_left_alone() {
    let mut m = market();
    let o1 = m.order(BOB, OrderType::Sell, 18 * ONE, 200).unwrap();
    let o2 = m.order(ALICE, OrderType::Buy, 18 * ONE, 3600).unwrap();
    let before1 = m.get(o1);
    let before2 = m.get(o2);
    m.order(BOB, OrderType::Sell, 18 * ONE, 200).unwrap();
    m.order(ALICE, OrderType::Buy, 18 * ONE, 7200).unwrap();
    m.order(BOB, OrderType::Sell, 17 * ONE, 34).unwrap();
    assert_eq!(m.get(o1), before1);
    assert_eq!(m.get(o2), before2);
}

#[test]
fn order_refused_for_an_unknown_pair() {
    let mut m = market();
    let r = m.module.create_limit_order(&mut m.host, ALICE, m.quote, m.base, OrderType::Buy, ONE, 10);
    assert_eq!(r, Err(Error::InvalidArgument));
    let r = m.module.create_limit_order(&mut m.host, ALICE, m.base, h(5), OrderType::Buy, ONE, 10);
    assert_eq!(r, Err(Error::InvalidArgument));
    assert_eq!(m.module.nonce, 1);
}

#[test]
fn order_refused_out_of_bounds() {
    let mut m = market();
    assert_eq!(m.order(ALICE, OrderType::Buy, 0, 10), Err(Error::InvalidArgument));
    assert_eq!(m.order(ALICE, OrderType::Buy, ONE, 0), Err(Error::InvalidArgument));
    assert_eq!(m.order(ALICE, OrderType::Buy, PMAX, 10), Err(Error::InvalidArgument));
    assert_eq!(m.module.nonce, 1);
    assert_eq!(m.host.frozen_balance(ALICE, m.base), 0);
}

#[test]
fn order_refused_for_precision_loss() {
    let mut m = market();
    assert_eq!(m.order(BOB, OrderType::Sell, 3, 1), Err(Error::PrecisionLoss));
    assert_eq!(m.order(BOB, OrderType::Sell, 18, 200), Err(Error::PrecisionLoss));
    assert_eq!(m.order(ALICE, OrderType::Buy, 11 * ONE, 51), Err(Error::PrecisionLoss));
    assert_eq!(m.walk_up(), vec![Some(PMIN), None, Some(PMAX)]);
}

#[test]
fn order_refused_for_overflow() {
    let mut m = market();
    m.host.issue(BOB, m.quote, u128::MAX);
    assert_eq!(m.order(BOB, OrderType::Sell, ONE, 1 << 64), Err(Error::Overflow));
}

#[test]
fn order_refused_for_insufficient_funds() {
    let mut m = market();
    // Alice has no quote token
    assert_eq!(m.order(ALICE, OrderType::Sell, ONE, 10), Err(Error::InsufficientFunds));
    assert_eq!(
        m.order(BOB, OrderType::Sell, ONE, 10000001),
        Err(Error::InsufficientFunds)
    );
    assert_eq!(m.module.nonce, 1);
    assert!(m.module.owned_orders.get(&OwnerSlot { owner: ALICE, index: 0 }).is_none());
}

#[test]
fn order_refused_when_the_host_does_not_freeze() {
    let mut m = market();
    m.host.refuse_freeze = true;
    assert_eq!(
        m.order(BOB, OrderType::Sell, ONE, 10),
        Err(Error::TokenOp(TokenFault { code: 2 }))
    );
    assert_eq!(m.module.nonce, 1);
}

#[test]
fn order_refused_for_a_hash_that_is_taken() {
    let mut m = market();
    let o1 = m.order(BOB, OrderType::Sell, 18 * ONE, 200).unwrap();
    m.host.fixed_hash = Some(o1);
    assert_eq!(m.order(BOB, OrderType::Sell, 18 * ONE, 200), Err(Error::HashCollision));
    assert_eq!(m.level(Some(18 * ONE)).orders, vec![o1]);
    assert_eq!(m.module.nonce, 2);
}

#[test]
fn a_refusal_in_the_middle_of_matching_changes_nothing() {
    let (mut m, [o1, o2, o3, o4, o101]) = loaded();
    let nonce = m.module.nonce;
    let ladder = m.walk_up();
    let orders: Vec<LimitOrder> = [o1, o2, o3, o4, o101].iter().map(|x| m.get(*x)).collect();
    // the second trade's first transfer is refused
    m.host.refuse_transfer = Some(3);
    assert_eq!(
        m.order(ALICE, OrderType::Buy, 11 * ONE, 550),
        Err(Error::TokenOp(TokenFault { code: 4 }))
    );
    assert_eq!(m.module.nonce, nonce);
    assert_eq!(m.walk_up(), ladder);
    assert!(m.trades().is_empty());
    assert!(m.module.owned_trades.get(ALICE).is_none());
    assert!(m.module.order_owned_trades.get(o2).is_none());
    let after: Vec<LimitOrder> = [o1, o2, o3, o4, o101].iter().map(|x| m.get(*x)).collect();
    assert_eq!(after, orders);
    assert!(m.module.owned_orders.get(&OwnerSlot { owner: ALICE, index: 1 }).is_none());
    assert_eq!(m.level(Some(10 * ONE)).orders, vec![o2]);
    assert_eq!(m.level(Some(11 * ONE)).orders, vec![o3, o4]);
}

#[test]
fn a_trade_hash_that_is_taken_is_refused() {
    let mut m = market();
    m.order(BOB, OrderType::Sell, 18 * ONE, 200).unwrap();
    m.order(ALICE, OrderType::Buy, 18 * ONE, 3600).unwrap();
    let t = m.trades()[0].hash;
    let o3 = m.order(BOB, OrderType::Sell, 18 * ONE, 200).unwrap();
    let order = LimitOrder::new(h(500), m.base, m.quote, ALICE, 18 * ONE, 3600, 200, OrderType::Buy);
    m.host.freeze(ALICE, m.base, 3600).unwrap();
    m.module.insert_order(m.tp, order).unwrap();
    m.host.fixed_hash = Some(t);
    assert_eq!(
        m.module.order_match(&mut m.host, m.tp, order),
        Err(Error::HashCollision)
    );
    assert_eq!(m.module.trades.get(&t).unwrap().maker, BOB);
    assert_eq!(m.get(o3).status, OrderStatus::Created);
}

#[test]
fn matching_in_an_unknown_pair_is_refused() {
    let mut m = market();
    let order = LimitOrder::new(h(500), m.base, m.quote, ALICE, 18 * ONE, 3600, 200, OrderType::Buy);
    m.module.insert_order(m.tp, order).unwrap();
    assert_eq!(
        m.module.order_match(&mut m.host, h(5), order),
        Err(Error::InvalidArgument)
    );
}

#[test]
fn matching_without_a_crossing_level_leaves_the_order_unfilled() {
    let mut m = market();
    let o1 = m.order(BOB, OrderType::Sell, 18 * ONE, 200).unwrap();
    let order = LimitOrder::new(h(500), m.base, m.quote, ALICE, 17 * ONE, 3400, 200, OrderType::Buy);
    m.module.insert_order(m.tp, order).unwrap();
    assert_eq!(m.module.order_match(&mut m.host, m.tp, order), Ok(false));
    assert!(m.trades().is_empty());
    assert_eq!(m.get(h(500)), order);
    assert_eq!(m.level(Some(18 * ONE)).orders, vec![o1]);
}

#[test]
fn insert_order_refuses_a_hash_that_is_taken() {
    let mut m = market();
    let o1 = m.order(BOB, OrderType::Sell, 18 * ONE, 200).unwrap();
    let order = LimitOrder::new(o1, m.base, m.quote, ALICE, 17 * ONE, 3400, 200, OrderType::Buy);
    assert_eq!(m.module.insert_order(m.tp, order), Err(Error::HashCollision));
    assert_eq!(m.get(o1).owner, BOB);
}

#[test]
fn used_up_nonces_are_an_overflow() {
    let mut m = market();
    m.module.nonce = u64::MAX;
    assert_eq!(m.order(BOB, OrderType::Sell, 18 * ONE, 200), Err(Error::Overflow));
    m.host.issue(CHARLIE, h(88), 1);
    assert_eq!(
        m.module.do_create_trade_pair(&m.host, CHARLIE, m.base, h(88)),
        Err(Error::Overflow)
    );
    let maker = LimitOrder::new(h(1), m.base, m.quote, BOB, ONE, 1, 1, OrderType::Sell);
    let taker = LimitOrder::new(h(2), m.base, m.quote, ALICE, ONE, 1, 1, OrderType::Buy);
    let tp = TradePair { hash: m.tp, base: m.base, quote: m.quote };
    assert_eq!(
        m.module.record_trade(m.tp, &tp, &maker, &taker, 1, 1, h(3)),
        Err(Error::Overflow)
    );
    assert_eq!(m.module.nonce, u64::MAX);
}

#[test]
fn record_trade_stores_the_trade_and_the_orders() {
    let mut m = market();
    let maker = LimitOrder::new(h(1), m.base, m.quote, BOB, ONE, 1, 1, OrderType::Sell);
    let taker = LimitOrder::new(h(2), m.base, m.quote, ALICE, ONE, 1, 1, OrderType::Buy);
    let tp = TradePair { hash: m.tp, base: m.base, quote: m.quote };
    assert_eq!(m.module.record_trade(m.tp, &tp, &maker, &taker, 7, 8, h(3)), Ok(()));
    assert_eq!(
        m.module.trades.get(&h(3)),
        Some(&Trade {
            hash: h(3),
            base: m.base,
            quote: m.quote,
            buyer: ALICE,
            seller: BOB,
            maker: BOB,
            taker: ALICE,
            otype: OrderType::Buy,
            price: ONE,
            base_amount: 7,
            quote_amount: 8,
        })
    );
    assert_eq!(m.module.orders.get(&h(1)), Some(&maker));
    assert_eq!(m.module.orders.get(&h(2)), Some(&taker));
    assert_eq!(m.module.nonce, 2);
    assert_eq!(
        m.module.record_trade(m.tp, &tp, &maker, &taker, 7, 8, h(3)),
        Err(Error::HashCollision)
    );
    assert_eq!(m.module.nonce, 2);
    assert_eq!(m.module.trade_pair_owned_trades.get(m.tp), Some(vec![h(3)]));
}

#[test]
fn trade_record_names_buyer_and_seller_by_the_takers_side() {
    let maker = LimitOrder::new(h(1), h(66), h(77), BOB, 5, 1, 1, OrderType::Buy);
    let taker = LimitOrder::new(h(2), h(66), h(77), ALICE, 4, 1, 1, OrderType::Sell);
    let t = Trade::new(h(3), h(66), h(77), &maker, &taker, 9, 8);
    assert_eq!(t.buyer, BOB);
    assert_eq!(t.seller, ALICE);
    assert_eq!(t.maker, BOB);
    assert_eq!(t.taker, ALICE);
    assert_eq!(t.otype, OrderType::Sell);
    assert_eq!(t.price, 5);
    assert_eq!(t.base_amount, 9);
    assert_eq!(t.quote_amount, 8);
}

#[test]
fn next_match_price_walks_away_from_the_head() {
    let it = item(None, Some(4), Some(5), vec![]);
    assert_eq!(Module::next_match_price(&it, OrderType::Buy), Some(4));
    assert_eq!(Module::next_match_price(&it, OrderType::Sell), Some(5));
}

#[test]
fn order_match_test_case() {
    let mut m = market();
    let max = Some(u64::MAX);
    let min = Some(u64::MIN);

    assert_eq!(m.level(None), item(None, min, max, Vec::new()));
    assert_eq!(m.level(min), item(min, max, None, Vec::new()));
    assert_eq!(m.level(max), item(max, None, min, Vec::new()));

    let order1_hash = m.order(BOB, OrderType::Sell, 18 * ONE, 200).unwrap();
    assert_eq!(m.module.owned_orders.get(&OwnerSlot { owner: BOB, index: 0 }), Some(&order1_hash));
    assert_eq!(m.get(order1_hash).sell_amount, 200);

    let order2_hash = m.order(BOB, OrderType::Sell, 10 * ONE, 11).unwrap();
    assert_eq!(m.module.owned_orders.get(&OwnerSlot { owner: BOB, index: 1 }), Some(&order2_hash));
    assert_eq!(m.get(order2_hash).sell_amount, 11);

    let order3_hash = m.order(BOB, OrderType::Sell, 11 * ONE, 10).unwrap();
    assert_eq!(m.module.owned_orders.get(&OwnerSlot { owner: BOB, index: 2 }), Some(&order3_hash));
    assert_eq!(m.get(order3_hash).sell_amount, 10);

    let order4_hash = m.order(BOB, OrderType::Sell, 11 * ONE, 10000).unwrap();
    assert_eq!(m.module.owned_orders.get(&OwnerSlot { owner: BOB, index: 3 }), Some(&order4_hash));
    assert_eq!(m.get(order4_hash).sell_amount, 10000);

    let order101_hash = m.order(ALICE, OrderType::Buy, 6 * ONE, 6 * 50).unwrap();
    assert_eq!(
        m.module.owned_orders.get(&OwnerSlot { owner: ALICE, index: 0 }),
        Some(&order101_hash)
    );
    assert_eq!(m.get(order101_hash).buy_amount, 50);

    // bottom
    let mut it = item(min, max, Some(6 * ONE), Vec::new());
    assert_eq!(m.level(min), it);

    // item1
    let mut curr = it.next;
    it = item(Some(6 * ONE), Some(0), None, vec![order101_hash]);
    assert_eq!(m.level(curr), it);

    // item2
    curr = it.next;
    it = item(None, Some(6 * ONE), Some(10 * ONE), Vec::new());
    assert_eq!(m.level(curr), it);

    // item3
    curr = it.next;
    it = item(Some(10 * ONE), None, Some(11 * ONE), vec![order2_hash]);
    assert_eq!(m.level(curr), it);

    // item4
    curr = it.next;
    it = item(Some(11 * ONE), Some(10 * ONE), Some(18 * ONE), vec![order3_hash, order4_hash]);
    assert_eq!(m.level(curr), it);

    // item5
    curr = it.next;
    it = item(Some(18 * ONE), Some(11 * ONE), max, vec![order1_hash]);
    assert_eq!(m.level(curr), it);

    // top
    it = item(max, Some(18 * ONE), min, Vec::new());
    assert_eq!(m.level(max), it);

    // Alice buys 50 quote at 11 or better
    let order102_hash = m.order(ALICE, OrderType::Buy, 11 * ONE, 11 * 50).unwrap();
    assert_eq!(
        m.module.owned_orders.get(&OwnerSlot { owner: ALICE, index: 1 }),
        Some(&order102_hash)
    );
    let order102 = m.get(order102_hash);
    assert_eq!(order102.buy_amount, 50);
    assert_eq!(order102.remained_sell_amount, 0);
    assert_eq!(order102.status, OrderStatus::Filled);

    let order2 = m.get(order2_hash);
    assert_eq!(order2.sell_amount, 11);
    assert_eq!(order2.remained_sell_amount, 0);
    assert_eq!(order2.status, OrderStatus::Filled);

    let order3 = m.get(order3_hash);
    assert_eq!(order3.sell_amount, 10);
    assert_eq!(order3.remained_sell_amount, 0);
    assert_eq!(order3.status, OrderStatus::Filled);

    let order4 = m.get(order4_hash);
    assert_eq!(order4.sell_amount, 10000);
    assert_eq!(order4.remained_sell_amount, 9971);
    assert_eq!(order4.status, OrderStatus::PartialFilled);

    // bottom
    it = item(min, max, Some(6 * ONE), Vec::new());
    assert_eq!(m.level(min), it);

    // item1
    curr = it.next;
    it = item(Some(6 * ONE), Some(0), None, vec![order101_hash]);
    assert_eq!(m.level(curr), it);

    // item2
    curr = it.next;
    it = item(None, Some(6 * ONE), Some(11 * ONE), Vec::new());
    assert_eq!(m.level(curr), it);

    // item4
    curr = it.next;
    it = item(Some(11 * ONE), None, Some(18 * ONE), vec![order4_hash]);
    assert_eq!(m.level(curr), it);

    // item5
    curr = it.next;
    it = item(Some(18 * ONE), Some(11 * ONE), max, vec![order1_hash]);
    assert_eq!(m.level(curr), it);

    // top
    it = item(max, Some(18 * ONE), min, Vec::new());
    assert_eq!(m.level(max), it);

    let trades = m.module.trade_pair_owned_trades.get(m.tp).unwrap();
    let v = vec![trades[0], trades[1], trades[2]];

    assert_eq!(m.module.owned_trades.get(ALICE), Some(v.clone()));
    assert_eq!(m.module.owned_trades.get(BOB), Some(v.clone()));

    assert_eq!(m.module.owned_tp_trades.get(ALICE, m.tp), Some(v.clone()));
    assert_eq!(m.module.owned_tp_trades.get(BOB, m.tp), Some(v.clone()));

    assert_eq!(m.module.trade_pair_owned_trades.get(m.tp), Some(v.clone()));

    assert_eq!(m.module.order_owned_trades.get(order102_hash).unwrap().len(), 3);
    assert_eq!(m.module.order_owned_trades.get(order102_hash), Some(v));

    assert_eq!(m.module.order_owned_trades.get(order2_hash).unwrap().len(), 1);
    assert_eq!(m.module.order_owned_trades.get(order2_hash), Some(vec![trades[0]]));

    assert_eq!(m.module.order_owned_trades.get(order3_hash).unwrap().len(), 1);
    assert_eq!(m.module.order_owned_trades.get(order3_hash), Some(vec![trades[1]]));

    assert_eq!(m.module.order_owned_trades.get(order4_hash).unwrap().len(), 1);
    assert_eq!(m.module.order_owned_trades.get(order4_hash), Some(vec![trades[2]]));

    assert_eq!(trades.len(), 3);
    let the_trade = |hash: H256, price: u64, base_amount: u128, quote_amount: u128| Trade {
        hash,
        base: m.base,
        quote: m.quote,
        buyer: ALICE,
        seller: BOB,
        maker: BOB,
        taker: ALICE,
        otype: OrderType::Buy,
        price,
        base_amount,
        quote_amount,
    };
    let t1 = *m.module.trades.get(&trades[0]).unwrap();
    assert_eq!(t1, the_trade(trades[0], 10 * ONE, 110, 11));

    let t2 = *m.module.trades.get(&trades[1]).unwrap();
    assert_eq!(t2, the_trade(trades[1], 11 * ONE, 110, 10));

    let t3 = *m.module.trades.get(&trades[2]).unwrap();
    assert_eq!(t3, the_trade(trades[2], 11 * ONE, 319, 29));

    // Alice buys 13211 quote at 18 or better
    let order103_hash = m.order(ALICE, OrderType::Buy, 18 * ONE, 18 * 13211).unwrap();
    assert_eq!(
        m.module.owned_orders.get(&OwnerSlot { owner: ALICE, index: 2 }),
        Some(&order103_hash)
    );
    let order103 = m.get(order103_hash);
    assert_eq!(order103.buy_amount, 13211);
    assert_eq!(order103.remained_buy_amount, 3040);
    assert_eq!(order103.status, OrderStatus::PartialFilled);

    let order4 = m.get(order4_hash);
    assert_eq!(order4.sell_amount, 10000);
    assert_eq!(order4.remained_sell_amount, 0);
    assert_eq!(order4.status, OrderStatus::Filled);

    let order1 = m.get(order1_hash);
    assert_eq!(order1.sell_amount, 200);
    assert_eq!(order1.remained_sell_amount, 0);
    assert_eq!(order1.status, OrderStatus::Filled);

    // bottom
    it = item(min, max, Some(6 * ONE), Vec::new());
    assert_eq!(m.level(min), it);

    // item1
    curr = it.next;
    it = item(Some(6 * ONE), Some(0), Some(18 * ONE), vec![order101_hash]);
    assert_eq!(m.level(curr), it);

    // item2
    curr = it.next;
    it = item(Some(18 * ONE), Some(6 * ONE), None, vec![order103_hash]);
    assert_eq!(m.level(curr), it);

    // item4
    curr = it.next;
    it = item(None, Some(18 * ONE), max, Vec::new());
    assert_eq!(m.level(curr), it);

    // top
    it = item(max, None, min, Vec::new());
    assert_eq!(m.level(max), it);

    let trades = m.module.trade_pair_owned_trades.get(m.tp).unwrap();
    let v = vec![trades[0], trades[1], trades[2], trades[3], trades[4]];

    assert_eq!(m.module.owned_trades.get(ALICE), Some(v.clone()));
    assert_eq!(m.module.owned_trades.get(BOB), Some(v.clone()));

    assert_eq!(m.module.owned_tp_trades.get(ALICE, m.tp), Some(v.clone()));
    assert_eq!(m.module.owned_tp_trades.get(BOB, m.tp), Some(v.clone()));

    assert_eq!(m.module.trade_pair_owned_trades.get(m.tp), Some(v.clone()));

    assert_eq!(m.module.order_owned_trades.get(order103_hash).unwrap().len(), 2);
    assert_eq!(m.module.order_owned_trades.get(order103_hash), Some(vec![trades[3], trades[4]]));

    assert_eq!(m.module.order_owned_trades.get(order4_hash).unwrap().len(), 2);
    assert_eq!(m.module.order_owned_trades.get(order4_hash), Some(vec![trades[2], trades[3]]));

    assert_eq!(m.module.order_owned_trades.get(order1_hash).unwrap().len(), 1);
    assert_eq!(m.module.order_owned_trades.get(order1_hash), Some(vec![trades[4]]));

    assert_eq!(trades.len(), 5);
    let the_trade = |hash: H256, price: u64, base_amount: u128, quote_amount: u128| Trade {
        hash,
        base: m.base,
        quote: m.quote,
        buyer: ALICE,
        seller: BOB,
        maker: BOB,
        taker: ALICE,
        otype: OrderType::Buy,
        price,
        base_amount,
        quote_amount,
    };
    let t1 = *m.module.trades.get(&trades[0]).unwrap();
    assert_eq!(t1, the_trade(trades[0], 10 * ONE, 110, 11));

    let t2 = *m.module.trades.get(&trades[1]).unwrap();
    assert_eq!(t2, the_trade(trades[1], 11 * ONE, 110, 10));

    let t3 = *m.module.trades.get(&trades[2]).unwrap();
    assert_eq!(t3, the_trade(trades[2], 11 * ONE, 319, 29));

    let t4 = *m.module.trades.get(&trades[3]).unwrap();
    assert_eq!(t4, the_trade(trades[3], 11 * ONE, 109681, 9971));

    let t5 = *m.module.trades.get(&trades[4]).unwrap();
    assert_eq!(t5, the_trade(trades[4], 18 * ONE, 3600, 200));
}

#[test]
fn token_requests_of_a_trade() {
    let tp = TradePair { hash: h(1), base: h(66), quote: h(77) };
    let maker = LimitOrder::new(h(2), h(66), h(77), BOB, 11 * ONE, 10000, 110000, OrderType::Sell);
    let taker = LimitOrder::new(h(3), h(66), h(77), ALICE, 11 * ONE, 330, 29, OrderType::Buy);
    assert_eq!(
        Module::exchange_ops(&tp, &maker, &taker, 319, 29),
        vec![
            TokenOp::Unfreeze { who: ALICE, token: h(66), amount: 319 },
            TokenOp::Unfreeze { who: BOB, token: h(77), amount: 29 },
            TokenOp::Transfer { from: ALICE, to: BOB, token: h(66), amount: 319 },
            TokenOp::Transfer { from: BOB, to: ALICE, token: h(77), amount: 29 },
        ]
    );
    // a selling taker gives quote and gets base
    let maker = LimitOrder::new(h(2), h(66), h(77), ALICE, 6 * ONE, 300, 50, OrderType::Buy);
    let taker = LimitOrder::new(h(3), h(66), h(77), BOB, 6 * ONE, 10, 60, OrderType::Sell);
    assert_eq!(
        Module::exchange_ops(&tp, &maker, &taker, 60, 10),
        vec![
            TokenOp::Unfreeze { who: BOB, token: h(77), amount: 10 },
            TokenOp::Unfreeze { who: ALICE, token: h(66), amount: 60 },
            TokenOp::Transfer { from: BOB, to: ALICE, token: h(77), amount: 10 },
            TokenOp::Transfer { from: ALICE, to: BOB, token: h(66), amount: 60 },
        ]
    );
}

#[test]
fn token_requests_for_dust() {
    let tp = TradePair { hash: h(1), base: h(66), quote: h(77) };
    let maker = LimitOrder::new(h(2), h(66), h(77), BOB, 11 * ONE, 10000, 110000, OrderType::Sell);
    let taker = LimitOrder::new(h(3), h(66), h(77), ALICE, 11 * ONE, 330, 29, OrderType::Buy);
    let s: Settlement = Module::settle(&maker, &taker, 319, 29).unwrap();
    assert_eq!(
        Module::dust_ops(&tp, &maker, &taker, &s),
        vec![TokenOp::Unfreeze { who: ALICE, token: h(66), amount: 11 }]
    );
    let s = Settlement { maker, taker, maker_dust: 0, taker_dust: 0 };
    assert_eq!(Module::dust_ops(&tp, &maker, &taker, &s), vec![]);
    let s = Settlement { maker, taker, maker_dust: 5, taker_dust: 7 };
    assert_eq!(
        Module::dust_ops(&tp, &maker, &taker, &s),
        vec![
            TokenOp::Unfreeze { who: ALICE, token: h(66), amount: 7 },
            TokenOp::Unfreeze { who: BOB, token: h(77), amount: 5 },
        ]
    );
}

#[test]
fn the_host_is_asked_in_order() {
    let (mut m, _) = loaded();
    m.host.calls.clear();
    m.order(ALICE, OrderType::Buy, 11 * ONE, 550).unwrap();
    let (b, q) = (m.base, m.quote);
    assert_eq!(
        m.host.calls,
        vec![
            TokenOp::Freeze { who: ALICE, token: b, amount: 550 },
            // the first trade
            TokenOp::Unfreeze { who: ALICE, token: b, amount: 110 },
            TokenOp::Unfreeze { who: BOB, token: q, amount: 11 },
            TokenOp::Transfer { from: ALICE, to: BOB, token: b, amount: 110 },
            TokenOp::Transfer { from: BOB, to: ALICE, token: q, amount: 11 },
            // the second trade
            TokenOp::Unfreeze { who: ALICE, token: b, amount: 110 },
            TokenOp::Unfreeze { who: BOB, token: q, amount: 10 },
            TokenOp::Transfer { from: ALICE, to: BOB, token: b, amount: 110 },
            TokenOp::Transfer { from: BOB, to: ALICE, token: q, amount: 10 },
            // the third trade, and the taker's dust
            TokenOp::Unfreeze { who: ALICE, token: b, amount: 319 },
            TokenOp::Unfreeze { who: BOB, token: q, amount: 29 },
            TokenOp::Transfer { from: ALICE, to: BOB, token: b, amount: 319 },
            TokenOp::Transfer { from: BOB, to: ALICE, token: q, amount: 29 },
            TokenOp::Unfreeze { who: ALICE, token: b, amount: 11 },
        ]
    );
}

#[test]
fn a_refusal_of_the_host_is_a_token_error() {
    let mut host = Host::new();
    host.issue(ALICE, h(66), 10);
    assert_eq!(
        Module::perform(&mut host, TokenOp::Freeze { who: ALICE, token: h(66), amount: 4 }),
        Ok(())
    );
    assert_eq!(host.frozen_balance(ALICE, h(66)), 4);
    assert_eq!(
        Module::perform(&mut host, TokenOp::Unfreeze { who: ALICE, token: h(66), amount: 5 }),
        Err(Error::TokenOp(TokenFault { code: 3 }))
    );
    let ops = vec![
        TokenOp::Unfreeze { who: ALICE, token: h(66), amount: 4 },
        TokenOp::Transfer { from: ALICE, to: BOB, token: h(66), amount: 11 },
        TokenOp::Transfer { from: ALICE, to: BOB, token: h(66), amount: 1 },
    ];
    assert_eq!(
        Module::perform_all(&mut host, &ops),
        Err(Error::TokenOp(TokenFault { code: 4 }))
    );
    // the request after the refusal was not made
    assert_eq!(host.free_balance(BOB, h(66)), 0);
    assert_eq!(host.free_balance(ALICE, h(66)), 10);
}

/// What the live orders of `who` have left to sell of `token`, by the list of
/// the orders of `who`.
fn left_to_sell(m: &Market, who: u64, token: H256) -> u128 {
    let n = *m.module.owned_orders_index.get(&who).unwrap_or(&0);
    let mut sum = 0;
    for index in 0..n {
        let hash = *m.module.owned_orders.get(&OwnerSlot { owner: who, index }).unwrap();
        let order = m.get(hash);
        let sold = if order.otype == OrderType::Buy { order.base } else { order.quote };
        let live = order.status == OrderStatus::Created || order.status == OrderStatus::PartialFilled;
        if live && sold == token {
            sum += order.remained_sell_amount;
        }
    }
    sum
}

fn check_frozen(m: &Market) {
    for who in [ALICE, BOB] {
        for token in [m.base, m.quote] {
            assert_eq!(m.host.frozen_balance(who, token), left_to_sell(m, who, token));
        }
    }
}

#[test]
fn frozen_funds_are_what_resting_orders_have_left_to_sell() {
    let mut m = market();
    check_frozen(&m);
    m.order(BOB, OrderType::Sell, 18 * ONE, 200).unwrap();
    check_frozen(&m);
    m.order(BOB, OrderType::Sell, 10 * ONE, 11).unwrap();
    m.order(BOB, OrderType::Sell, 11 * ONE, 10).unwrap();
    m.order(BOB, OrderType::Sell, 11 * ONE, 10000).unwrap();
    m.order(ALICE, OrderType::Buy, 6 * ONE, 300).unwrap();
    check_frozen(&m);
    assert_eq!(left_to_sell(&m, BOB, m.quote), 10221);
    m.order(ALICE, OrderType::Buy, 11 * ONE, 550).unwrap();
    check_frozen(&m);
    assert_eq!(left_to_sell(&m, BOB, m.quote), 10171);
    assert_eq!(left_to_sell(&m, ALICE, m.base), 300);
    m.order(ALICE, OrderType::Buy, 18 * ONE, 18 * 13211).unwrap();
    check_frozen(&m);
    assert_eq!(left_to_sell(&m, BOB, m.quote), 0);
    // a refusal leaves the books as they were
    assert!(m.order(ALICE, OrderType::Buy, 0, 5).is_err());
    check_frozen(&m);
    // Bob sells into Alice's bids
    m.order(BOB, OrderType::Sell, 6 * ONE, 100).unwrap();
    check_frozen(&m);
}

#[test]
fn every_live_order_rests() {
    let (mut m, hashes) = loaded();
    m.order(ALICE, OrderType::Buy, 11 * ONE, 550).unwrap();
    let o103 = m.order(ALICE, OrderType::Buy, 18 * ONE, 18 * 13211).unwrap();
    let mut all = hashes.to_vec();
    all.push(o103);
    for hash in all {
        let order = m.get(hash);
        let live = order.status == OrderStatus::Created || order.status == OrderStatus::PartialFilled;
        let resting = m
            .module
            .linked_item_list
            .get(m.tp, Some(order.price))
            .map(|level| level.orders.contains(&hash))
            .unwrap_or(false);
        assert_eq!(live, resting);
    }
}

#[test]
fn a_ladder_that_names_a_missing_level_is_a_ladder_fault() {
    let mut m = market();
    // the head names a level that is not stored
    m.module
        .linked_item_list
        .write(m.tp, None, item(None, Some(PMIN), Some(5 * ONE), vec![]));
    let order = LimitOrder::new(h(500), m.base, m.quote, ALICE, 18 * ONE, 3600, 200, OrderType::Buy);
    m.module.insert_order(m.tp, order).unwrap();
    assert_eq!(
        m.module.order_match(&mut m.host, m.tp, order),
        Err(Error::LadderInvariant(LadderFault::MissingLevel))
    );
}

#[test]
fn a_level_that_names_a_missing_order_is_a_ladder_fault() {
    let mut m = market();
    m.module.linked_item_list.append(m.tp, 17 * ONE, h(77), OrderType::Sell);
    let order = LimitOrder::new(h(500), m.base, m.quote, ALICE, 18 * ONE, 3600, 200, OrderType::Buy);
    m.module.insert_order(m.tp, order).unwrap();
    assert_eq!(
        m.module.order_match(&mut m.host, m.tp, order),
        Err(Error::LadderInvariant(LadderFault::MissingOrder))
    );
}

#[test]
fn a_selling_taker_sweeps_the_bids_from_the_best_down() {
    let mut m = market();
    let low = m.order(ALICE, OrderType::Buy, 5 * ONE, 500).unwrap();
    let mid = m.order(ALICE, OrderType::Buy, 8 * ONE, 800).unwrap();
    let high = m.order(ALICE, OrderType::Buy, 10 * ONE, 1000).unwrap();
    assert_eq!(m.best_bid(), 10 * ONE);
    // Bob sells 250 quote for 1500 base at 6 or better: 100 quote go to the
    // bid at 10 for 1000 base, 63 to the bid at 8 for the other 500
    let taker = m.order(BOB, OrderType::Sell, 6 * ONE, 250).unwrap();
    let trades = m.trades();
    let amounts: Vec<(u64, u128, u128)> =
        trades.iter().map(|t| (t.price, t.base_amount, t.quote_amount)).collect();
    assert_eq!(amounts, vec![(10 * ONE, 1000, 100), (8 * ONE, 500, 63)]);
    for t in trades.iter() {
        assert!(t.price >= 6 * ONE);
        assert_eq!(t.maker, ALICE);
        assert_eq!(t.taker, BOB);
        assert_eq!(t.buyer, ALICE);
        assert_eq!(t.seller, BOB);
        assert_eq!(t.otype, OrderType::Sell);
    }
    assert_eq!(m.get(high).status, OrderStatus::Filled);
    assert_eq!(m.get(mid).status, OrderStatus::PartialFilled);
    assert_eq!(m.get(mid).remained_sell_amount, 300);
    assert_eq!(m.get(mid).remained_buy_amount, 37);
    assert_eq!(m.get(low).status, OrderStatus::Created);
    assert_eq!(m.get(taker).status, OrderStatus::Filled);
    assert_eq!(
        m.walk_up(),
        vec![Some(PMIN), Some(5 * ONE), Some(8 * ONE), None, Some(PMAX)]
    );
    // 250 - 163 quote of dust went back to Bob
    assert_eq!(m.host.frozen_balance(BOB, m.quote), 0);
    assert_eq!(m.host.free_balance(BOB, m.quote), 10000000 - 163);
    assert_eq!(m.host.free_balance(BOB, m.base), 1500);
    check_frozen(&m);
}

#[test]
fn pairs_do_not_touch_each_other() {
    let mut m = market();
    let other = h(88);
    m.host.issue(CHARLIE, other, 1000000);
    let event = m.module.do_create_trade_pair(&m.host, CHARLIE, m.base, other).unwrap();
    let tp2 = match event {
        Event::TradePairCreated(_, tp, _, _, _) => tp,
        _ => panic!("not a pair"),
    };
    assert!(tp2 != m.tp);
    let o1 = m.order(BOB, OrderType::Sell, 18 * ONE, 200).unwrap();
    // Charlie sells the other token for base at the same price
    let r = m
        .module
        .create_limit_order(&mut m.host, CHARLIE, m.base, other, OrderType::Sell, 18 * ONE, 100);
    let o2 = match r {
        Ok(Event::OrderCreated(_, _, _, hash, _, _)) => hash,
        _ => panic!("not an order"),
    };
    assert_eq!(m.level(Some(18 * ONE)).orders, vec![o1]);
    assert_eq!(
        m.module.linked_item_list.get(tp2, Some(18 * ONE)).unwrap().orders,
        vec![o2]
    );
    // Alice buys in the first pair only
    m.order(ALICE, OrderType::Buy, 18 * ONE, 3600).unwrap();
    assert_eq!(m.get(o1).status, OrderStatus::Filled);
    assert_eq!(m.get(o2).status, OrderStatus::Created);
    assert_eq!(
        m.module.linked_item_list.get(tp2, Some(18 * ONE)).unwrap().orders,
        vec![o2]
    );
    assert_eq!(m.module.trade_pair_owned_trades.get(tp2), None);
    assert_eq!(m.module.trade_pair_owned_trades.get(m.tp).unwrap().len(), 1);
}

#[test]
fn an_account_can_trade_with_itself() {
    let mut m = market();
    m.host.issue(ALICE, m.quote, 1000);
    let maker = m.order(ALICE, OrderType::Sell, 2 * ONE, 50).unwrap();
    let taker = m.order(ALICE, OrderType::Buy, 2 * ONE, 100).unwrap();
    let trades = m.trades();
    assert_eq!(trades.len(), 1);
    assert_eq!(trades[0].buyer, ALICE);
    assert_eq!(trades[0].seller, ALICE);
    assert_eq!((trades[0].base_amount, trades[0].quote_amount), (100, 50));
    assert_eq!(m.get(maker).status, OrderStatus::Filled);
    assert_eq!(m.get(taker).status, OrderStatus::Filled);
    // the trade is listed twice for the account
    let t = trades[0].hash;
    assert_eq!(m.module.owned_trades.get(ALICE), Some(vec![t, t]));
    assert_eq!(m.host.free_balance(ALICE, m.base), 21000000);
    assert_eq!(m.host.free_balance(ALICE, m.quote), 1000);
    check_frozen(&m);
}

#[test]
fn the_answer_of_the_host_becomes_the_result() {
    assert_eq!(Module::answered(Ok(())), Ok(()));
    assert_eq!(
        Module::answered(Err(TokenFault { code: 7 })),
        Err(Error::TokenOp(TokenFault { code: 7 }))
    );
    // no request, no refusal
    let mut host = Host::new();
    host.refuse_freeze = true;
    assert_eq!(Module::perform_all(&mut host, &vec![]), Ok(()));
    assert!(host.calls.is_empty());
    assert_eq!(
        Module::perform(&mut host, TokenOp::Freeze { who: ALICE, token: h(66), amount: 1 }),
        Err(Error::TokenOp(TokenFault { code: 2 }))
    );
}

#[test]
fn a_canceled_order_in_a_queue_is_gone_by_and_left_as_it_is() {
    let mut m = market();
    let a = m.order(BOB, OrderType::Sell, 11 * ONE, 10).unwrap();
    let b = m.order(BOB, OrderType::Sell, 11 * ONE, 20).unwrap();
    let c = m.order(BOB, OrderType::Sell, 12 * ONE, 30).unwrap();
    // the first order is canceled from outside
    let mut canceled = m.get(a);
    canceled.status = OrderStatus::Canceled;
    m.module.orders.insert(a, canceled);
    m.host.calls.clear();
    let taker = m.order(ALICE, OrderType::Buy, 11 * ONE, 220).unwrap();
    assert_eq!(m.get(a), canceled);
    assert_eq!(m.module.order_owned_trades.get(a), None);
    assert_eq!(m.get(b).status, OrderStatus::Filled);
    assert_eq!(m.get(c).status, OrderStatus::Created);
    assert_eq!(m.get(taker).status, OrderStatus::Filled);
    let trades = m.trades();
    assert_eq!(trades.len(), 1);
    assert_eq!((trades[0].base_amount, trades[0].quote_amount), (220, 20));
    // the level at 11 is gone, with the canceled order
    assert_eq!(
        m.walk_up(),
        vec![Some(PMIN), None, Some(12 * ONE), Some(PMAX)]
    );
    // nothing was asked of the host for the canceled order
    assert!(m.host.calls.iter().all(|op| match op {
        TokenOp::Unfreeze { amount, .. } | TokenOp::Transfer { amount, .. } => *amount != 10,
        _ => true,
    }));
}

#[test]
fn a_level_of_canceled_orders_only_makes_no_trade() {
    let mut m = market();
    let a = m.order(BOB, OrderType::Sell, 11 * ONE, 10).unwrap();
    let mut canceled = m.get(a);
    canceled.status = OrderStatus::Canceled;
    m.module.orders.insert(a, canceled);
    m.host.calls.clear();
    let taker = m.order(ALICE, OrderType::Buy, 11 * ONE, 220).unwrap();
    assert!(m.trades().is_empty());
    assert_eq!(m.get(a), canceled);
    assert_eq!(m.get(taker).status, OrderStatus::Created);
    assert_eq!(
        m.host.calls,
        vec![TokenOp::Freeze { who: ALICE, token: m.base, amount: 220 }]
    );
    // the canceled order is pruned and the taker rests
    assert_eq!(
        m.walk_up(),
        vec![Some(PMIN), Some(11 * ONE), None, Some(PMAX)]
    );
    assert_eq!(m.level(Some(11 * ONE)).orders, vec![taker]);
}

#[test]
fn amounts_of_the_first_trade_that_are_refused_are_the_result_before_the_host_is_asked() {
    let mut m = market();
    let maker = m.order(BOB, OrderType::Sell, 2 * ONE, 50).unwrap();
    // a partly filled taker with nothing left to sell
    let mut taker = LimitOrder::new(h(500), m.base, m.quote, ALICE, 2 * ONE, 100, 50, OrderType::Buy);
    taker.status = OrderStatus::PartialFilled;
    taker.remained_sell_amount = 0;
    m.module.insert_order(m.tp, taker).unwrap();
    m.host.calls.clear();
    m.host.asked.borrow_mut().clear();
    assert_eq!(
        m.module.order_match(&mut m.host, m.tp, taker),
        Err(Error::Overflow)
    );
    assert!(m.host.calls.is_empty());
    assert!(m.host.asked.borrow().is_empty());
    assert_eq!(m.get(maker).status, OrderStatus::Created);
    assert_eq!(m.get(h(500)), taker);
    assert!(m.trades().is_empty());
}

#[test]
fn the_host_is_asked_for_hashes_with_the_nonce_of_the_exchange() {
    let mut m = market();
    assert_eq!(
        *m.host.asked.borrow(),
        vec![HashRequest::Pair { base: m.base, quote: m.quote, nonce: 0, creator: ALICE }]
    );
    m.host.asked.borrow_mut().clear();
    m.order(BOB, OrderType::Sell, 18 * ONE, 200).unwrap();
    m.order(ALICE, OrderType::Buy, 18 * ONE, 3600).unwrap();
    assert_eq!(
        *m.host.asked.borrow(),
        vec![
            HashRequest::Order {
                base: m.base,
                quote: m.quote,
                price: 18 * ONE,
                sell_amount: 200,
                buy_amount: 3600,
                otype: OrderType::Sell,
                owner: BOB,
                nonce: 1,
            },
            HashRequest::Order {
                base: m.base,
                quote: m.quote,
                price: 18 * ONE,
                sell_amount: 3600,
                buy_amount: 200,
                otype: OrderType::Buy,
                owner: ALICE,
                nonce: 2,
            },
            HashRequest::Trade {
                base: m.base,
                quote: m.quote,
                base_amount: 3600,
                quote_amount: 200,
                nonce: 3,
            },
        ]
    );
}

#[test]
fn requests_for_hashes_hold_the_nonce() {
    let mut m = market();
    m.module.nonce = 41;
    assert_eq!(
        m.module.pair_request(h(1), h(2), BOB),
        HashRequest::Pair { base: h(1), quote: h(2), nonce: 41, creator: BOB }
    );
    assert_eq!(
        m.module.order_request(h(1), h(2), 5, 6, 7, OrderType::Sell, BOB),
        HashRequest::Order {
            base: h(1),
            quote: h(2),
            price: 5,
            sell_amount: 6,
            buy_amount: 7,
            otype: OrderType::Sell,
            owner: BOB,
            nonce: 41,
        }
    );
    let tp = TradePair { hash: h(9), base: h(1), quote: h(2) };
    assert_eq!(
        m.module.trade_request(&tp, 8, 9),
        HashRequest::Trade { base: h(1), quote: h(2), base_amount: 8, quote_amount: 9, nonce: 41 }
    );
}

#[test]
fn the_request_of_a_placing_freezes_what_the_order_sells() {
    let tp = TradePair { hash: h(9), base: h(1), quote: h(2) };
    assert_eq!(
        Module::placing_op(&tp, ALICE, OrderType::Buy, 77),
        TokenOp::Freeze { who: ALICE, token: h(1), amount: 77 }
    );
    assert_eq!(
        Module::placing_op(&tp, BOB, OrderType::Sell, 78),
        TokenOp::Freeze { who: BOB, token: h(2), amount: 78 }
    );
    assert_eq!(Module::sold(&tp, OrderType::Buy), h(1));
    assert_eq!(Module::sold(&tp, OrderType::Sell), h(2));
}
