//! Identifiers, orders, trades and errors.

use vstd::prelude::*;
use crate::table::{Dup, Key};

verus! {

/// An account identifier.
pub type AccountId = u64;

/// A price, scaled by [`PRICE_FACTOR`]: at the price `p`, `PRICE_FACTOR`
/// units of the quote token are worth `p` units of the base token.
pub type Price = u64;

/// A token balance.
pub type Balance = u128;

/// The fixed-point scale of prices.
pub const PRICE_FACTOR: u64 = 100_000_000;

/// The lowest price; the key of the bottom sentinel of a ladder.
pub const PMIN: u64 = 0;

/// The highest price; the key of the top sentinel of a ladder.
pub const PMAX: u64 = 0xffff_ffff_ffff_ffff;

/// The largest balance.
pub const QMAX: u128 = 0xffff_ffff_ffff_ffff_ffff_ffff_ffff_ffff;

/// A 256-bit content hash, held as two 128-bit halves.
#[derive(Clone, Copy, Debug, PartialEq, Eq, Hash, Structural)]
pub struct H256 {
    pub hi: u128,
    pub lo: u128,
}

/// The two tokens of a pair, in order: the key under which a pair is found.
#[derive(Clone, Copy, Debug, PartialEq, Eq, Structural)]
pub struct Tokens {
    pub base: H256,
    pub quote: H256,
}

impl Key for Tokens {
    fn same(&self, other: &Self) -> (r: bool) {
        self.base.same(&other.base) && self.quote.same(&other.quote)
    }
}

/// The place of an order among those of an account: the account and a
/// running index.
#[derive(Clone, Copy, Debug, PartialEq, Eq, Structural)]
pub struct OwnerSlot {
    pub owner: AccountId,
    pub index: u64,
}

impl Key for OwnerSlot {
    fn same(&self, other: &Self) -> (r: bool) {
        self.owner == other.owner && self.index == other.index
    }
}

/// The place of an order among those of a trade pair: the pair and a running
/// index.
#[derive(Clone, Copy, Debug, PartialEq, Eq, Structural)]
pub struct PairSlot {
    pub pair: H256,
    pub index: u64,
}

impl Key for PairSlot {
    fn same(&self, other: &Self) -> (r: bool) {
        self.pair.same(&other.pair) && self.index == other.index
    }
}

/// An account within a trade pair.
#[derive(Clone, Copy, Debug, PartialEq, Eq, Structural)]
pub struct OwnerPair {
    pub owner: AccountId,
    pub pair: H256,
}

impl Key for OwnerPair {
    fn same(&self, other: &Self) -> (r: bool) {
        self.owner == other.owner && self.pair.same(&other.pair)
    }
}

/// The side of an order. A `Buy` order sells the base token for the quote
/// token; a `Sell` order sells the quote token for the base token.
#[derive(Clone, Copy, Debug, PartialEq, Eq, Structural)]
pub enum OrderType {
    Buy,
    Sell,
}

impl OrderType {
    /// The opposite side.
    pub open spec fn flip(self) -> OrderType {
        match self {
            OrderType::Buy => OrderType::Sell,
            OrderType::Sell => OrderType::Buy,
        }
    }

    /// The opposite side.
    pub fn not(self) -> (r: OrderType)
        ensures
            r == self.flip(),
    {
        match self {
            OrderType::Sell => OrderType::Buy,
            OrderType::Buy => OrderType::Sell,
        }
    }
}

/// The life cycle of an order: `Created`, then possibly `PartialFilled`, then
/// `Filled`; or `Canceled`. `Filled` and `Canceled` are terminal.
#[derive(Clone, Copy, Debug, PartialEq, Eq, Structural)]
pub enum OrderStatus {
    Created,
    PartialFilled,
    Filled,
    Canceled,
}

/// What the token collaborator reports when it refuses an operation.
#[derive(Clone, Copy, Debug, PartialEq, Eq, Structural)]
pub struct TokenFault {
    pub code: u32,
}

/// The ways in which the ladder and the order store can disagree.
#[derive(Clone, Copy, Debug, PartialEq, Eq, Structural)]
pub enum LadderFault {
    /// A level was to be pruned while it still held an unfinished order.
    TryRemoveUnfinished,
    /// A level that the ladder links to is not stored.
    MissingLevel,
    /// A level lists an order that the order store does not hold.
    MissingOrder,
}

/// Why an operation was refused.
#[derive(Clone, Copy, Debug, PartialEq, Eq, Structural)]
pub enum Error {
    /// Identical base and quote, a price or amount out of range, an unknown
    /// pair or token, or a pair that exists already.
    InvalidArgument,
    /// The sender owns neither token of the pair it wants to create.
    Unauthorized,
    /// The counterparty amount has a rounding remainder.
    PrecisionLoss,
    /// An amount leaves its range.
    Overflow,
    /// The free balance does not cover the amount to freeze.
    InsufficientFunds,
    /// The ladder and the order store disagree.
    LadderInvariant(LadderFault),
    /// The token collaborator refused an operation.
    TokenOp(TokenFault),
    /// The host derived a hash that is taken already.
    HashCollision,
}

/// What a call makes known on success.
#[derive(Clone, Copy, Debug, PartialEq, Eq, Structural)]
pub enum Event {
    /// A trade pair was created: the creator, the hash of the pair, the base
    /// token, the quote token, and the pair.
    TradePairCreated(AccountId, H256, H256, H256, TradePair),
    /// An order was created: the owner, the base token, the quote token, the
    /// hash of the order, its price, and the amount that it sells.
    OrderCreated(AccountId, H256, H256, H256, Price, Balance),
}

/// A registered pair of tokens.
#[derive(Clone, Copy, Debug, PartialEq, Eq, Structural)]
pub struct TradePair {
    pub hash: H256,
    pub base: H256,
    pub quote: H256,
}

/// A limit order.
#[derive(Clone, Copy, Debug, PartialEq, Eq, Structural)]
pub struct LimitOrder {
    pub hash: H256,
    pub base: H256,
    pub quote: H256,
    pub owner: AccountId,
    pub price: Price,
    pub sell_amount: Balance,
    pub remained_sell_amount: Balance,
    pub buy_amount: Balance,
    pub remained_buy_amount: Balance,
    pub otype: OrderType,
    pub status: OrderStatus,
}

impl LimitOrder {
    /// A fresh order: nothing filled yet.
    pub fn new(
        hash: H256,
        base: H256,
        quote: H256,
        owner: AccountId,
        price: Price,
        sell_amount: Balance,
        buy_amount: Balance,
        otype: OrderType,
    ) -> (r: Self)
        ensures
            r == (LimitOrder {
                hash,
                base,
                quote,
                owner,
                price,
                sell_amount,
                remained_sell_amount: sell_amount,
                buy_amount,
                remained_buy_amount: buy_amount,
                otype,
                status: OrderStatus::Created,
            }),
    {
        LimitOrder {
            hash,
            base,
            quote,
            owner,
            price,
            otype,
            sell_amount,
            buy_amount,
            status: OrderStatus::Created,
            remained_sell_amount: sell_amount,
            remained_buy_amount: buy_amount,
        }
    }

    /// An order is finished when it is filled with nothing left to buy, or
    /// canceled. Only finished orders leave the ladder.
    pub open spec fn finished(self) -> bool {
        (self.remained_buy_amount == 0 && self.status == OrderStatus::Filled)
            || self.status == OrderStatus::Canceled
    }

    /// Whether the order is finished.
    pub fn is_finished(&self) -> (r: bool)
        ensures
            r == self.finished(),
    {
        (self.remained_buy_amount == 0 && self.status == OrderStatus::Filled)
            || self.status == OrderStatus::Canceled
    }

    /// An order is terminal once it is filled or canceled.
    pub open spec fn terminal(self) -> bool {
        self.status == OrderStatus::Filled || self.status == OrderStatus::Canceled
    }
}

/// An executed trade between a resting order (the maker) and an arriving one
/// (the taker).
#[derive(Clone, Copy, Debug, PartialEq, Eq, Structural)]
pub struct Trade {
    pub hash: H256,
    pub base: H256,
    pub quote: H256,
    /// The owner of the `Buy` order.
    pub buyer: AccountId,
    /// The owner of the `Sell` order.
    pub seller: AccountId,
    pub maker: AccountId,
    pub taker: AccountId,
    /// The taker's side.
    pub otype: OrderType,
    /// The maker's price.
    pub price: Price,
    pub base_amount: Balance,
    pub quote_amount: Balance,
}

impl Trade {
    /// The record of a trade of `base_amount` against `quote_amount` between
    /// `maker_order` and `taker_order`, at the maker's price.
    pub fn new(
        hash: H256,
        base: H256,
        quote: H256,
        maker_order: &LimitOrder,
        taker_order: &LimitOrder,
        base_amount: Balance,
        quote_amount: Balance,
    ) -> (r: Self)
        ensures
            r == Trade::of(hash, base, quote, *maker_order, *taker_order, base_amount, quote_amount),
    {
        let buyer;
        let seller;
        if taker_order.otype == OrderType::Buy {
            buyer = taker_order.owner;
            seller = maker_order.owner;
        } else {
            seller = taker_order.owner;
            buyer = maker_order.owner;
        }
        Trade {
            hash,
            base,
            quote,
            buyer,
            seller,
            base_amount,
            quote_amount,
            maker: maker_order.owner,
            taker: taker_order.owner,
            otype: taker_order.otype,
            price: maker_order.price,
        }
    }

    /// The trade record that [`Trade::new`] builds.
    pub open spec fn of(
        hash: H256,
        base: H256,
        quote: H256,
        maker: LimitOrder,
        taker: LimitOrder,
        base_amount: Balance,
        quote_amount: Balance,
    ) -> Trade {
        Trade {
            hash,
            base,
            quote,
            buyer: if taker.otype == OrderType::Buy { taker.owner } else { maker.owner },
            seller: if taker.otype == OrderType::Buy { maker.owner } else { taker.owner },
            maker: maker.owner,
            taker: taker.owner,
            otype: taker.otype,
            price: maker.price,
            base_amount,
            quote_amount,
        }
    }
}

// Keys of tables, and values of which tables are made.

impl Key for H256 {
    fn same(&self, other: &Self) -> (r: bool) {
        self.hi == other.hi && self.lo == other.lo
    }
}

impl Key for u64 {
    fn same(&self, other: &Self) -> (r: bool) {
        *self == *other
    }
}

impl Key for Option<Price> {
    fn same(&self, other: &Self) -> (r: bool) {
        match (self, other) {
            (None, None) => true,
            (Some(a), Some(b)) => *a == *b,
            _ => false,
        }
    }
}

impl View for H256 {
    type V = H256;

    open spec fn view(&self) -> H256 {
        *self
    }
}

impl View for TradePair {
    type V = TradePair;

    open spec fn view(&self) -> TradePair {
        *self
    }
}

impl View for LimitOrder {
    type V = LimitOrder;

    open spec fn view(&self) -> LimitOrder {
        *self
    }
}

impl View for Trade {
    type V = Trade;

    open spec fn view(&self) -> Trade {
        *self
    }
}

impl Dup for H256 {
    fn dup(&self) -> (r: Self) {
        *self
    }
}

impl Dup for u64 {
    fn dup(&self) -> (r: Self) {
        *self
    }
}

impl Dup for TradePair {
    fn dup(&self) -> (r: Self) {
        *self
    }
}

impl Dup for LimitOrder {
    fn dup(&self) -> (r: Self) {
        *self
    }
}

impl Dup for Trade {
    fn dup(&self) -> (r: Self) {
        *self
    }
}

impl Dup for Vec<H256> {
    fn dup(&self) -> (r: Self) {
        let r = self.clone();
        assert(r@ =~= self@);
        r
    }
}

} // verus!
