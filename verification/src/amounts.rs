//! Fixed-point conversions between what an order sells and what it buys.
//!
//! Prices are scaled by [`PRICE_FACTOR`]. The products of amounts and prices
//! are taken in 256 bits, where they cannot overflow.

use vstd::prelude::*;
use vstd::arithmetic::div_mod::{
    lemma_div_multiples_vanish, lemma_div_nonincreasing, lemma_div_pos_is_pos,
    lemma_fundamental_div_mod,
};
use crate::types::{Balance, Error, LimitOrder, OrderType, Price, PRICE_FACTOR};
use crate::wide::{pow64, wide_div, wide_mul, Wide};
use crate::engine::Module;

verus! {

/// `a / b`, rounded up.
pub open spec fn ceil_div(a: int, b: int) -> int
    recommends
        a >= 0,
        b > 0,
{
    if a % b == 0 {
        a / b
    } else {
        a / b + 1
    }
}

/// What an order that sells `amount` at `price` intends to buy, rounded down:
/// a `Buy` order sells base for `amount * PRICE_FACTOR / price` of quote, a
/// `Sell` order sells quote for `amount * price / PRICE_FACTOR` of base.
pub open spec fn counterparty(otype: OrderType, price: Price, amount: int) -> int
    recommends
        price > 0,
{
    match otype {
        OrderType::Buy => amount * (PRICE_FACTOR as int) / (price as int),
        OrderType::Sell => amount * (price as int) / (PRICE_FACTOR as int),
    }
}

/// An amount converts without loss when converting its counterparty back
/// recovers it.
pub open spec fn round_trips(otype: OrderType, price: Price, amount: int) -> bool
    recommends
        price > 0,
{
    counterparty(otype.flip(), price, counterparty(otype, price, amount)) == amount
}

/// The counterparty amount of an order, or the reason for which it is refused.
pub open spec fn counterparty_amount(otype: OrderType, price: Price, amount: Balance) -> Result<
    Balance,
    Error,
> {
    let c = counterparty(otype, price, amount as int);
    if price == 0 {
        Err(Error::InvalidArgument)
    } else if !round_trips(otype, price, amount as int) {
        Err(Error::PrecisionLoss)
    } else if c == 0 {
        Err(Error::InvalidArgument)
    } else if c > u64::MAX {
        Err(Error::Overflow)
    } else {
        Ok(c as Balance)
    }
}

/// The buyer and the seller of a trade: the `Buy` order and the other one.
pub open spec fn buyer_of(maker: LimitOrder, taker: LimitOrder) -> LimitOrder {
    if taker.otype == OrderType::Buy {
        taker
    } else {
        maker
    }
}

pub open spec fn seller_of(maker: LimitOrder, taker: LimitOrder) -> LimitOrder {
    if taker.otype == OrderType::Buy {
        maker
    } else {
        taker
    }
}

/// The base and quote amounts that a maker and a taker exchange, at the
/// maker's price. Where the buyer's budget covers all that the seller still
/// wants, the base leg is exactly that and the quote leg is rounded up; else,
/// where the seller's inventory covers all that the buyer still wants, the
/// quote leg is exactly that and the base leg is rounded up, and must not
/// exceed what the buyer has left to sell.
pub open spec fn ex_amount(maker: LimitOrder, taker: LimitOrder) -> Result<
    (Balance, Balance),
    Error,
> {
    let buyer = buyer_of(maker, taker);
    let seller = seller_of(maker, taker);
    let factor = PRICE_FACTOR as int;
    let price = maker.price as int;
    if maker.price == 0 {
        Err(Error::InvalidArgument)
    } else if seller.remained_buy_amount <= buyer.remained_sell_amount {
        let quote = ceil_div(seller.remained_buy_amount as int * factor, price);
        if quote > Balance::MAX {
            Err(Error::Overflow)
        } else {
            Ok((seller.remained_buy_amount, quote as Balance))
        }
    } else if buyer.remained_buy_amount <= seller.remained_sell_amount {
        let base = ceil_div(buyer.remained_buy_amount as int * price, factor);
        if base > buyer.remained_sell_amount {
            Err(Error::Overflow)
        } else {
            Ok((base as Balance, buyer.remained_buy_amount))
        }
    } else {
        Err(Error::InvalidArgument)
    }
}

proof fn lemma_mul_bound(a: int, b: int, x: int, y: int)
    requires
        0 <= a < x,
        0 <= b < y,
    ensures
        0 <= a * b < x * y,
{
    assert(0 <= a * b < x * y) by (nonlinear_arith)
        requires
            0 <= a < x,
            0 <= b < y,
    ;
}

/// Dividing a product by one factor and multiplying back loses something
/// exactly when the division has a remainder.
proof fn lemma_round_trip_exact(a: int, b: int, c: int)
    requires
        a >= 0,
        b > 0,
        c > 0,
    ensures
        ((a * b / c) * c / b == a) <==> (a * b) % c == 0,
{
    let q = a * b / c;
    let r = (a * b) % c;
    lemma_fundamental_div_mod(a * b, c);
    assert(a * b == c * q + r);
    assert(c * q == q * c) by (nonlinear_arith);
    if r == 0 {
        assert(q * c == b * a) by (nonlinear_arith)
            requires
                a * b == c * q,
        ;
        lemma_div_multiples_vanish(a, b);
    } else {
        assert(0 < r < c);
        let x = q * c;
        assert(x < a * b);
        lemma_fundamental_div_mod(x, b);
        assert(x / b < a) by (nonlinear_arith)
            requires
                x < a * b,
                b > 0,
                x == b * (x / b) + x % b,
                0 <= x % b,
        ;
    }
}

/// `a * b / c` in 256 bits.
fn mul_div(a: Wide, b: u64, c: u64) -> (q: Wide)
    requires
        0 <= a@ < pow64() * pow64() * pow64(),
        c > 0,
    ensures
        q@ == a@ * (b as int) / (c as int),
        0 <= q@ <= a@ * (b as int),
{
    proof {
        lemma_mul_bound(a@, b as int, pow64() * pow64() * pow64(), pow64());
        assert(a@ * (b as int) >= 0);
        lemma_div_nonincreasing(a@ * (b as int), c as int);
        lemma_div_pos_is_pos(a@ * (b as int), c as int);
    }
    let p = wide_mul(a, Wide::from_u64(b));
    wide_div(p, Wide::from_u64(c))
}

/// `a * b / c`, rounded up, if it fits a balance.
fn mul_div_ceil(a: u128, b: u64, c: u64) -> (r: Option<u128>)
    requires
        b > 0,
        c > 0,
    ensures
        match r {
            Some(v) => v == ceil_div(a as int * (b as int), c as int),
            None => ceil_div(a as int * (b as int), c as int) > u128::MAX,
        },
{
    proof {
        lemma_mul_bound(a as int, 0, pow64() * pow64(), 1);
        assert(pow64() * pow64() * pow64() >= pow64() * pow64()) by (nonlinear_arith)
            requires
                pow64() >= 1,
        ;
    }
    let q = mul_div(Wide::from_u128(a), b, c);
    proof {
        lemma_mul_bound(a as int, b as int, pow64() * pow64(), pow64());
    }
    let back = mul_div(q, c, b);
    proof {
        lemma_round_trip_exact(a as int, b as int, c as int);
    }
    let exact = match back.to_u128() {
        Some(v) => v == a,
        None => false,
    };
    match q.to_u128() {
        None => None,
        Some(v) => {
            if exact {
                Some(v)
            } else if v == u128::MAX {
                None
            } else {
                Some(v + 1)
            }
        },
    }
}

impl Module {
    /// Whether a price and an amount to sell are in range.
    pub fn ensure_bonds(price: Price, sell_amount: Balance) -> (r: Result<(), Error>)
        ensures
            r == (if price > 0 && sell_amount > 0 {
                Ok::<(), Error>(())
            } else {
                Err(Error::InvalidArgument)
            }),
    {
        if !(price > 0 && price <= u64::MAX) {
            return Err(Error::InvalidArgument);
        }
        if !(sell_amount > 0 && sell_amount <= u128::MAX) {
            return Err(Error::InvalidArgument);
        }
        Ok(())
    }

    /// What an order that sells `amount` at `price` buys. The conversion is
    /// refused unless converting back recovers `amount` exactly and the result
    /// is positive and fits 64 bits.
    pub fn ensure_counterparty_amount_bonds(otype: OrderType, price: Price, amount: Balance) -> (r:
        Result<Balance, Error>)
        ensures
            r == counterparty_amount(otype, price, amount),
    {
        if price == 0 {
            return Err(Error::InvalidArgument);
        }
        proof {
            lemma_mul_bound(amount as int, 0, pow64() * pow64(), 1);
            assert(pow64() * pow64() * pow64() >= pow64() * pow64()) by (nonlinear_arith)
                requires
                    pow64() >= 1,
            ;
        }
        let amount_wide = Wide::from_u128(amount);
        let counterparty_wide;
        let amount_v2;
        match otype {
            OrderType::Buy => {
                counterparty_wide = mul_div(amount_wide, PRICE_FACTOR, price);
                proof {
                    lemma_mul_bound(amount as int, PRICE_FACTOR as int, pow64() * pow64(), pow64());
                }
                amount_v2 = mul_div(counterparty_wide, price, PRICE_FACTOR);
            },
            OrderType::Sell => {
                counterparty_wide = mul_div(amount_wide, price, PRICE_FACTOR);
                proof {
                    lemma_mul_bound(amount as int, price as int, pow64() * pow64(), pow64());
                }
                amount_v2 = mul_div(counterparty_wide, PRICE_FACTOR, price);
            },
        }
        let same = match amount_v2.to_u128() {
            Some(v) => v == amount,
            None => false,
        };
        if !same {
            return Err(Error::PrecisionLoss);
        }
        match counterparty_wide.to_u128() {
            None => Err(Error::Overflow),
            Some(c) => {
                if c == 0 {
                    Err(Error::InvalidArgument)
                } else if c > 0xffff_ffff_ffff_ffff {
                    Err(Error::Overflow)
                } else {
                    Ok(c)
                }
            },
        }
    }

    /// The base and quote amounts that `maker_order` and `taker_order`
    /// exchange, at the maker's price.
    pub fn calculate_ex_amount(maker_order: &LimitOrder, taker_order: &LimitOrder) -> (r: Result<
        (Balance, Balance),
        Error,
    >)
        ensures
            r == ex_amount(*maker_order, *taker_order),
    {
        let buyer_order;
        let seller_order;
        if taker_order.otype == OrderType::Buy {
            buyer_order = taker_order;
            seller_order = maker_order;
        } else {
            buyer_order = maker_order;
            seller_order = taker_order;
        }
        if maker_order.price == 0 {
            return Err(Error::InvalidArgument);
        }
        if seller_order.remained_buy_amount <= buyer_order.remained_sell_amount {
            match mul_div_ceil(seller_order.remained_buy_amount, PRICE_FACTOR, maker_order.price) {
                Some(quote_qty) => Ok((seller_order.remained_buy_amount, quote_qty)),
                None => Err(Error::Overflow),
            }
        } else if buyer_order.remained_buy_amount <= seller_order.remained_sell_amount {
            match mul_div_ceil(buyer_order.remained_buy_amount, maker_order.price, PRICE_FACTOR) {
                Some(base_qty) => {
                    if base_qty > buyer_order.remained_sell_amount {
                        Err(Error::Overflow)
                    } else {
                        Ok((base_qty, buyer_order.remained_buy_amount))
                    }
                },
                None => Err(Error::Overflow),
            }
        } else {
            Err(Error::InvalidArgument)
        }
    }
}

/// Converting an amount and converting the result back on the other side, at
/// the same price, gives the amount again: where the first conversion is
/// accepted and the amount fits 64 bits, the second is accepted with the
/// amount as its result.
pub proof fn law_counterparty_round_trip(otype: OrderType, price: Price, x: Balance, c: Balance)
    requires
        counterparty_amount(otype, price, x) == Ok::<Balance, Error>(c),
        x <= u64::MAX,
    ensures
        counterparty_amount(otype.flip(), price, c) == Ok::<Balance, Error>(x),
{
    assert(otype.flip().flip() == otype);
    assert(counterparty(otype, price, x as int) == c);
    assert(counterparty(otype.flip(), price, c as int) == x);
    if x == 0 {
        assert(0int * (PRICE_FACTOR as int) == 0);
        assert(0int * (price as int) == 0);
        assert(0int / (price as int) == 0);
        assert(0int / (PRICE_FACTOR as int) == 0);
    }
}

} // verus!
