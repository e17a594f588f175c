//! The settling of a single trade: what it makes of the two orders.

use vstd::prelude::*;
use crate::amounts::ex_amount;
use crate::engine::Module;
use crate::types::{Balance, Error, LimitOrder, OrderStatus, OrderType};

verus! {

/// An order after a trade in which it sold `sold` and bought `bought`. The
/// first trade turns a created order into a partially filled one. An order
/// that has bought all it wanted is filled, and gives up what it has left to
/// sell.
pub open spec fn after_fill(order: LimitOrder, sold: Balance, bought: Balance) -> LimitOrder {
    if order.remained_buy_amount == bought {
        LimitOrder {
            status: OrderStatus::Filled,
            remained_sell_amount: 0,
            remained_buy_amount: 0,
            ..order
        }
    } else {
        LimitOrder {
            status: if order.status == OrderStatus::Created {
                OrderStatus::PartialFilled
            } else {
                order.status
            },
            remained_sell_amount: (order.remained_sell_amount - sold) as Balance,
            remained_buy_amount: (order.remained_buy_amount - bought) as Balance,
            ..order
        }
    }
}

/// What a filled order has left to sell after its last trade: the dust that
/// goes back to its owner.
pub open spec fn dust_of(order: LimitOrder, sold: Balance, bought: Balance) -> Balance {
    if order.remained_buy_amount == bought {
        (order.remained_sell_amount - sold) as Balance
    } else {
        0
    }
}

/// What the taker gives in a trade: base if it buys, quote if it sells.
pub open spec fn give_of(taker: LimitOrder, base_qty: Balance, quote_qty: Balance) -> Balance {
    if taker.otype == OrderType::Buy {
        base_qty
    } else {
        quote_qty
    }
}

/// What the taker gets in a trade.
pub open spec fn have_of(taker: LimitOrder, base_qty: Balance, quote_qty: Balance) -> Balance {
    if taker.otype == OrderType::Buy {
        quote_qty
    } else {
        base_qty
    }
}

/// The two orders after a trade, and the dust of each.
pub struct Settlement {
    pub maker: LimitOrder,
    pub taker: LimitOrder,
    pub maker_dust: Balance,
    pub taker_dust: Balance,
}

/// The outcome of a trade of `base_qty` against `quote_qty` for the two
/// orders. The trade is refused where either order would sell more than it
/// has left to sell or buy more than it has left to buy.
pub open spec fn settlement(
    maker: LimitOrder,
    taker: LimitOrder,
    base_qty: Balance,
    quote_qty: Balance,
) -> Result<Settlement, Error> {
    let give = give_of(taker, base_qty, quote_qty);
    let have = have_of(taker, base_qty, quote_qty);
    if give > taker.remained_sell_amount || have > maker.remained_sell_amount || have
        > taker.remained_buy_amount || give > maker.remained_buy_amount {
        Err(Error::Overflow)
    } else {
        Ok(
            Settlement {
                maker: after_fill(maker, have, give),
                taker: after_fill(taker, give, have),
                maker_dust: dust_of(maker, have, give),
                taker_dust: dust_of(taker, give, have),
            },
        )
    }
}

/// An order after a trade, and its dust.
fn fill(order: &LimitOrder, sold: Balance, bought: Balance) -> (r: (LimitOrder, Balance))
    requires
        sold <= order.remained_sell_amount,
        bought <= order.remained_buy_amount,
    ensures
        r.0 == after_fill(*order, sold, bought),
        r.1 == dust_of(*order, sold, bought),
{
    let mut o = *order;
    if o.status == OrderStatus::Created {
        o.status = OrderStatus::PartialFilled;
    }
    o.remained_sell_amount = o.remained_sell_amount - sold;
    o.remained_buy_amount = o.remained_buy_amount - bought;
    let mut dust: Balance = 0;
    if o.remained_buy_amount == 0 {
        o.status = OrderStatus::Filled;
        if o.remained_sell_amount != 0 {
            dust = o.remained_sell_amount;
            o.remained_sell_amount = 0;
        }
    }
    (o, dust)
}

impl Module {
    /// The two orders after a trade of `base_qty` against `quote_qty`, and
    /// the dust of each.
    pub fn settle(
        maker_order: &LimitOrder,
        taker_order: &LimitOrder,
        base_qty: Balance,
        quote_qty: Balance,
    ) -> (r: Result<Settlement, Error>)
        ensures
            r == settlement(*maker_order, *taker_order, base_qty, quote_qty),
    {
        let give_qty: Balance;
        let have_qty: Balance;
        match taker_order.otype {
            OrderType::Buy => {
                give_qty = base_qty;
                have_qty = quote_qty;
            },
            OrderType::Sell => {
                give_qty = quote_qty;
                have_qty = base_qty;
            },
        }
        if give_qty > taker_order.remained_sell_amount || have_qty > maker_order.remained_sell_amount
            || have_qty > taker_order.remained_buy_amount || give_qty
            > maker_order.remained_buy_amount {
            return Err(Error::Overflow);
        }
        let (taker, taker_dust) = fill(taker_order, give_qty, have_qty);
        let (maker, maker_dust) = fill(maker_order, have_qty, give_qty);
        Ok(Settlement { maker, taker, maker_dust, taker_dust })
    }
}

/// A trade of the amounts that a maker and a taker are to exchange leaves at
/// least one of the two with nothing more to buy.
pub proof fn lemma_trade_fills_one(
    maker: LimitOrder,
    taker: LimitOrder,
    base_qty: Balance,
    quote_qty: Balance,
    s: Settlement,
)
    requires
        ex_amount(maker, taker) == Ok::<(Balance, Balance), Error>((base_qty, quote_qty)),
        settlement(maker, taker, base_qty, quote_qty) == Ok::<Settlement, Error>(s),
    ensures
        (s.taker.status == OrderStatus::Filled && s.taker.remained_buy_amount == 0) || (
        s.maker.status == OrderStatus::Filled && s.maker.remained_buy_amount == 0),
{
}

/// In a trade, what the two orders had left to sell before it is what they
/// have left to sell after it, the base and quote amounts that changed hands,
/// and the dust that went back to the owners of orders that the trade filled.
pub proof fn law_trade_conserves(
    maker: LimitOrder,
    taker: LimitOrder,
    base_qty: Balance,
    quote_qty: Balance,
    s: Settlement,
)
    requires
        settlement(maker, taker, base_qty, quote_qty) == Ok::<Settlement, Error>(s),
    ensures
        maker.remained_sell_amount + taker.remained_sell_amount == s.maker.remained_sell_amount
            + s.taker.remained_sell_amount + base_qty + quote_qty + s.maker_dust + s.taker_dust,
        s.maker_dust == 0 && s.taker_dust == 0 ==> maker.remained_sell_amount
            + taker.remained_sell_amount == s.maker.remained_sell_amount
            + s.taker.remained_sell_amount + base_qty + quote_qty,
{
}

/// A trade changes nothing of an order but its status and what it has left
/// to sell and to buy, and neither of the two grows. What an order has left
/// to sell shrinks by what it hands over and by its dust.
pub proof fn law_trade_touches_remains_only(
    maker: LimitOrder,
    taker: LimitOrder,
    base_qty: Balance,
    quote_qty: Balance,
    s: Settlement,
)
    requires
        settlement(maker, taker, base_qty, quote_qty) == Ok::<Settlement, Error>(s),
    ensures
        s.maker == (LimitOrder {
            status: s.maker.status,
            remained_sell_amount: s.maker.remained_sell_amount,
            remained_buy_amount: s.maker.remained_buy_amount,
            ..maker
        }),
        s.taker == (LimitOrder {
            status: s.taker.status,
            remained_sell_amount: s.taker.remained_sell_amount,
            remained_buy_amount: s.taker.remained_buy_amount,
            ..taker
        }),
        s.maker.remained_sell_amount <= maker.remained_sell_amount,
        s.maker.remained_buy_amount <= maker.remained_buy_amount,
        s.taker.remained_sell_amount <= taker.remained_sell_amount,
        s.taker.remained_buy_amount <= taker.remained_buy_amount,
        taker.remained_sell_amount - s.taker.remained_sell_amount == give_of(
            taker,
            base_qty,
            quote_qty,
        ) + s.taker_dust,
        maker.remained_sell_amount - s.maker.remained_sell_amount == have_of(
            taker,
            base_qty,
            quote_qty,
        ) + s.maker_dust,
{
}

} // verus!
