use trade::engine::Module;
use trade::settle::Settlement;
use trade::types::{Error, LimitOrder, OrderStatus, OrderType, H256, PRICE_FACTOR};

fn h(n: u128) -> H256 {
    H256 { hi: 0, lo: n }
}

fn order(otype: OrderType, price: u64, sell: u128, buy: u128) -> LimitOrder {
    LimitOrder::new(h(1), h(100), h(200), 7, price, sell, buy, otype)
}

fn left(otype: OrderType, price: u64, sell_left: u128, buy_left: u128) -> LimitOrder {
    let mut o = order(otype, price, sell_left, buy_left);
    o.status = OrderStatus::PartialFilled;
    o
}

#[test]
fn price_factor_is_ten_to_the_eighth() {
    assert_eq!(PRICE_FACTOR, 100_000_000);
}

#[test]
fn bounds_accept_positive_price_and_amount() {
    assert_eq!(Module::ensure_bonds(1, 1), Ok(()));
    assert_eq!(Module::ensure_bonds(u64::MAX, u128::MAX), Ok(()));
}

#[test]
fn bounds_refuse_zero() {
    assert_eq!(Module::ensure_bonds(0, 1), Err(Error::InvalidArgument));
    assert_eq!(Module::ensure_bonds(1, 0), Err(Error::InvalidArgument));
}

#[test]
fn buy_counterparty_is_amount_times_factor_over_price() {
    // 10 base at a price of 2.0 buy 5 quote
    assert_eq!(
        Module::ensure_counterparty_amount_bonds(OrderType::Buy, 200_000_000, 10),
        Ok(5)
    );
    // 3600 base at a price of 18.0 buy 200 quote
    assert_eq!(
        Module::ensure_counterparty_amount_bonds(OrderType::Buy, 1_800_000_000, 3600),
        Ok(200)
    );
}

#[test]
fn sell_counterparty_is_amount_times_price_over_factor() {
    assert_eq!(
        Module::ensure_counterparty_amount_bonds(OrderType::Sell, 200_000_000, 5),
        Ok(10)
    );
    assert_eq!(
        Module::ensure_counterparty_amount_bonds(OrderType::Sell, 1_800_000_000, 200),
        Ok(3600)
    );
    // a price below one
    assert_eq!(
        Module::ensure_counterparty_amount_bonds(OrderType::Sell, 18, 100_000_000),
        Ok(18)
    );
}

#[test]
fn counterparty_round_trip() {
    let p = 250_000_000;
    let x = 1000;
    let c = Module::ensure_counterparty_amount_bonds(OrderType::Buy, p, x).unwrap();
    assert_eq!(c, 400);
    assert_eq!(Module::ensure_counterparty_amount_bonds(OrderType::Sell, p, c), Ok(x));
    let c = Module::ensure_counterparty_amount_bonds(OrderType::Sell, p, x).unwrap();
    assert_eq!(c, 2500);
    assert_eq!(Module::ensure_counterparty_amount_bonds(OrderType::Buy, p, c), Ok(x));
}

#[test]
fn round_trip_can_overflow_on_the_way_back() {
    // 2^64 base at a price of 2.0 buy 2^63 quote, which fits 64 bits; the way
    // back gives 2^64, which does not
    let x: u128 = 1 << 64;
    let c = Module::ensure_counterparty_amount_bonds(OrderType::Buy, 200_000_000, x).unwrap();
    assert_eq!(c, 1 << 63);
    assert_eq!(
        Module::ensure_counterparty_amount_bonds(OrderType::Sell, 200_000_000, c),
        Err(Error::Overflow)
    );
}

#[test]
fn remainder_is_precision_loss() {
    assert_eq!(
        Module::ensure_counterparty_amount_bonds(OrderType::Buy, 300_000_000, 10),
        Err(Error::PrecisionLoss)
    );
    assert_eq!(
        Module::ensure_counterparty_amount_bonds(OrderType::Sell, 150_000_000, 3),
        Err(Error::PrecisionLoss)
    );
}

#[test]
fn sell_of_one_at_price_three_is_precision_loss() {
    assert_eq!(
        Module::ensure_counterparty_amount_bonds(OrderType::Sell, 3, 1),
        Err(Error::PrecisionLoss)
    );
}

#[test]
fn small_amounts_at_small_prices_are_precision_loss() {
    assert_eq!(
        Module::ensure_counterparty_amount_bonds(OrderType::Sell, 18, 200),
        Err(Error::PrecisionLoss)
    );
    assert_eq!(
        Module::ensure_counterparty_amount_bonds(OrderType::Sell, 10, 11),
        Err(Error::PrecisionLoss)
    );
}

#[test]
fn zero_price_is_invalid() {
    assert_eq!(
        Module::ensure_counterparty_amount_bonds(OrderType::Buy, 0, 10),
        Err(Error::InvalidArgument)
    );
    assert_eq!(
        Module::ensure_counterparty_amount_bonds(OrderType::Sell, 0, 10),
        Err(Error::InvalidArgument)
    );
}

#[test]
fn zero_counterparty_is_invalid() {
    assert_eq!(
        Module::ensure_counterparty_amount_bonds(OrderType::Buy, 100_000_000, 0),
        Err(Error::InvalidArgument)
    );
}

#[test]
fn counterparty_beyond_64_bits_is_overflow() {
    let x: u128 = 1 << 64;
    assert_eq!(
        Module::ensure_counterparty_amount_bonds(OrderType::Sell, 100_000_000, x),
        Err(Error::Overflow)
    );
    assert_eq!(
        Module::ensure_counterparty_amount_bonds(OrderType::Buy, 100_000_000, x),
        Err(Error::Overflow)
    );
    assert_eq!(
        Module::ensure_counterparty_amount_bonds(OrderType::Sell, 100_000_000, x - 1),
        Ok(x - 1)
    );
}

#[test]
fn counterparty_beyond_128_bits_is_overflow() {
    // 2^127 * 10^8 * 2^27 / 10^8 = 2^154
    let x: u128 = 1 << 127;
    let p: u64 = 100_000_000 << 27;
    assert_eq!(
        Module::ensure_counterparty_amount_bonds(OrderType::Sell, p, x),
        Err(Error::Overflow)
    );
}

#[test]
fn products_are_taken_in_256_bits() {
    // the product has 192 bits; the quotient is exact
    let x: u128 = u128::MAX - (u128::MAX % 100_000_000);
    let p: u64 = u64::MAX;
    // x * p / 10^8 needs more than 128 bits
    assert_eq!(
        Module::ensure_counterparty_amount_bonds(OrderType::Sell, p, x),
        Err(Error::Overflow)
    );
    // (2^128 - 1) * 10^8 / (2^64 - 1) is (2^64 + 1) * 10^8, without remainder
    assert_eq!(
        Module::ensure_counterparty_amount_bonds(OrderType::Buy, u64::MAX, u128::MAX),
        Err(Error::Overflow)
    );
    // one less gives a remainder, not a wrong result
    assert_eq!(
        Module::ensure_counterparty_amount_bonds(OrderType::Buy, u64::MAX, u128::MAX - 1),
        Err(Error::PrecisionLoss)
    );
}

#[test]
fn exchange_when_buyer_covers_seller() {
    // the seller still wants 110 base, the buyer has 550 left to sell
    let maker = left(OrderType::Sell, 1_000_000_000, 11, 110);
    let taker = left(OrderType::Buy, 1_100_000_000, 550, 50);
    assert_eq!(Module::calculate_ex_amount(&maker, &taker), Ok((110, 11)));
}

#[test]
fn exchange_rounds_the_quote_leg_up() {
    // 100 base at a price of 3.0 are 33.3.. quote
    let maker = left(OrderType::Sell, 300_000_000, 40, 100);
    let taker = left(OrderType::Buy, 300_000_000, 1000, 300);
    assert_eq!(Module::calculate_ex_amount(&maker, &taker), Ok((100, 34)));
    // 99 base are 33 quote
    let maker = left(OrderType::Sell, 300_000_000, 40, 99);
    assert_eq!(Module::calculate_ex_amount(&maker, &taker), Ok((99, 33)));
}

#[test]
fn exchange_when_seller_covers_buyer() {
    // the buyer still wants 29 quote, the seller has 10000 left to sell
    let maker = left(OrderType::Sell, 1_100_000_000, 10000, 110000);
    let taker = left(OrderType::Buy, 1_100_000_000, 330, 29);
    assert_eq!(Module::calculate_ex_amount(&maker, &taker), Ok((319, 29)));
}

#[test]
fn exchange_rounds_the_base_leg_up() {
    // 7 quote at a price of 1.5 are 10.5 base
    let maker = left(OrderType::Sell, 150_000_000, 100, 150);
    let taker = left(OrderType::Buy, 150_000_000, 20, 7);
    assert_eq!(Module::calculate_ex_amount(&maker, &taker), Ok((11, 7)));
}

#[test]
fn exchange_uses_the_makers_price() {
    let maker = left(OrderType::Sell, 200_000_000, 100, 200);
    let taker = left(OrderType::Buy, 400_000_000, 200, 50);
    // at the maker's 2.0, not the taker's 4.0
    assert_eq!(Module::calculate_ex_amount(&maker, &taker), Ok((200, 100)));
}

#[test]
fn exchange_with_selling_taker() {
    // the maker buys: it has 300 base left to sell and wants 50 quote
    let maker = left(OrderType::Buy, 600_000_000, 300, 50);
    // the taker sells 10 quote for 60 base
    let taker = left(OrderType::Sell, 600_000_000, 10, 60);
    assert_eq!(Module::calculate_ex_amount(&maker, &taker), Ok((60, 10)));
}

#[test]
fn exchange_refuses_base_beyond_the_buyers_budget() {
    // the buyer wants 7 quote, which cost 11 base, and has 10 base left
    let maker = left(OrderType::Sell, 150_000_000, 100, 150);
    let taker = left(OrderType::Buy, 150_000_000, 10, 7);
    assert_eq!(Module::calculate_ex_amount(&maker, &taker), Err(Error::Overflow));
}

#[test]
fn exchange_refuses_quote_beyond_a_balance() {
    let maker = left(OrderType::Sell, 1, 1, u128::MAX);
    let taker = left(OrderType::Buy, 1, u128::MAX, 1);
    assert_eq!(Module::calculate_ex_amount(&maker, &taker), Err(Error::Overflow));
}

#[test]
fn exchange_refuses_when_neither_side_fits() {
    let maker = left(OrderType::Sell, 100_000_000, 5, 100);
    let taker = left(OrderType::Buy, 100_000_000, 50, 100);
    assert_eq!(
        Module::calculate_ex_amount(&maker, &taker),
        Err(Error::InvalidArgument)
    );
}

#[test]
fn exchange_refuses_a_maker_without_price() {
    let maker = left(OrderType::Sell, 0, 5, 5);
    let taker = left(OrderType::Buy, 100_000_000, 50, 100);
    assert_eq!(
        Module::calculate_ex_amount(&maker, &taker),
        Err(Error::InvalidArgument)
    );
}

#[test]
fn settle_fills_both_on_an_exact_match() {
    let maker = order(OrderType::Sell, 1_800_000_000, 200, 3600);
    let taker = order(OrderType::Buy, 1_800_000_000, 3600, 200);
    let s: Settlement = Module::settle(&maker, &taker, 3600, 200).unwrap();
    assert_eq!(s.maker.status, OrderStatus::Filled);
    assert_eq!(s.taker.status, OrderStatus::Filled);
    assert_eq!(s.maker.remained_sell_amount, 0);
    assert_eq!(s.maker.remained_buy_amount, 0);
    assert_eq!(s.taker.remained_sell_amount, 0);
    assert_eq!(s.taker.remained_buy_amount, 0);
    assert_eq!(s.maker_dust, 0);
    assert_eq!(s.taker_dust, 0);
}

#[test]
fn settle_leaves_the_larger_order_partially_filled() {
    let maker = order(OrderType::Sell, 1_100_000_000, 10000, 110000);
    let taker = left(OrderType::Buy, 1_100_000_000, 330, 29);
    let s = Module::settle(&maker, &taker, 319, 29).unwrap();
    assert_eq!(s.maker.status, OrderStatus::PartialFilled);
    assert_eq!(s.maker.remained_sell_amount, 9971);
    assert_eq!(s.maker.remained_buy_amount, 109681);
    assert_eq!(s.maker_dust, 0);
    assert_eq!(s.taker.status, OrderStatus::Filled);
    assert_eq!(s.taker.remained_sell_amount, 0);
    assert_eq!(s.taker.remained_buy_amount, 0);
    // 330 - 319 base go back to the taker
    assert_eq!(s.taker_dust, 11);
}

#[test]
fn settle_conserves_what_is_left_to_sell() {
    let maker = order(OrderType::Sell, 1_100_000_000, 10000, 110000);
    let taker = left(OrderType::Buy, 1_100_000_000, 330, 29);
    let s = Module::settle(&maker, &taker, 319, 29).unwrap();
    let before = maker.remained_sell_amount + taker.remained_sell_amount;
    let after = s.maker.remained_sell_amount + s.taker.remained_sell_amount;
    assert_eq!(before, after + 319 + 29 + s.maker_dust + s.taker_dust);
}

#[test]
fn settle_keeps_the_rest_of_an_order() {
    let maker = order(OrderType::Sell, 1_100_000_000, 10000, 110000);
    let taker = left(OrderType::Buy, 1_100_000_000, 330, 29);
    let s = Module::settle(&maker, &taker, 319, 29).unwrap();
    assert_eq!(s.maker.hash, maker.hash);
    assert_eq!(s.maker.owner, maker.owner);
    assert_eq!(s.maker.price, maker.price);
    assert_eq!(s.maker.sell_amount, 10000);
    assert_eq!(s.maker.buy_amount, 110000);
    assert_eq!(s.maker.otype, OrderType::Sell);
    assert_eq!(s.taker.otype, OrderType::Buy);
}

#[test]
fn settle_refuses_more_than_is_left() {
    let maker = order(OrderType::Sell, 1_000_000_000, 10, 100);
    let taker = order(OrderType::Buy, 1_000_000_000, 100, 10);
    // the maker has 10 quote left to sell
    assert!(matches!(
        Module::settle(&maker, &taker, 100, 11),
        Err(Error::Overflow)
    ));
    // the taker has 100 base left to sell
    assert!(matches!(
        Module::settle(&maker, &taker, 101, 10),
        Err(Error::Overflow)
    ));
}

#[test]
fn order_type_not() {
    assert_eq!(OrderType::Buy.not(), OrderType::Sell);
    assert_eq!(OrderType::Sell.not(), OrderType::Buy);
}

#[test]
fn finished_orders() {
    let mut o = order(OrderType::Sell, 1_000_000_000, 10, 100);
    assert!(!o.is_finished());
    o.status = OrderStatus::PartialFilled;
    assert!(!o.is_finished());
    o.status = OrderStatus::Canceled;
    assert!(o.is_finished());
    o.status = OrderStatus::Filled;
    assert!(!o.is_finished());
    o.remained_buy_amount = 0;
    assert!(o.is_finished());
}

#[test]
fn price_matched() {
    assert!(Module::price_matched(11, OrderType::Buy, 10));
    assert!(Module::price_matched(10, OrderType::Buy, 10));
    assert!(!Module::price_matched(9, OrderType::Buy, 10));
    assert!(Module::price_matched(9, OrderType::Sell, 10));
    assert!(Module::price_matched(10, OrderType::Sell, 10));
    assert!(!Module::price_matched(11, OrderType::Sell, 10));
}
