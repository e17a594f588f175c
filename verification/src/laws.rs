//! What holds of the exchange whatever is done with it.

use vstd::prelude::*;
use crate::engine::{live, order_ok, ModuleView};
use crate::ladder::{finished_run, LadderView};
use crate::ladder_lemmas::lemma_finished_run;
use crate::matching::trade_of_taker;
use crate::stores::list_of;
use crate::types::{
    Balance, LimitOrder, OrderType, Price, Trade, TradePair, H256, PMAX, PMIN,
};

verus! {

/// The ladder is sorted. In a well-formed ladder of an uncrossed book the
/// list leads from the bottom sentinel to the top sentinel; each level names
/// the next one as its `next` and is named by it as its `prev`; and along the
/// list, the head left out, the prices rise strictly. So the `next` keys walk
/// up from the bottom to the top, and the `prev` keys walk down from the top
/// to the bottom.
pub proof fn law_sorted_ladder(l: LadderView)
    requires
        l.wf(),
        l.sorted(),
    ensures
        l.chain[0] == Some(PMIN),
        l.chain[l.chain.len() - 1] == Some(PMAX),
        forall|i: int|
            0 <= i < l.chain.len() - 1 ==> (#[trigger] l.levels[l.chain[i]]).next == l.chain[i + 1],
        forall|i: int|
            1 <= i < l.chain.len() ==> (#[trigger] l.levels[l.chain[i]]).prev == l.chain[i - 1],
        forall|i: int, j: int|
            0 <= i < j < l.chain.len() && i != l.head && j != l.head ==> (#[trigger] l.chain[i]).unwrap()
                < (#[trigger] l.chain[j]).unwrap(),
{
    l.lemma_frame();
    assert forall|i: int| 0 <= i < l.chain.len() - 1 implies (#[trigger] l.levels[l.chain[i]]).next
        == l.chain[i + 1] by {
        l.lemma_links(i);
    }
    assert forall|i: int| 1 <= i < l.chain.len() implies (#[trigger] l.levels[l.chain[i]]).prev
        == l.chain[i - 1] by {
        l.lemma_links(i);
    }
    assert forall|i: int, j: int|
        0 <= i < j < l.chain.len() && i != l.head && j != l.head implies (#[trigger] l.chain[i]).unwrap()
        < (#[trigger] l.chain[j]).unwrap() by {
        let h = l.head;
        if j < h || h < i {
            l.lemma_rises(i, j);
        } else {
            if i < h - 1 {
                l.lemma_rises(i, h - 1);
            }
            if h + 1 < j {
                l.lemma_rises(h + 1, j);
            }
        }
    }
}

/// Appending keeps the ladder sorted: after an order has been appended to a
/// well-formed ladder, the ladder is well-formed; and the book stays
/// uncrossed where the order's level exists already or its price does not
/// reach the best price of the other side.
pub proof fn law_append_keeps_sorted(
    l: LadderView,
    after: LadderView,
    price: Price,
    hash: H256,
    otype: OrderType,
)
    requires
        l.wf(),
        l.sorted(),
        l.fits(price, otype),
        l.appended(after, price, hash, otype),
    ensures
        after.wf(),
        after.sorted(),
{
    if l.levels.contains_key(Some(price)) {
        l.lemma_pushed(Some(price), hash);
    } else {
        let p = choose|p: int| #[trigger] l.slot(p, price, otype) && after == l.inserted(p, price, hash);
        l.lemma_inserted(p, price, hash, otype);
        l.lemma_inserted_sorted(p, price, hash, otype);
    }
}

/// Pruning keeps the ladder sorted: after a level of a well-formed ladder has
/// been pruned, or a side of it, the ladder is well-formed, and the book is
/// uncrossed if it was.
pub proof fn law_pruning_keeps_sorted(
    l: LadderView,
    price: Price,
    otype: OrderType,
    orders: Map<H256, LimitOrder>,
)
    requires
        l.wf(),
    ensures
        l.without(price, orders).0.wf(),
        l.sorted() ==> l.without(price, orders).0.sorted(),
        l.sweep(otype, orders).0.wf(),
        l.sorted() ==> l.sweep(otype, orders).0.sorted(),
{
    let key = Some(price);
    l.lemma_frame();
    if l.levels.contains_key(key) {
        let queue = l.levels[key].orders;
        let n = finished_run(queue, orders) as int;
        lemma_finished_run(queue, orders);
        if n < queue.len() || price == PMIN || price == PMAX {
            l.lemma_pruned(key, n);
        } else {
            let i = l.chain.index_of(key);
            assert(l.chain.contains(key));
            assert(l.chain[i] == key);
            l.lemma_unlinked(i);
        }
    }
    let k = l.lemma_sweep_nearest(otype, orders);
}

/// The sentinels stay: a well-formed ladder holds the bottom sentinel, the
/// head and the top sentinel, and so does what is left of it after any
/// level or side has been pruned.
pub proof fn law_sentinels_stay(
    l: LadderView,
    price: Price,
    otype: OrderType,
    orders: Map<H256, LimitOrder>,
)
    requires
        l.wf(),
    ensures
        has_sentinels(l),
        has_sentinels(l.without(price, orders).0),
        has_sentinels(l.sweep(otype, orders).0),
{
    law_pruning_keeps_sorted(l, price, otype, orders);
    l.lemma_frame();
    l.lemma_links(0);
    l.lemma_links(l.head);
    l.lemma_links(l.chain.len() - 1);
    let a = l.without(price, orders).0;
    a.lemma_frame();
    a.lemma_links(0);
    a.lemma_links(a.head);
    a.lemma_links(a.chain.len() - 1);
    let b = l.sweep(otype, orders).0;
    b.lemma_frame();
    b.lemma_links(0);
    b.lemma_links(b.head);
    b.lemma_links(b.chain.len() - 1);
}

/// The ladder holds its three sentinels, each under its own key.
pub open spec fn has_sentinels(l: LadderView) -> bool {
    &&& l.levels.contains_key(None)
    &&& l.levels.contains_key(Some(PMIN))
    &&& l.levels.contains_key(Some(PMAX))
    &&& l.levels[None].price == None::<Price>
    &&& l.levels[Some(PMIN)].price == Some(PMIN)
    &&& l.levels[Some(PMAX)].price == Some(PMAX)
}

/// A level is first in, first out. An appended order is the newest of its
/// level, behind those that were there, and no other level changes its
/// queue; pruning a level takes orders from the front of its queue only.
pub proof fn law_fifo(
    l: LadderView,
    after: LadderView,
    price: Price,
    hash: H256,
    otype: OrderType,
    orders: Map<H256, LimitOrder>,
)
    requires
        l.wf(),
        l.appended(after, price, hash, otype),
    ensures
        after.levels.contains_key(Some(price)),
        after.levels[Some(price)].orders == (if l.levels.contains_key(Some(price)) {
            l.levels[Some(price)].orders.push(hash)
        } else {
            seq![hash]
        }),
        forall|key: Option<Price>|
            l.levels.contains_key(key) && key != Some(price) ==> after.levels.contains_key(key)
                && (#[trigger] after.levels[key]).orders == l.levels[key].orders,
        l.levels.contains_key(Some(price)) ==> l.without(price, orders).0.levels.contains_key(
            Some(price),
        ) ==> l.without(price, orders).0.levels[Some(price)].orders == l.levels[Some(
            price,
        )].orders.skip(finished_run(l.levels[Some(price)].orders, orders) as int),
{
    let key = Some(price);
    l.lemma_frame();
    if !l.levels.contains_key(key) {
        let p = choose|p: int| #[trigger] l.slot(p, price, otype) && after == l.inserted(p, price, hash);
        assert(l.levels.contains_key(l.chain[p - 1]));
        assert(l.levels.contains_key(l.chain[p]));
    } else {
        let queue = l.levels[key].orders;
        let n = finished_run(queue, orders) as int;
        lemma_finished_run(queue, orders);
        if !(n < queue.len() || price == PMIN || price == PMAX) {
            let i = l.chain.index_of(key);
            assert(l.chain.contains(key));
            assert(l.chain[i] == key);
            assert(l.levels.contains_key(l.chain[i - 1]));
            assert(l.levels.contains_key(l.chain[i + 1]));
        }
    }
}

/// The book is not crossed: in an exchange that is in order, the highest buy
/// price of every pair is below its lowest sell price.
pub proof fn law_book_not_crossed(m: ModuleView, tp: H256)
    requires
        m.wf(),
    ensures
        m.ladder(tp).best_bid() < m.ladder(tp).best_ask(),
{
    LadderView::lemma_initial();
}

/// A taker never trades at a price worse than its limit: a trade of a buying
/// taker is at or below the taker's price, a trade of a selling taker at or
/// above it.
pub proof fn law_price_improvement(trade: Trade, tp: TradePair, taker: LimitOrder)
    requires
        trade_of_taker(trade, tp, taker),
    ensures
        taker.otype == OrderType::Buy ==> trade.price <= taker.price,
        taker.otype == OrderType::Sell ==> trade.price >= taker.price,
{
}

/// The nonce rises: each new pair, each new order and each new trade uses up
/// one nonce, so that no two of their hashes are derived from the same one.
pub proof fn law_nonce_rises(
    m: ModuleView,
    base: H256,
    quote: H256,
    hash: H256,
    order: LimitOrder,
    tp: H256,
    tpair: TradePair,
    maker: LimitOrder,
    taker: LimitOrder,
    base_qty: Balance,
    quote_qty: Balance,
)
    requires
        m.nonce < u64::MAX,
    ensures
        m.with_pair(base, quote, hash).nonce == m.nonce + 1,
        m.with_order(order, tp).nonce == m.nonce + 1,
        m.recorded(tp, tpair, maker, taker, base_qty, quote_qty, hash).nonce == m.nonce + 1,
{
}

/// No order is revived: an order that was filled or canceled before the
/// trades of a taker is after them as it was before, whether it stands in a
/// queue that the taker crosses or not, and no trade is added to its list.
pub proof fn law_terminal_orders_stay(
    after: ModuleView,
    before: ModuleView,
    tp: H256,
    taker: LimitOrder,
    hash: H256,
)
    requires
        after.traded(before, tp, taker),
        before.orders.contains_key(hash),
        before.orders[hash].terminal(),
    ensures
        after.orders.contains_key(hash),
        after.orders[hash] == before.orders[hash],
        list_of(after.order_owned_trades, hash) == list_of(before.order_owned_trades, hash),
{
    if after.orders[hash] != before.orders[hash] {
        assert(live(before.orders[hash]));
    }
}

/// What rests is in order: an order that stands in a queue of a ladder of an
/// exchange that is in order is stored and valid, belongs to the pair of the
/// ladder, and stands at the level of its price, on its own side of the head.
/// It is live, or it is finished and the next pruning of its level takes it
/// out.
pub proof fn law_resting_orders(m: ModuleView, tp: H256, key: Option<Price>, hash: H256)
    requires
        m.wf(),
        m.rests(tp, key, hash),
    ensures
        m.orders.contains_key(hash),
        order_ok(m.orders[hash]),
        live(m.orders[hash]) != m.orders[hash].finished(),
        m.pair_of(m.orders[hash]) == Some(tp),
        key == Some(m.orders[hash].price),
        m.ladder(tp).side_of(key) == m.orders[hash].otype,
{
    let queue = m.queue(tp, key);
    let j = choose|j: int| 0 <= j < queue.len() && queue[j] == hash;
    assert(m.resting_ok(tp, key, m.queue(tp, key)[j]));
}

} // verus!
