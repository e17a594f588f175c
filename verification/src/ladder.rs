//! The price ladder of a trade pair: a doubly-linked list of price levels,
//! sorted by price, with a first-in first-out queue of orders at each level.

use vstd::prelude::*;
use crate::ladder_lemmas::lemma_finished_run_is;
use crate::table::{Dup, Key, Table};
use crate::types::{Error, H256, LadderFault, LimitOrder, OrderType, Price, PMAX, PMIN};

verus! {

/// A price level: its own key, the keys of its neighbours, and its orders
/// from oldest to newest. The key `None` is the head, which parts the buy side
/// from the sell side.
#[derive(Clone, Debug, PartialEq, Eq)]
pub struct LinkedItem {
    pub price: Option<Price>,
    pub next: Option<Price>,
    pub prev: Option<Price>,
    pub orders: Vec<H256>,
}

/// A price level as a mathematical value.
pub struct LinkedItemView {
    pub price: Option<Price>,
    pub next: Option<Price>,
    pub prev: Option<Price>,
    pub orders: Seq<H256>,
}

impl View for LinkedItem {
    type V = LinkedItemView;

    open spec fn view(&self) -> LinkedItemView {
        LinkedItemView { price: self.price, next: self.next, prev: self.prev, orders: self.orders@ }
    }
}

impl Dup for LinkedItem {
    fn dup(&self) -> (r: Self) {
        LinkedItem { price: self.price, next: self.next, prev: self.prev, orders: self.orders.dup() }
    }
}

/// The price at place `i` of a list of keys is below the price at place `j`.
pub open spec fn rises(c: Seq<Option<Price>>, i: int, j: int) -> bool {
    c[i].unwrap() < c[j].unwrap()
}

/// The keys at places `i` and `j` of a list differ.
pub open spec fn differ(c: Seq<Option<Price>>, i: int, j: int) -> bool {
    c[i] != c[j]
}

/// The order `hash` is stored and finished.
pub open spec fn done(orders: Map<H256, LimitOrder>, hash: H256) -> bool {
    orders.contains_key(hash) && orders[hash].finished()
}

/// How many orders at the front of a queue are stored and finished, up to the
/// first one that is not.
pub open spec fn finished_run(queue: Seq<H256>, orders: Map<H256, LimitOrder>) -> nat
    decreases queue.len(),
{
    if queue.len() == 0 || !done(orders, queue[0]) {
        0
    } else {
        1 + finished_run(queue.skip(1), orders)
    }
}

/// The fault that stops the pruning of a level at the order `hash`.
pub open spec fn fault_at(orders: Map<H256, LimitOrder>, hash: H256) -> Error {
    if orders.contains_key(hash) {
        Error::LadderInvariant(LadderFault::TryRemoveUnfinished)
    } else {
        Error::LadderInvariant(LadderFault::MissingOrder)
    }
}

/// The ladder of one pair as a mathematical value: its levels by key, the
/// keys in the order of the list from the bottom sentinel to the top one, and
/// the place of the head among them. The buy side lies between the bottom and
/// the head, the sell side between the head and the top.
pub struct LadderView {
    pub levels: Map<Option<Price>, LinkedItemView>,
    pub chain: Seq<Option<Price>>,
    pub head: int,
}

impl LadderView {
    /// A ladder with no level but the three sentinels.
    pub open spec fn initial() -> LadderView {
        LadderView {
            levels: Map::empty().insert(
                None,
                LinkedItemView { price: None, prev: Some(PMIN), next: Some(PMAX), orders: Seq::empty() },
            ).insert(
                Some(PMIN),
                LinkedItemView {
                    price: Some(PMIN),
                    prev: Some(PMAX),
                    next: None,
                    orders: Seq::empty(),
                },
            ).insert(
                Some(PMAX),
                LinkedItemView {
                    price: Some(PMAX),
                    prev: None,
                    next: Some(PMIN),
                    orders: Seq::empty(),
                },
            ),
            chain: seq![Some(PMIN), None, Some(PMAX)],
            head: 1,
        }
    }

    /// The place after `i` in the list, which closes into a ring.
    pub open spec fn succ(self, i: int) -> int {
        if i + 1 == self.chain.len() {
            0
        } else {
            i + 1
        }
    }

    /// The place before `i` in the list.
    pub open spec fn pred(self, i: int) -> int {
        if i == 0 {
            self.chain.len() - 1
        } else {
            i - 1
        }
    }

    /// The list starts at the bottom sentinel, ends at the top sentinel and
    /// holds the head in between; on each side of the head the prices rise
    /// strictly; no price stands on both sides.
    pub open spec fn shape(self) -> bool {
        let c = self.chain;
        let n = c.len() as int;
        let h = self.head;
        &&& 1 <= h <= n - 2
        &&& c[0] == Some(PMIN)
        &&& c[n - 1] == Some(PMAX)
        &&& c[h] == None::<Price>
        &&& forall|i: int| 0 <= i < n && i != h ==> (#[trigger] c[i]) is Some
        &&& forall|i: int, j: int| 0 <= i < j < h ==> #[trigger] rises(c, i, j)
        &&& forall|i: int, j: int| h < i < j < n ==> #[trigger] rises(c, i, j)
        &&& forall|i: int, j: int| 0 <= i < h < j < n ==> #[trigger] differ(c, i, j)
    }

    /// The stored levels are those of the list, and each one names itself and
    /// its two neighbours in the ring.
    pub open spec fn linked(self) -> bool {
        let c = self.chain;
        let n = c.len() as int;
        &&& forall|k: Option<Price>| #[trigger] self.levels.contains_key(k) <==> c.contains(k)
        &&& forall|i: int|
            0 <= i < n ==> {
                &&& (#[trigger] self.levels[c[i]]).price == c[i]
                &&& self.levels[c[i]].next == c[self.succ(i)]
                &&& self.levels[c[i]].prev == c[self.pred(i)]
            }
    }

    /// A well-formed ladder.
    #[verifier::opaque]
    pub open spec fn wf(self) -> bool {
        self.shape() && self.linked()
    }

    /// The highest buy price, or the bottom sentinel's where nobody buys.
    pub open spec fn best_bid(self) -> Price {
        self.chain[self.head - 1].unwrap()
    }

    /// The lowest sell price, or the top sentinel's where nobody sells.
    pub open spec fn best_ask(self) -> Price {
        self.chain[self.head + 1].unwrap()
    }

    /// The book is not crossed: every buy price is below every sell price.
    pub open spec fn sorted(self) -> bool {
        self.best_bid() < self.best_ask()
    }

    /// The side on which the level `key` stands: the buy side before the
    /// head, the sell side after it.
    pub open spec fn side_of(self, key: Option<Price>) -> OrderType {
        if self.chain.index_of(key) < self.head {
            OrderType::Buy
        } else {
            OrderType::Sell
        }
    }

    /// The place next to the head on the side `otype`.
    pub open spec fn nearest(self, otype: OrderType) -> int {
        if otype == OrderType::Buy {
            self.head - 1
        } else {
            self.head + 1
        }
    }

    /// The place of the `d`-th level from the head on the side `otype`.
    pub open spec fn away(self, otype: OrderType, d: int) -> int {
        if otype == OrderType::Buy {
            self.head - d
        } else {
            self.head + d
        }
    }

    /// How far the place `p` is from the head, counted towards the side
    /// `otype`.
    pub open spec fn dist(self, otype: OrderType, p: int) -> int {
        if otype == OrderType::Buy {
            self.head - p
        } else {
            p - self.head
        }
    }

    /// How many levels the side `otype` has, its sentinel not counted.
    pub open spec fn depth(self, otype: OrderType) -> int {
        if otype == OrderType::Buy {
            self.head - 1
        } else {
            self.chain.len() - 2 - self.head
        }
    }

    /// The ladder after `hash` has joined the queue of the level `key`.
    pub open spec fn pushed(self, key: Option<Price>, hash: H256) -> LadderView {
        LadderView {
            levels: self.levels.insert(
                key,
                LinkedItemView { orders: self.levels[key].orders.push(hash), ..self.levels[key] },
            ),
            ..self
        }
    }

    /// The ladder after a new level of `price`, holding `hash` alone, has been
    /// linked in at place `p` of the list.
    pub open spec fn inserted(self, p: int, price: Price, hash: H256) -> LadderView {
        let left = self.chain[p - 1];
        let right = self.chain[p];
        LadderView {
            levels: self.levels.insert(
                left,
                LinkedItemView { next: Some(price), ..self.levels[left] },
            ).insert(right, LinkedItemView { prev: Some(price), ..self.levels[right] }).insert(
                Some(price),
                LinkedItemView { price: Some(price), prev: left, next: right, orders: seq![hash] },
            ),
            chain: self.chain.insert(p, Some(price)),
            head: if p <= self.head {
                self.head + 1
            } else {
                self.head
            },
        }
    }

    /// Place `p` is where a new level of `price` belongs on the side `otype`:
    /// after the lower prices of that side and before the higher ones.
    pub open spec fn slot(self, p: int, price: Price, otype: OrderType) -> bool {
        match otype {
            OrderType::Buy => {
                &&& 1 <= p <= self.head
                &&& self.chain[p - 1].unwrap() < price
                &&& (p < self.head ==> price < self.chain[p].unwrap())
            },
            OrderType::Sell => {
                &&& self.head < p <= self.chain.len() - 1
                &&& (self.head < p - 1 ==> self.chain[p - 1].unwrap() < price)
                &&& price < self.chain[p].unwrap()
            },
        }
    }

    /// An order of `price` on the side `otype` leaves the book uncrossed: its
    /// level exists, or its price does not reach the best price of the other
    /// side.
    pub open spec fn fits(self, price: Price, otype: OrderType) -> bool {
        self.levels.contains_key(Some(price)) || match otype {
            OrderType::Buy => price < self.best_ask(),
            OrderType::Sell => self.best_bid() < price,
        }
    }

    /// `after` is this ladder with the order `hash` appended at `price`: at
    /// the end of that level's queue where the level exists, else alone in a
    /// new level linked in on the side `otype`.
    pub open spec fn appended(self, after: LadderView, price: Price, hash: H256, otype: OrderType) -> bool {
        if self.levels.contains_key(Some(price)) {
            after == self.pushed(Some(price), hash)
        } else {
            exists|p: int| #[trigger] self.slot(p, price, otype) && after == self.inserted(p, price, hash)
        }
    }

    /// The ladder after the level `key` has lost the first `n` orders of its
    /// queue.
    pub open spec fn pruned(self, key: Option<Price>, n: int) -> LadderView {
        LadderView {
            levels: self.levels.insert(
                key,
                LinkedItemView { orders: self.levels[key].orders.skip(n), ..self.levels[key] },
            ),
            ..self
        }
    }

    /// The ladder after the level at place `i` of the list has been taken out
    /// and its two neighbours linked to each other.
    pub open spec fn unlinked(self, i: int) -> LadderView {
        let key = self.chain[i];
        let left = self.chain[i - 1];
        let right = self.chain[i + 1];
        LadderView {
            levels: self.levels.remove(key).insert(
                left,
                LinkedItemView { next: right, ..self.levels[left] },
            ).insert(right, LinkedItemView { prev: left, ..self.levels[right] }),
            chain: self.chain.remove(i),
            head: if i < self.head {
                self.head - 1
            } else {
                self.head
            },
        }
    }

    /// The ladder after the level of `price` has been pruned, and how the
    /// pruning ends. A level that is not stored is left alone. Else the
    /// finished orders at the front of its queue go. Where an order stays, the
    /// level stays with what is left and the pruning fails; where none stays,
    /// the level is taken out of the list, unless it is a sentinel.
    pub open spec fn without(self, price: Price, orders: Map<H256, LimitOrder>) -> (
        LadderView,
        Result<(), Error>,
    ) {
        let key = Some(price);
        let queue = self.levels[key].orders;
        let n = finished_run(queue, orders) as int;
        if !self.levels.contains_key(key) {
            (self, Ok(()))
        } else if n < queue.len() {
            (self.pruned(key, n), Err(fault_at(orders, queue[n])))
        } else if price == PMIN || price == PMAX {
            (self.pruned(key, n), Ok(()))
        } else {
            (self.unlinked(self.chain.index_of(key)), Ok(()))
        }
    }

    /// The ladder after the side `otype` has been pruned from the head
    /// outwards, level by level, up to the first level that keeps an order,
    /// and how the pruning ends.
    pub open spec fn sweep(self, otype: OrderType, orders: Map<H256, LimitOrder>) -> (
        LadderView,
        Result<(), Error>,
    )
        decreases self.chain.len(),
    {
        let i = self.nearest(otype);
        if 0 < i < self.chain.len() - 1 {
            let key = self.chain[i];
            let queue = self.levels[key].orders;
            let n = finished_run(queue, orders) as int;
            if n < queue.len() {
                (self.pruned(key, n), Err(fault_at(orders, queue[n])))
            } else {
                self.unlinked(i).sweep(otype, orders)
            }
        } else {
            (self, Ok(()))
        }
    }

    /// Every order of the level `key` is stored and finished.
    pub open spec fn all_done(self, key: Option<Price>, orders: Map<H256, LimitOrder>) -> bool {
        finished_run(self.levels[key].orders, orders) == self.levels[key].orders.len()
    }

    /// The ladder after the `k` levels of the side `otype` that are nearest
    /// to the head have been taken out.
    pub open spec fn cut(self, otype: OrderType, k: nat) -> LadderView
        decreases k,
    {
        if k == 0 {
            self
        } else {
            self.unlinked(self.nearest(otype)).cut(otype, (k - 1) as nat)
        }
    }

    /// The list after the `k` levels of the side `otype` that are nearest to
    /// the head have been taken out.
    pub open spec fn cut_chain(self, otype: OrderType, k: int) -> Seq<Option<Price>> {
        let c = self.chain;
        let h = self.head;
        let n = c.len() as int;
        if otype == OrderType::Buy {
            c.subrange(0, h - k) + c.subrange(h, n)
        } else {
            c.subrange(0, h + 1) + c.subrange(h + 1 + k, n)
        }
    }
}

/// The price ladder of one trade pair.
pub struct Ladder {
    levels: Table<Option<Price>, LinkedItem>,
    chain: Ghost<Seq<Option<Price>>>,
    head: Ghost<int>,
}

impl View for Ladder {
    type V = LadderView;

    closed spec fn view(&self) -> LadderView {
        LadderView { levels: self.levels@, chain: self.chain@, head: self.head@ }
    }
}

impl Dup for Ladder {
    fn dup(&self) -> (r: Self) {
        Ladder { levels: self.levels.dup(), chain: Ghost(self.chain@), head: Ghost(self.head@) }
    }
}

impl Ladder {
    /// A ladder with no level but the three sentinels.
    pub fn new() -> (r: Self)
        ensures
            r@ == LadderView::initial(),
            r@.wf(),
    {
        let mut levels: Table<Option<Price>, LinkedItem> = Table::new();
        levels.insert(
            None,
            LinkedItem { prev: Some(PMIN), next: Some(PMAX), price: None, orders: Vec::new() },
        );
        levels.insert(
            Some(PMIN),
            LinkedItem { prev: Some(PMAX), next: None, price: Some(PMIN), orders: Vec::new() },
        );
        levels.insert(
            Some(PMAX),
            LinkedItem { prev: None, next: Some(PMIN), price: Some(PMAX), orders: Vec::new() },
        );
        let ghost chain = LadderView::initial().chain;
        let r = Ladder { levels, chain: Ghost(chain), head: Ghost(1) };
        proof {
            LadderView::lemma_initial();
            assert(r@.levels =~= LadderView::initial().levels);
        }
        r
    }

    /// The level under `key`, if it is stored.
    pub fn get(&self, key: &Option<Price>) -> (r: Option<&LinkedItem>)
        ensures
            match r {
                Some(item) => self@.levels.contains_key(*key) && item@ == self@.levels[*key],
                None => !self@.levels.contains_key(*key),
            },
    {
        self.levels.get(key)
    }

    /// A copy of the level under `key`.
    pub fn read(&self, key: Option<Price>) -> (r: LinkedItem)
        requires
            self@.levels.contains_key(key),
        ensures
            r@ == self@.levels[key],
    {
        match self.levels.get(&key) {
            Some(item) => item.dup(),
            None => {
                proof {
                    assert(false);
                }
                vstd::pervasive::unreached()
            },
        }
    }

    /// Stores `item` under `key` as it is, with no regard to the list.
    pub fn write(&mut self, key: Option<Price>, item: LinkedItem)
        ensures
            final(self)@ == (LadderView { levels: old(self)@.levels.insert(key, item@), ..old(self)@ }),
    {
        self.levels.insert(key, item);
    }

    /// Appends the order `order_hash` at the price `key2`. Where that level
    /// exists the order joins the end of its queue. Else the list is walked
    /// upwards, from the bottom for a buy order and from the head for a sell
    /// order, to the first level of a higher price or to the end of that
    /// side, and a new level with this one order is linked in before it.
    pub fn append(&mut self, key2: Price, order_hash: H256, otype: OrderType)
        requires
            old(self)@.wf(),
        ensures
            final(self)@.wf(),
            old(self)@.appended(final(self)@, key2, order_hash, otype),
            old(self)@.sorted() && old(self)@.fits(key2, otype) ==> final(self)@.sorted(),
    {
        let ghost before = self@;
        proof {
            reveal(LadderView::wf);
        }
        let key = Some(key2);
        let found = match self.levels.get(&key) {
            Some(item) => Some(item.dup()),
            None => None,
        };
        match found {
            Some(mut item) => {
                item.orders.push(order_hash);
                self.levels.insert(key, item);
                proof {
                    before.lemma_pushed(key, order_hash);
                    assert(self@.levels =~= before.pushed(key, order_hash).levels);
                }
            },
            None => {
                let start_item;
                let end_item;
                match otype {
                    OrderType::Buy => {
                        start_item = Some(PMIN);
                        end_item = None;
                    },
                    OrderType::Sell => {
                        start_item = None;
                        end_item = Some(PMAX);
                    },
                }
                let ghost c = before.chain;
                let ghost n = c.len() as int;
                let ghost h = before.head;
                let ghost lo = if otype == OrderType::Buy { 0 } else { h };
                let ghost hi = if otype == OrderType::Buy { h } else { n - 1 };
                let ghost mut idx = lo;
                proof {
                    before.lemma_distinct();
                    assert(c.contains(c[lo]));
                    assert(c.contains(c[0]));
                    assert(c.contains(c[n - 1]));
                }
                let mut item = self.read(start_item);
                while !item.next.same(&end_item)
                    invariant
                        self@ == before,
                        before.wf(),
                        c == before.chain,
                        n == c.len(),
                        h == before.head,
                        c.no_duplicates(),
                        !before.levels.contains_key(Some(key2)),
                        lo == (if otype == OrderType::Buy { 0 } else { h }),
                        hi == (if otype == OrderType::Buy { h } else { n - 1 }),
                        end_item == c[hi],
                        lo <= idx < hi,
                        hi <= n - 1,
                        0 <= lo,
                        item@ == before.levels[c[idx]],
                        item.next == c[idx + 1],
                        forall|j: int| lo <= j <= idx && j != h ==> (#[trigger] c[j]).unwrap() < key2,
                    ensures
                        lo <= idx < hi,
                        item@ == before.levels[c[idx]],
                        forall|j: int| lo <= j <= idx && j != h ==> (#[trigger] c[j]).unwrap() < key2,
                        idx + 1 < hi ==> key2 < c[idx + 1].unwrap(),
                    decreases hi - idx,
                {
                    proof {
                        reveal(LadderView::wf);
                        assert(item.next == c[before.succ(idx)]);
                        assert(c.contains(c[idx + 1]));
                    }
                    match item.next {
                        None => {},
                        Some(price) => {
                            if key2 < price {
                                break ;
                            }
                        },
                    }
                    item = self.read(item.next);
                    proof {
                        idx = idx + 1;
                        assert(item.next == c[before.succ(idx)]);
                    }
                }
                proof {
                    reveal(LadderView::wf);
                    assert(item.next == c[before.succ(idx)]);
                    assert(c.contains(c[idx]));
                    assert(c.contains(c[idx + 1]));
                    if otype == OrderType::Sell {
                        assert(c[idx + 1] is Some);
                        if idx + 1 == hi {
                            assert(c[hi] == Some(PMAX));
                            assert(key2 != PMAX);
                        }
                    }
                    assert(before.slot(idx + 1, key2, otype));
                }
                // link the level that comes before
                let next_key = item.next;
                let new_prev = LinkedItem { next: Some(key2), ..item };
                let new_prev_key = new_prev.price;
                self.levels.insert(new_prev_key, new_prev);
                // link the level that comes after
                let next = self.read(next_key);
                let new_next = LinkedItem { prev: Some(key2), ..next };
                let new_next_key = new_next.price;
                self.levels.insert(new_next_key, new_next);
                // store the new level
                let mut v = Vec::new();
                v.push(order_hash);
                let item = LinkedItem { prev: new_prev_key, next: new_next_key, price: Some(key2), orders: v };
                self.levels.insert(Some(key2), item);
                proof {
                    let after = before.inserted(idx + 1, key2, order_hash);
                    self.chain@ = after.chain;
                    self.head@ = after.head;
                    before.lemma_inserted(idx + 1, key2, order_hash, otype);
                    if before.sorted() && before.fits(key2, otype) {
                        before.lemma_inserted_sorted(idx + 1, key2, order_hash, otype);
                    }
                    assert(before.levels[c[idx]].price == c[idx]);
                    assert(before.levels[c[idx + 1]].price == c[idx + 1]);
                    assert(c[idx] != c[idx + 1]);
                    assert(v@ =~= seq![order_hash]);
                    assert(self@.levels =~= after.levels);
                    assert(self@ == after);
                }
            },
        }
    }

    /// Prunes the level of the price `key2`: its finished orders leave the
    /// front of the queue, oldest first, and when none is left the level is
    /// taken out of the list and its neighbours are linked to each other. An
    /// order that is not finished, or not stored, stops the pruning with an
    /// error and stays at the front with those behind it. A sentinel is
    /// never taken out.
    pub fn remove_item(&mut self, key2: Price, orders: &Table<H256, LimitOrder>) -> (r: Result<
        (),
        Error,
    >)
        requires
            old(self)@.wf(),
        ensures
            final(self)@.wf(),
            (final(self)@, r) == old(self)@.without(key2, orders@),
            old(self)@.sorted() ==> final(self)@.sorted(),
    {
        let ghost before = self@;
        proof {
            reveal(LadderView::wf);
        }
        let key = Some(key2);
        let found = match self.levels.get(&key) {
            Some(item) => Some(item.dup()),
            None => None,
        };
        match found {
            None => Ok(()),
            Some(mut item) => {
                let ghost queue = item.orders@;
                let ghost mut n: int = 0;
                let mut fault: Option<Error> = None;
                while item.orders.len() > 0
                    invariant_except_break
                        fault is None,
                    invariant
                        0 <= n <= queue.len(),
                        item.orders@ == queue.skip(n),
                        item.price == before.levels[key].price,
                        item.next == before.levels[key].next,
                        item.prev == before.levels[key].prev,
                        forall|i: int| 0 <= i < n ==> done(orders@, #[trigger] queue[i]),
                    ensures
                        match fault {
                            None => n == queue.len(),
                            Some(e) => n < queue.len() && !done(orders@, queue[n]) && e == fault_at(
                                orders@,
                                queue[n],
                            ),
                        },
                    decreases queue.len() - n,
                {
                    let order_hash = item.orders[0];
                    assert(order_hash == queue[n]);
                    match orders.get(&order_hash) {
                        None => {
                            fault = Some(Error::LadderInvariant(LadderFault::MissingOrder));
                            break ;
                        },
                        Some(order) => {
                            if !order.is_finished() {
                                fault = Some(Error::LadderInvariant(LadderFault::TryRemoveUnfinished));
                                break ;
                            }
                        },
                    }
                    item.orders.remove(0);
                    proof {
                        assert(queue.skip(n).remove(0) =~= queue.skip(n + 1));
                        n = n + 1;
                    }
                }
                proof {
                    lemma_finished_run_is(queue, orders@, n);
                    before.lemma_pruned(key, n);
                }
                match fault {
                    Some(e) => {
                        self.levels.insert(key, item);
                        proof {
                            assert(self@.levels =~= before.pruned(key, n).levels);
                        }
                        Err(e)
                    },
                    None => {
                        if key2 == PMIN || key2 == PMAX {
                            self.levels.insert(key, item);
                            proof {
                                assert(self@.levels =~= before.pruned(key, n).levels);
                            }
                            Ok(())
                        } else {
                            let ghost c = before.chain;
                            let ghost i = c.index_of(key);
                            proof {
                                before.lemma_distinct();
                                assert(c.contains(key));
                                assert(c[i] == key);
                                assert(before.levels[c[i]].next == c[before.succ(i)]);
                                assert(before.levels[c[i]].prev == c[before.pred(i)]);
                                assert(c.contains(c[i - 1]));
                                assert(c.contains(c[i + 1]));
                                assert(c[i - 1] != c[i + 1]);
                                before.lemma_unlinked(i);
                            }
                            let prev_key = item.prev;
                            let next_key = item.next;
                            self.levels.remove(&key);
                            let prev = match self.levels.get(&prev_key) {
                                Some(x) => Some(x.dup()),
                                None => None,
                            };
                            match prev {
                                Some(x) => {
                                    let linked = LinkedItem { next: next_key, ..x };
                                    self.levels.insert(prev_key, linked);
                                },
                                None => {},
                            }
                            let next = match self.levels.get(&next_key) {
                                Some(x) => Some(x.dup()),
                                None => None,
                            };
                            match next {
                                Some(x) => {
                                    let linked = LinkedItem { prev: prev_key, ..x };
                                    self.levels.insert(next_key, linked);
                                },
                                None => {},
                            }
                            proof {
                                let after = before.unlinked(i);
                                self.chain@ = after.chain;
                                self.head@ = after.head;
                                assert(self@.levels =~= after.levels);
                            }
                            Ok(())
                        }
                    },
                }
            },
        }
    }

    /// Prunes the side `otype` from the head outwards: the level next to the
    /// head is pruned as [`Ladder::remove_item`] does, again and again, until
    /// the sentinel of that side stands next to the head or a level keeps an
    /// order, which ends the pruning with that level's error.
    pub fn remove_items(&mut self, otype: OrderType, orders: &Table<H256, LimitOrder>) -> (r: Result<
        (),
        Error,
    >)
        requires
            old(self)@.wf(),
        ensures
            final(self)@.wf(),
            (final(self)@, r) == old(self)@.sweep(otype, orders@),
            old(self)@.sorted() ==> final(self)@.sorted(),
    {
        let ghost before = self@;
        let end_item;
        if otype == OrderType::Buy {
            end_item = Some(PMIN);
        } else {
            end_item = Some(PMAX);
        }
        proof {
            before.lemma_head();
        }
        let mut head = self.read(None);
        loop
            invariant
                before == old(self)@,
                self@.wf(),
                head@ == self@.levels[None],
                before.sweep(otype, orders@) == self@.sweep(otype, orders@),
                before.sorted() ==> self@.sorted(),
                end_item == (if otype == OrderType::Buy {
                    Some(PMIN)
                } else {
                    Some(PMAX)
                }),
            ensures
                self@.wf(),
                (self@, Ok::<(), Error>(())) == before.sweep(otype, orders@),
                before.sorted() ==> self@.sorted(),
            decreases self@.chain.len(),
        {
            let ghost now = self@;
            let key2;
            if otype == OrderType::Buy {
                key2 = head.prev;
            } else {
                key2 = head.next;
            }
            proof {
                now.lemma_head();
                now.lemma_frame();
                assert(key2 == now.chain[now.nearest(otype)]);
            }
            if key2.same(&end_item) {
                break ;
            }
            proof {
                now.lemma_sweep_step(otype, orders@);
            }
            match key2 {
                Some(price) => {
                    match self.remove_item(price, orders) {
                        Err(e) => {
                            return Err(e);
                        },
                        Ok(()) => {},
                    }
                },
                None => {},
            }
            proof {
                self@.lemma_head();
            }
            head = self.read(None);
        }
        Ok(())
    }
}

} // verus!
