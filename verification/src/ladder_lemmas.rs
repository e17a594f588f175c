//! What holds of well-formed ladders, and of what appending and pruning make
//! of them.

use vstd::prelude::*;
use crate::ladder::{differ, done, fault_at, finished_run, rises, LadderView};
use crate::types::{H256, LimitOrder, OrderType, Price, PMAX, PMIN};

verus! {

/// The orders before the end of the finished run are stored and finished, and
/// the order at its end, if there is one, is not.
pub proof fn lemma_finished_run(queue: Seq<H256>, orders: Map<H256, LimitOrder>)
    ensures
        finished_run(queue, orders) <= queue.len(),
        forall|i: int| 0 <= i < finished_run(queue, orders) ==> done(orders, #[trigger] queue[i]),
        finished_run(queue, orders) < queue.len() ==> !done(
            orders,
            queue[finished_run(queue, orders) as int],
        ),
    decreases queue.len(),
{
    if queue.len() == 0 || !done(orders, queue[0]) {
    } else {
        let rest = queue.skip(1);
        lemma_finished_run(rest, orders);
        let m = finished_run(rest, orders) as int;
        assert forall|i: int| 0 <= i < m + 1 implies done(orders, #[trigger] queue[i]) by {
            if i > 0 {
                assert(queue[i] == rest[i - 1]);
            }
        }
        if m < rest.len() {
            assert(queue[m + 1] == rest[m]);
        }
    }
}

/// A run of stored and finished orders followed by one that is not, or by the
/// end of the queue, is the finished run.
pub proof fn lemma_finished_run_is(queue: Seq<H256>, orders: Map<H256, LimitOrder>, n: int)
    requires
        0 <= n <= queue.len(),
        forall|i: int| 0 <= i < n ==> done(orders, #[trigger] queue[i]),
        n < queue.len() ==> !done(orders, queue[n]),
    ensures
        finished_run(queue, orders) == n,
    decreases queue.len(),
{
    if n > 0 {
        let rest = queue.skip(1);
        assert(done(orders, queue[0]));
        assert forall|i: int| 0 <= i < n - 1 implies done(orders, #[trigger] rest[i]) by {
            assert(rest[i] == queue[i + 1]);
        }
        if n - 1 < rest.len() {
            assert(rest[n - 1] == queue[n]);
        }
        lemma_finished_run_is(rest, orders, n - 1);
    }
}

impl LadderView {
    /// The initial ladder is well-formed and not crossed.
    pub proof fn lemma_initial()
        ensures
            Self::initial().wf(),
            Self::initial().sorted(),
    {
        reveal(LadderView::wf);
        let l = Self::initial();
        let c = l.chain;
        assert(c.len() == 3);
        assert(c[0] == Some(PMIN) && c[1] == None::<Price> && c[2] == Some(PMAX));
        assert forall|k: Option<Price>| #[trigger] l.levels.contains_key(k) <==> c.contains(k) by {
            if l.levels.contains_key(k) {
                if k == Some(PMIN) {
                    assert(c[0] == k);
                } else if k == None::<Price> {
                    assert(c[1] == k);
                } else {
                    assert(c[2] == k);
                }
            }
        }
    }

    /// The keys of a well-formed ladder are all different.
    pub proof fn lemma_distinct(self)
        requires
            self.shape(),
        ensures
            self.chain.no_duplicates(),
    {
        let c = self.chain;
        assert forall|i: int, j: int| 0 <= i < c.len() && 0 <= j < c.len() && i != j implies c[i] != c[j] by {
            let a = if i < j { i } else { j };
            let b = if i < j { j } else { i };
            if b < self.head {
                assert(rises(c, a, b));
            } else if a > self.head {
                assert(rises(c, a, b));
            } else if a == self.head {
                assert(c[b] is Some);
            } else if b == self.head {
                assert(c[a] is Some);
            } else {
                assert(differ(c, a, b));
            }
        }
    }

    /// The plain facts of a well-formed ladder: where the sentinels and the
    /// head stand, that the keys are all different, and that the stored
    /// levels are those of the list.
    pub proof fn lemma_frame(self)
        requires
            self.wf(),
        ensures
            1 <= self.head <= self.chain.len() - 2,
            self.chain[0] == Some(PMIN),
            self.chain[self.chain.len() - 1] == Some(PMAX),
            self.chain[self.head] == None::<Price>,
            self.chain.no_duplicates(),
            forall|i: int|
                0 <= i < self.chain.len() ==> self.levels.contains_key(#[trigger] self.chain[i]),
            forall|i: int|
                0 <= i < self.chain.len() && i != self.head ==> (#[trigger] self.chain[i]) is Some,
            forall|k: Option<Price>| #[trigger]
                self.levels.contains_key(k) ==> self.chain.contains(k),
    {
        reveal(LadderView::wf);
        self.lemma_distinct();
        assert forall|i: int| 0 <= i < self.chain.len() implies self.levels.contains_key(
            #[trigger] self.chain[i],
        ) by {
            assert(self.chain.contains(self.chain[i]));
        }
    }

    /// The level at each place of the list names itself and its neighbours
    /// in the ring.
    pub proof fn lemma_links(self, i: int)
        requires
            self.wf(),
            0 <= i < self.chain.len(),
        ensures
            self.levels.contains_key(self.chain[i]),
            self.levels[self.chain[i]].price == self.chain[i],
            self.levels[self.chain[i]].next == self.chain[self.succ(i)],
            self.levels[self.chain[i]].prev == self.chain[self.pred(i)],
    {
        reveal(LadderView::wf);
        assert(self.chain.contains(self.chain[i]));
    }

    /// The key at each place of the list is found at that place.
    pub proof fn lemma_place(self, i: int)
        requires
            self.wf(),
            0 <= i < self.chain.len(),
        ensures
            self.chain.index_of(self.chain[i]) == i,
            self.side_of(self.chain[i]) == (if i < self.head {
                OrderType::Buy
            } else {
                OrderType::Sell
            }),
    {
        self.lemma_frame();
        let j = self.chain.index_of(self.chain[i]);
        assert(self.chain.contains(self.chain[i]));
        assert(self.chain[j] == self.chain[i]);
    }

    /// On either side of the head the prices rise along the list.
    pub proof fn lemma_rises(self, i: int, j: int)
        requires
            self.wf(),
            0 <= i < j < self.chain.len(),
            j < self.head || self.head < i,
        ensures
            rises(self.chain, i, j),
    {
        reveal(LadderView::wf);
    }

    /// The head is stored, and names the nearest level of each side; that
    /// level is a sentinel exactly when the side is empty.
    pub proof fn lemma_head(self)
        requires
            self.wf(),
        ensures
            self.levels.contains_key(None),
            self.levels[None].prev == self.chain[self.head - 1],
            self.levels[None].next == self.chain[self.head + 1],
            self.chain[self.head - 1] is Some,
            self.chain[self.head + 1] is Some,
            self.chain[self.head - 1] == Some(PMIN) <==> self.head - 1 == 0,
            self.chain[self.head + 1] == Some(PMAX) <==> self.head + 1 == self.chain.len() - 1,
            self.chain[self.head - 1] != Some(PMAX),
            self.chain[self.head + 1] != Some(PMIN),
    {
        reveal(LadderView::wf);
        let c = self.chain;
        let h = self.head;
        self.lemma_distinct();
        assert(c.contains(c[h]));
        assert(self.levels[c[h]].prev == c[self.pred(h)]);
        assert(self.levels[c[h]].next == c[self.succ(h)]);
        assert(c[h - 1] is Some);
        assert(c[h + 1] is Some);
    }

    /// A level whose price is below the best sell price stands on the buy
    /// side, and one whose price is above the best buy price on the sell
    /// side.
    pub proof fn lemma_side_by_price(self, price: Price)
        requires
            self.wf(),
            self.levels.contains_key(Some(price)),
        ensures
            price < self.best_ask() ==> self.side_of(Some(price)) == OrderType::Buy,
            self.best_bid() < price ==> self.side_of(Some(price)) == OrderType::Sell,
    {
        self.lemma_frame();
        let c = self.chain;
        let h = self.head;
        let i = c.index_of(Some(price));
        assert(c.contains(Some(price)));
        assert(c[i] == Some(price));
        if i > h + 1 {
            self.lemma_rises(h + 1, i);
        }
        if i < h - 1 {
            self.lemma_rises(i, h - 1);
        }
    }

    /// What stands at each place of a list after an insertion.
    pub proof fn lemma_insert_places(c: Seq<Option<Price>>, p: int, x: Option<Price>)
        requires
            0 <= p <= c.len(),
        ensures
            c.insert(p, x).len() == c.len() + 1,
            c.insert(p, x)[p] == x,
            forall|i: int| 0 <= i < p ==> #[trigger] c.insert(p, x)[i] == c[i],
            forall|i: int| p < i <= c.len() ==> #[trigger] c.insert(p, x)[i] == c[i - 1],
    {
    }

    /// Appending to the queue of a stored level keeps the ladder well-formed.
    pub proof fn lemma_pushed(self, key: Option<Price>, hash: H256)
        requires
            self.wf(),
            self.levels.contains_key(key),
        ensures
            self.pushed(key, hash).wf(),
            self.pushed(key, hash).sorted() == self.sorted(),
    {
        reveal(LadderView::wf);
        let after = self.pushed(key, hash);
        let c = self.chain;
        assert forall|i: int| 0 <= i < c.len() implies {
            &&& (#[trigger] after.levels[c[i]]).price == c[i]
            &&& after.levels[c[i]].next == c[after.succ(i)]
            &&& after.levels[c[i]].prev == c[after.pred(i)]
        } by {
            assert(self.levels[c[i]].price == c[i]);
            assert(after.succ(i) == self.succ(i));
            assert(after.pred(i) == self.pred(i));
        }
    }

    proof fn lemma_inserted_shape(self, p: int, price: Price, hash: H256, otype: OrderType)
        requires
            self.wf(),
            !self.levels.contains_key(Some(price)),
            self.slot(p, price, otype),
        ensures
            self.inserted(p, price, hash).shape(),
    {
        reveal(LadderView::wf);
        let after = self.inserted(p, price, hash);
        let c = self.chain;
        let n = c.len() as int;
        let h = self.head;
        let d = after.chain;
        let g = after.head;
        let x = Some(price);
        Self::lemma_insert_places(c, p, x);
        assert forall|i: int| 0 <= i < n implies #[trigger] c[i] != x by {
            assert(c.contains(c[i]));
        }
        assert forall|i: int| 0 <= i < n + 1 && i != g implies (#[trigger] d[i]) is Some by {
            if i < p {
                assert(d[i] == c[i]);
            } else if i > p {
                assert(d[i] == c[i - 1]);
            }
        }
        assert forall|i: int, j: int| 0 <= i < j < g implies #[trigger] rises(d, i, j) by {
            let a = if i < p { i } else { i - 1 };
            let b = if j < p { j } else { j - 1 };
            if p <= h {
                if i == p {
                    assert(d[j] == c[b]);
                    if b > p {
                        assert(rises(c, p, b));
                    }
                } else if j == p {
                    assert(d[i] == c[a]);
                    if a < p - 1 {
                        assert(rises(c, a, p - 1));
                    }
                } else {
                    assert(d[i] == c[a] && d[j] == c[b]);
                    assert(rises(c, a, b));
                }
            } else {
                assert(d[i] == c[i] && d[j] == c[j]);
                assert(rises(c, i, j));
            }
        }
        assert forall|i: int, j: int| g < i < j < n + 1 implies #[trigger] rises(d, i, j) by {
            let a = if i < p { i } else { i - 1 };
            let b = if j < p { j } else { j - 1 };
            if p > h {
                if i == p {
                    assert(d[j] == c[b]);
                    if b > p {
                        assert(rises(c, p, b));
                    }
                } else if j == p {
                    assert(d[i] == c[a]);
                    if a < p - 1 {
                        assert(rises(c, a, p - 1));
                    }
                } else {
                    assert(d[i] == c[a] && d[j] == c[b]);
                    assert(rises(c, a, b));
                }
            } else {
                assert(d[i] == c[i - 1] && d[j] == c[j - 1]);
                assert(rises(c, i - 1, j - 1));
            }
        }
        assert forall|i: int, j: int| 0 <= i < g < j < n + 1 implies #[trigger] differ(d, i, j) by {
            let a = if i < p { i } else { i - 1 };
            let b = if j < p { j } else { j - 1 };
            if i == p {
                assert(d[j] == c[b]);
                assert(c[b] != x);
            } else if j == p {
                assert(d[i] == c[a]);
                assert(c[a] != x);
            } else {
                assert(d[i] == c[a] && d[j] == c[b]);
                assert(differ(c, a, b));
            }
        }
    }

    proof fn lemma_inserted_linked(self, p: int, price: Price, hash: H256, otype: OrderType)
        requires
            self.wf(),
            !self.levels.contains_key(Some(price)),
            self.slot(p, price, otype),
        ensures
            self.inserted(p, price, hash).linked(),
    {
        reveal(LadderView::wf);
        let after = self.inserted(p, price, hash);
        let c = self.chain;
        let n = c.len() as int;
        let d = after.chain;
        let x = Some(price);
        self.lemma_distinct();
        Self::lemma_insert_places(c, p, x);
        assert forall|i: int| 0 <= i < n implies #[trigger] c[i] != x by {
            assert(c.contains(c[i]));
        }
        assert forall|k: Option<Price>| #[trigger] after.levels.contains_key(k) <==> d.contains(k) by {
            if after.levels.contains_key(k) {
                if k == x {
                    assert(d[p] == k);
                } else {
                    assert(self.levels.contains_key(k));
                    assert(c.contains(k));
                    let i = choose|i: int| 0 <= i < n && c[i] == k;
                    if i < p {
                        assert(d[i] == k);
                    } else {
                        assert(d[i + 1] == k);
                    }
                }
            }
            if d.contains(k) {
                let i = choose|i: int| 0 <= i < n + 1 && d[i] == k;
                if i < p {
                    assert(c[i] == k);
                    assert(c.contains(k));
                } else if i > p {
                    assert(c[i - 1] == k);
                    assert(c.contains(k));
                }
            }
        }
        assert forall|i: int| 0 <= i < n + 1 implies {
            &&& (#[trigger] after.levels[d[i]]).price == d[i]
            &&& after.levels[d[i]].next == d[after.succ(i)]
            &&& after.levels[d[i]].prev == d[after.pred(i)]
        } by {
            let a = if i < p { i } else { i - 1 };
            if i != p {
                assert(d[i] == c[a]);
                assert(self.levels[c[a]].price == c[a]);
                assert(self.levels[c[a]].next == c[self.succ(a)]);
                assert(self.levels[c[a]].prev == c[self.pred(a)]);
                assert(c[a] != x);
                if a != p - 1 {
                    assert(c[a] != c[p - 1]);
                }
                if a != p {
                    assert(c[a] != c[p]);
                }
                assert(c[p - 1] != c[p]);
                let sa = self.succ(a);
                let si = after.succ(i);
                assert(d[si] == if a == p - 1 { x } else { c[sa] });
                let pa = self.pred(a);
                let pi = after.pred(i);
                assert(d[pi] == if a == p { x } else { c[pa] });
            }
        }
    }

    /// Linking a new level in at its slot keeps the ladder well-formed.
    pub proof fn lemma_inserted(self, p: int, price: Price, hash: H256, otype: OrderType)
        requires
            self.wf(),
            !self.levels.contains_key(Some(price)),
            self.slot(p, price, otype),
        ensures
            self.inserted(p, price, hash).wf(),
    {
        reveal(LadderView::wf);
        self.lemma_inserted_shape(p, price, hash, otype);
        self.lemma_inserted_linked(p, price, hash, otype);
    }

    /// A new level on the right side of the book keeps the book uncrossed.
    pub proof fn lemma_inserted_sorted(self, p: int, price: Price, hash: H256, otype: OrderType)
        requires
            self.wf(),
            self.sorted(),
            self.slot(p, price, otype),
            otype == OrderType::Buy ==> price < self.best_ask(),
            otype == OrderType::Sell ==> self.best_bid() < price,
        ensures
            self.inserted(p, price, hash).sorted(),
    {
        reveal(LadderView::wf);
        let after = self.inserted(p, price, hash);
        let c = self.chain;
        let d = after.chain;
        let h = self.head;
        Self::lemma_insert_places(c, p, Some(price));
        if p <= h {
            assert(d[after.head + 1] == c[h + 1]);
            if p == h {
                assert(d[after.head - 1] == Some(price));
            } else {
                assert(d[after.head - 1] == c[h - 1]);
            }
        } else {
            assert(d[after.head - 1] == c[h - 1]);
            if p == h + 1 {
                assert(d[after.head + 1] == Some(price));
            } else {
                assert(d[after.head + 1] == c[h + 1]);
            }
        }
    }

    /// Linking a new level in puts it on its side and leaves the other
    /// levels on theirs.
    pub proof fn lemma_inserted_sides(self, p: int, price: Price, hash: H256, otype: OrderType)
        requires
            self.wf(),
            !self.levels.contains_key(Some(price)),
            self.slot(p, price, otype),
        ensures
            self.inserted(p, price, hash).side_of(Some(price)) == otype,
            forall|key: Option<Price>|
                self.levels.contains_key(key) ==> #[trigger] self.inserted(p, price, hash).side_of(
                    key,
                ) == self.side_of(key),
    {
        let after = self.inserted(p, price, hash);
        let c = self.chain;
        self.lemma_frame();
        self.lemma_inserted(p, price, hash, otype);
        Self::lemma_insert_places(c, p, Some(price));
        after.lemma_place(p);
        assert forall|key: Option<Price>| self.levels.contains_key(key) implies #[trigger] after.side_of(
            key,
        ) == self.side_of(key) by {
            let i = c.index_of(key);
            assert(c.contains(key));
            assert(c[i] == key);
            self.lemma_place(i);
            if i < p {
                assert(after.chain[i] == key);
                after.lemma_place(i);
            } else {
                assert(after.chain[i + 1] == key);
                after.lemma_place(i + 1);
            }
        }
    }

    /// What stands at each place of a list after a removal.
    pub proof fn lemma_remove_places(c: Seq<Option<Price>>, p: int)
        requires
            0 <= p < c.len(),
        ensures
            c.remove(p).len() == c.len() - 1,
            forall|i: int| 0 <= i < p ==> #[trigger] c.remove(p)[i] == c[i],
            forall|i: int| p <= i < c.len() - 1 ==> #[trigger] c.remove(p)[i] == c[i + 1],
    {
    }

    /// Dropping orders from the front of a queue keeps the ladder well-formed.
    pub proof fn lemma_pruned(self, key: Option<Price>, n: int)
        requires
            self.wf(),
            self.levels.contains_key(key),
        ensures
            self.pruned(key, n).wf(),
            self.pruned(key, n).sorted() == self.sorted(),
    {
        reveal(LadderView::wf);
        let after = self.pruned(key, n);
        let c = self.chain;
        assert forall|i: int| 0 <= i < c.len() implies {
            &&& (#[trigger] after.levels[c[i]]).price == c[i]
            &&& after.levels[c[i]].next == c[after.succ(i)]
            &&& after.levels[c[i]].prev == c[after.pred(i)]
        } by {
            assert(self.levels[c[i]].price == c[i]);
            assert(after.succ(i) == self.succ(i));
            assert(after.pred(i) == self.pred(i));
        }
    }

    proof fn lemma_unlinked_shape(self, p: int)
        requires
            self.wf(),
            0 < p < self.chain.len() - 1,
            p != self.head,
        ensures
            self.unlinked(p).shape(),
    {
        reveal(LadderView::wf);
        let after = self.unlinked(p);
        let c = self.chain;
        let n = c.len() as int;
        let h = self.head;
        let d = after.chain;
        let g = after.head;
        Self::lemma_remove_places(c, p);
        assert forall|i: int| 0 <= i < n - 1 && i != g implies (#[trigger] d[i]) is Some by {
            if i < p {
                assert(d[i] == c[i]);
            } else {
                assert(d[i] == c[i + 1]);
            }
        }
        assert forall|i: int, j: int| 0 <= i < j < g implies #[trigger] rises(d, i, j) by {
            let a = if i < p { i } else { i + 1 };
            let b = if j < p { j } else { j + 1 };
            assert(d[i] == c[a] && d[j] == c[b]);
            assert(rises(c, a, b));
        }
        assert forall|i: int, j: int| g < i < j < n - 1 implies #[trigger] rises(d, i, j) by {
            let a = if i < p { i } else { i + 1 };
            let b = if j < p { j } else { j + 1 };
            assert(d[i] == c[a] && d[j] == c[b]);
            assert(rises(c, a, b));
        }
        assert forall|i: int, j: int| 0 <= i < g < j < n - 1 implies #[trigger] differ(d, i, j) by {
            let a = if i < p { i } else { i + 1 };
            let b = if j < p { j } else { j + 1 };
            assert(d[i] == c[a] && d[j] == c[b]);
            assert(differ(c, a, b));
        }
    }

    proof fn lemma_unlinked_linked(self, p: int)
        requires
            self.wf(),
            0 < p < self.chain.len() - 1,
            p != self.head,
        ensures
            self.unlinked(p).linked(),
    {
        reveal(LadderView::wf);
        let after = self.unlinked(p);
        let c = self.chain;
        let n = c.len() as int;
        let d = after.chain;
        self.lemma_distinct();
        Self::lemma_remove_places(c, p);
        assert(c.contains(c[p - 1]));
        assert(c.contains(c[p + 1]));
        assert forall|k: Option<Price>| #[trigger] after.levels.contains_key(k) <==> d.contains(k) by {
            if after.levels.contains_key(k) {
                assert(self.levels.contains_key(k));
                assert(c.contains(k));
                let i = choose|i: int| 0 <= i < n && c[i] == k;
                if i < p {
                    assert(d[i] == k);
                } else if i > p {
                    assert(d[i - 1] == k);
                } else {
                    assert(k != c[p - 1] && k != c[p + 1]);
                }
            }
            if d.contains(k) {
                let i = choose|i: int| 0 <= i < n - 1 && d[i] == k;
                let a = if i < p { i } else { i + 1 };
                assert(c[a] == k);
                assert(c.contains(k));
                assert(c[a] != c[p]);
            }
        }
        assert forall|i: int| 0 <= i < n - 1 implies {
            &&& (#[trigger] after.levels[d[i]]).price == d[i]
            &&& after.levels[d[i]].next == d[after.succ(i)]
            &&& after.levels[d[i]].prev == d[after.pred(i)]
        } by {
            let a = if i < p { i } else { i + 1 };
            assert(d[i] == c[a]);
            assert(self.levels[c[a]].price == c[a]);
            assert(self.levels[c[a]].next == c[self.succ(a)]);
            assert(self.levels[c[a]].prev == c[self.pred(a)]);
            assert(c[a] != c[p]);
            if a != p - 1 {
                assert(c[a] != c[p - 1]);
            }
            if a != p + 1 {
                assert(c[a] != c[p + 1]);
            }
            assert(c[p - 1] != c[p + 1]);
            let sa = self.succ(a);
            let si = after.succ(i);
            assert(d[si] == if a == p - 1 { c[p + 1] } else { c[sa] });
            let pa = self.pred(a);
            let pi = after.pred(i);
            assert(d[pi] == if a == p + 1 { c[p - 1] } else { c[pa] });
        }
    }

    /// Taking a level out of the list keeps the ladder well-formed, and an
    /// uncrossed book uncrossed.
    pub proof fn lemma_unlinked(self, p: int)
        requires
            self.wf(),
            0 < p < self.chain.len() - 1,
            p != self.head,
        ensures
            self.unlinked(p).wf(),
            self.sorted() ==> self.unlinked(p).sorted(),
    {
        reveal(LadderView::wf);
        self.lemma_unlinked_shape(p);
        self.lemma_unlinked_linked(p);
        let after = self.unlinked(p);
        let c = self.chain;
        let h = self.head;
        Self::lemma_remove_places(c, p);
        if self.sorted() {
            if p < h {
                assert(after.chain[after.head + 1] == c[h + 1]);
                if p == h - 1 {
                    assert(after.chain[after.head - 1] == c[h - 2]);
                    assert(rises(c, h - 2, h - 1));
                } else {
                    assert(after.chain[after.head - 1] == c[h - 1]);
                }
            } else {
                assert(after.chain[after.head - 1] == c[h - 1]);
                if p == h + 1 {
                    assert(after.chain[after.head + 1] == c[h + 2]);
                    assert(rises(c, h + 1, h + 2));
                } else {
                    assert(after.chain[after.head + 1] == c[h + 1]);
                }
            }
        }
    }

    /// One round of the pruning of a side: the level next to the head is
    /// pruned, and where that succeeds the pruning goes on from what is left,
    /// which is a shorter list.
    pub proof fn lemma_sweep_step(self, otype: OrderType, orders: Map<H256, LimitOrder>)
        requires
            self.wf(),
            0 < self.nearest(otype) < self.chain.len() - 1,
        ensures
            self.chain[self.nearest(otype)] is Some,
            ({
                let price = self.chain[self.nearest(otype)].unwrap();
                let step = self.without(price, orders);
                &&& self.levels.contains_key(Some(price))
                &&& step.1 is Err ==> self.sweep(otype, orders) == step
                &&& step.1 is Ok ==> self.sweep(otype, orders) == step.0.sweep(otype, orders)
                &&& step.1 is Ok ==> step.0.chain.len() < self.chain.len()
            }),
    {
        reveal(LadderView::wf);
        let c = self.chain;
        let i = self.nearest(otype);
        self.lemma_distinct();
        assert(c[i] is Some);
        assert(c.contains(c[i]));
        let j = c.index_of(c[i]);
        assert(c[j] == c[i]);
        assert(j == i);
        assert(c[i] != c[0]);
        assert(c[i] != c[c.len() - 1]);
        Self::lemma_remove_places(c, i);
    }

    /// Taking the nearest levels of a side out keeps the ladder well-formed
    /// and the book uncrossed, shortens the list by those levels, and leaves
    /// the queues of the other levels as they were.
    pub proof fn lemma_cut(self, otype: OrderType, k: nat)
        requires
            self.wf(),
            k <= self.depth(otype),
        ensures
            self.cut(otype, k).wf(),
            self.sorted() ==> self.cut(otype, k).sorted(),
            self.cut(otype, k).chain == self.cut_chain(otype, k as int),
            self.cut(otype, k).head == (if otype == OrderType::Buy {
                self.head - k
            } else {
                self.head
            }),
            forall|key: Option<Price>| #[trigger]
                self.cut(otype, k).levels.contains_key(key) ==> self.levels.contains_key(key)
                    && self.cut(otype, k).levels[key].orders == self.levels[key].orders,
        decreases k,
    {
        let c = self.chain;
        let h = self.head;
        let n = c.len() as int;
        self.lemma_frame();
        if k == 0 {
            assert(self.cut_chain(otype, 0) =~= c);
        } else {
            let i = self.nearest(otype);
            let l1 = self.unlinked(i);
            self.lemma_unlinked(i);
            Self::lemma_remove_places(c, i);
            l1.lemma_cut(otype, (k - 1) as nat);
            let a = self.cut(otype, k);
            assert(a == l1.cut(otype, (k - 1) as nat));
            assert(l1.cut_chain(otype, k - 1) =~= self.cut_chain(otype, k as int)) by {
                let x = l1.cut_chain(otype, k - 1);
                let y = self.cut_chain(otype, k as int);
                assert(x.len() == y.len());
                assert forall|j: int| 0 <= j < x.len() implies x[j] == y[j] by {
                    if otype == OrderType::Buy {
                        if j < h - k {
                            assert(x[j] == l1.chain[j]);
                            assert(l1.chain[j] == c[j]);
                        } else {
                            assert(x[j] == l1.chain[j - (h - k) + (h - 1)]);
                            assert(l1.chain[j + k - 1] == c[j + k]);
                        }
                    } else {
                        if j < h + 1 {
                            assert(x[j] == l1.chain[j]);
                            assert(l1.chain[j] == c[j]);
                        } else {
                            assert(x[j] == l1.chain[j - (h + 1) + (h + k)]);
                            assert(l1.chain[j + k - 1] == c[j + k]);
                        }
                    }
                }
            }
            assert forall|key: Option<Price>| #[trigger] a.levels.contains_key(key) implies self.levels.contains_key(
                key,
            ) && a.levels[key].orders == self.levels[key].orders by {
                assert(l1.levels.contains_key(key));
                assert(self.levels.contains_key(c[i - 1]));
                assert(self.levels.contains_key(c[i + 1]));
            }
        }
    }

    /// A level that is left after the nearest `k` levels of a side have been
    /// taken out stood at a place that is not among them, with the same
    /// queue.
    pub proof fn lemma_cut_keeps(self, otype: OrderType, k: nat, key: Option<Price>) -> (p: int)
        requires
            self.wf(),
            k <= self.depth(otype),
            self.cut(otype, k).levels.contains_key(key),
        ensures
            0 <= p < self.chain.len(),
            self.chain[p] == key,
            !(1 <= self.dist(otype, p) <= k),
            self.levels.contains_key(key),
            self.cut(otype, k).levels[key].orders == self.levels[key].orders,
    {
        reveal(LadderView::wf);
        let a = self.cut(otype, k);
        let c = self.chain;
        let h = self.head;
        self.lemma_cut(otype, k);
        assert(a.chain.contains(key));
        let x = choose|x: int| 0 <= x < a.chain.len() && a.chain[x] == key;
        if otype == OrderType::Buy {
            if x < h - k {
                assert(a.chain[x] == c[x]);
                x
            } else {
                assert(a.chain[x] == c[x + k]);
                x + k
            }
        } else {
            if x < h + 1 {
                assert(a.chain[x] == c[x]);
                x
            } else {
                assert(a.chain[x] == c[x + k]);
                x + k
            }
        }
    }

    /// A level that is left after the nearest `k` levels of a side have been
    /// taken out stands on the side on which it stood.
    pub proof fn lemma_cut_side(self, otype: OrderType, k: nat, key: Option<Price>)
        requires
            self.wf(),
            k <= self.depth(otype),
            self.cut(otype, k).levels.contains_key(key),
        ensures
            self.cut(otype, k).side_of(key) == self.side_of(key),
    {
        reveal(LadderView::wf);
        let a = self.cut(otype, k);
        let c = self.chain;
        let h = self.head;
        self.lemma_cut(otype, k);
        self.lemma_distinct();
        assert(a.levels.contains_key(key));
        assert(a.chain.contains(key));
        let x = a.chain.index_of(key);
        assert(a.chain[x] == key);
        let p = if otype == OrderType::Buy {
            if x < h - k {
                x
            } else {
                x + k
            }
        } else {
            if x < h + 1 {
                x
            } else {
                x + k
            }
        };
        assert(c[p] == key);
        let q = c.index_of(key);
        assert(c.contains(key));
        assert(c[q] == key);
        assert(q == p);
    }

    /// After the nearest `k` levels of a side have been taken out, the level
    /// next to the head on that side is the one that was `k + 1` places from
    /// it.
    pub proof fn lemma_cut_nearest(self, otype: OrderType, k: nat)
        requires
            self.wf(),
            k <= self.depth(otype),
        ensures
            self.cut(otype, k).chain[self.cut(otype, k).nearest(otype)] == self.chain[self.away(
                otype,
                k as int + 1,
            )],
            self.cut(otype, k).chain[self.cut(otype, k).nearest(otype.flip())]
                == self.chain[self.nearest(otype.flip())],
    {
        reveal(LadderView::wf);
        let a = self.cut(otype, k);
        let c = self.chain;
        let h = self.head;
        self.lemma_cut(otype, k);
        if otype == OrderType::Buy {
            assert(a.chain[h - k - 1] == c[h - k - 1]);
            assert(a.chain[h - k + 1] == c[h + 1]);
        } else {
            assert(a.chain[h + 1] == c[h + 1 + k]);
            assert(a.chain[h - 1] == c[h - 1]);
        }
    }

    /// How far the pruning of a side gets: it takes out the nearest levels,
    /// all of whose orders are finished, and ends where the side is used up,
    /// or with an error at the first level that keeps an order, which loses
    /// its finished run.
    pub proof fn lemma_sweep_cut(self, otype: OrderType, orders: Map<H256, LimitOrder>) -> (k: nat)
        requires
            self.wf(),
        ensures
            k <= self.depth(otype),
            forall|d: int|
                1 <= d <= k ==> self.all_done(#[trigger] self.chain[self.away(otype, d)], orders),
            match self.sweep(otype, orders).1 {
                Ok(_) => k == self.depth(otype) && self.sweep(otype, orders).0 == self.cut(otype, k),
                Err(e) => {
                    let key = self.chain[self.away(otype, k as int + 1)];
                    let queue = self.levels[key].orders;
                    let m = finished_run(queue, orders) as int;
                    &&& k < self.depth(otype)
                    &&& m < queue.len()
                    &&& e == fault_at(orders, queue[m])
                    &&& self.sweep(otype, orders).0 == self.cut(otype, k).pruned(key, m)
                },
            },
        decreases self.chain.len(),
    {
        reveal(LadderView::wf);
        let c = self.chain;
        let n = c.len() as int;
        let i = self.nearest(otype);
        if 0 < i < n - 1 {
            let key = c[i];
            let queue = self.levels[key].orders;
            let m = finished_run(queue, orders) as int;
            if m < queue.len() {
                assert(self.cut(otype, 0) == self);
                return 0;
            } else {
                lemma_finished_run(queue, orders);
                let l1 = self.unlinked(i);
                self.lemma_unlinked(i);
                self.lemma_distinct();
                Self::lemma_remove_places(c, i);
                let k1 = l1.lemma_sweep_cut(otype, orders);
                let k = k1 + 1;
                assert(self.cut(otype, k) == l1.cut(otype, k1));
                assert(c.contains(c[i - 1]));
                assert(c.contains(c[i + 1]));
                assert forall|d: int| 1 <= d <= k implies self.all_done(
                    #[trigger] self.chain[self.away(otype, d)],
                    orders,
                ) by {
                    if d > 1 {
                        let j = l1.away(otype, d - 1);
                        assert(l1.chain[j] == c[self.away(otype, d)]);
                        assert(l1.all_done(l1.chain[j], orders));
                        assert(l1.chain.contains(l1.chain[j]));
                        assert(l1.levels.contains_key(l1.chain[j]));
                        assert(c[self.away(otype, d)] != c[i]);
                    }
                }
                if l1.sweep(otype, orders).1 is Err {
                    let j = l1.away(otype, k1 as int + 1);
                    assert(l1.chain[j] == c[self.away(otype, k as int + 1)]);
                    assert(l1.chain.contains(l1.chain[j]));
                    assert(l1.levels.contains_key(l1.chain[j]));
                    assert(c[self.away(otype, k as int + 1)] != c[i]);
                }
                return k;
            }
        } else {
            assert(self.cut(otype, 0) == self);
            return 0;
        }
    }

    /// What the pruning of a side leaves of a level: the level stood at a
    /// place `p` that is not among the nearest `k` that the pruning took out,
    /// and it has lost the first `off` orders of its queue, which is none but
    /// for the level at which the pruning stopped with an error. That level
    /// comes right after the `k` levels, and an order that is not finished
    /// stands at the front of what it has left.
    pub proof fn lemma_sweep_keeps(
        self,
        otype: OrderType,
        orders: Map<H256, LimitOrder>,
        key: Option<Price>,
    ) -> (r: (nat, int, int))
        requires
            self.wf(),
            self.sweep(otype, orders).0.levels.contains_key(key),
        ensures
            r.0 <= self.depth(otype),
            0 <= r.1 < self.chain.len(),
            self.chain[r.1] == key,
            self.levels.contains_key(key),
            !(1 <= self.dist(otype, r.1) <= r.0),
            0 <= r.2 <= self.levels[key].orders.len(),
            self.sweep(otype, orders).0.levels[key].orders == self.levels[key].orders.skip(r.2),
            self.sweep(otype, orders).0.side_of(key) == self.side_of(key),
            match self.sweep(otype, orders).1 {
                Ok(_) => r.0 == self.depth(otype) && r.2 == 0,
                Err(_) => {
                    let ps = self.away(otype, r.0 as int + 1);
                    let queue = self.levels[self.chain[ps]].orders;
                    let m = finished_run(queue, orders) as int;
                    &&& r.0 < self.depth(otype)
                    &&& m < queue.len()
                    &&& !done(orders, queue[m])
                    &&& r.2 == (if r.1 == ps {
                        m
                    } else {
                        0
                    })
                },
            },
    {
        reveal(LadderView::wf);
        let c = self.chain;
        let a = self.sweep(otype, orders).0;
        let k = self.lemma_sweep_cut(otype, orders);
        let ck = self.cut(otype, k);
        self.lemma_cut(otype, k);
        self.lemma_distinct();
        if self.sweep(otype, orders).1 is Err {
            let ps = self.away(otype, k as int + 1);
            let key_s = c[ps];
            let queue = self.levels[key_s].orders;
            let m = finished_run(queue, orders) as int;
            lemma_finished_run(queue, orders);
            self.lemma_cut_nearest(otype, k);
            assert(ck.chain[ck.nearest(otype)] == key_s);
            assert(ck.chain.contains(key_s));
            assert(ck.levels.contains_key(key_s));
            assert(a == ck.pruned(key_s, m));
            assert(ck.levels.contains_key(key));
            assert(a.chain == ck.chain && a.head == ck.head);
            self.lemma_cut_side(otype, k, key);
            let p = self.lemma_cut_keeps(otype, k, key);
            if key == key_s {
                assert(p == ps);
                assert(a.levels[key].orders == ck.levels[key].orders.skip(m));
                (k, p, m)
            } else {
                assert(a.levels[key] == ck.levels[key]);
                assert(self.levels[key].orders.skip(0) =~= self.levels[key].orders);
                (k, p, 0)
            }
        } else {
            assert(a == ck);
            self.lemma_cut_side(otype, k, key);
            let p = self.lemma_cut_keeps(otype, k, key);
            assert(self.levels[key].orders.skip(0) =~= self.levels[key].orders);
            (k, p, 0)
        }
    }

    /// The pruning of a side takes finished orders only: an order that is not
    /// stored and finished stays in the queue of its level.
    pub proof fn lemma_sweep_keeps_undone(
        self,
        otype: OrderType,
        orders: Map<H256, LimitOrder>,
        key: Option<Price>,
        j: int,
    )
        requires
            self.wf(),
            self.levels.contains_key(key),
            0 <= j < self.levels[key].orders.len(),
            !done(orders, self.levels[key].orders[j]),
        ensures
            self.sweep(otype, orders).0.levels.contains_key(key),
            self.sweep(otype, orders).0.levels[key].orders.contains(self.levels[key].orders[j]),
        decreases self.chain.len(),
    {
        reveal(LadderView::wf);
        let c = self.chain;
        let n = c.len() as int;
        let i = self.nearest(otype);
        let queue = self.levels[key].orders;
        if 0 < i < n - 1 {
            let near = c[i];
            let q = self.levels[near].orders;
            let m = finished_run(q, orders) as int;
            lemma_finished_run(q, orders);
            if m < q.len() {
                let a = self.pruned(near, m);
                if key == near {
                    assert(j >= m);
                    assert(q.skip(m)[j - m] == q[j]);
                } else {
                    assert(a.levels[key].orders[j] == queue[j]);
                }
            } else {
                let l1 = self.unlinked(i);
                self.lemma_unlinked(i);
                self.lemma_distinct();
                assert(c.contains(c[i - 1]));
                assert(c.contains(c[i + 1]));
                assert(key != near);
                assert(l1.levels.contains_key(key));
                assert(l1.levels[key].orders == queue);
                Self::lemma_remove_places(c, i);
                l1.lemma_sweep_keeps_undone(otype, orders, key, j);
            }
        } else {
            assert(queue[j] == queue[j]);
        }
    }

    /// What the pruning of a side leaves next to the head: on the pruned side
    /// the level that was `k + 1` places from the head, where `k` levels were
    /// taken out; on the other side the level that was there. The ladder
    /// stays well-formed and the book uncrossed.
    pub proof fn lemma_sweep_nearest(self, otype: OrderType, orders: Map<H256, LimitOrder>) -> (k:
        nat)
        requires
            self.wf(),
        ensures
            self.sweep(otype, orders).0.wf(),
            self.sorted() ==> self.sweep(otype, orders).0.sorted(),
            k <= self.depth(otype),
            self.sweep(otype, orders).0.chain[self.sweep(otype, orders).0.nearest(otype)]
                == self.chain[self.away(otype, k as int + 1)],
            self.sweep(otype, orders).0.chain[self.sweep(otype, orders).0.nearest(otype.flip())]
                == self.chain[self.nearest(otype.flip())],
            match self.sweep(otype, orders).1 {
                Ok(_) => k == self.depth(otype),
                Err(_) => {
                    let queue = self.levels[self.chain[self.away(otype, k as int + 1)]].orders;
                    let m = finished_run(queue, orders) as int;
                    &&& k < self.depth(otype)
                    &&& m < queue.len()
                    &&& !done(orders, queue[m])
                },
            },
    {
        reveal(LadderView::wf);
        let c = self.chain;
        let a = self.sweep(otype, orders).0;
        let k = self.lemma_sweep_cut(otype, orders);
        let ck = self.cut(otype, k);
        self.lemma_cut(otype, k);
        self.lemma_cut_nearest(otype, k);
        if self.sweep(otype, orders).1 is Err {
            let key_s = c[self.away(otype, k as int + 1)];
            let queue = self.levels[key_s].orders;
            let m = finished_run(queue, orders) as int;
            lemma_finished_run(queue, orders);
            assert(ck.chain[ck.nearest(otype)] == key_s);
            assert(ck.chain.contains(key_s));
            ck.lemma_pruned(key_s, m);
            assert(a == ck.pruned(key_s, m));
            assert(a.chain == ck.chain && a.head == ck.head);
        }
        k
    }
}

} // verus!
