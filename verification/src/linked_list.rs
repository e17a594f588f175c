//! The price ladders of all trade pairs, each made on first use.

use vstd::prelude::*;
use crate::ladder::{Ladder, LadderView, LinkedItem, LinkedItemView};
use crate::table::{Dup, Table};
use crate::types::{Error, LimitOrder, OrderType, Price, H256, PMAX, PMIN};

verus! {

/// The price ladders by trade pair.
pub struct LinkedList {
    ladders: Table<H256, Ladder>,
}

impl View for LinkedList {
    type V = Map<H256, LadderView>;

    closed spec fn view(&self) -> Map<H256, LadderView> {
        self.ladders@
    }
}

impl Dup for LinkedList {
    fn dup(&self) -> (r: Self) {
        LinkedList { ladders: self.ladders.dup() }
    }
}

impl LinkedList {
    /// The ladder of the pair `key1`: the stored one, or, for a pair that was
    /// never touched, the three sentinels.
    pub open spec fn ladder(self, key1: H256) -> LadderView {
        if self@.contains_key(key1) {
            self@[key1]
        } else {
            LadderView::initial()
        }
    }

    /// What a reading of the level `key2` of the pair `key1` gives: the
    /// stored level, or, for a key under which none is stored, a head
    /// between the two sentinels.
    pub open spec fn level(self, key1: H256, key2: Option<Price>) -> LinkedItemView {
        if self.ladder(key1).levels.contains_key(key2) {
            self.ladder(key1).levels[key2]
        } else {
            LinkedItemView {
                price: None,
                prev: Some(PMIN),
                next: Some(PMAX),
                orders: Seq::empty(),
            }
        }
    }

    /// Every stored ladder is well-formed.
    pub open spec fn wf(self) -> bool {
        forall|key1: H256| #[trigger] self@.contains_key(key1) ==> self@[key1].wf()
    }

    /// The ladder of every pair is well-formed.
    pub proof fn lemma_ladder_wf(self, key1: H256)
        requires
            self.wf(),
        ensures
            self.ladder(key1).wf(),
    {
        LadderView::lemma_initial();
    }

    /// No ladder is stored yet.
    pub fn new() -> (r: Self)
        ensures
            r@ == Map::<H256, LadderView>::empty(),
            r.wf(),
    {
        LinkedList { ladders: Table::new() }
    }

    /// Takes the ladder of `key1` out, making it where it is not stored.
    fn take(&mut self, key1: H256) -> (l: Ladder)
        ensures
            l@ == old(self).ladder(key1),
            final(self)@ == old(self)@.remove(key1),
    {
        match self.ladders.remove(&key1) {
            Some(l) => l,
            None => Ladder::new(),
        }
    }

    /// Puts the ladder of `key1` back.
    fn put(&mut self, key1: H256, l: Ladder)
        ensures
            final(self)@ == old(self)@.insert(key1, l@),
    {
        self.ladders.insert(key1, l);
    }

    /// Whether the ladder of `key1` holds a level under `key2`.
    pub fn contains(&self, key1: H256, key2: Option<Price>) -> (r: bool)
        ensures
            r == self.ladder(key1).levels.contains_key(key2),
    {
        match self.ladders.get(&key1) {
            Some(l) => l.get(&key2).is_some(),
            None => {
                proof {
                    LadderView::lemma_initial();
                    let c = LadderView::initial().chain;
                    assert(c[0] == Some(PMIN) && c[1] == None::<Price> && c[2] == Some(PMAX));
                }
                match key2 {
                    None => true,
                    Some(p) => p == PMIN || p == PMAX,
                }
            },
        }
    }

    /// A copy of the level under `key2` of the pair `key1`, without storing
    /// anything.
    pub fn get(&self, key1: H256, key2: Option<Price>) -> (r: Option<LinkedItem>)
        ensures
            match r {
                Some(item) => self.ladder(key1).levels.contains_key(key2) && item@ == self.ladder(
                    key1,
                ).levels[key2],
                None => !self.ladder(key1).levels.contains_key(key2),
            },
    {
        match self.ladders.get(&key1) {
            Some(l) => match l.get(&key2) {
                Some(item) => Some(item.dup()),
                None => None,
            },
            None => {
                let l = Ladder::new();
                match l.get(&key2) {
                    Some(item) => Some(item.dup()),
                    None => None,
                }
            },
        }
    }

    /// The head of the pair `key`.
    pub fn read_head(&mut self, key: H256) -> (r: LinkedItem)
        ensures
            r@ == old(self).level(key, None),
            final(self)@ == old(self)@.insert(key, old(self).ladder(key)),
            forall|key2: H256| final(self).ladder(key2) == old(self).ladder(key2),
            old(self).wf() ==> final(self).wf(),
    {
        self.read(key, None)
    }

    /// The bottom sentinel of the pair `key`.
    pub fn read_bottom(&mut self, key: H256) -> (r: LinkedItem)
        ensures
            r@ == old(self).level(key, Some(PMIN)),
            final(self)@ == old(self)@.insert(key, old(self).ladder(key)),
            forall|key2: H256| final(self).ladder(key2) == old(self).ladder(key2),
            old(self).wf() ==> final(self).wf(),
    {
        self.read(key, Some(PMIN))
    }

    /// The top sentinel of the pair `key`.
    pub fn read_top(&mut self, key: H256) -> (r: LinkedItem)
        ensures
            r@ == old(self).level(key, Some(PMAX)),
            final(self)@ == old(self)@.insert(key, old(self).ladder(key)),
            forall|key2: H256| final(self).ladder(key2) == old(self).ladder(key2),
            old(self).wf() ==> final(self).wf(),
    {
        self.read(key, Some(PMAX))
    }

    /// The level under `key2` of the pair `key1`. A pair that was never
    /// touched gets its three sentinels stored. For a key under which no
    /// level is stored, the result is a head between the two sentinels, and
    /// nothing is stored under the key.
    pub fn read(&mut self, key1: H256, key2: Option<Price>) -> (r: LinkedItem)
        ensures
            r@ == old(self).level(key1, key2),
            final(self)@ == old(self)@.insert(key1, old(self).ladder(key1)),
            forall|key: H256| final(self).ladder(key) == old(self).ladder(key),
            old(self).wf() ==> final(self).wf(),
    {
        proof {
            LadderView::lemma_initial();
        }
        let l = self.take(key1);
        let item = match l.get(&key2) {
            Some(item) => item.dup(),
            None => LinkedItem {
                prev: Some(PMIN),
                next: Some(PMAX),
                price: None,
                orders: Vec::new(),
            },
        };
        self.put(key1, l);
        proof {
            assert(self@ =~= old(self)@.insert(key1, old(self).ladder(key1)));
        }
        item
    }

    /// Stores `item` under `key2` of the pair `key1` as it is, with no regard
    /// to the list.
    pub fn write(&mut self, key1: H256, key2: Option<Price>, item: LinkedItem)
        ensures
            final(self)@ == old(self)@.insert(
                key1,
                LadderView {
                    levels: old(self).ladder(key1).levels.insert(key2, item@),
                    ..old(self).ladder(key1)
                },
            ),
    {
        let mut l = self.take(key1);
        l.write(key2, item);
        self.put(key1, l);
        proof {
            assert(self@ =~= old(self)@.insert(
                key1,
                LadderView {
                    levels: old(self).ladder(key1).levels.insert(key2, item@),
                    ..old(self).ladder(key1)
                },
            ));
        }
    }

    /// Appends the order `order_hash` at the price `key2` of the pair `key1`,
    /// on the side `otype`, as [`Ladder::append`] does.
    pub fn append(&mut self, key1: H256, key2: Price, order_hash: H256, otype: OrderType)
        requires
            old(self).wf(),
        ensures
            final(self).wf(),
            final(self)@ == old(self)@.insert(key1, final(self).ladder(key1)),
            old(self).ladder(key1).appended(final(self).ladder(key1), key2, order_hash, otype),
            old(self).ladder(key1).sorted() && old(self).ladder(key1).fits(key2, otype)
                ==> final(self).ladder(key1).sorted(),
    {
        proof {
            old(self).lemma_ladder_wf(key1);
        }
        let mut l = self.take(key1);
        l.append(key2, order_hash, otype);
        self.put(key1, l);
        proof {
            assert(self@ =~= old(self)@.insert(key1, self.ladder(key1)));
        }
    }

    /// Prunes the side `otype` of the pair `key1` from the head outwards, as
    /// [`Ladder::remove_items`] does.
    pub fn remove_items(
        &mut self,
        key1: H256,
        otype: OrderType,
        orders: &Table<H256, LimitOrder>,
    ) -> (r: Result<(), Error>)
        requires
            old(self).wf(),
        ensures
            final(self).wf(),
            final(self)@ == old(self)@.insert(key1, final(self).ladder(key1)),
            (final(self).ladder(key1), r) == old(self).ladder(key1).sweep(otype, orders@),
            old(self).ladder(key1).sorted() ==> final(self).ladder(key1).sorted(),
    {
        proof {
            old(self).lemma_ladder_wf(key1);
        }
        let mut l = self.take(key1);
        let r = l.remove_items(otype, orders);
        self.put(key1, l);
        proof {
            assert(self@ =~= old(self)@.insert(key1, self.ladder(key1)));
        }
        r
    }

    /// Prunes the level of the price `key2` of the pair `key1`, as
    /// [`Ladder::remove_item`] does.
    pub fn remove_item(&mut self, key1: H256, key2: Price, orders: &Table<H256, LimitOrder>) -> (r:
        Result<(), Error>)
        requires
            old(self).wf(),
        ensures
            final(self).wf(),
            final(self)@ == old(self)@.insert(key1, final(self).ladder(key1)),
            (final(self).ladder(key1), r) == old(self).ladder(key1).without(key2, orders@),
            old(self).ladder(key1).sorted() ==> final(self).ladder(key1).sorted(),
    {
        proof {
            old(self).lemma_ladder_wf(key1);
        }
        let mut l = self.take(key1);
        let r = l.remove_item(key2, orders);
        self.put(key1, l);
        proof {
            assert(self@ =~= old(self)@.insert(key1, self.ladder(key1)));
        }
        r
    }
}

} // verus!
