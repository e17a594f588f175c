//! The registry of trade pairs.

use vstd::prelude::*;
use crate::engine::{live, Module, ModuleView};
use crate::escrow::law_frozen_funds_stay_in_balance;
use crate::host::{HashRequest, Trait};
use crate::transfers::TokenOp;
use crate::types::{AccountId, Error, Event, Tokens, TradePair, H256};

verus! {

/// Whether `sender` may create the pair of `base` and `quote`, whose owners
/// are `base_owner` and `quote_owner`: the two tokens differ, both exist,
/// the sender owns one of them, and no pair of the two exists in either
/// order.
pub open spec fn pair_allowed(
    m: ModuleView,
    sender: AccountId,
    base: H256,
    quote: H256,
    base_owner: Option<AccountId>,
    quote_owner: Option<AccountId>,
) -> Result<(), Error> {
    if base == quote {
        Err(Error::InvalidArgument)
    } else if base_owner is None || quote_owner is None {
        Err(Error::InvalidArgument)
    } else if sender != base_owner.unwrap() && sender != quote_owner.unwrap() {
        Err(Error::Unauthorized)
    } else if m.trade_pair_hash_by_base_quote.contains_key(Tokens { base, quote })
        || m.trade_pair_hash_by_base_quote.contains_key(Tokens { base: quote, quote: base }) {
        Err(Error::InvalidArgument)
    } else {
        Ok(())
    }
}

impl ModuleView {
    /// The exchange after the pair of `base` and `quote` has been stored
    /// under `hash`, which used up one nonce.
    pub open spec fn with_pair(self, base: H256, quote: H256, hash: H256) -> ModuleView {
        ModuleView {
            trade_pairs_by_hash: self.trade_pairs_by_hash.insert(hash, TradePair { hash, base, quote }),
            trade_pair_hash_by_base_quote: self.trade_pair_hash_by_base_quote.insert(
                Tokens { base, quote },
                hash,
            ),
            nonce: (self.nonce + 1) as u64,
            ..self
        }
    }

    /// Storing a new pair keeps the exchange in order.
    pub proof fn lemma_with_pair(self, base: H256, quote: H256, hash: H256)
        requires
            self.wf(),
            base != quote,
            !self.trade_pair_hash_by_base_quote.contains_key(Tokens { base, quote }),
            !self.trade_pair_hash_by_base_quote.contains_key(Tokens { base: quote, quote: base }),
            !self.trade_pairs_by_hash.contains_key(hash),
        ensures
            self.with_pair(base, quote, hash).wf(),
            self.settled() ==> self.with_pair(base, quote, hash).settled(),
    {
        let after = self.with_pair(base, quote, hash);
        self.lemma_owned_kept(after);
        if self.settled() {
            assert forall|h: H256| #[trigger] after.orders.contains_key(h) && live(
                after.orders[h],
            ) implies after.rests_somewhere(h) by {
                assert(self.rests_somewhere(h));
                let (tp, key) = choose|tp: H256, key: Option<crate::types::Price>| #[trigger]
                    self.rests(tp, key, h);
                assert(after.rests(tp, key, h));
            }
        }
        assert forall|tp: H256, key: Option<crate::types::Price>, i: int|
            after.ladder(tp).levels.contains_key(key) && 0 <= i < after.queue(tp, key).len() implies #[trigger] after.resting_ok(
            tp,
            key,
            after.queue(tp, key)[i],
        ) by {
            assert(self.resting_ok(tp, key, self.queue(tp, key)[i]));
        }
        assert forall|tp: H256, key: Option<crate::types::Price>|
            after.ladder(tp).levels.contains_key(key) implies (#[trigger] after.queue(
            tp,
            key,
        )).no_duplicates() && (Self::is_sentinel(key) || after.queue(tp, key).len() > 0) by {
            assert(self.queue(tp, key).no_duplicates());
        }
        assert forall|h: H256| #[trigger] after.trade_pairs_by_hash.contains_key(h) implies {
            let tp = after.trade_pairs_by_hash[h];
            &&& tp.base != tp.quote
            &&& after.trade_pair_hash_by_base_quote.contains_key(
                Tokens { base: tp.base, quote: tp.quote },
            )
            &&& after.trade_pair_hash_by_base_quote[Tokens { base: tp.base, quote: tp.quote }] == h
        } by {
            if h != hash {
                assert(self.trade_pairs_by_hash.contains_key(h));
            }
        }
        assert forall|t: Tokens| #[trigger]
            after.trade_pair_hash_by_base_quote.contains_key(t) implies {
            let h = after.trade_pair_hash_by_base_quote[t];
            &&& after.trade_pairs_by_hash.contains_key(h)
            &&& after.trade_pairs_by_hash[h] == (TradePair { hash: h, base: t.base, quote: t.quote })
            &&& !after.trade_pair_hash_by_base_quote.contains_key(
                Tokens { base: t.quote, quote: t.base },
            )
        } by {
            if t != (Tokens { base, quote }) {
                assert(self.trade_pair_hash_by_base_quote.contains_key(t));
                let h = self.trade_pair_hash_by_base_quote[t];
                assert(self.trade_pairs_by_hash.contains_key(h));
            }
        }
    }
}

impl Module {
    /// The hash of the pair of `base` and `quote`, which must exist in this
    /// order.
    pub fn ensure_trade_pair(&self, base: H256, quote: H256) -> (r: Result<H256, Error>)
        ensures
            r == (if self@.trade_pair_hash_by_base_quote.contains_key(Tokens { base, quote }) {
                Ok::<H256, Error>(self@.trade_pair_hash_by_base_quote[Tokens { base, quote }])
            } else {
                Err(Error::InvalidArgument)
            }),
    {
        let tp = self.trade_pair_hash_by_base_quote.get(&Tokens { base, quote });
        match tp {
            Some(tp) => Ok(*tp),
            None => Err(Error::InvalidArgument),
        }
    }

    /// Whether `sender` may create the pair of `base` and `quote`, whose
    /// owners are `base_owner` and `quote_owner`.
    pub fn check_trade_pair(
        &self,
        sender: AccountId,
        base: H256,
        quote: H256,
        base_owner: Option<AccountId>,
        quote_owner: Option<AccountId>,
    ) -> (r: Result<(), Error>)
        ensures
            r == pair_allowed(self@, sender, base, quote, base_owner, quote_owner),
    {
        if base.hi == quote.hi && base.lo == quote.lo {
            return Err(Error::InvalidArgument);
        }
        let (base_owner, quote_owner) = match (base_owner, quote_owner) {
            (Some(b), Some(q)) => (b, q),
            _ => {
                return Err(Error::InvalidArgument);
            },
        };
        if !(sender == base_owner || sender == quote_owner) {
            return Err(Error::Unauthorized);
        }
        let bq = self.trade_pair_hash_by_base_quote.get(&Tokens { base, quote });
        let qb = self.trade_pair_hash_by_base_quote.get(&Tokens { base: quote, quote: base });
        if !(!bq.is_some() && !qb.is_some()) {
            return Err(Error::InvalidArgument);
        }
        Ok(())
    }

    /// Stores the pair of `base` and `quote` under `hash`, for `sender`. A
    /// hash that names a pair already is refused, and so is a new pair when
    /// the nonces are used up; nothing changes then.
    pub fn insert_trade_pair(&mut self, sender: AccountId, base: H256, quote: H256, hash: H256) -> (r:
        Result<Event, Error>)
        ensures
            final(self).asked@ == old(self).asked@,
            final(self).hashed@ == old(self).hashed@,
            match r {
                Ok(event) => {
                    &&& !old(self)@.trade_pairs_by_hash.contains_key(hash)
                    &&& old(self)@.nonce < u64::MAX
                    &&& final(self)@ == old(self)@.with_pair(base, quote, hash)
                    &&& event == Event::TradePairCreated(
                        sender,
                        hash,
                        base,
                        quote,
                        TradePair { hash, base, quote },
                    )
                },
                Err(e) => {
                    &&& final(self)@ == old(self)@
                    &&& e == (if old(self)@.trade_pairs_by_hash.contains_key(hash) {
                        Error::HashCollision
                    } else {
                        Error::Overflow
                    })
                    &&& old(self)@.trade_pairs_by_hash.contains_key(hash) || old(self)@.nonce
                        == u64::MAX
                },
            },
    {
        if self.trade_pairs_by_hash.contains_key(&hash) {
            return Err(Error::HashCollision);
        }
        if self.nonce == u64::MAX {
            return Err(Error::Overflow);
        }
        let tp = TradePair { hash, base, quote };
        self.nonce = self.nonce + 1;
        self.trade_pairs_by_hash.insert(hash, tp);
        self.trade_pair_hash_by_base_quote.insert(Tokens { base, quote }, hash);
        Ok(Event::TradePairCreated(sender, hash, base, quote, tp))
    }

    /// The request for the hash of the pair of `base` and `quote` that
    /// `creator` creates: it holds the nonce of the exchange.
    pub fn pair_request(&self, base: H256, quote: H256, creator: AccountId) -> (r: HashRequest)
        ensures
            r == (HashRequest::Pair { base, quote, nonce: self@.nonce, creator }),
    {
        HashRequest::Pair { base, quote, nonce: self.nonce, creator }
    }

    /// Creates the trade pair of `base` and `quote` for `sender`. The two
    /// tokens must differ and exist, the sender must own one of them, and no
    /// pair of the two may exist in either order. The host says who owns the
    /// tokens and derives the hash of the pair from the nonce: the request
    /// is that of [`Module::pair_request`], and is entered in the journal of
    /// such requests once the pair is stored.
    pub fn do_create_trade_pair<T: Trait>(
        &mut self,
        host: &T,
        sender: AccountId,
        base: H256,
        quote: H256,
    ) -> (r: Result<Event, Error>)
        requires
            old(self).wf(),
        ensures
            final(self).asked@ == old(self).asked@,
            r is Ok ==> final(self).hashed@ == old(self).hashed@.push(
                HashRequest::Pair { base, quote, nonce: old(self)@.nonce, creator: sender },
            ),
            r is Err ==> final(self).hashed@ == old(self).hashed@,
            final(self).wf(),
            old(self).in_balance() ==> final(self).in_balance(),
            old(self)@.settled() ==> final(self)@.settled(),
            base == quote ==> r == Err::<Event, Error>(Error::InvalidArgument),
            old(self)@.trade_pair_hash_by_base_quote.contains_key(Tokens { base, quote })
                || old(self)@.trade_pair_hash_by_base_quote.contains_key(
                Tokens { base: quote, quote: base },
            ) ==> r is Err,
            match r {
                Ok(event) => {
                    &&& base != quote
                    &&& !old(self)@.trade_pair_hash_by_base_quote.contains_key(Tokens { base, quote })
                    &&& !old(self)@.trade_pair_hash_by_base_quote.contains_key(
                        Tokens { base: quote, quote: base },
                    )
                    &&& event matches Event::TradePairCreated(creator, hash, b, q, tp)
                    &&& creator == sender
                    &&& b == base
                    &&& q == quote
                    &&& tp == (TradePair { hash, base, quote })
                    &&& !old(self)@.trade_pairs_by_hash.contains_key(hash)
                    &&& final(self)@ == old(self)@.with_pair(base, quote, hash)
                    &&& final(self)@.nonce == old(self)@.nonce + 1
                },
                Err(_) => final(self)@ == old(self)@,
            },
    {
        if base.hi == quote.hi && base.lo == quote.lo {
            return Err(Error::InvalidArgument);
        }
        let base_owner = host.owner(base);
        let quote_owner = host.owner(quote);
        match self.check_trade_pair(sender, base, quote, base_owner, quote_owner) {
            Ok(()) => {},
            Err(e) => {
                return Err(e);
            },
        }
        let request = self.pair_request(base, quote, sender);
        let hash = host.hash(request);
        proof {
            if !self@.trade_pairs_by_hash.contains_key(hash) {
                self@.lemma_with_pair(base, quote, hash);
            }
        }
        let r = self.insert_trade_pair(sender, base, quote, hash);
        if r.is_ok() {
            self.hashed = Ghost(self.hashed@.push(request));
        }
        proof {
            if old(self).in_balance() {
                old(self)@.lemma_escrow_kept(self@);
                assert(self.asked@.skip(self.asked@.len() as int) =~= Seq::<TokenOp>::empty());
                law_frozen_funds_stay_in_balance(old(self)@, self@, old(self).asked@, self.asked@);
            }
        }
        r
    }
}

} // verus!
