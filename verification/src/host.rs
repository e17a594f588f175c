//! What the exchange needs from its host: the token ledger and the hashes
//! that name new records.

use vstd::prelude::*;
use crate::types::{AccountId, Balance, OrderType, Price, TokenFault, H256};

verus! {

/// A request to the host for the hash of a new record: what the record
/// holds, and the nonce of the exchange, which has named no record yet.
#[derive(Clone, Copy, Debug, PartialEq, Eq, Structural)]
pub enum HashRequest {
    /// For a new trade pair.
    Pair { base: H256, quote: H256, nonce: u64, creator: AccountId },
    /// For a new order.
    Order {
        base: H256,
        quote: H256,
        price: Price,
        sell_amount: Balance,
        buy_amount: Balance,
        otype: OrderType,
        owner: AccountId,
        nonce: u64,
    },
    /// For a new trade.
    Trade { base: H256, quote: H256, base_amount: Balance, quote_amount: Balance, nonce: u64 },
}

/// The host of the exchange. It keeps the balances of the tokens, free and
/// frozen, and derives the hashes of new pairs, orders and trades from their
/// contents, a nonce and whatever randomness it has.
///
/// The exchange relies on nothing that these methods return: it is verified
/// for every answer.
pub trait Trait {
    /// The free balance of `who` in `token`.
    fn free_balance(&self, who: AccountId, token: H256) -> Balance;

    /// Whether the free balance of `who` in `token` covers `amount`.
    fn ensure_free_balance(&self, who: AccountId, token: H256, amount: Balance) -> Result<
        (),
        TokenFault,
    >;

    /// Moves `amount` of `token` from the free to the frozen balance of `who`.
    fn freeze(&mut self, who: AccountId, token: H256, amount: Balance) -> Result<(), TokenFault>;

    /// Moves `amount` of `token` from the frozen to the free balance of `who`.
    fn unfreeze(&mut self, who: AccountId, token: H256, amount: Balance) -> Result<(), TokenFault>;

    /// Moves `amount` of `token` from the free balance of `from` to that of
    /// `to`.
    fn transfer(&mut self, from: AccountId, to: AccountId, token: H256, amount: Balance) -> Result<
        (),
        TokenFault,
    >;

    /// The owner of `token`, if the token exists.
    fn owner(&self, token: H256) -> Option<AccountId>;

    /// The hash that names the new record of `request`.
    fn hash(&self, request: HashRequest) -> H256;
}

} // verus!
