//! A price-time priority limit-order book for spot trading of token pairs,
//! with a deterministic matching engine and exact fixed-point amounts.
//!
//! The exchange is a [`engine::Module`]. Trade pairs are created with
//! [`engine::Module::do_create_trade_pair`] and orders are placed with
//! [`engine::Module::create_limit_order`], which matches the new order
//! against the book with [`engine::Module::order_match`]. The tokens are kept
//! by the host, a [`host::Trait`], which also names the records. The
//! requests that the host has granted are kept in two journals of the
//! exchange, which exist for the contracts alone: they say what the host
//! was asked, and that the frozen funds stay in balance with the orders.
//!
//! Every function of this crate is verified with Verus against the contract
//! written next to it. What holds of the exchange between two calls is
//! [`engine::ModuleView::wf`]; what holds whatever is done with it is stated
//! by the proof functions whose names begin with `law_`.

pub mod types;
pub mod wide;
pub mod amounts;
pub mod table;
pub mod ladder;
pub mod ladder_lemmas;
pub mod linked_list;
pub mod stores;
pub mod host;
pub mod engine;
pub mod pairs;
pub mod settle;
pub mod transfers;
pub mod pass;
pub mod matching;
pub mod matcher;
pub mod placing;
pub mod escrow;
pub mod laws;
