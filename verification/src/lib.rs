//! A verified core for a small crypto exchange: decimal amounts, the limit order book with
//! price-time priority matching, user balances, the registry of markets and the
//! authorisation decisions of the API.
pub mod amount;
pub mod api;
pub mod balances;
pub mod book;
pub mod book_run;
pub mod book_spec;
pub mod clock;
pub mod engine;
pub mod errors;
pub mod market_task;
pub mod messages;
pub mod order;
pub mod outgoing;
