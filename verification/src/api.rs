//! The HTTP API: its request and response data and the decisions of its handlers.
pub mod auth;
pub mod market;
pub mod middleware;
pub mod order;
pub mod user;
