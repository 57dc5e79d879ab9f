//! The messages between the API, the matching engine and the market tasks.
use crate::clock::Timestamp;
use crate::order::Order;
use vstd::prelude::*;

verus! {

/// A request to a market task.
#[derive(Clone, Copy, Debug)]
pub enum EngineMessage {
    PlaceOrder(Order),
}

pub enum EngineIncomingEvent {
    CreateMarket { client_id: u128, user_id: u128, name: String },
    DeleteMarket { client_id: u128, user_id: u128, market_id: u128 },
    PauseMarket { client_id: u128, user_id: u128, market_id: u128 },
}

pub enum EngineOutGoingEvent {
    MarketCreated {  },
}

/// A request to the matching engine.
#[derive(Debug)]
pub enum EngineIncomingMessage {
    CreateMarket { client_id: u128, user_id: u128, name: String },
    DeleteMarket { client_id: u128, user_id: u128, market_id: u128 },
    PauseMarket { client_id: u128, user_id: u128, market_id: u128 },
    PlaceOrder,
    CancelOrder,
}

/// A reply of the matching engine.
#[derive(Debug)]
pub enum EngineOutGoingMessage {
    MarketCreated { market_id: u128, creater: u128, created_at: Timestamp },
    MarketPaused {
        client_id: u128,
        market_id: u128,
        user_id: u128,
        deleted: bool,
        timestamp: Timestamp,
    },
    MarketDeleted {
        client_id: u128,
        market_id: u128,
        user_id: u128,
        deleted: bool,
        timestamp: Timestamp,
    },
    OrderPlaced {  },
    OrderCancelled {  },
}

} // verus!
