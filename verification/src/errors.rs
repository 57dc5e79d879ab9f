//! The error types of the order book, the balance service and the API.
use vstd::prelude::*;

verus! {

/// Why the order book refused an order.
#[derive(Clone, Copy, Debug, PartialEq, Eq, Structural)]
pub enum BookError {
    InvalidBook,
    InvalidPrice,
    InvalidQuantity,
    InvalidOrderId,
    InvalidUserId,
}

/// Why the balance service refused a request.
#[derive(Clone, Copy, Debug, PartialEq, Eq, Structural)]
pub enum BalanceError {
    UserNotFound,
    InsufficientFunds,
    InvalidAmount,
    StateReadingFailed,
}

/// Why the API refused a request.
#[derive(Clone, Copy, Debug, PartialEq, Eq, Structural)]
pub enum APIError {
    Unauthorized,
    ServiceUnavailable,
}

/// Why the matching engine refused a request.
#[derive(Clone, Copy, Debug, PartialEq, Eq, Structural)]
pub enum EngineError {
    MarketNotFound,
}

impl BookError {
    /// The HTTP status code and message that answer this error.
    pub fn response(&self) -> (r: (u16, &'static str))
        ensures
            r.0 == 400,
            *self == BookError::InvalidBook ==> r.1@ == "Invalid book"@,
            *self == BookError::InvalidQuantity ==> r.1@ == "Invalid quantity"@,
            *self == BookError::InvalidPrice ==> r.1@ == "Invalid price"@,
            *self == BookError::InvalidOrderId ==> r.1@ == "Invalid order ID"@,
            *self == BookError::InvalidUserId ==> r.1@ == "Invalid user ID"@,
    {
        match self {
            BookError::InvalidBook => (400, "Invalid book"),
            BookError::InvalidQuantity => (400, "Invalid quantity"),
            BookError::InvalidPrice => (400, "Invalid price"),
            BookError::InvalidOrderId => (400, "Invalid order ID"),
            BookError::InvalidUserId => (400, "Invalid user ID"),
        }
    }
}

impl BalanceError {
    /// The HTTP status code and message that answer this error.
    pub fn response(&self) -> (r: (u16, &'static str))
        ensures
            *self == BalanceError::UserNotFound ==> r.0 == 404 && r.1@ == "user not found"@,
            *self == BalanceError::InsufficientFunds ==> r.0 == 422 && r.1@
                == "insufficient funds"@,
            *self == BalanceError::InvalidAmount ==> r.0 == 400 && r.1@ == "invalid amount"@,
            *self == BalanceError::StateReadingFailed ==> r.0 == 500 && r.1@
                == "State reading ailed"@,
    {
        match self {
            BalanceError::UserNotFound => (404, "user not found"),
            BalanceError::InsufficientFunds => (422, "insufficient funds"),
            BalanceError::InvalidAmount => (400, "invalid amount"),
            BalanceError::StateReadingFailed => (500, "State reading ailed"),
        }
    }
}

impl APIError {
    /// The HTTP status code and message that answer this error.
    pub fn response(&self) -> (r: (u16, &'static str))
        ensures
            *self == APIError::Unauthorized ==> r.0 == 400 && r.1@ == "Invalid user role"@,
            *self == APIError::ServiceUnavailable ==> r.0 == 503 && r.1@
                == "Service unavailable"@,
    {
        match self {
            APIError::Unauthorized => (400, "Invalid user role"),
            APIError::ServiceUnavailable => (503, "Service unavailable"),
        }
    }
}

} // verus!
