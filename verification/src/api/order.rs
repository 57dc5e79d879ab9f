//! Data of the order endpoints and the events they publish.
use crate::amount::Amount;
use crate::clock::Timestamp;
use crate::order::Order;
use vstd::prelude::*;

verus! {

#[derive(Clone, Copy, Debug)]
pub struct PlaceOrderRequestData {
    pub price: Amount,
    pub quantity: Amount,
    pub market_id: u128,
}

#[derive(Clone, Copy, Debug)]
pub struct PlaceOrderResponseData {
    pub order_id: u128,
    pub timestamp: Timestamp,
}

#[derive(Clone, Copy, Debug)]
pub struct PlaceOrderEvent {
    pub price: Amount,
    pub quantity: Amount,
    pub market_id: u128,
    pub user_id: u128,
    pub client_id: u128,
}

#[derive(Clone, Copy, Debug)]
pub struct CancelOrderRequestData {
    pub order_id: u128,
}

#[derive(Clone, Copy, Debug)]
pub struct CancelOrderResponseData {
    pub order_id: u128,
    pub timestamp: Timestamp,
    pub filled_quantity: Amount,
}

#[derive(Clone, Copy, Debug)]
pub struct CancelOrderEvent {
    pub client_id: u128,
    pub order_id: u128,
}

#[derive(Clone, Copy, Debug)]
pub struct CreateOrderRequestData {
    pub price: Amount,
    pub quantity: Amount,
    pub market_id: u128,
}

#[derive(Clone, Copy, Debug)]
pub struct CreateOrderResponseData {
    pub order_id: u128,
}

#[derive(Clone, Copy, Debug)]
pub struct GetAllOrderForMarketRequestData {
    pub market_id: u128,
}

#[derive(Debug)]
pub struct GetAllOrderForMarketResponseData {
    pub orders: Vec<Order>,
}

} // verus!
