//! Data of the market endpoints and the events they publish.
use crate::api::middleware::{admin_gate, Role};
use crate::clock::Timestamp;
use crate::errors::APIError;
use vstd::prelude::*;

verus! {

#[derive(Clone, Debug)]
pub struct CreateMarketRequestData {
    pub name: String,
}

#[derive(Clone, Copy, Debug)]
pub struct CreateMarketResponseData {
    pub market_id: u128,
    pub creater: u128,
    pub created_at: Timestamp,
}

#[derive(Clone, Debug)]
pub struct MarketEvent {
    pub client_id: u128,
    pub name: String,
    pub user_id: u128,
}

#[derive(Clone, Copy, Debug)]
pub struct DeleteMarketEvent {
    pub client_id: u128,
    pub market_id: u128,
}

#[derive(Clone, Copy, Debug)]
pub struct DeleteMarketRequestData {
    pub market_id: u128,
}

#[derive(Clone, Copy, Debug)]
pub struct DeleteMarketResponseData {
    pub client_id: u128,
    pub market_id: u128,
    pub user_id: u128,
    pub deleted: bool,
    pub timestamp: Timestamp,
}

#[derive(Clone, Copy, Debug)]
pub struct PauseMarketRequestData {
    pub market_id: u128,
}

#[derive(Clone, Copy, Debug)]
pub struct PauseMarketResponseData {
    pub client_id: u128,
    pub market_id: u128,
    pub user_id: u128,
    pub paused: bool,
    pub timestamp: Timestamp,
}

#[derive(Clone, Copy, Debug)]
pub struct PauseMarketEvent {
    pub client_id: u128,
    pub market_id: u128,
    pub user_id: u128,
}

/// The event that a request to create a market publishes: only an administrator may make
/// it; `client_id` names the request, to which the engine's reply is addressed.
pub fn create_market_event(
    role: Role,
    user_id: u128,
    client_id: u128,
    payload: CreateMarketRequestData,
) -> (r: Result<MarketEvent, APIError>)
    ensures
        role == Role::Admin ==> (r matches Ok(e) && e.client_id == client_id && e.user_id
            == user_id && e.name == payload.name),
        role == Role::User ==> r == Err::<MarketEvent, APIError>(APIError::Unauthorized),
{
    match admin_gate(role) {
        Ok(()) => Ok(MarketEvent { client_id, name: payload.name, user_id }),
        Err(e) => Err(e),
    }
}

/// The event that a request to delete a market publishes: only an administrator may make
/// it.
pub fn delete_market_event(role: Role, client_id: u128, payload: DeleteMarketRequestData) -> (r:
    Result<DeleteMarketEvent, APIError>)
    ensures
        role == Role::Admin ==> r == Ok::<DeleteMarketEvent, APIError>(
            DeleteMarketEvent { client_id: client_id, market_id: payload.market_id },
        ),
        role == Role::User ==> r == Err::<DeleteMarketEvent, APIError>(APIError::Unauthorized),
{
    match admin_gate(role) {
        Ok(()) => Ok(DeleteMarketEvent { client_id, market_id: payload.market_id }),
        Err(e) => Err(e),
    }
}

/// The event that a request to pause a market publishes: only an administrator may make it.
pub fn pause_market_event(
    role: Role,
    user_id: u128,
    client_id: u128,
    payload: PauseMarketRequestData,
) -> (r: Result<PauseMarketEvent, APIError>)
    ensures
        role == Role::Admin ==> r == Ok::<PauseMarketEvent, APIError>(
            PauseMarketEvent { client_id: client_id, market_id: payload.market_id, user_id: user_id },
        ),
        role == Role::User ==> r == Err::<PauseMarketEvent, APIError>(APIError::Unauthorized),
{
    match admin_gate(role) {
        Ok(()) => Ok(PauseMarketEvent { client_id, market_id: payload.market_id, user_id }),
        Err(e) => Err(e),
    }
}

} // verus!
