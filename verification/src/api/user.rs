//! Data of the user endpoints.
use crate::amount::Amount;
use crate::order::Order;
use vstd::prelude::*;

verus! {

#[derive(Clone, Debug)]
pub struct LoginRequestData {
    pub email: String,
    pub password: String,
}

#[derive(Clone, Copy, Debug)]
pub struct LoginResponseData {
    pub user_id: u128,
}

#[derive(Clone, Debug)]
pub struct RegisterRequestData {
    pub email: String,
    pub password: String,
    pub name: String,
}

#[derive(Clone, Copy, Debug)]
pub struct RegisterResponseData {
    pub user_id: u128,
}

#[derive(Clone, Copy, Debug)]
pub struct GetBalanceResponse {
    pub locked_balance: Amount,
    pub available_balance: Amount,
}

#[derive(Debug)]
pub struct GetProfileResponse {
    pub locked_balance: Amount,
    pub available_balance: Amount,
    pub orders: Vec<Order>,
}

} // verus!
