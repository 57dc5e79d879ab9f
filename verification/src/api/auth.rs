//! Login and registration data.
use vstd::prelude::*;

verus! {

#[derive(Clone, Debug)]
pub struct LoginRequestData {
    pub email: String,
    pub password: String,
}

#[derive(Clone, Debug)]
pub struct LoginResponseData {
    pub jwt: String,
}

#[derive(Clone, Debug)]
pub struct RegisterRequestData {
    pub email: String,
    pub password: String,
    pub name: String,
}

#[derive(Clone, Debug)]
pub struct RegisterResponseData {
    pub jwt: String,
    pub user_id: u128,
}

} // verus!
