//! The balance errors as the balance service reports them to other services.
use vstd::prelude::*;

verus! {

#[derive(Clone, Copy, Debug, PartialEq, Eq, Structural)]
pub enum BalanceError {
    UserNotFound,
    InsufficientFunds,
    InvalidAmount,
}

} // verus!
