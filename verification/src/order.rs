//! Orders and fills.
use crate::amount::Amount;
use crate::clock::Timestamp;
use vstd::prelude::*;

verus! {

#[derive(Clone, Copy, Debug, PartialEq, Eq, Structural)]
pub enum Side {
    Bid,
    Ask,
}

#[derive(Clone, Copy, Debug, PartialEq, Eq, Structural)]
pub enum Status {
    Filled,
    PartiallyFilled,
    Cancelled,
    Pending,
}

/// A limit order: buy (`Bid`) or sell (`Ask`) `quantity` at `price` or better.
#[derive(Clone, Copy, Debug)]
pub struct Order {
    pub market_id: u128,
    pub user_id: u128,
    pub order_id: u128,
    pub price: Amount,
    pub quantity: Amount,
    pub filled_quantity: Amount,
    pub side: Side,
    pub status: Status,
    pub timestamp: Timestamp,
}

/// A trade between a resting (maker) order and an incoming (taker) order.
#[derive(Clone, Copy, Debug)]
pub struct Fill {
    pub market_id: u128,
    pub maker_order_id: u128,
    pub taker_order_id: u128,
    pub taker_user_id: u128,
    pub maker_user_id: u128,
    pub price: Amount,
    pub quantity: Amount,
    pub timestamp: Timestamp,
}

/// A fill as the contracts see it: the time (which comes from the clock) is left out.
pub struct FillView {
    pub market_id: u128,
    pub maker_order_id: u128,
    pub taker_order_id: u128,
    pub taker_user_id: u128,
    pub maker_user_id: u128,
    pub price: Amount,
    pub quantity: Amount,
}

impl Order {
    /// The three decimals of the order are valid decimals.
    pub open spec fn wf(self) -> bool {
        self.price.wf() && self.quantity.wf() && self.filled_quantity.wf()
    }

    /// What is left to fill, by value.
    pub open spec fn remaining(self) -> int {
        self.quantity.value() - self.filled_quantity.value()
    }

    /// The order still has quantity left.
    pub open spec fn is_open(self) -> bool {
        self.filled_quantity.value() < self.quantity.value()
    }

    /// The same order with filled quantity `filled`.
    pub open spec fn with_filled(self, filled: Amount) -> Order {
        Order {
            market_id: self.market_id,
            user_id: self.user_id,
            order_id: self.order_id,
            price: self.price,
            quantity: self.quantity,
            filled_quantity: filled,
            side: self.side,
            status: self.status,
            timestamp: self.timestamp,
        }
    }
}

impl Fill {
    pub open spec fn view(self) -> FillView {
        FillView {
            market_id: self.market_id,
            maker_order_id: self.maker_order_id,
            taker_order_id: self.taker_order_id,
            taker_user_id: self.taker_user_id,
            maker_user_id: self.maker_user_id,
            price: self.price,
            quantity: self.quantity,
        }
    }
}

} // verus!
