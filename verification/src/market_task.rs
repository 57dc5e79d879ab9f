//! The decisions of the task that owns the order book of one market.
use crate::amount::Amount;
use crate::book::{fills_view, Orderbook};
use crate::book_run::{fills_total_of, place_ok, place_run};
use crate::errors::BookError;
use crate::messages::EngineMessage;
use crate::order::Fill;
use vstd::prelude::*;

verus! {

/// What the market task does after handling one message from its queue.
#[derive(Debug)]
pub enum MarketAction {
    /// The order was placed: the quantity executed and the fills.
    Placed(Amount, Vec<Fill>),
    /// The order was refused.
    Rejected(BookError),
    /// The queue is closed: the market is shutting down.
    Shutdown,
}

/// Handles one message of the market's queue (`None` when the queue is closed): an order
/// is placed on the book, in the order the messages come, with the decimals `rust_decimal`
/// computes.  An order that holds an invalid decimal, or whose matching would make
/// `rust_decimal` overflow (on which placing it panics), is refused with `InvalidQuantity`
/// and the book is left as it was.
pub fn market_step(book: &mut Orderbook, msg: Option<EngineMessage>) -> (r: MarketAction)
    requires
        old(book).wf(),
    ensures
        final(book).wf(),
        msg is None ==> r is Shutdown && *final(book) == *old(book),
        msg matches Some(EngineMessage::PlaceOrder(o)) ==> (if o.wf() && place_ok(old(book)@, o) {
            r matches MarketAction::Placed(executed, fills) && ({
                let (b2, t, fs) = place_run(old(book)@, o);
                &&& final(book)@ == b2
                &&& fills_view(fills@) == fs
                &&& executed == fills_total_of(fs)
            })
        } else {
            r == MarketAction::Rejected(BookError::InvalidQuantity) && *final(book) == *old(book)
        }),
{
    match msg {
        Some(EngineMessage::PlaceOrder(order)) => {
            if book.can_place(&order) {
                match book.place_order(order) {
                    Ok((executed, fills)) => MarketAction::Placed(executed, fills),
                    Err(e) => MarketAction::Rejected(e),
                }
            } else {
                MarketAction::Rejected(BookError::InvalidQuantity)
            }
        },
        None => MarketAction::Shutdown,
    }
}

} // verus!
