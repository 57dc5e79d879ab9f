//! The registry of markets of the matching engine.
use crate::clock::{new_id, now, Timestamp};
use crate::errors::EngineError;
use crate::messages::{EngineIncomingMessage, EngineOutGoingMessage};
use std::collections::HashMap;
use vstd::prelude::*;

verus! {

broadcast use vstd::std_specs::hash::group_hash_axioms;

/// A market, with the sending end `sender` of the queue of its matching task.
#[derive(Debug, Clone)]
pub struct Market<S> {
    pub market_id: u128,
    pub market_name: String,
    pub sender: S,
    pub created_at: Timestamp,
    pub creator: u128,
    pub active: bool,
}

/// The markets, by identifier.
pub struct Engine<S> {
    pub markets: HashMap<u128, Market<S>>,
}

impl<S> Market<S> {
    /// The same market, paused.
    pub open spec fn paused(self) -> Market<S> {
        Market {
            market_id: self.market_id,
            market_name: self.market_name,
            sender: self.sender,
            created_at: self.created_at,
            creator: self.creator,
            active: false,
        }
    }
}

impl<S> Engine<S> {
    /// An engine with no markets.
    pub fn new() -> (r: Engine<S>)
        ensures
            r.markets@ == Map::<u128, Market<S>>::empty(),
    {
        Engine { markets: HashMap::new() }
    }

    /// Registers an active market named `market_name`, created by `creator_id`, whose
    /// matching task listens on the other end of `sender`, under a fresh random identifier.
    /// Returns the identifier and the time of creation.
    pub fn create_market(&mut self, market_name: String, creator_id: u128, sender: S) -> (r: (
        u128,
        Timestamp,
    ))
        ensures
            final(self).markets@ == old(self).markets@.insert(
                r.0,
                Market {
                    market_id: r.0,
                    market_name: market_name,
                    sender: sender,
                    created_at: r.1,
                    creator: creator_id,
                    active: true,
                },
            ),
    {
        let market_id = new_id();
        let timestamp = now();
        self.markets.insert(
            market_id,
            Market {
                market_name,
                market_id,
                sender,
                created_at: timestamp,
                creator: creator_id,
                active: true,
            },
        );
        (market_id, timestamp)
    }

    /// Removes the market `market_id`; returns the time of removal, or `MarketNotFound`.
    pub fn delete_market(&mut self, market_id: u128) -> (r: Result<Timestamp, EngineError>)
        ensures
            old(self).markets@.contains_key(market_id) ==> r is Ok && final(self).markets@ == old(
                self,
            ).markets@.remove(market_id),
            !old(self).markets@.contains_key(market_id) ==> r == Err::<Timestamp, EngineError>(
                EngineError::MarketNotFound,
            ) && final(self).markets@ == old(self).markets@,
    {
        match self.markets.remove(&market_id) {
            Some(_) => Ok(now()),
            None => Err(EngineError::MarketNotFound),
        }
    }

    /// Pauses the market `market_id`; returns the time, or `MarketNotFound`.
    pub fn pause_market(&mut self, market_id: u128) -> (r: Result<Timestamp, EngineError>)
        ensures
            old(self).markets@.contains_key(market_id) ==> r is Ok && final(self).markets@ == old(
                self,
            ).markets@.insert(market_id, old(self).markets@[market_id].paused()),
            !old(self).markets@.contains_key(market_id) ==> r == Err::<Timestamp, EngineError>(
                EngineError::MarketNotFound,
            ) && final(self).markets@ == old(self).markets@,
    {
        match self.markets.remove(&market_id) {
            Some(market) => {
                let mut market = market;
                market.active = false;
                self.markets.insert(market_id, market);
                proof {
                    assert(self.markets@ =~= old(self).markets@.insert(
                        market_id,
                        old(self).markets@[market_id].paused(),
                    ));
                }
                Ok(now())
            },
            None => Err(EngineError::MarketNotFound),
        }
    }
}

/// Handles one request of the engine's queue.  A request to create a market registers it,
/// with `sender` as the sending end of its matching task's queue, and answers the client
/// `client_id` with `MarketCreated`; the engine does nothing with any other request.
pub fn engine_step<S>(engine: &mut Engine<S>, msg: EngineIncomingMessage, sender: S) -> (r: Option<
    (u128, EngineOutGoingMessage),
>)
    ensures
        msg matches EngineIncomingMessage::CreateMarket { client_id, user_id, name } ==> (
        r matches Some((c, EngineOutGoingMessage::MarketCreated { market_id, creater, created_at }))
            && c == client_id && creater == user_id && final(engine).markets@ == old(
            engine,
        ).markets@.insert(
            market_id,
            (Market {
                market_id: market_id,
                market_name: name,
                sender: sender,
                created_at: created_at,
                creator: user_id,
                active: true,
            }),
        )),
        !(msg is CreateMarket) ==> r is None && final(engine).markets@ == old(engine).markets@,
{
    match msg {
        EngineIncomingMessage::CreateMarket { client_id, user_id, name } => {
            let (market_id, created_at) = engine.create_market(name, user_id, sender);
            Some(
                (
                    client_id,
                    EngineOutGoingMessage::MarketCreated { market_id, creater: user_id, created_at },
                ),
            )
        },
        _ => None,
    }
}

/// Deleting a market that was just created under a fresh identifier gives back the
/// registry.
pub proof fn lemma_create_then_delete<S>(m: Map<u128, Market<S>>, id: u128, market: Market<S>)
    requires
        !m.contains_key(id),
    ensures
        m.insert(id, market).remove(id) == m,
{
    assert(m.insert(id, market).remove(id) =~= m);
}

/// Pausing a market keeps the set of markets and every other market, and leaves it
/// inactive; pausing it again changes nothing.
pub proof fn lemma_pause<S>(m: Map<u128, Market<S>>, id: u128)
    requires
        m.contains_key(id),
    ensures
        m.insert(id, m[id].paused()).dom() == m.dom(),
        !m.insert(id, m[id].paused())[id].active,
        ({
            let m1 = m.insert(id, m[id].paused());
            m1.insert(id, m1[id].paused()) == m1
        }),
{
    assert(m.dom().insert(id) =~= m.dom());
    let m1 = m.insert(id, m[id].paused());
    assert(m1.insert(id, m1[id].paused()) =~= m1);
}

} // verus!
