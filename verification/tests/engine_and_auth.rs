use exchange::api::middleware::{admin_gate, bearer_token, reply_or_unavailable, Claims, Role};
use exchange::api::market::{
    create_market_event, delete_market_event, pause_market_event, CreateMarketRequestData,
    DeleteMarketRequestData, PauseMarketRequestData,
};
use exchange::engine::{engine_step, Engine};
use exchange::messages::{EngineIncomingMessage, EngineOutGoingMessage};
use exchange::errors::{APIError, BalanceError, BookError, EngineError};

#[test]
fn markets_are_created_paused_and_deleted() {
    let mut engine: Engine<u8> = Engine::new();
    assert!(engine.markets.is_empty());
    let (id, created_at) = engine.create_market("BTCUSDT".to_string(), 42, 9);
    let market = &engine.markets[&id];
    assert!(market.active);
    assert_eq!(market.market_name, "BTCUSDT");
    assert_eq!(market.creator, 42);
    assert_eq!(market.sender, 9);
    assert_eq!(market.created_at, created_at);

    assert!(engine.pause_market(id).is_ok());
    assert!(!engine.markets[&id].active);
    assert_eq!(engine.markets.len(), 1);
    assert!(engine.pause_market(id).is_ok());
    assert!(!engine.markets[&id].active);
    assert_eq!(engine.markets[&id].market_name, "BTCUSDT");

    assert!(engine.delete_market(id).is_ok());
    assert!(engine.markets.is_empty());
    assert_eq!(engine.delete_market(id), Err(EngineError::MarketNotFound));
    assert_eq!(engine.pause_market(id), Err(EngineError::MarketNotFound));
}

#[test]
fn bearer_tokens_are_taken_from_the_header() {
    assert_eq!(bearer_token("Bearer abc.def"), Some("abc.def"));
    assert_eq!(bearer_token("Bearer "), Some(""));
    assert_eq!(bearer_token("bearer abc"), None);
    assert_eq!(bearer_token("Bearer"), None);
    assert_eq!(bearer_token("Basic abc"), None);
}

#[test]
fn tokens_expire_a_day_after_issue() {
    let c = Claims::expiring(5, Role::User, 1_000);
    assert_eq!(c.exp, 87_400);
    assert_eq!(c.user_id, 5);
    assert_eq!(c.role, Role::User);
}

#[test]
fn only_admins_manage_markets() {
    assert_eq!(admin_gate(Role::Admin), Ok(()));
    assert_eq!(admin_gate(Role::User), Err(APIError::Unauthorized));
}

#[test]
fn missing_reply_means_service_unavailable() {
    assert_eq!(reply_or_unavailable(Some(3)), Ok(3));
    assert_eq!(reply_or_unavailable::<u8>(None), Err(APIError::ServiceUnavailable));
}

#[test]
fn errors_answer_with_status_and_message() {
    assert_eq!(BookError::InvalidQuantity.response(), (400, "Invalid quantity"));
    assert_eq!(BookError::InvalidBook.response(), (400, "Invalid book"));
    assert_eq!(BalanceError::UserNotFound.response(), (404, "user not found"));
    assert_eq!(BalanceError::InsufficientFunds.response(), (422, "insufficient funds"));
    assert_eq!(BalanceError::InvalidAmount.response(), (400, "invalid amount"));
    assert_eq!(BalanceError::StateReadingFailed.response(), (500, "State reading ailed"));
    assert_eq!(APIError::Unauthorized.response(), (400, "Invalid user role"));
    assert_eq!(APIError::ServiceUnavailable.response(), (503, "Service unavailable"));
}

#[test]
fn engine_step_creates_markets_and_ignores_the_rest() {
    let mut engine: Engine<u8> = Engine::new();
    let msg = EngineIncomingMessage::CreateMarket { client_id: 11, user_id: 22, name: "BTCUSDT".to_string() };
    match engine_step(&mut engine, msg, 5u8) {
        Some((client, EngineOutGoingMessage::MarketCreated { market_id, creater, created_at })) => {
            assert_eq!(client, 11);
            assert_eq!(creater, 22);
            let m = &engine.markets[&market_id];
            assert_eq!(m.market_name, "BTCUSDT");
            assert_eq!(m.sender, 5);
            assert_eq!(m.creator, 22);
            assert!(m.active);
            assert_eq!(m.created_at.secs, created_at.secs);
        }
        other => panic!("unexpected {:?}", other),
    }
    assert_eq!(engine.markets.len(), 1);
    let msg = EngineIncomingMessage::PauseMarket { client_id: 1, user_id: 2, market_id: 3 };
    assert!(engine_step(&mut engine, msg, 6u8).is_none());
    assert!(engine_step(&mut engine, EngineIncomingMessage::PlaceOrder, 7u8).is_none());
    assert_eq!(engine.markets.len(), 1);
}

#[test]
fn market_requests_build_their_events_for_admins_only() {
    let req = CreateMarketRequestData { name: "SOLUSDT".to_string() };
    let e = create_market_event(Role::Admin, 3, 9, req.clone()).unwrap();
    assert_eq!((e.client_id, e.user_id, e.name.as_str()), (9, 3, "SOLUSDT"));
    assert!(matches!(create_market_event(Role::User, 3, 9, req), Err(APIError::Unauthorized)));
    let e = delete_market_event(Role::Admin, 9, DeleteMarketRequestData { market_id: 5 }).unwrap();
    assert_eq!((e.client_id, e.market_id), (9, 5));
    assert!(delete_market_event(Role::User, 9, DeleteMarketRequestData { market_id: 5 }).is_err());
    let e = pause_market_event(Role::Admin, 3, 9, PauseMarketRequestData { market_id: 5 }).unwrap();
    assert_eq!((e.client_id, e.market_id, e.user_id), (9, 5, 3));
    assert!(pause_market_event(Role::User, 3, 9, PauseMarketRequestData { market_id: 5 }).is_err());
}
