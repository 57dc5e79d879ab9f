use exchange::amount::Amount;
use exchange::balances::{deduct, lock, unlock, DeductRequest, LockRequest, UnlockRequest, User};
use uuid::Uuid;
use exchange::errors::BalanceError;
use rust_decimal::Decimal;
use std::collections::HashMap;

fn dec(v: i64) -> Amount {
    Amount::from_parts(v as i128, 0).unwrap()
}

fn new_id() -> u128 {
    Uuid::new_v4().as_u128()
}

fn d(a: Amount) -> Decimal {
    Decimal::from_i128_with_scale(a.mantissa, a.scale)
}

fn make_state(user: User) -> HashMap<u128, User> {
    let mut users = HashMap::new();
    users.insert(user.user_id, user);
    users
}

fn get_user(user_id: u128, state: &HashMap<u128, User>) -> Result<User, BalanceError> {
    match state.get(&user_id) {
        None => Err(BalanceError::UserNotFound),
        Some(user) => Ok(*user),
    }
}

#[test]
fn test_lock_moves_to_locked_balance() {
    let user_id = new_id();
    let user = User { available_balance: dec(1000), locked_balance: dec(500), user_id };
    let mut state = make_state(user);
    let lock_req = LockRequest { amount: dec(500), user_id };

    let result = lock(&mut state, lock_req);
    assert!(result.is_ok());
    let updated_user = get_user(user_id, &state).unwrap();
    assert_eq!(d(updated_user.locked_balance), Decimal::new(1000, 0));
    assert_eq!(d(updated_user.available_balance), Decimal::new(500, 0));
}

#[test]
fn test_lock_changes_nothing_for_amount_0() {
    let user_id = new_id();
    let user = User { available_balance: dec(1000), locked_balance: dec(500), user_id };
    let mut state = make_state(user);
    let lock_req = LockRequest { amount: dec(0), user_id };

    let result = lock(&mut state, lock_req);
    let updated_user = get_user(user_id, &state).unwrap();
    assert_eq!(d(updated_user.locked_balance), Decimal::new(500, 0));
    assert_eq!(d(updated_user.available_balance), Decimal::new(1000, 0));
    assert!(matches!(result, Err(BalanceError::InvalidAmount)));
}

#[test]
fn test_lock_fails_for_negative_balance() {
    let user_id = new_id();
    let user = User { available_balance: dec(1000), locked_balance: dec(500), user_id };
    let mut state = make_state(user);
    let lock_req = LockRequest { amount: dec(-500), user_id };

    let result = lock(&mut state, lock_req);
    assert!(result.is_err());
}

#[test]
fn test_lock_fails_for_amount_greater_than_balance() {
    let user_id = new_id();
    let user = User { available_balance: dec(1000), locked_balance: dec(500), user_id };
    let mut state = make_state(user);
    let lock_req = LockRequest { amount: dec(50000), user_id };

    let result = lock(&mut state, lock_req);
    assert!(result.is_err());
}

#[test]
fn test_unlock_moves_to_available_balance() {
    let user_id = new_id();
    let user = User { available_balance: dec(1000), locked_balance: dec(500), user_id };
    let mut state = make_state(user);
    let unlock_req = UnlockRequest { amount: dec(500), user_id };

    let result = unlock(&mut state, unlock_req);
    assert!(result.is_ok());
    let updated_user = get_user(user_id, &state).unwrap();
    assert_eq!(d(updated_user.locked_balance), Decimal::new(0, 0));
    assert_eq!(d(updated_user.available_balance), Decimal::new(1500, 0));
}

#[test]
fn test_unlock_changes_nothing_for_amount_0() {
    let user_id = new_id();
    let user = User { available_balance: dec(1000), locked_balance: dec(500), user_id };
    let mut state = make_state(user);
    let unlock_req = UnlockRequest { amount: dec(0), user_id };

    let result = unlock(&mut state, unlock_req);
    let updated_user = get_user(user_id, &state).unwrap();
    assert_eq!(d(updated_user.locked_balance), Decimal::new(500, 0));
    assert_eq!(d(updated_user.available_balance), Decimal::new(1000, 0));
    assert!(matches!(result, Err(BalanceError::InvalidAmount)));
}

#[test]
fn test_unlock_fails_for_negative_balance() {
    let user_id = new_id();
    let user = User { available_balance: dec(1000), locked_balance: dec(500), user_id };
    let mut state = make_state(user);
    let unlock_req = UnlockRequest { amount: dec(-500), user_id };

    let result = unlock(&mut state, unlock_req);
    assert!(result.is_err());
}

#[test]
fn test_unlock_fails_for_amount_greater_than_balance() {
    let user_id = new_id();
    let user = User { available_balance: dec(1000), locked_balance: dec(500), user_id };
    let mut state = make_state(user);
    let unlock_req = UnlockRequest { amount: dec(50000), user_id };

    let result = unlock(&mut state, unlock_req);
    assert!(result.is_err());
}

#[test]
fn lock_then_unlock_restores_balances() {
    let user_id = new_id();
    let user = User { available_balance: dec(1000), locked_balance: dec(500), user_id };
    let mut state = make_state(user);
    let amount = Amount::from_parts(2505, 1).unwrap();
    lock(&mut state, LockRequest { user_id, amount }).unwrap();
    let mid = get_user(user_id, &state).unwrap();
    assert_eq!(d(mid.available_balance), Decimal::new(7495, 1));
    assert_eq!(d(mid.locked_balance) + d(mid.available_balance), Decimal::new(1500, 0));
    unlock(&mut state, UnlockRequest { user_id, amount }).unwrap();
    let after = get_user(user_id, &state).unwrap();
    assert_eq!(d(after.available_balance), Decimal::new(1000, 0));
    assert_eq!(d(after.locked_balance), Decimal::new(500, 0));
}

#[test]
fn operations_on_unknown_user_are_refused() {
    let mut state = make_state(User::new(1));
    assert_eq!(lock(&mut state, LockRequest { user_id: 2, amount: dec(1) }), Err(BalanceError::UserNotFound));
    assert_eq!(unlock(&mut state, UnlockRequest { user_id: 2, amount: dec(1) }), Err(BalanceError::UserNotFound));
    assert_eq!(
        deduct(&mut state, DeductRequest { from: 1, to: 2, amount: dec(1) }),
        Err(BalanceError::UserNotFound)
    );
    let u = get_user(1, &state).unwrap();
    assert_eq!(d(u.available_balance), Decimal::new(0, 0));
    assert_eq!(d(u.locked_balance), Decimal::new(0, 0));
}

#[test]
fn deduct_refuses_when_available_exceeds_amount() {
    let mut state = make_state(User { user_id: 1, available_balance: dec(100), locked_balance: dec(0) });
    state.insert(2, User::new(2));
    let r = deduct(&mut state, DeductRequest { from: 1, to: 2, amount: dec(10) });
    assert_eq!(r, Err(BalanceError::InsufficientFunds));
    assert_eq!(d(get_user(1, &state).unwrap().available_balance), Decimal::new(100, 0));
}

#[test]
fn deduct_moves_funds_and_conserves_their_total() {
    let mut state = make_state(User { user_id: 1, available_balance: dec(5), locked_balance: dec(3) });
    state.insert(2, User { user_id: 2, available_balance: dec(7), locked_balance: dec(0) });
    assert_eq!(deduct(&mut state, DeductRequest { from: 1, to: 2, amount: dec(10) }), Ok(()));
    let from = get_user(1, &state).unwrap();
    let to = get_user(2, &state).unwrap();
    assert_eq!(d(from.available_balance), Decimal::new(-5, 0));
    assert_eq!(d(to.available_balance), Decimal::new(17, 0));
    assert_eq!(d(from.available_balance) + d(to.available_balance), Decimal::new(12, 0));
    assert_eq!(d(from.locked_balance), Decimal::new(3, 0));
}

#[test]
fn deduct_to_oneself_changes_nothing() {
    let mut state = make_state(User { user_id: 1, available_balance: dec(5), locked_balance: dec(0) });
    assert_eq!(deduct(&mut state, DeductRequest { from: 1, to: 1, amount: dec(10) }), Ok(()));
    assert_eq!(d(get_user(1, &state).unwrap().available_balance), Decimal::new(5, 0));
    assert_eq!(
        deduct(&mut state, DeductRequest { from: 1, to: 1, amount: dec(0) }),
        Err(BalanceError::InvalidAmount)
    );
}
