//! User balances: funds available to spend and funds locked in open orders.
use crate::amount::{
    add_exact, add_of, add_ok, decimal_add, decimal_le, decimal_lt, decimal_sub, is_ok,
    lemma_diff_amount, lemma_sub_then_add_exact, lemma_sum_amount, sub_exact, sub_of, sub_ok,
    Amount,
};
use crate::errors::BalanceError;
use std::collections::HashMap;
use vstd::prelude::*;

verus! {

broadcast use vstd::std_specs::hash::group_hash_axioms;

#[derive(Clone, Copy, Debug)]
pub struct User {
    pub user_id: u128,
    /// locked in open orders
    pub locked_balance: Amount,
    /// available to spend
    pub available_balance: Amount,
}

/// A user's balances as the contracts see them: by value.
pub struct UserView {
    pub user_id: u128,
    pub locked: int,
    pub available: int,
}

#[derive(Clone, Copy, Debug)]
pub struct LockRequest {
    pub user_id: u128,
    pub amount: Amount,
}

#[derive(Clone, Copy, Debug)]
pub struct UnlockRequest {
    pub user_id: u128,
    pub amount: Amount,
}

#[derive(Clone, Copy, Debug)]
pub struct DeductRequest {
    pub from: u128,
    pub to: u128,
    pub amount: Amount,
}

impl User {
    pub open spec fn view(self) -> UserView {
        UserView {
            user_id: self.user_id,
            locked: self.locked_balance.value(),
            available: self.available_balance.value(),
        }
    }

    pub open spec fn wf(self) -> bool {
        self.locked_balance.wf() && self.available_balance.wf()
    }

    /// A user with nothing locked and nothing available.
    pub fn new(user_id: u128) -> (r: User)
        ensures
            r.wf(),
            r.user_id == user_id,
            r.locked_balance.mantissa == 0 && r.locked_balance.scale == 0,
            r.available_balance.mantissa == 0 && r.available_balance.scale == 0,
    {
        User { user_id, locked_balance: Amount::zero(), available_balance: Amount::zero() }
    }
}

impl User {
    /// The user after `lock` of `a`: the decimals `rust_decimal` computes.
    pub open spec fn locked_by(self, a: Amount) -> User {
        User {
            user_id: self.user_id,
            locked_balance: add_of(self.locked_balance, a),
            available_balance: sub_of(self.available_balance, a),
        }
    }

    /// The user after `unlock` of `a`: the decimals `rust_decimal` computes.
    pub open spec fn unlocked_by(self, a: Amount) -> User {
        User {
            user_id: self.user_id,
            locked_balance: sub_of(self.locked_balance, a),
            available_balance: add_of(self.available_balance, a),
        }
    }

    /// The same user with available funds `available`.
    pub open spec fn with_available(self, available: Amount) -> User {
        User {
            user_id: self.user_id,
            locked_balance: self.locked_balance,
            available_balance: available,
        }
    }
}

/// The balances of all users, by value.
pub open spec fn balances_view(m: Map<u128, User>) -> Map<u128, UserView> {
    m.map_values(|u: User| u.view())
}

/// Every user's balances are valid decimals.
pub open spec fn users_wf(m: Map<u128, User>) -> bool {
    forall|k: u128| m.contains_key(k) ==> (#[trigger] m[k]).wf()
}

/// `lock` on balances `v`: the answer and the balances afterwards.
pub open spec fn lock_spec(v: Map<u128, UserView>, id: u128, a: int) -> (Result<(), BalanceError>, Map<
    u128,
    UserView,
>) {
    if a <= 0 {
        (Err(BalanceError::InvalidAmount), v)
    } else if !v.contains_key(id) {
        (Err(BalanceError::UserNotFound), v)
    } else if a > v[id].available {
        (Err(BalanceError::InsufficientFunds), v)
    } else {
        (
            Ok(()),
            v.insert(
                id,
                UserView {
                    user_id: v[id].user_id,
                    locked: v[id].locked + a,
                    available: v[id].available - a,
                },
            ),
        )
    }
}

/// `unlock` on balances `v`: the answer and the balances afterwards.
pub open spec fn unlock_spec(v: Map<u128, UserView>, id: u128, a: int) -> (Result<(), BalanceError>, Map<
    u128,
    UserView,
>) {
    if a <= 0 {
        (Err(BalanceError::InvalidAmount), v)
    } else if !v.contains_key(id) {
        (Err(BalanceError::UserNotFound), v)
    } else if a > v[id].locked {
        (Err(BalanceError::InsufficientFunds), v)
    } else {
        (
            Ok(()),
            v.insert(
                id,
                UserView {
                    user_id: v[id].user_id,
                    locked: v[id].locked - a,
                    available: v[id].available + a,
                },
            ),
        )
    }
}

/// `deduct` on balances `v`: the answer and the balances afterwards.  Note the comparison:
/// it refuses when `from` has more available than the amount.
pub open spec fn deduct_spec(v: Map<u128, UserView>, from: u128, to: u128, a: int) -> (Result<
    (),
    BalanceError,
>, Map<u128, UserView>) {
    if a <= 0 {
        (Err(BalanceError::InvalidAmount), v)
    } else if !(v.contains_key(from) && v.contains_key(to)) {
        (Err(BalanceError::UserNotFound), v)
    } else if v[from].available > a {
        (Err(BalanceError::InsufficientFunds), v)
    } else {
        let f = v[from];
        let v1 = v.insert(
            from,
            UserView { user_id: f.user_id, locked: f.locked, available: f.available - a },
        );
        let t = v1[to];
        (
            Ok(()),
            v1.insert(
                to,
                UserView { user_id: t.user_id, locked: t.locked, available: t.available + a },
            ),
        )
    }
}

/// `rust_decimal` does the arithmetic of `lock` on this state without overflowing.
pub open spec fn lock_ok(m: Map<u128, User>, p: LockRequest) -> bool {
    m.contains_key(p.user_id) && 0 < p.amount.value() && p.amount.value()
        <= m[p.user_id].available_balance.value() ==> {
        let u = m[p.user_id];
        &&& sub_ok(u.available_balance, p.amount)
        &&& add_ok(u.locked_balance, p.amount)
    }
}

/// `rust_decimal` does the arithmetic of `unlock` on this state without overflowing.
pub open spec fn unlock_ok(m: Map<u128, User>, p: UnlockRequest) -> bool {
    m.contains_key(p.user_id) && 0 < p.amount.value() && p.amount.value()
        <= m[p.user_id].locked_balance.value() ==> {
        let u = m[p.user_id];
        &&& sub_ok(u.locked_balance, p.amount)
        &&& add_ok(u.available_balance, p.amount)
    }
}

/// `rust_decimal` does the arithmetic of `deduct` on this state without overflowing: the
/// subtraction from `from`, then the addition to `to` (to what the subtraction left, when
/// `to` is `from`).
pub open spec fn deduct_ok(m: Map<u128, User>, p: DeductRequest) -> bool {
    m.contains_key(p.from) && m.contains_key(p.to) && 0 < p.amount.value() && !(
    m[p.from].available_balance.value() > p.amount.value()) ==> {
        let f = m[p.from];
        let to_available = if p.from == p.to {
            sub_of(f.available_balance, p.amount)
        } else {
            m[p.to].available_balance
        };
        &&& sub_ok(f.available_balance, p.amount)
        &&& add_ok(to_available, p.amount)
    }
}

/// The arithmetic of `lock` on this state is exact.
pub open spec fn lock_exact(m: Map<u128, User>, p: LockRequest) -> bool {
    m.contains_key(p.user_id) && 0 < p.amount.value() && p.amount.value()
        <= m[p.user_id].available_balance.value() ==> {
        let u = m[p.user_id];
        &&& sub_exact(u.available_balance, p.amount)
        &&& add_exact(u.locked_balance, p.amount)
    }
}

/// The arithmetic of `unlock` on this state is exact.
pub open spec fn unlock_exact(m: Map<u128, User>, p: UnlockRequest) -> bool {
    m.contains_key(p.user_id) && 0 < p.amount.value() && p.amount.value()
        <= m[p.user_id].locked_balance.value() ==> {
        let u = m[p.user_id];
        &&& sub_exact(u.locked_balance, p.amount)
        &&& add_exact(u.available_balance, p.amount)
    }
}

/// The arithmetic of `deduct` on this state is exact.
pub open spec fn deduct_exact(m: Map<u128, User>, p: DeductRequest) -> bool {
    m.contains_key(p.from) && m.contains_key(p.to) && 0 < p.amount.value() && !(
    m[p.from].available_balance.value() > p.amount.value()) ==> {
        let f = m[p.from];
        let t = m[p.to];
        &&& sub_exact(f.available_balance, p.amount)
        &&& p.from != p.to ==> add_exact(t.available_balance, p.amount)
    }
}

/// Moves `amount` of a user's available funds into their locked funds.
///
/// Refused with `InvalidAmount` when the amount is not positive, `UserNotFound` when the
/// user is unknown, and `InsufficientFunds` when the amount is above what is available;
/// the state is then unchanged.
pub fn lock(state: &mut HashMap<u128, User>, payload: LockRequest) -> (r: Result<(), BalanceError>)
    requires
        payload.amount.wf(),
        users_wf(old(state)@),
        lock_ok(old(state)@, payload),
    ensures
        users_wf(final(state)@),
        r == lock_spec(balances_view(old(state)@), payload.user_id, payload.amount.value()).0,
        lock_exact(old(state)@, payload) ==> balances_view(final(state)@) == lock_spec(balances_view(old(state)@), payload.user_id, payload.amount.value()).1,
        r is Err ==> final(state)@ == old(state)@,
        r is Ok ==> final(state)@ == old(state)@.insert(
            payload.user_id,
            old(state)@[payload.user_id].locked_by(payload.amount),
        ),
{
    let zero = Amount::zero();
    if decimal_le(&payload.amount, &zero) {
        return Err(BalanceError::InvalidAmount);
    }
    let user = match state.get(&payload.user_id) {
        Some(u) => *u,
        None => {
            return Err(BalanceError::UserNotFound);
        },
    };
    proof {
        assert(user.wf());
    }
    if decimal_lt(&user.available_balance, &payload.amount) {
        return Err(BalanceError::InsufficientFunds);
    }
    proof {
        if lock_exact(state@, payload) {
            lemma_diff_amount(user.available_balance, payload.amount);
            lemma_sum_amount(user.locked_balance, payload.amount);
        }
    }
    let mut updated = user;
    updated.available_balance = decimal_sub(&user.available_balance, &payload.amount);
    updated.locked_balance = decimal_add(&user.locked_balance, &payload.amount);
    let ghost before = state@;
    state.insert(payload.user_id, updated);
    proof {
        assert(balances_view(state@) =~= balances_view(before).insert(payload.user_id, updated.view()));
        assert forall|k: u128| state@.contains_key(k) implies (#[trigger] state@[k]).wf() by {
            if k != payload.user_id {
                assert(state@[k] == before[k]);
            }
        }
    }
    Ok(())
}

/// Moves `amount` of a user's locked funds back into their available funds.
///
/// Refused with `InvalidAmount` when the amount is not positive, `UserNotFound` when the
/// user is unknown, and `InsufficientFunds` when the amount is above what is locked; the
/// state is then unchanged.
pub fn unlock(state: &mut HashMap<u128, User>, payload: UnlockRequest) -> (r: Result<(), BalanceError>)
    requires
        payload.amount.wf(),
        users_wf(old(state)@),
        unlock_ok(old(state)@, payload),
    ensures
        users_wf(final(state)@),
        r == unlock_spec(balances_view(old(state)@), payload.user_id, payload.amount.value()).0,
        unlock_exact(old(state)@, payload) ==> balances_view(final(state)@) == unlock_spec(balances_view(old(state)@), payload.user_id, payload.amount.value()).1,
        r is Err ==> final(state)@ == old(state)@,
        r is Ok ==> final(state)@ == old(state)@.insert(
            payload.user_id,
            old(state)@[payload.user_id].unlocked_by(payload.amount),
        ),
{
    let zero = Amount::zero();
    if decimal_le(&payload.amount, &zero) {
        return Err(BalanceError::InvalidAmount);
    }
    let user = match state.get(&payload.user_id) {
        Some(u) => *u,
        None => {
            return Err(BalanceError::UserNotFound);
        },
    };
    proof {
        assert(user.wf());
    }
    if decimal_lt(&user.locked_balance, &payload.amount) {
        return Err(BalanceError::InsufficientFunds);
    }
    proof {
        if unlock_exact(state@, payload) {
            lemma_diff_amount(user.locked_balance, payload.amount);
            lemma_sum_amount(user.available_balance, payload.amount);
        }
    }
    let mut updated = user;
    updated.locked_balance = decimal_sub(&user.locked_balance, &payload.amount);
    updated.available_balance = decimal_add(&user.available_balance, &payload.amount);
    let ghost before = state@;
    state.insert(payload.user_id, updated);
    proof {
        assert(balances_view(state@) =~= balances_view(before).insert(payload.user_id, updated.view()));
        assert forall|k: u128| state@.contains_key(k) implies (#[trigger] state@[k]).wf() by {
            if k != payload.user_id {
                assert(state@[k] == before[k]);
            }
        }
    }
    Ok(())
}

/// Moves `amount` of available funds from user `from` to user `to`.
///
/// Refused with `InvalidAmount` when the amount is not positive and `UserNotFound` when
/// either user is unknown.  It is refused with `InsufficientFunds` when `from` has *more*
/// available than the amount, and goes ahead otherwise, so `from`'s available funds can
/// go below zero: that is the comparison the service makes.
pub fn deduct(state: &mut HashMap<u128, User>, payload: DeductRequest) -> (r: Result<(), BalanceError>)
    requires
        payload.amount.wf(),
        users_wf(old(state)@),
        deduct_ok(old(state)@, payload),
    ensures
        users_wf(final(state)@),
        r == deduct_spec(balances_view(old(state)@), payload.from, payload.to, payload.amount.value()).0,
        deduct_exact(old(state)@, payload) ==> balances_view(final(state)@) == deduct_spec(balances_view(old(state)@), payload.from, payload.to, payload.amount.value()).1,
        r is Err ==> final(state)@ == old(state)@,
        r is Ok ==> ({
            let f = old(state)@[payload.from];
            let s1 = old(state)@.insert(
                payload.from,
                f.with_available(sub_of(f.available_balance, payload.amount)),
            );
            let t = s1[payload.to];
            final(state)@ == s1.insert(
                payload.to,
                t.with_available(add_of(t.available_balance, payload.amount)),
            )
        }),
{
    let zero = Amount::zero();
    if decimal_le(&payload.amount, &zero) {
        return Err(BalanceError::InvalidAmount);
    }
    if !state.contains_key(&payload.from) || !state.contains_key(&payload.to) {
        return Err(BalanceError::UserNotFound);
    }
    let from_user = *state.get(&payload.from).unwrap();
    proof {
        assert(from_user.wf());
    }
    if decimal_lt(&payload.amount, &from_user.available_balance) {
        return Err(BalanceError::InsufficientFunds);
    }
    let ghost s0 = state@;
    let ghost exact = deduct_exact(state@, payload);
    proof {
        if exact {
            lemma_diff_amount(from_user.available_balance, payload.amount);
        }
    }
    let mut f2 = from_user;
    f2.available_balance = decimal_sub(&from_user.available_balance, &payload.amount);
    state.insert(payload.from, f2);
    let ghost s1 = state@;
    proof {
        assert(balances_view(s1) =~= balances_view(s0).insert(payload.from, f2.view()));
        assert forall|k: u128| s1.contains_key(k) implies (#[trigger] s1[k]).wf() by {
            if k != payload.from {
                assert(s1[k] == s0[k]);
            }
        }
    }
    let to_user = *state.get(&payload.to).unwrap();
    proof {
        assert(to_user.wf());
        if exact {
            if payload.from == payload.to {
                lemma_sub_then_add_exact(from_user.available_balance, payload.amount);
            }
            lemma_sum_amount(to_user.available_balance, payload.amount);
        }
    }
    let mut t2 = to_user;
    t2.available_balance = decimal_add(&to_user.available_balance, &payload.amount);
    state.insert(payload.to, t2);
    proof {
        assert(balances_view(state@) =~= balances_view(s1).insert(payload.to, t2.view()));
        assert forall|k: u128| state@.contains_key(k) implies (#[trigger] state@[k]).wf() by {
            if k != payload.to {
                assert(state@[k] == s1[k]);
            }
        }
    }
    Ok(())
}

/// Whether `lock_ok(state, payload)`, which `lock` requires.
pub fn lock_is_ok(state: &HashMap<u128, User>, payload: &LockRequest) -> (r: bool)
    requires
        payload.amount.wf(),
        users_wf(state@),
    ensures
        r == lock_ok(state@, *payload),
{
    match state.get(&payload.user_id) {
        None => true,
        Some(u) => {
            if decimal_le(&payload.amount, &Amount::zero()) || decimal_lt(
                &u.available_balance,
                &payload.amount,
            ) {
                true
            } else {
                is_ok(&u.available_balance, &payload.amount, false) && is_ok(
                    &u.locked_balance,
                    &payload.amount,
                    true,
                )
            }
        },
    }
}

/// Whether `unlock_ok(state, payload)`, which `unlock` requires.
pub fn unlock_is_ok(state: &HashMap<u128, User>, payload: &UnlockRequest) -> (r: bool)
    requires
        payload.amount.wf(),
        users_wf(state@),
    ensures
        r == unlock_ok(state@, *payload),
{
    match state.get(&payload.user_id) {
        None => true,
        Some(u) => {
            if decimal_le(&payload.amount, &Amount::zero()) || decimal_lt(
                &u.locked_balance,
                &payload.amount,
            ) {
                true
            } else {
                is_ok(&u.locked_balance, &payload.amount, false) && is_ok(
                    &u.available_balance,
                    &payload.amount,
                    true,
                )
            }
        },
    }
}

/// Whether `deduct_ok(state, payload)`, which `deduct` requires.
pub fn deduct_is_ok(state: &HashMap<u128, User>, payload: &DeductRequest) -> (r: bool)
    requires
        payload.amount.wf(),
        users_wf(state@),
    ensures
        r == deduct_ok(state@, *payload),
{
    match (state.get(&payload.from), state.get(&payload.to)) {
        (Some(f), Some(t)) => {
            if decimal_le(&payload.amount, &Amount::zero()) || decimal_lt(
                &payload.amount,
                &f.available_balance,
            ) {
                true
            } else if !is_ok(&f.available_balance, &payload.amount, false) {
                false
            } else {
                let left = decimal_sub(&f.available_balance, &payload.amount);
                proof {
                    assert(left == sub_of(f.available_balance, payload.amount));
                }
                if payload.from == payload.to {
                    is_ok(&left, &payload.amount, true)
                } else {
                    is_ok(&t.available_balance, &payload.amount, true)
                }
            }
        },
        _ => true,
    }
}

/// Locking an amount and then unlocking the same amount gives back the balances (of a
/// user whose locked balance is not negative).
pub proof fn lemma_lock_then_unlock(v: Map<u128, UserView>, id: u128, a: int)
    requires
        lock_spec(v, id, a).0 is Ok,
        v[id].locked >= 0,
    ensures
        unlock_spec(lock_spec(v, id, a).1, id, a) == (Ok::<(), BalanceError>(()), v),
{
    let v1 = lock_spec(v, id, a).1;
    let u2 = UserView {
        user_id: v1[id].user_id,
        locked: v1[id].locked - a,
        available: v1[id].available + a,
    };
    assert(u2 == v[id]);
    assert(v1.insert(id, u2) =~= v);
}

/// Unlocking an amount and then locking the same amount gives back the balances (of a
/// user whose available balance is not negative).
pub proof fn lemma_unlock_then_lock(v: Map<u128, UserView>, id: u128, a: int)
    requires
        unlock_spec(v, id, a).0 is Ok,
        v[id].available >= 0,
    ensures
        lock_spec(unlock_spec(v, id, a).1, id, a) == (Ok::<(), BalanceError>(()), v),
{
    let v1 = unlock_spec(v, id, a).1;
    let u2 = UserView {
        user_id: v1[id].user_id,
        locked: v1[id].locked + a,
        available: v1[id].available - a,
    };
    assert(u2 == v[id]);
    assert(v1.insert(id, u2) =~= v);
}

/// Locking and unlocking move funds between a user's two balances: their sum, every other
/// user, and the set of users stay the same.
pub proof fn lemma_lock_unlock_conserve(v: Map<u128, UserView>, id: u128, a: int)
    ensures
        ({
            let w = lock_spec(v, id, a).1;
            &&& w.dom() == v.dom()
            &&& forall|k: u128| #[trigger] w.contains_key(k) ==> k != id ==> w[k] == v[k]
            &&& v.contains_key(id) ==> w[id].locked + w[id].available == v[id].locked
                + v[id].available && w[id].user_id == v[id].user_id
        }),
        ({
            let w = unlock_spec(v, id, a).1;
            &&& w.dom() == v.dom()
            &&& forall|k: u128| #[trigger] w.contains_key(k) ==> k != id ==> w[k] == v[k]
            &&& v.contains_key(id) ==> w[id].locked + w[id].available == v[id].locked
                + v[id].available && w[id].user_id == v[id].user_id
        }),
{
    if v.contains_key(id) {
        assert(v.dom().insert(id) =~= v.dom());
    }
}

/// A deduction moves available funds from one user to another: their total available,
/// every locked balance, every other user, and the set of users stay the same.
pub proof fn lemma_deduct_conserves(v: Map<u128, UserView>, from: u128, to: u128, a: int)
    ensures
        ({
            let w = deduct_spec(v, from, to, a).1;
            &&& w.dom() == v.dom()
            &&& forall|k: u128|
                #[trigger] w.contains_key(k) ==> k != from ==> k != to ==> w[k] == v[k]
            &&& forall|k: u128|
                #[trigger] w.contains_key(k) ==> w[k].locked == v[k].locked && w[k].user_id
                    == v[k].user_id
            &&& v.contains_key(from) && v.contains_key(to) ==> (if from == to {
                w[from].available == v[from].available
            } else {
                w[from].available + w[to].available == v[from].available + v[to].available
            })
        }),
{
    if v.contains_key(from) && v.contains_key(to) {
        assert(v.dom().insert(from).insert(to) =~= v.dom());
    }
}

/// Locking and unlocking never make a balance negative.
pub proof fn lemma_lock_unlock_nonnegative(v: Map<u128, UserView>, id: u128, a: int)
    requires
        v.contains_key(id) ==> v[id].locked >= 0 && v[id].available >= 0,
    ensures
        lock_spec(v, id, a).1.contains_key(id) ==> lock_spec(v, id, a).1[id].locked >= 0
            && lock_spec(v, id, a).1[id].available >= 0,
        unlock_spec(v, id, a).1.contains_key(id) ==> unlock_spec(v, id, a).1[id].locked >= 0
            && unlock_spec(v, id, a).1[id].available >= 0,
{
}

/// A deduction of a positive amount between two known users goes through whenever the
/// payer has no more available than the amount (so also when it has exactly the amount):
/// the payer's available funds drop by the amount and the payee's rise by it, locked funds
/// stay, and no other user changes; a payment to oneself changes nothing.
pub proof fn lemma_deduct_goes_through(v: Map<u128, UserView>, from: u128, to: u128, a: int)
    requires
        a > 0,
        v.contains_key(from),
        v.contains_key(to),
        v[from].available <= a,
    ensures
        deduct_spec(v, from, to, a).0 is Ok,
        deduct_spec(v, from, to, a).1.dom() == v.dom(),
        from != to ==> deduct_spec(v, from, to, a).1[from].available == v[from].available - a
            && deduct_spec(v, from, to, a).1[to].available == v[to].available + a
            && deduct_spec(v, from, to, a).1[from].locked == v[from].locked
            && deduct_spec(v, from, to, a).1[to].locked == v[to].locked,
        from == to ==> deduct_spec(v, from, to, a).1[from] == v[from],
        forall|k: u128|
            v.contains_key(k) && k != from && k != to ==> #[trigger] deduct_spec(
                v,
                from,
                to,
                a,
            ).1[k] == v[k],
{
    let r = deduct_spec(v, from, to, a).1;
    assert(r.dom() =~= v.dom());
}

/// A deduction is refused with `InsufficientFunds`, and nothing changes, exactly when the
/// amount is positive, both users are known and the payer has more available than the
/// amount.
pub proof fn lemma_deduct_refused(v: Map<u128, UserView>, from: u128, to: u128, a: int)
    ensures
        (deduct_spec(v, from, to, a).0 == Err::<(), BalanceError>(BalanceError::InsufficientFunds))
            <==> (a > 0 && v.contains_key(from) && v.contains_key(to) && v[from].available > a),
        deduct_spec(v, from, to, a).0 is Err ==> deduct_spec(v, from, to, a).1 == v,
{
}

} // verus!
