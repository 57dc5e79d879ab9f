//! Authentication: JSON web token claims and the `Authorization` header.
use crate::errors::APIError;
use vstd::prelude::*;

verus! {

#[derive(Clone, Copy, Debug, PartialEq, Eq, Structural)]
pub enum Role {
    Admin,
    User,
}

/// The claims of an access token.
#[derive(Clone, Copy, Debug)]
pub struct Claims {
    pub user_id: u128,
    pub role: Role,
    /// expiry, in seconds since the Unix epoch
    pub exp: usize,
}

/// How long an access token is valid: 24 hours.
pub const TOKEN_LIFETIME_SECS: u64 = 86400;

impl Claims {
    /// The claims of a token for `user_id` with `role`, issued at `now_secs` (seconds since
    /// the Unix epoch) and valid for 24 hours.
    pub fn expiring(user_id: u128, role: Role, now_secs: u64) -> (r: Claims)
        requires
            now_secs + TOKEN_LIFETIME_SECS <= u64::MAX,
        ensures
            r.user_id == user_id,
            r.role == role,
            r.exp == (now_secs + 86400) as usize,
    {
        let exp = now_secs + TOKEN_LIFETIME_SECS;
        Claims { user_id, exp: exp as usize, role }
    }
}

pub open spec fn bearer_prefix() -> Seq<char> {
    seq!['B', 'e', 'a', 'r', 'e', 'r', ' ']
}

/// The token of an `Authorization` header value of the form `Bearer <token>`.
pub fn bearer_token(header: &str) -> (r: Option<&str>)
    ensures
        header@.len() >= 7 && header@.subrange(0, 7) == bearer_prefix() ==> (r matches Some(t)
            && t@ == header@.subrange(7, header@.len() as int)),
        !(header@.len() >= 7 && header@.subrange(0, 7) == bearer_prefix()) ==> r is None,
{
    let len = header.unicode_len();
    if len < 7 {
        return None;
    }
    let c0 = header.get_char(0);
    let c1 = header.get_char(1);
    let c2 = header.get_char(2);
    let c3 = header.get_char(3);
    let c4 = header.get_char(4);
    let c5 = header.get_char(5);
    let c6 = header.get_char(6);
    if c0 == 'B' && c1 == 'e' && c2 == 'a' && c3 == 'r' && c4 == 'e' && c5 == 'r' && c6 == ' ' {
        proof {
            assert(header@.subrange(0, 7) =~= bearer_prefix());
        }
        Some(header.substring_char(7, len))
    } else {
        proof {
            if header@.subrange(0, 7) == bearer_prefix() {
                assert(header@[0] == header@.subrange(0, 7)[0]);
                assert(header@[1] == header@.subrange(0, 7)[1]);
                assert(header@[2] == header@.subrange(0, 7)[2]);
                assert(header@[3] == header@.subrange(0, 7)[3]);
                assert(header@[4] == header@.subrange(0, 7)[4]);
                assert(header@[5] == header@.subrange(0, 7)[5]);
                assert(header@[6] == header@.subrange(0, 7)[6]);
            }
        }
        None
    }
}

/// Only an administrator may manage markets.
pub fn admin_gate(role: Role) -> (r: Result<(), APIError>)
    ensures
        role == Role::Admin ==> r is Ok,
        role == Role::User ==> r == Err::<(), APIError>(APIError::Unauthorized),
{
    match role {
        Role::Admin => Ok(()),
        Role::User => Err(APIError::Unauthorized),
    }
}

/// The engine's reply to a request, or `ServiceUnavailable` when none came in time.
pub fn reply_or_unavailable<T>(reply: Option<T>) -> (r: Result<T, APIError>)
    ensures
        reply matches Some(t) ==> r == Ok::<T, APIError>(t),
        reply is None ==> r == Err::<T, APIError>(APIError::ServiceUnavailable),
{
    match reply {
        Some(t) => Ok(t),
        None => Err(APIError::ServiceUnavailable),
    }
}

} // verus!
