//! Access rule of the admin HTTP endpoints.
//!
//! When an admin token is configured, `/status` requires the header
//! `Authorization: Bearer <token>`; otherwise every request is allowed.
//! Refused requests are answered with status 401.
use vstd::prelude::*;

verus! {

/// HTTP status code of a refused request.
pub const UNAUTHORIZED: u16 = 401;

/// The request may proceed: no token is configured, or the `Authorization`
/// header is `Bearer ` followed by exactly the token.
pub open spec fn auth_allows(admin_token: Option<Seq<char>>, authorization: Option<Seq<char>>) -> bool {
    match admin_token {
        None => true,
        Some(expected) => match authorization {
            Some(v) => v.len() >= 7 && v.take(7) == "Bearer "@ && v.skip(7) == expected,
            None => false,
        },
    }
}

/// The header value starts with `Bearer `.
fn has_bearer_prefix(value: &str) -> (b: bool)
    ensures
        b == (value@.len() >= 7 && value@.take(7) == "Bearer "@),
{
    let prefix = "Bearer ";
    proof {
        reveal_strlit("Bearer ");
    }
    let n = value.unicode_len();
    if n < 7 {
        return false;
    }
    let mut i: usize = 0;
    while i < 7
        invariant
            n == value@.len(),
            n >= 7,
            i <= 7,
            prefix@ == "Bearer "@,
            prefix@.len() == 7,
            forall|k: int| 0 <= k < i ==> value@[k] == prefix@[k],
        decreases 7 - i,
    {
        if value.get_char(i) != prefix.get_char(i) {
            assert(value@.take(7)[i as int] != "Bearer "@[i as int]);
            return false;
        }
        i = i + 1;
    }
    assert(value@.take(7) =~= "Bearer "@);
    true
}

/// Decide a request to a protected endpoint from the configured token and the
/// request's `Authorization` header (`None` when absent or not visible text).
pub fn authorize(admin_token: &Option<String>, authorization: Option<&str>) -> (r: Result<(), u16>)
    ensures
        r is Ok <==> auth_allows(
            match admin_token {
                Some(t) => Some(t@),
                None => None,
            },
            match authorization {
                Some(v) => Some(v@),
                None => None,
            },
        ),
        r is Err ==> r == Err::<(), u16>(UNAUTHORIZED),
{
    match admin_token {
        None => Ok(()),
        Some(expected) => match authorization {
            None => Err(UNAUTHORIZED),
            Some(value) => {
                if !has_bearer_prefix(value) {
                    return Err(UNAUTHORIZED);
                }
                let n = value.unicode_len();
                let token = value.substring_char(7, n);
                let token_owned = token.to_owned();
                assert(token@ =~= value@.skip(7));
                if token_owned == *expected {
                    Ok(())
                } else {
                    Err(UNAUTHORIZED)
                }
            },
        },
    }
}

} // verus!
