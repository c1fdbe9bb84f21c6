//! The credential plumbing the client and server share: the signed
//! claim a bearer token carries, the header it travels in, and the
//! context a logged-in client keeps.
//!
//! Signing and verifying the token is the token library's work outside
//! this crate; what is verified here is the claim construction and the
//! header framing, which both sides must agree on. The header word is
//! `Baerer`, letter for letter, as both sides of the wire spell it.

use vstd::prelude::*;

verus! {

/// Seconds in the one-week token lifetime.
pub const TOKEN_LIFETIME_SECONDS: u64 = 604800;

/// The claim a bearer token carries: the subject user and the expiry
/// as a Unix timestamp.
#[derive(Debug)]
pub struct Claims {
    pub sub: String,
    pub exp: usize,
}

/// Build the claim for a freshly issued token: it names the user and
/// expires one week from now.
pub fn make_claims(sub: String, now_seconds: usize) -> (r: Claims)
    requires
        now_seconds + TOKEN_LIFETIME_SECONDS <= usize::MAX,
    ensures
        r.sub == sub,
        r.exp == now_seconds + TOKEN_LIFETIME_SECONDS,
{
    Claims { sub, exp: now_seconds + TOKEN_LIFETIME_SECONDS as usize }
}

/// What a logged-in client remembers.
#[derive(Debug, Clone)]
pub struct AuthContext {
    pub url: String,
    pub access_token: String,
    pub user_id: String,
}

/// Attaches the bearer credential to every outgoing call.
#[derive(Debug)]
pub struct AuthInterceptor {
    pub access_token: String,
}

/// The word before the token in the authorization header.
pub open spec fn bearer_prefix() -> Seq<char> {
    "Baerer "@
}

/// The token with every leading `Baerer ` marker removed, as the
/// server reads the header.
pub open spec fn strip_bearer(s: Seq<char>) -> Seq<char>
    decreases s.len(),
{
    if bearer_prefix().is_prefix_of(s) && s.len() >= 7 {
        strip_bearer(s.skip(7))
    } else {
        s
    }
}

impl AuthInterceptor {
    pub fn new(access_token: String) -> (r: Self)
        ensures
            r.access_token == access_token,
    {
        Self { access_token }
    }

    /// The header value the interceptor attaches to a call.
    pub fn authorization_header(&self) -> (r: String)
        ensures
            r@ == bearer_prefix() + self.access_token@,
    {
        let mut out: String = "Baerer ".to_owned();
        out.append(self.access_token.as_str());
        out
    }
}

/// Read the token out of an authorization header value, stripping the
/// leading `Baerer ` marker as the server does.
pub fn parse_bearer(header: &str) -> (r: String)
    ensures
        r@ == strip_bearer(header@),
{
    let mut start: usize = 0;
    let len: usize = header.unicode_len();
    proof {
        reveal_strlit("Baerer ");
        assert(header@.subrange(0, len as int) =~= header@);
    }
    while crate::paths::str_starts_with(header.substring_char(start, len), "Baerer ")
        invariant
            0 <= start <= len,
            len == header@.len(),
            strip_bearer(header@) == strip_bearer(
                header@.subrange(start as int, len as int),
            ),
        decreases len - start,
    {
        proof {
            reveal_strlit("Baerer ");
            let rest = header@.subrange(start as int, len as int);
            assert(bearer_prefix().len() == 7);
            assert(rest.skip(7) =~= header@.subrange(start + 7, len as int));
        }
        start = start + 7;
    }
    proof {
        reveal_strlit("Baerer ");
        let rest = header@.subrange(start as int, len as int);
        assert(strip_bearer(rest) == rest);
    }
    header.substring_char(start, len).to_owned()
}

} // verus!
