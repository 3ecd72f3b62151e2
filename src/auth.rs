//! Credentials and session claims.
use vstd::prelude::*;

verus! {

/// An error surfaced to a caller as an internal failure.
#[derive(Clone, Debug)]
pub struct AppError {
    pub message: String,
}

impl AppError {
    pub fn new(message: String) -> (r: AppError)
        ensures
            r.message == message,
    {
        AppError { message }
    }
}

/// A login request.
#[derive(Clone, Debug)]
pub struct Login {
    pub user: String,
    pub password: String,
}

/// The claims of a session token.
#[derive(Clone, Debug)]
pub struct Claims {
    pub sub: String,
    pub exp: usize,
    pub email: String,
}

/// Whether a password matches an encoded Argon2 hash, or `None` when the
/// hash cannot be decoded.
pub uninterp spec fn argon2_verdict(encoded: Seq<char>, password: Seq<char>) -> Option<bool>;

/// Relies on argon2::verify_encoded: checks the password's bytes against the
/// encoded hash, failing when the hash does not decode.
#[verifier::external_body]
fn verify_password(encoded: &str, password: &str) -> (r: Option<bool>)
    ensures
        r == argon2_verdict(encoded@, password@),
{
    argon2::verify_encoded(encoded, password.as_bytes()).ok()
}

impl Login {
    /// Whether the login names `user_name` and its password matches
    /// `user_hash`. The hash is only checked for the right user; a hash that
    /// does not decode is an error.
    pub fn check(&self, user_name: &String, user_hash: &String) -> (r: Result<bool, AppError>)
        ensures
            self.user@ != user_name@ ==> r == Ok::<bool, AppError>(false),
            self.user@ == user_name@ ==> match argon2_verdict(user_hash@, self.password@) {
                Some(v) => r == Ok::<bool, AppError>(v),
                None => r is Err,
            },
    {
        if self.user != *user_name {
            return Ok(false);
        }
        match verify_password(user_hash.as_str(), self.password.as_str()) {
            Some(v) => Ok(v),
            None => Err(AppError::new("the stored password hash does not decode".to_string())),
        }
    }
}

impl Claims {
    /// The claims of a session for `sub` opened at `now_secs` that lasts
    /// `duration_secs`; `None` when the expiry is not a valid instant.
    pub fn issue(sub: String, email: String, now_secs: i64, duration_secs: i64) -> (r: Option<
        Claims,
    >)
        ensures
            0 <= now_secs + duration_secs <= usize::MAX && now_secs + duration_secs <= i64::MAX ==> (r matches Some(c) && c.sub == sub
                && c.email == email && c.exp == now_secs + duration_secs),
            !(0 <= now_secs + duration_secs <= usize::MAX && now_secs + duration_secs <= i64::MAX)
                ==> r is None,
    {
        let exp = match now_secs.checked_add(duration_secs) {
            Some(e) => e,
            None => return None,
        };
        if exp < 0 || exp as u64 > usize::MAX as u64 {
            return None;
        }
        Some(Claims { sub, exp: exp as usize, email })
    }
}

} // verus!
