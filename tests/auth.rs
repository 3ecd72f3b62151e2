use moried::auth::{AppError, Claims, Login};

const HASH: &str = "$argon2i$v=19$m=4096,t=3,p=1$c29tZXNhbHQ$iWh06vD8Fy27wf9npn6FXWiCX4K6pW6Ue1Bnzz07Z8A";

fn login(user: &str, password: &str) -> Login {
    Login { user: user.to_string(), password: password.to_string() }
}

#[test]
fn right_user_and_password_match() {
    assert!(matches!(login("me", "password").check(&"me".to_string(), &HASH.to_string()), Ok(true)));
}

#[test]
fn wrong_password_does_not_match() {
    assert!(matches!(login("me", "passw0rd").check(&"me".to_string(), &HASH.to_string()), Ok(false)));
}

#[test]
fn wrong_user_is_refused_before_the_hash() {
    let r = login("you", "password").check(&"me".to_string(), &"not a hash".to_string());
    assert!(matches!(r, Ok(false)));
}

#[test]
fn undecodable_hash_is_an_error() {
    let r = login("me", "password").check(&"me".to_string(), &"not a hash".to_string());
    assert!(r.is_err());
}

#[test]
fn claims_expire_after_duration() {
    let c = Claims::issue("me".to_string(), "me@example.com".to_string(), 1_000, 6 * 3600).unwrap();
    assert_eq!(c.exp, 1_000 + 21_600);
    assert_eq!(c.sub, "me");
    assert_eq!(c.email, "me@example.com");
}

#[test]
fn claims_refuse_invalid_expiry() {
    assert!(Claims::issue("me".to_string(), "e".to_string(), -100, 10).is_none());
    assert!(Claims::issue("me".to_string(), "e".to_string(), i64::MAX, 1).is_none());
}

#[test]
fn app_error_keeps_message() {
    assert_eq!(AppError::new("boom".to_string()).message, "boom");
}
