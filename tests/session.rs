use word_chain::credentials::basic::BasicAuth;
use word_chain::credentials::jwt::Jwt;
use word_chain::credentials::tokens::{AccessToken, RefreshToken, SessionFailure};
use word_chain::encrypt::Salt;
use word_chain::jwt::{BearerError, Jwt as BearerJwt};
use word_chain::routes::account::AccountRow;
use word_chain::routes::login::{check_login, LoginFailure};

const SECRET: &str = "s3cret";

fn account(id: &str, password: &str) -> AccountRow {
    let salt = Salt::from("0123456789abcdefghijklmnopqrstuv");
    let hash = salt.salt(password);
    AccountRow::new(id.to_string(), salt.value().to_string(), hash)
}

fn token_at(who: &str, t: i64) -> String {
    Jwt::issued_at(who, t).to_string(SECRET).unwrap()
}

#[test]
fn access_token_fresh_until_fifteen_minutes() {
    let access = token_at("alice", 0);
    let at_899 = AccessToken::check_at(SECRET, Some(&access), None, 899).unwrap();
    assert_eq!(at_899.subject, "alice");
    assert!(!at_899.needs_refresh);
    let at_900 = AccessToken::check_at(SECRET, Some(&access), None, 900).unwrap();
    assert!(!at_900.needs_refresh);
    assert_eq!(
        AccessToken::check_at(SECRET, Some(&access), None, 901).err(),
        Some(SessionFailure::MissingRefresh)
    );
}

#[test]
fn expired_access_with_refresh_needs_renewal() {
    let access = token_at("alice", 0);
    let refresh = token_at("alice", 0);
    let check = AccessToken::check_at(SECRET, Some(&access), Some(&refresh), 901).unwrap();
    assert_eq!(check.subject, "alice");
    assert!(check.needs_refresh);
    let row = account("alice", "pw");
    let pair = AccessToken::renew_at(SECRET, &check.subject, Some(&row), 901).unwrap();
    let new_access = Jwt::from(SECRET, &pair.access_token).unwrap();
    let new_refresh = Jwt::from(SECRET, &pair.refresh_token).unwrap();
    assert_eq!(new_access.account_id(), "alice");
    assert_eq!(new_refresh.account_id(), "alice");
    assert!(new_access.timestamp() > 0);
    assert_eq!(new_access.timestamp(), 901);
}

#[test]
fn subject_mismatch_is_refused() {
    let access = token_at("alice", 0);
    let refresh = token_at("mallory", 0);
    assert_eq!(
        AccessToken::check_at(SECRET, Some(&access), Some(&refresh), 1000).err(),
        Some(SessionFailure::SubjectMismatch)
    );
    let old_refresh = token_at("mallory", -8000000);
    assert_eq!(
        AccessToken::check_at(SECRET, Some(&access), Some(&old_refresh), 1000).err(),
        Some(SessionFailure::RefreshExpired)
    );
}

#[test]
fn refresh_window_is_ninety_days() {
    let access = token_at("alice", 0);
    let refresh = token_at("alice", 0);
    assert!(AccessToken::check_at(SECRET, Some(&access), Some(&refresh), 7776000).is_ok());
    assert_eq!(
        AccessToken::check_at(SECRET, Some(&access), Some(&refresh), 7776001).err(),
        Some(SessionFailure::RefreshExpired)
    );
}

#[test]
fn missing_and_malformed_cookies() {
    assert_eq!(
        AccessToken::check_at(SECRET, None, None, 0).err(),
        Some(SessionFailure::MissingAccess)
    );
    assert_eq!(
        AccessToken::check_at(SECRET, Some("nothex"), None, 0).err(),
        Some(SessionFailure::MalformedAccess)
    );
    let access = token_at("alice", 0);
    assert_eq!(
        AccessToken::check_at(SECRET, Some(&access), Some("00"), 5000).err(),
        Some(SessionFailure::MalformedRefresh)
    );
    assert!(AccessToken::from_cookie(SECRET, None).is_err());
    assert!(RefreshToken::from_cookie(SECRET, Some(&access)).is_ok());
}

#[test]
fn renewal_needs_the_account() {
    let row = account("alice", "pw");
    assert_eq!(
        AccessToken::renew_at(SECRET, "alice", None, 5).err(),
        Some(SessionFailure::UnknownAccount)
    );
    assert_eq!(
        AccessToken::renew_at(SECRET, "bob", Some(&row), 5).err(),
        Some(SessionFailure::UnknownAccount)
    );
}

#[test]
fn login_then_fresh_then_renewed() {
    let row = account("alice", "hunter2");
    let auth = BasicAuth::from("Basic YWxpY2U6aHVudGVyMg==").unwrap();
    assert_eq!(auth.id(), "alice");
    assert_eq!(auth.password(), "hunter2");
    assert_eq!(check_login(&auth, Some(&row)), Ok(()));
    let t0: i64 = 1700000000;
    let pair = AccessToken::authorize_at(SECRET, auth.id(), t0).unwrap();
    let access = Jwt::from(SECRET, &pair.access_token).unwrap();
    let refresh = Jwt::from(SECRET, &pair.refresh_token).unwrap();
    assert_eq!(access.account_id(), refresh.account_id());
    assert_ne!(pair.access_token, pair.refresh_token);

    let fresh = AccessToken::check_at(SECRET, Some(&pair.access_token), None, t0 + 60).unwrap();
    assert_eq!(fresh.subject, "alice");
    assert!(!fresh.needs_refresh);

    let later = t0 + 1000;
    let aged = AccessToken::check_at(SECRET, Some(&pair.access_token), Some(&pair.refresh_token), later)
        .unwrap();
    assert!(aged.needs_refresh);
    let renewed = AccessToken::renew_at(SECRET, &aged.subject, Some(&row), later).unwrap();
    let new_access = Jwt::from(SECRET, &renewed.access_token).unwrap();
    let new_refresh = Jwt::from(SECRET, &renewed.refresh_token).unwrap();
    assert!(new_access.timestamp() > access.timestamp());
    assert!(new_refresh.timestamp() > refresh.timestamp());
    assert_eq!(new_access.account_id(), "alice");
}

#[test]
fn authorize_now_issues_a_pair() {
    let pair = AccessToken::authorize(SECRET, "carol").unwrap();
    let access = Jwt::from(SECRET, &pair.access_token).unwrap();
    assert_eq!(access.account_id(), "carol");
    let check = AccessToken::validate_authorization(SECRET, Some(&pair.access_token), None).unwrap();
    assert_eq!(check.subject, "carol");
}

#[test]
fn login_failures() {
    let row = account("alice", "hunter2");
    let wrong = BasicAuth::from("Basic YWxpY2U6d3Jvbmc=").unwrap();
    assert_eq!(check_login(&wrong, Some(&row)), Err(LoginFailure::PasswordMismatch));
    assert_eq!(check_login(&wrong, None), Err(LoginFailure::AccountNotFound));
}

#[test]
fn basic_header_forms() {
    assert!(BasicAuth::from("Basic dXNlcjpwYXNz").is_some());
    assert!(BasicAuth::from("Bearer dXNlcjpwYXNz").is_none());
    assert!(BasicAuth::from("Basic  dXNlcjpwYXNz").is_none());
    assert!(BasicAuth::from("Basic dXNlcnBhc3M=").is_none());
    assert!(BasicAuth::from("Basic YTpiOmM=").is_none());
    assert!(BasicAuth::from("Basic !!!").is_none());
    let empty = BasicAuth::from("Basic Og==").unwrap();
    assert_eq!(empty.id(), "");
    assert_eq!(empty.password(), "");
}

#[test]
fn bearer_check_outcomes() {
    let token = BearerJwt::issued_at("42", 1000).to_string(SECRET).unwrap();
    let header = format!("Bearer {}", token);
    assert_eq!(BearerJwt::authorize_at(SECRET, "42", Some(Some(&header)), 1899), Ok(()));
    assert_eq!(
        BearerJwt::authorize_at(SECRET, "42", Some(Some(&header)), 1901),
        Err(BearerError::Expired)
    );
    assert_eq!(
        BearerJwt::authorize_at(SECRET, "7", Some(Some(&header)), 1100),
        Err(BearerError::Forbidden)
    );
    assert_eq!(BearerJwt::authorize_at(SECRET, "42", None, 1100), Err(BearerError::Missing));
    assert_eq!(BearerJwt::authorize_at(SECRET, "42", Some(None), 1100), Err(BearerError::Malformed));
    assert_eq!(
        BearerJwt::authorize_at(SECRET, "42", Some(Some("Bearer")), 1100),
        Err(BearerError::Malformed)
    );
    assert_eq!(
        BearerJwt::authorize_at(SECRET, "42", Some(Some("Bearer a b")), 1100),
        Err(BearerError::Malformed)
    );
    let basic = format!("Basic {}", token);
    assert_eq!(
        BearerJwt::authorize_at(SECRET, "42", Some(Some(&basic)), 1100),
        Err(BearerError::Unsupported)
    );
    assert_eq!(
        BearerJwt::authorize_at(SECRET, "42", Some(Some("Bearer 00ff")), 1100),
        Err(BearerError::Unparsable)
    );
    let back = BearerJwt::from(SECRET, &token).unwrap();
    assert_eq!(back.account_id(), "42");
    assert!(!back.expired_at(1900));
    assert!(back.expired_at(1901));
}

#[test]
fn account_row_getters() {
    let row = account("dave", "pw");
    assert_eq!(row.id(), "dave");
    assert_eq!(row.salt(), "0123456789abcdefghijklmnopqrstuv");
    assert_eq!(row.passhash(), Sha256Hex::of("0123456789abcdefghijklmnopqrstuvpw"));
    assert!(row.password_matches("pw"));
    assert!(!row.password_matches("pW"));
}

struct Sha256Hex;

impl Sha256Hex {
    fn of(s: &str) -> String {
        word_chain::encrypt::Sha256::hash(s)
    }
}

#[test]
fn fresh_access_with_foreign_refresh_is_refused() {
    let access = token_at("alice", 0);
    let refresh = token_at("mallory", 0);
    assert_eq!(
        AccessToken::check_at(SECRET, Some(&access), Some(&refresh), 10).err(),
        Some(SessionFailure::SubjectMismatch)
    );
    let own = token_at("alice", 0);
    let check = AccessToken::check_at(SECRET, Some(&access), Some(&own), 10).unwrap();
    assert_eq!(check.subject, "alice");
    assert!(!check.needs_refresh);
    let garbage = AccessToken::check_at(SECRET, Some(&access), Some("zz"), 10).unwrap();
    assert!(!garbage.needs_refresh);
}

#[test]
fn issued_tokens_carry_fresh_nonces() {
    let jwt = Jwt::new("erin");
    let text = String::from_utf8(jwt.payload()).unwrap();
    let nonce = &text[text.find("\"nonce\":\"").unwrap() + 9..text.len() - 2];
    assert_eq!(nonce.len(), 32);
    assert!(nonce.chars().all(|c| c.is_ascii_alphanumeric()));
    let token = jwt.to_string(SECRET).unwrap();
    assert_eq!(token.len(), 2 * (12 + text.len() + 16));
}

#[test]
fn decoded_basic_credentials() {
    let auth = BasicAuth::from_decoded(b"user:pass").unwrap();
    assert_eq!(auth.id(), "user");
    assert_eq!(auth.password(), "pass");
    assert!(BasicAuth::from_decoded(b"userpass").is_none());
    assert!(BasicAuth::from_decoded(b"a:b:c").is_none());
    assert!(BasicAuth::from_decoded(&[0xff, b':', b'x']).is_none());
}

#[test]
fn salted_hash_is_sixty_four_hex_digits() {
    let salt = Salt::from("");
    assert_eq!(
        salt.salt(""),
        "a7ffc6f8bf1ed76651c14756a061d662f580ff4de43b49fa82d80a4b80f8434a"
    );
    let h = Salt::new().salt("pw");
    assert_eq!(h.len(), 64);
    assert!(h.chars().all(|c| c.is_ascii_hexdigit() && !c.is_ascii_uppercase()));
}
