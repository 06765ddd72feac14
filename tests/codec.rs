use word_chain::credentials::jwt::{Jwt, TokenError};
use word_chain::encrypt::{Aes256, CryptoError, Salt, Sha256};
use word_chain::jwt::Jwt as BearerJwt;

const SECRET: &str = "s3cret";

#[test]
fn token_round_trip() {
    let jwt = Jwt::issued_at("alice", 1700000000);
    let token = jwt.to_string(SECRET).unwrap();
    let back = Jwt::from(SECRET, &token).unwrap();
    assert_eq!(back.account_id(), "alice");
    assert_eq!(back.timestamp(), 1700000000);
    assert_eq!(back.payload(), jwt.payload());
}

#[test]
fn token_round_trip_with_escapes_and_negative_time() {
    let jwt = Jwt::issued_at("a\"b\\c\n\u{1}é", -42);
    let token = jwt.to_string(SECRET).unwrap();
    let back = Jwt::from(SECRET, &token).unwrap();
    assert_eq!(back.account_id(), "a\"b\\c\n\u{1}é");
    assert_eq!(back.timestamp(), -42);
}

#[test]
fn payload_is_canonical_json() {
    let jwt = BearerJwt::issued_at("a\"b", -12);
    assert_eq!(
        String::from_utf8(jwt.payload()).unwrap(),
        "{\"account_id\":\"a\\\"b\",\"timestamp\":-12}"
    );
    let jwt = Jwt::issued_at("bob", 0);
    let text = String::from_utf8(jwt.payload()).unwrap();
    assert!(text.starts_with("{\"account_id\":\"bob\",\"timestamp\":0,\"nonce\":\""));
    assert!(text.ends_with("\"}"));
    assert_eq!(text.len(), "{\"account_id\":\"bob\",\"timestamp\":0,\"nonce\":\"\"}".len() + 32);
}

#[test]
fn payload_parse_refuses_other_forms() {
    assert!(BearerJwt::parse(b"{\"account_id\":\"a\",\"timestamp\":1}").is_some());
    assert!(BearerJwt::parse(b"{\"account_id\":\"a\",\"timestamp\":01}").is_none());
    assert!(BearerJwt::parse(b"{\"account_id\":\"a\", \"timestamp\":1}").is_none());
    assert!(BearerJwt::parse(b"{\"account_id\":\"\\u0061\",\"timestamp\":1}").is_none());
    assert!(BearerJwt::parse(b"{\"account_id\":\"a\",\"timestamp\":9223372036854775808}").is_none());
    let min = BearerJwt::parse(b"{\"account_id\":\"a\",\"timestamp\":-9223372036854775808}").unwrap();
    assert!(min.expired_at(0));
}

#[test]
fn tampered_token_fails_authentication() {
    let token = Jwt::issued_at("alice", 10).to_string(SECRET).unwrap();
    let digits = b"0123456789abcdef";
    for i in 0..token.len() {
        let mut bytes = token.clone().into_bytes();
        let v = digits.iter().position(|d| *d == bytes[i]).unwrap();
        bytes[i] = digits[v ^ 1];
        let tampered = String::from_utf8(bytes).unwrap();
        assert_eq!(
            Jwt::from(SECRET, &tampered).err(),
            Some(TokenError::DecryptFailed(CryptoError::AuthenticationFailed))
        );
    }
}

#[test]
fn wrong_secret_fails_authentication() {
    let token = Jwt::issued_at("alice", 10).to_string(SECRET).unwrap();
    assert_eq!(
        Jwt::from("other", &token).err(),
        Some(TokenError::DecryptFailed(CryptoError::AuthenticationFailed))
    );
}

#[test]
fn malformed_encodings_are_refused() {
    assert_eq!(Aes256::decrypt(SECRET, "zz").err(), Some(CryptoError::MalformedEncoding));
    assert_eq!(Aes256::decrypt(SECRET, "abc").err(), Some(CryptoError::MalformedEncoding));
    assert_eq!(Aes256::decrypt(SECRET, "0011").err(), Some(CryptoError::MalformedEncoding));
    assert_eq!(
        Jwt::from(SECRET, "").err(),
        Some(TokenError::DecryptFailed(CryptoError::MalformedEncoding))
    );
}

#[test]
fn encrypted_text_that_is_not_a_payload_is_malformed() {
    let blob = Aes256::encrypt(SECRET, "hello").unwrap();
    assert_eq!(Aes256::decrypt(SECRET, &blob).unwrap(), "hello");
    assert_eq!(Jwt::from(SECRET, &blob).err(), Some(TokenError::MalformedPayload));
}

#[test]
fn encryption_uses_fresh_nonces() {
    let a = Aes256::encrypt(SECRET, "same").unwrap();
    let b = Aes256::encrypt(SECRET, "same").unwrap();
    assert_ne!(a, b);
    assert_eq!(a.len(), 2 * (12 + 4 + 16));
    assert!(a.chars().all(|c| c.is_ascii_hexdigit() && !c.is_ascii_uppercase()));
}

#[test]
fn uppercase_hex_is_accepted() {
    let blob = Aes256::encrypt(SECRET, "x").unwrap();
    assert_eq!(Aes256::decrypt(SECRET, &blob.to_uppercase()).unwrap(), "x");
}

#[test]
fn sha3_digest_in_hex() {
    assert_eq!(
        Sha256::hash(""),
        "a7ffc6f8bf1ed76651c14756a061d662f580ff4de43b49fa82d80a4b80f8434a"
    );
    assert_eq!(Sha256::hash("abc").len(), 64);
    assert_ne!(Sha256::hash("abc"), Sha256::hash("abd"));
}

#[test]
fn salt_prefixes_the_key() {
    let salt = Salt::from("pepper");
    assert_eq!(salt.value(), "pepper");
    assert_eq!(salt.salt("word"), Sha256::hash("pepperword"));
    let fresh = Salt::new();
    assert_eq!(fresh.value().len(), 32);
    assert!(fresh.value().chars().all(|c| c.is_ascii_alphanumeric()));
}
