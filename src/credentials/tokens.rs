use vstd::prelude::*;
use vstd::utf8::encode_utf8;
use crate::credentials::jwt::{decoded, fresh_nonce, lemma_payload_text_len, now_seconds, Claims, Jwt};
use crate::encrypt::CryptoError;
use crate::json_text::same_text;
use crate::jwt::is_expired;
use crate::routes::account::AccountRow;

verus! {

/// Seconds for which an access token is fresh: fifteen minutes.
pub const ACCESS_TOKEN_EXPIRES: i64 = 900;

/// Longest account id, in UTF-8 bytes, for which issuing is promised to succeed.
pub const SUBJECT_MAX: u64 = 4294967296;

/// Seconds for which a refresh token can renew a session: ninety days.
pub const REFRESH_TOKEN_EXPIRES: i64 = 7776000;

/// Why a session check did not give an identity.
#[derive(Debug, Clone, Copy, PartialEq, Eq, Structural)]
pub enum SessionFailure {
    MissingAccess,
    MalformedAccess,
    MissingRefresh,
    MalformedRefresh,
    RefreshExpired,
    SubjectMismatch,
    /// The account store has no account under the subject.
    UnknownAccount,
    /// New tokens could not be encrypted.
    IssueFailed,
}

/// The claims in a cookie value read under `secret`, if it holds a token.
pub open spec fn cookie_claims(secret: Seq<char>, cookie: Seq<char>) -> Option<Claims> {
    match decoded(secret, encode_utf8(cookie)) {
        Ok(c) => Some(c),
        Err(_) => None,
    }
}

/// The first part of the session check, on the two cookies at `now`: the
/// subject, and whether the session must be renewed from the refresh token.
/// A refresh token that names another subject is refused even beside a
/// fresh access token.
pub open spec fn session_check(
    secret: Seq<char>,
    access: Option<Seq<char>>,
    refresh: Option<Seq<char>>,
    now: int,
) -> Result<(Seq<char>, bool), SessionFailure> {
    match access {
        None => Err(SessionFailure::MissingAccess),
        Some(a) => match cookie_claims(secret, a) {
            None => Err(SessionFailure::MalformedAccess),
            Some(ac) => if !is_expired(ac.timestamp as int, now, ACCESS_TOKEN_EXPIRES as int) {
                match refresh {
                    Some(r) => match cookie_claims(secret, r) {
                        Some(rc) => if rc.account_id != ac.account_id {
                            Err(SessionFailure::SubjectMismatch)
                        } else {
                            Ok((ac.account_id, false))
                        },
                        None => Ok((ac.account_id, false)),
                    },
                    None => Ok((ac.account_id, false)),
                }
            } else {
                match refresh {
                    None => Err(SessionFailure::MissingRefresh),
                    Some(r) => match cookie_claims(secret, r) {
                        None => Err(SessionFailure::MalformedRefresh),
                        Some(rc) => if is_expired(rc.timestamp as int, now, REFRESH_TOKEN_EXPIRES as int) {
                            Err(SessionFailure::RefreshExpired)
                        } else if rc.account_id != ac.account_id {
                            Err(SessionFailure::SubjectMismatch)
                        } else {
                            Ok((ac.account_id, true))
                        },
                    },
                }
            },
        },
    }
}

pub open spec fn cookie_text(cookie: Option<&str>) -> Option<Seq<char>> {
    match cookie {
        None => None,
        Some(c) => Some(c@),
    }
}

/// A token whose claims carry the `issued_at` time `now` and the subject.
pub open spec fn issued_token(secret: Seq<char>, token: Seq<char>, subject: Seq<char>, now: int) -> bool {
    match cookie_claims(secret, token) {
        Some(c) => c.account_id == subject && c.timestamp == now,
        None => false,
    }
}

/// When the session is renewed, the new tokens are issued strictly later
/// than the expired access token they replace.
pub proof fn lemma_rotation_issues_later(
    secret: Seq<char>,
    access: Seq<char>,
    refresh: Option<Seq<char>>,
    now: int,
    subject: Seq<char>,
    new_access: Seq<char>,
)
    requires
        session_check(secret, Some(access), refresh, now) == Ok::<(Seq<char>, bool), SessionFailure>((subject, true)),
        issued_token(secret, new_access, subject, now),
    ensures
        cookie_claims(secret, new_access)->Some_0.timestamp > cookie_claims(secret, access)->Some_0.timestamp,
        cookie_claims(secret, new_access)->Some_0.account_id == cookie_claims(secret, access)->Some_0.account_id,
{
}

/// Tokens of two different subjects are refused, whether either token has
/// expired or not.
pub proof fn lemma_subject_mismatch_rejected(
    secret: Seq<char>,
    access: Seq<char>,
    refresh: Seq<char>,
    now: int,
)
    requires
        cookie_claims(secret, access) is Some,
        cookie_claims(secret, refresh) is Some,
        cookie_claims(secret, access)->Some_0.account_id != cookie_claims(secret, refresh)->Some_0.account_id,
    ensures
        session_check(secret, Some(access), Some(refresh), now) is Err,
{
}

/// The outcome of the first part of the session check.
pub struct SessionCheck {
    pub subject: String,
    /// The access token has expired and the refresh token vouches for the
    /// subject: the account must be looked up, and new tokens issued.
    pub needs_refresh: bool,
}

/// A freshly issued pair of tokens, for the cookies `access_token` and
/// `refresh_token`.
pub struct TokenPair {
    pub access_token: String,
    pub refresh_token: String,
}

/// An access token's claims.
pub struct AccessToken {
    token: Jwt,
}

/// A refresh token's claims.
pub struct RefreshToken {
    token: Jwt,
}

impl AccessToken {
    pub closed spec fn view(&self) -> Claims {
        self.token@
    }

    pub fn new(who: &str, now: i64) -> (r: Self)
        ensures
            r.view().account_id == who@,
            r.view().timestamp == now,
            fresh_nonce(r.view().nonce),
    {
        AccessToken { token: Jwt::issued_at(who, now) }
    }

    /// Reads the claims of the `access_token` cookie.
    pub fn from_cookie(secret: &str, cookie: Option<&str>) -> (r: Result<Self, SessionFailure>)
        ensures
            match r {
                Ok(t) => cookie_text(cookie) is Some && cookie_claims(secret@, cookie_text(cookie)->Some_0)
                    == Some(t.view()),
                Err(e) => match cookie_text(cookie) {
                    None => e == SessionFailure::MissingAccess,
                    Some(c) => cookie_claims(secret@, c) is None && e == SessionFailure::MalformedAccess,
                },
            },
    {
        let value = match cookie {
            None => return Err(SessionFailure::MissingAccess),
            Some(v) => v,
        };
        match Jwt::from(secret, value) {
            Ok(token) => Ok(AccessToken { token }),
            Err(_) => Err(SessionFailure::MalformedAccess),
        }
    }

    pub fn who(&self) -> (r: &str)
        ensures
            r@ == self.view().account_id,
    {
        self.token.account_id()
    }

    /// Whether the token is past the access window at `now`.
    pub fn expired_at(&self, now: i64) -> (r: bool)
        ensures
            r == is_expired(self.view().timestamp as int, now as int, ACCESS_TOKEN_EXPIRES as int),
    {
        (now as i128) - (self.token.timestamp() as i128) > ACCESS_TOKEN_EXPIRES as i128
    }

    /// The first part of the session check at `now`, on the values of the
    /// `access_token` and `refresh_token` cookies.
    pub fn check_at(secret: &str, access: Option<&str>, refresh: Option<&str>, now: i64) -> (r: Result<
        SessionCheck,
        SessionFailure,
    >)
        ensures
            match r {
                Ok(c) => session_check(secret@, cookie_text(access), cookie_text(refresh), now as int) == Ok::<
                    (Seq<char>, bool),
                    SessionFailure,
                >((c.subject@, c.needs_refresh)),
                Err(e) => session_check(secret@, cookie_text(access), cookie_text(refresh), now as int)
                    == Err::<(Seq<char>, bool), SessionFailure>(e),
            },
    {
        let access_token = AccessToken::from_cookie(secret, access)?;
        if !access_token.expired_at(now) {
            if let Some(value) = refresh {
                if let Ok(other) = RefreshToken::from_cookie(secret, Some(value)) {
                    if !same_text(access_token.who(), other.who()) {
                        return Err(SessionFailure::SubjectMismatch);
                    }
                }
            }
            return Ok(SessionCheck { subject: access_token.who().to_string(), needs_refresh: false });
        }
        let refresh_token = RefreshToken::from_cookie(secret, refresh)?;
        if refresh_token.expired_at(now) {
            return Err(SessionFailure::RefreshExpired);
        }
        if !same_text(access_token.who(), refresh_token.who()) {
            return Err(SessionFailure::SubjectMismatch);
        }
        Ok(SessionCheck { subject: access_token.who().to_string(), needs_refresh: true })
    }

    /// The second part of the session check at `now`, once the subject has
    /// been looked up in the account store: new tokens for the subject.
    pub fn renew_at(secret: &str, subject: &str, account: Option<&AccountRow>, now: i64) -> (r: Result<
        TokenPair,
        SessionFailure,
    >)
        ensures
            match account {
                None => r == Err::<TokenPair, SessionFailure>(SessionFailure::UnknownAccount),
                Some(row) => if row.id_view() != subject@ {
                    r == Err::<TokenPair, SessionFailure>(SessionFailure::UnknownAccount)
                } else {
                    &&& encode_utf8(subject@).len() <= SUBJECT_MAX ==> r is Ok
                    &&& match r {
                        Ok(p) => issued_token(secret@, p.access_token@, subject@, now as int)
                            && issued_token(secret@, p.refresh_token@, subject@, now as int),
                        Err(e) => e == SessionFailure::IssueFailed,
                    }
                },
            },
    {
        let row = match account {
            None => return Err(SessionFailure::UnknownAccount),
            Some(row) => row,
        };
        if !same_text(row.id(), subject) {
            return Err(SessionFailure::UnknownAccount);
        }
        match AccessToken::authorize_at(secret, subject, now) {
            Ok(p) => Ok(p),
            Err(_) => Err(SessionFailure::IssueFailed),
        }
    }

    /// The second part of the session check, now.
    pub fn renew(secret: &str, subject: &str, account: Option<&AccountRow>) -> (r: Result<TokenPair, SessionFailure>)
        ensures
            match account {
                None => r == Err::<TokenPair, SessionFailure>(SessionFailure::UnknownAccount),
                Some(row) => if row.id_view() != subject@ {
                    r == Err::<TokenPair, SessionFailure>(SessionFailure::UnknownAccount)
                } else {
                    &&& encode_utf8(subject@).len() <= SUBJECT_MAX ==> r is Ok
                    &&& match r {
                        Ok(p) => exists|now: i64| #[trigger] issued_token(secret@, p.access_token@, subject@, now as int)
                            && issued_token(secret@, p.refresh_token@, subject@, now as int),
                        Err(e) => e == SessionFailure::IssueFailed,
                    }
                },
            },
    {
        AccessToken::renew_at(secret, subject, account, now_seconds())
    }

    /// The first part of the session check, now.
    pub fn validate_authorization(secret: &str, access: Option<&str>, refresh: Option<&str>) -> (r: Result<
        SessionCheck,
        SessionFailure,
    >)
        ensures
            exists|now: i64|
                match r {
                    Ok(c) => #[trigger] session_check(secret@, cookie_text(access), cookie_text(refresh), now as int)
                        == Ok::<(Seq<char>, bool), SessionFailure>((c.subject@, c.needs_refresh)),
                    Err(e) => session_check(secret@, cookie_text(access), cookie_text(refresh), now as int)
                        == Err::<(Seq<char>, bool), SessionFailure>(e),
                },
    {
        AccessToken::check_at(secret, access, refresh, now_seconds())
    }

    /// A new pair of tokens for `who`, issued at `now`.
    pub fn authorize_at(secret: &str, who: &str, now: i64) -> (r: Result<TokenPair, CryptoError>)
        ensures
            encode_utf8(who@).len() <= SUBJECT_MAX ==> r is Ok,
            r is Ok ==> issued_token(secret@, r->Ok_0.access_token@, who@, now as int) && issued_token(
                secret@,
                r->Ok_0.refresh_token@,
                who@,
                now as int,
            ),
            r is Err ==> r == Err::<TokenPair, CryptoError>(CryptoError::EncryptionFailed),
    {
        let refresh = RefreshToken::new(who, now);
        let access = AccessToken::new(who, now);
        proof {
            lemma_payload_text_len(refresh.view());
            lemma_payload_text_len(access.view());
        }
        let refresh_token = refresh.token.to_string(secret)?;
        let access_token = access.token.to_string(secret)?;
        Ok(TokenPair { access_token, refresh_token })
    }

    /// A new pair of tokens for `who`, issued now.
    pub fn authorize(secret: &str, who: &str) -> (r: Result<TokenPair, CryptoError>)
        ensures
            encode_utf8(who@).len() <= SUBJECT_MAX ==> r is Ok,
            r is Ok ==> exists|now: i64|
                issued_token(secret@, r->Ok_0.access_token@, who@, now as int) && #[trigger] issued_token(
                    secret@,
                    r->Ok_0.refresh_token@,
                    who@,
                    now as int,
                ),
            r is Err ==> r == Err::<TokenPair, CryptoError>(CryptoError::EncryptionFailed),
    {
        AccessToken::authorize_at(secret, who, now_seconds())
    }
}

impl RefreshToken {
    pub closed spec fn view(&self) -> Claims {
        self.token@
    }

    pub fn new(who: &str, now: i64) -> (r: Self)
        ensures
            r.view().account_id == who@,
            r.view().timestamp == now,
            fresh_nonce(r.view().nonce),
    {
        RefreshToken { token: Jwt::issued_at(who, now) }
    }

    /// Reads the claims of the `refresh_token` cookie.
    pub fn from_cookie(secret: &str, cookie: Option<&str>) -> (r: Result<Self, SessionFailure>)
        ensures
            match r {
                Ok(t) => cookie_text(cookie) is Some && cookie_claims(secret@, cookie_text(cookie)->Some_0)
                    == Some(t.view()),
                Err(e) => match cookie_text(cookie) {
                    None => e == SessionFailure::MissingRefresh,
                    Some(c) => cookie_claims(secret@, c) is None && e == SessionFailure::MalformedRefresh,
                },
            },
    {
        let value = match cookie {
            None => return Err(SessionFailure::MissingRefresh),
            Some(v) => v,
        };
        match Jwt::from(secret, value) {
            Ok(token) => Ok(RefreshToken { token }),
            Err(_) => Err(SessionFailure::MalformedRefresh),
        }
    }

    pub fn who(&self) -> (r: &str)
        ensures
            r@ == self.view().account_id,
    {
        self.token.account_id()
    }

    /// Whether the token is past the refresh window at `now`.
    pub fn expired_at(&self, now: i64) -> (r: bool)
        ensures
            r == is_expired(self.view().timestamp as int, now as int, REFRESH_TOKEN_EXPIRES as int),
    {
        (now as i128) - (self.token.timestamp() as i128) > REFRESH_TOKEN_EXPIRES as i128
    }
}

} // verus!
