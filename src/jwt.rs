use vstd::prelude::*;
use vstd::utf8::encode_utf8;
use crate::credentials::jwt::{
    account_key, account_key_bytes, now_seconds, read_head, timestamp_key, timestamp_key_bytes,
};
use crate::encrypt::{decrypted, is_blob_of, Aes256, CryptoError, NONCE_LEN, PLAINTEXT_MAX, TAG_LEN};
use crate::hex_text::is_lower_hex;
use crate::json_text::{
    decimal, json_quote, lemma_decimal_split, lemma_encode_utf8_injective, lemma_quoted_split,
    find_single_byte, matches_at, push_all, push_decimal, quoted, read_int, same_text,
    single_byte_at,
};

verus! {

/// Seconds for which a bearer token stays valid after it was issued.
pub const BEARER_TOKEN_EXPIRES: i64 = 900;

/// What a bearer token carries.
pub struct BearerClaims {
    pub account_id: Seq<char>,
    pub timestamp: i64,
}

/// The canonical compact JSON text of bearer claims.
pub open spec fn bearer_text(c: BearerClaims) -> Seq<u8> {
    account_key() + (quoted(encode_utf8(c.account_id)) + (timestamp_key() + (decimal(c.timestamp as int)
        + seq![0x7du8])))
}

pub open spec fn bearer_claims_of(pt: Seq<u8>) -> Option<BearerClaims> {
    if exists|c: BearerClaims| bearer_text(c) == pt {
        Some(choose|c: BearerClaims| bearer_text(c) == pt)
    } else {
        None
    }
}

/// Why a bearer token could not be read.
#[derive(Debug, Clone, Copy, PartialEq, Eq, Structural)]
pub enum BearerTokenError {
    DecryptFailed(CryptoError),
    MalformedPayload,
}

/// What reading the bearer token with UTF-8 bytes `token` under `secret` yields.
pub open spec fn bearer_decoded(secret: Seq<char>, token: Seq<u8>) -> Result<BearerClaims, BearerTokenError> {
    match decrypted(secret, token) {
        Err(e) => Err(BearerTokenError::DecryptFailed(e)),
        Ok(pt) => match bearer_claims_of(pt) {
            Some(c) => Ok(c),
            None => Err(BearerTokenError::MalformedPayload),
        },
    }
}

/// Distinct bearer claims have distinct canonical texts.
pub proof fn lemma_bearer_text_injective(c: BearerClaims, d: BearerClaims)
    requires
        bearer_text(c) == bearer_text(d),
    ensures
        c == d,
{
    let x = bearer_text(c);
    let k = account_key().len() as int;
    let tc = timestamp_key() + (decimal(c.timestamp as int) + seq![0x7du8]);
    let td = timestamp_key() + (decimal(d.timestamp as int) + seq![0x7du8]);
    assert(quoted(encode_utf8(c.account_id)) + tc =~= x.subrange(k, x.len() as int));
    assert(quoted(encode_utf8(d.account_id)) + td =~= x.subrange(k, x.len() as int));
    lemma_quoted_split(encode_utf8(c.account_id), encode_utf8(d.account_id), tc, td);
    lemma_encode_utf8_injective(c.account_id, d.account_id);
    let n = timestamp_key().len() as int;
    assert(decimal(c.timestamp as int) + seq![0x7du8] =~= tc.subrange(n, tc.len() as int));
    assert(decimal(d.timestamp as int) + seq![0x7du8] =~= tc.subrange(n, tc.len() as int));
    lemma_decimal_split(c.timestamp as int, d.timestamp as int, seq![0x7du8], seq![0x7du8]);
}

pub proof fn lemma_bearer_claims_of_text(c: BearerClaims)
    ensures
        bearer_claims_of(bearer_text(c)) == Some(c),
{
    let d = choose|d: BearerClaims| bearer_text(d) == bearer_text(c);
    lemma_bearer_text_injective(c, d);
}

/// Why a request was refused on the bearer path.
#[derive(Debug, Clone, Copy, PartialEq, Eq, Structural)]
pub enum BearerError {
    /// No `Authorization` header.
    Missing,
    /// The header is not text, or not two words split by one space.
    Malformed,
    /// The scheme is not `Bearer`.
    Unsupported,
    /// The token does not decrypt to bearer claims.
    Unparsable,
    /// The token is older than the bearer window.
    Expired,
    /// The token is valid but names another account.
    Forbidden,
}

/// `Bearer`
pub open spec fn bearer_word() -> Seq<u8> {
    seq![0x42u8, 0x65, 0x61, 0x72, 0x65, 0x72]
}

/// Whether a token issued at `issued` is past `window` seconds at `now`.
pub open spec fn is_expired(issued: int, now: int, window: int) -> bool {
    now - issued > window
}

/// The outcome of the bearer check for the account `id`: `header` is `None`
/// when there is no `Authorization` header and `Some(None)` when its value is
/// not text.
pub open spec fn bearer_outcome(
    secret: Seq<char>,
    id: Seq<char>,
    header: Option<Option<Seq<char>>>,
    now: int,
) -> Result<(), BearerError> {
    match header {
        None => Err(BearerError::Missing),
        Some(None) => Err(BearerError::Malformed),
        Some(Some(h)) => {
            let hb = encode_utf8(h);
            if !(exists|k: int| single_byte_at(hb, 0x20, k)) {
                Err(BearerError::Malformed)
            } else {
                let k = choose|k: int| single_byte_at(hb, 0x20, k);
                if hb.subrange(0, k) != bearer_word() {
                    Err(BearerError::Unsupported)
                } else {
                    match bearer_decoded(secret, hb.subrange(k + 1, hb.len() as int)) {
                        Err(_) => Err(BearerError::Unparsable),
                        Ok(c) => if is_expired(c.timestamp as int, now, BEARER_TOKEN_EXPIRES as int) {
                            Err(BearerError::Expired)
                        } else if c.account_id != id {
                            Err(BearerError::Forbidden)
                        } else {
                            Ok(())
                        },
                    }
                }
            }
        },
    }
}

/// The text of an optional header value that may not be text.
pub open spec fn header_text(header: Option<Option<&str>>) -> Option<Option<Seq<char>>> {
    match header {
        None => None,
        Some(None) => Some(None),
        Some(Some(h)) => Some(Some(h@)),
    }
}

fn bearer_word_bytes() -> (r: Vec<u8>)
    ensures
        r@ == bearer_word(),
{
    let r = vec![0x42u8, 0x65, 0x61, 0x72, 0x65, 0x72];
    assert(r@ =~= bearer_word());
    r
}

/// A bearer token's payload.
pub struct Jwt {
    account_id: String,
    timestamp: i64,
}

impl View for Jwt {
    type V = BearerClaims;

    closed spec fn view(&self) -> BearerClaims {
        BearerClaims { account_id: self.account_id@, timestamp: self.timestamp }
    }
}

impl Jwt {
    /// Claims for `account` issued now.
    pub fn new(account: &str) -> (r: Self)
        ensures
            r@.account_id == account@,
    {
        Jwt::issued_at(account, now_seconds())
    }

    /// Claims for `account` issued at `timestamp`.
    pub fn issued_at(account: &str, timestamp: i64) -> (r: Self)
        ensures
            r@ == (BearerClaims { account_id: account@, timestamp }),
    {
        Jwt { account_id: account.to_string(), timestamp }
    }

    /// The canonical JSON text of these claims.
    pub fn payload(&self) -> (r: Vec<u8>)
        ensures
            r@ == bearer_text(self@),
    {
        let mut out: Vec<u8> = Vec::new();
        push_all(&mut out, account_key_bytes().as_slice());
        let a = match json_quote(self.account_id.as_str()) {
            Ok(v) => v,
            Err(_) => Vec::new(),
        };
        push_all(&mut out, a.as_slice());
        push_all(&mut out, timestamp_key_bytes().as_slice());
        push_decimal(&mut out, self.timestamp);
        out.push(0x7d);
        assert(out@ =~= bearer_text(self@));
        out
    }

    /// Reads bearer claims from their canonical JSON text.
    pub fn parse(pt: &[u8]) -> (r: Option<Self>)
        ensures
            r matches Some(j) ==> bearer_text(j@) == pt@,
            forall|c: BearerClaims| #[trigger] bearer_text(c) == pt@ ==> (r matches Some(j) && j@ == c),
    {
        let (account_id, p3) = match read_head(pt) {
            Some(v) => v,
            None => return None,
        };
        let ghost rest = pt@.subrange(p3 as int, pt@.len() as int);
        let (timestamp, p4) = match read_int(pt, p3) {
            Some(v) => v,
            None => {
                proof {
                    assert forall|c: BearerClaims| #[trigger] bearer_text(c) == pt@ implies false by {
                        assert(rest == decimal(c.timestamp as int) + seq![0x7du8]);
                        assert(seq![0x7du8][0] == 0x7d);
                    }
                }
                return None;
            },
        };
        if p4 >= pt.len() || p4 + 1 != pt.len() || pt[p4] != 0x7d {
            proof {
                assert forall|c: BearerClaims| #[trigger] bearer_text(c) == pt@ implies false by {
                    assert(rest == decimal(c.timestamp as int) + seq![0x7du8]);
                    assert(seq![0x7du8][0] == 0x7d);
                    assert(p4 == p3 + decimal(c.timestamp as int).len());
                    assert(pt@[p4 as int] == rest[decimal(c.timestamp as int).len() as int]);
                }
            }
            return None;
        }
        let r = Jwt { account_id, timestamp };
        proof {
            assert(pt@.subrange(p4 as int, pt@.len() as int) =~= seq![0x7du8]);
            assert(pt@ =~= pt@.subrange(0, p3 as int) + (pt@.subrange(p3 as int, p4 as int) + pt@.subrange(
                p4 as int, pt@.len() as int)));
            assert(pt@ =~= bearer_text(r@));
            assert forall|c: BearerClaims| #[trigger] bearer_text(c) == pt@ implies r@ == c by {
                lemma_bearer_text_injective(c, r@);
            }
        }
        Some(r)
    }

    /// Reads a bearer token, given as bytes, issued under `secret`.
    pub fn from_bytes(secret: &str, bearer: &[u8]) -> (r: Result<Self, BearerTokenError>)
        ensures
            match r {
                Ok(j) => bearer_decoded(secret@, bearer@) == Ok::<BearerClaims, BearerTokenError>(j@),
                Err(e) => bearer_decoded(secret@, bearer@) == Err::<BearerClaims, BearerTokenError>(e),
            },
    {
        let pt = match Aes256::decrypt_bytes(secret, bearer) {
            Ok(v) => v,
            Err(e) => return Err(BearerTokenError::DecryptFailed(e)),
        };
        match Jwt::parse(pt.as_slice()) {
            Some(j) => {
                proof {
                    lemma_bearer_claims_of_text(j@);
                }
                Ok(j)
            },
            None => Err(BearerTokenError::MalformedPayload),
        }
    }

    /// Reads a bearer token issued under `secret`.
    pub fn from(secret: &str, bearer: &str) -> (r: Result<Self, BearerTokenError>)
        ensures
            match r {
                Ok(j) => bearer_decoded(secret@, encode_utf8(bearer@)) == Ok::<BearerClaims, BearerTokenError>(j@),
                Err(e) => bearer_decoded(secret@, encode_utf8(bearer@)) == Err::<BearerClaims, BearerTokenError>(e),
            },
    {
        Jwt::from_bytes(secret, bearer.as_bytes())
    }

    /// The token for these claims under `secret`.
    pub fn to_string(&self, secret: &str) -> (r: Result<String, CryptoError>)
        ensures
            bearer_text(self@).len() <= PLAINTEXT_MAX ==> r is Ok,
            r is Ok ==> bearer_decoded(secret@, encode_utf8(r->Ok_0@)) == Ok::<BearerClaims, BearerTokenError>(self@),
            r is Ok ==> is_blob_of(secret@, bearer_text(self@), r->Ok_0@),
            r is Ok ==> r->Ok_0@.len() == 2 * (NONCE_LEN + bearer_text(self@).len() + TAG_LEN),
            r is Ok ==> forall|i: int| 0 <= i < r->Ok_0@.len() ==> is_lower_hex(#[trigger] r->Ok_0@[i]),
            r is Err ==> r == Err::<String, CryptoError>(CryptoError::EncryptionFailed),
    {
        let raw = self.payload();
        proof {
            lemma_bearer_claims_of_text(self@);
        }
        Aes256::encrypt_bytes(secret, raw.as_slice())
    }

    /// Whether the token is past the bearer window at `now`.
    pub fn expired_at(&self, now: i64) -> (r: bool)
        ensures
            r == is_expired(self@.timestamp as int, now as int, BEARER_TOKEN_EXPIRES as int),
    {
        (now as i128) - (self.timestamp as i128) > BEARER_TOKEN_EXPIRES as i128
    }

    /// Whether the token is past the bearer window now.
    pub fn has_expired(&self) -> (r: bool)
        ensures
            exists|now: i64| r == is_expired(self@.timestamp as int, now as int, BEARER_TOKEN_EXPIRES as int),
    {
        self.expired_at(now_seconds())
    }

    pub fn account_id(&self) -> (r: &str)
        ensures
            r@ == self@.account_id,
    {
        self.account_id.as_str()
    }

    /// Checks the `Authorization` header of a request on a resource owned by
    /// the account `id`, at time `now`.
    pub fn authorize_at(secret: &str, id: &str, header: Option<Option<&str>>, now: i64) -> (r: Result<(), BearerError>)
        ensures
            r == bearer_outcome(secret@, id@, header_text(header), now as int),
    {
        let h = match header {
            None => return Err(BearerError::Missing),
            Some(None) => return Err(BearerError::Malformed),
            Some(Some(h)) => h,
        };
        let hb = h.as_bytes();
        let k = match find_single_byte(hb, 0x20) {
            Some(k) => k,
            None => return Err(BearerError::Malformed),
        };
        proof {
            assert forall|q: int| single_byte_at(hb@, 0x20, q) implies q == k as int by {
                if q != k as int {
                    assert(hb@[q] != 0x20);
                }
            }
        }
        let word = bearer_word_bytes();
        if k != 6 || !matches_at(hb, 0, word.as_slice()) {
            proof {
                assert(bearer_word().len() == 6);
                assert(single_byte_at(hb@, 0x20, k as int));
                let q = choose|q: int| single_byte_at(hb@, 0x20, q);
                assert(q == k as int);
                assert(hb@.subrange(0, k as int).len() == k);
            }
            return Err(BearerError::Unsupported);
        }
        let (_, token) = hb.split_at(k + 1);
        let jwt = match Jwt::from_bytes(secret, token) {
            Ok(j) => j,
            Err(_) => return Err(BearerError::Unparsable),
        };
        if jwt.expired_at(now) {
            return Err(BearerError::Expired);
        }
        if !same_text(jwt.account_id(), id) {
            return Err(BearerError::Forbidden);
        }
        Ok(())
    }

    /// Checks the `Authorization` header against the account `id` now.
    pub fn authorize(secret: &str, id: &str, header: Option<Option<&str>>) -> (r: Result<(), BearerError>)
        ensures
            exists|now: i64| r == #[trigger] bearer_outcome(secret@, id@, header_text(header), now as int),
    {
        Jwt::authorize_at(secret, id, header, now_seconds())
    }
}

} // verus!
