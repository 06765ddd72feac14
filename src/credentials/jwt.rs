use vstd::prelude::*;
use vstd::utf8::encode_utf8;
use crate::encrypt::{
    decrypted, is_alphanumeric, is_blob_of, Aes256, CryptoError, Salt, NONCE_LEN, PLAINTEXT_MAX, SALT_LEN,
    TAG_LEN,
};
use crate::hex_text::is_lower_hex;
use crate::json_text::{
    decimal, is_digit, json_quote, lemma_decimal_len, lemma_decimal_split, lemma_encode_utf8_len,
    lemma_escaped_len, lemma_encode_utf8_injective,
    lemma_quoted_split, matches_at, push_all, push_decimal, quoted, read_int, read_string,
};

verus! {

/// What a session token carries.
pub struct Claims {
    pub account_id: Seq<char>,
    pub timestamp: i64,
    pub nonce: Seq<char>,
}

/// Why a token could not be read.
#[derive(Debug, Clone, Copy, PartialEq, Eq, Structural)]
pub enum TokenError {
    DecryptFailed(CryptoError),
    /// The token decrypted, but not to a payload in the canonical form.
    MalformedPayload,
}

/// Relies on chrono::Utc::now: the current time in whole seconds since the
/// Unix epoch, whatever the clock says.
#[verifier::external_body]
pub(crate) fn now_seconds() -> (r: i64) {
    chrono::Utc::now().timestamp()
}

/// `{"account_id":`
pub open spec fn account_key() -> Seq<u8> {
    seq![0x7bu8, 0x22, 0x61, 0x63, 0x63, 0x6f, 0x75, 0x6e, 0x74, 0x5f, 0x69, 0x64, 0x22, 0x3a]
}

/// `,"timestamp":`
pub open spec fn timestamp_key() -> Seq<u8> {
    seq![0x2cu8, 0x22, 0x74, 0x69, 0x6d, 0x65, 0x73, 0x74, 0x61, 0x6d, 0x70, 0x22, 0x3a]
}

/// `,"nonce":`
pub open spec fn nonce_key() -> Seq<u8> {
    seq![0x2cu8, 0x22, 0x6e, 0x6f, 0x6e, 0x63, 0x65, 0x22, 0x3a]
}

/// The canonical compact JSON text of the claims, fields in this order.
pub open spec fn payload_text(c: Claims) -> Seq<u8> {
    account_key() + (quoted(encode_utf8(c.account_id)) + (timestamp_key() + tail_text(c.timestamp, c.nonce)))
}

/// What follows the account in the canonical text.
pub open spec fn tail_text(timestamp: i64, nonce: Seq<char>) -> Seq<u8> {
    decimal(timestamp as int) + (nonce_key() + (quoted(encode_utf8(nonce)) + seq![0x7du8]))
}

/// The claims whose canonical text is `pt`, if there are any.
pub open spec fn claims_of(pt: Seq<u8>) -> Option<Claims> {
    if exists|c: Claims| payload_text(c) == pt {
        Some(choose|c: Claims| payload_text(c) == pt)
    } else {
        None
    }
}

/// What reading the token with UTF-8 bytes `token` under `secret` yields.
pub open spec fn decoded(secret: Seq<char>, token: Seq<u8>) -> Result<Claims, TokenError> {
    match decrypted(secret, token) {
        Err(e) => Err(TokenError::DecryptFailed(e)),
        Ok(pt) => match claims_of(pt) {
            Some(c) => Ok(c),
            None => Err(TokenError::MalformedPayload),
        },
    }
}

/// Distinct claims have distinct canonical texts.
pub proof fn lemma_payload_text_injective(c: Claims, d: Claims)
    requires
        payload_text(c) == payload_text(d),
    ensures
        c == d,
{
    let k = account_key().len() as int;
    let x = payload_text(c);
    let rc = quoted(encode_utf8(c.account_id)) + (timestamp_key() + (decimal(c.timestamp as int) + (
    nonce_key() + (quoted(encode_utf8(c.nonce)) + seq![0x7du8]))));
    let rd = quoted(encode_utf8(d.account_id)) + (timestamp_key() + (decimal(d.timestamp as int) + (
    nonce_key() + (quoted(encode_utf8(d.nonce)) + seq![0x7du8]))));
    assert(rc =~= x.subrange(k, x.len() as int));
    assert(rd =~= x.subrange(k, x.len() as int));
    lemma_quoted_split(encode_utf8(c.account_id), encode_utf8(d.account_id),
        timestamp_key() + (decimal(c.timestamp as int) + (nonce_key() + (quoted(encode_utf8(c.nonce)) + seq![0x7du8]))),
        timestamp_key() + (decimal(d.timestamp as int) + (nonce_key() + (quoted(encode_utf8(d.nonce)) + seq![0x7du8]))));
    lemma_encode_utf8_injective(c.account_id, d.account_id);
    let sc = nonce_key() + (quoted(encode_utf8(c.nonce)) + seq![0x7du8]);
    let sd = nonce_key() + (quoted(encode_utf8(d.nonce)) + seq![0x7du8]);
    let y = timestamp_key() + (decimal(c.timestamp as int) + sc);
    assert(decimal(c.timestamp as int) + sc =~= y.subrange(timestamp_key().len() as int, y.len() as int));
    assert(decimal(d.timestamp as int) + sd =~= y.subrange(timestamp_key().len() as int, y.len() as int));
    assert(sc[0] == 0x2c && sd[0] == 0x2c);
    lemma_decimal_split(c.timestamp as int, d.timestamp as int, sc, sd);
    let n = nonce_key().len() as int;
    assert(quoted(encode_utf8(c.nonce)) + seq![0x7du8] =~= sc.subrange(n, sc.len() as int));
    assert(quoted(encode_utf8(d.nonce)) + seq![0x7du8] =~= sc.subrange(n, sc.len() as int));
    lemma_quoted_split(encode_utf8(c.nonce), encode_utf8(d.nonce), seq![0x7du8], seq![0x7du8]);
    lemma_encode_utf8_injective(c.nonce, d.nonce);
}

/// The canonical text of some claims reads back as those claims.
pub proof fn lemma_claims_of_payload_text(c: Claims)
    ensures
        claims_of(payload_text(c)) == Some(c),
{
    let d = choose|d: Claims| payload_text(d) == payload_text(c);
    lemma_payload_text_injective(c, d);
}

/// A nonce as issued: `SALT_LEN` alphanumeric characters.
pub open spec fn fresh_nonce(nonce: Seq<char>) -> bool {
    &&& nonce.len() == SALT_LEN
    &&& forall|i: int| 0 <= i < nonce.len() ==> is_alphanumeric(#[trigger] nonce[i])
}

/// The canonical text of claims with an issued nonce is at most a fixed
/// amount longer than six bytes per byte of the account id.
pub proof fn lemma_payload_text_len(c: Claims)
    requires
        fresh_nonce(c.nonce),
    ensures
        payload_text(c).len() <= 6 * encode_utf8(c.account_id).len() + 1000,
{
    lemma_escaped_len(encode_utf8(c.account_id));
    lemma_escaped_len(encode_utf8(c.nonce));
    lemma_encode_utf8_len(c.nonce);
    lemma_decimal_len(c.timestamp);
}

/// A session token's payload: whose it is, when it was issued, and a random
/// nonce that tells apart tokens issued to one account in one second.
pub struct Jwt {
    account_id: String,
    timestamp: i64,
    nonce: String,
}

impl View for Jwt {
    type V = Claims;

    closed spec fn view(&self) -> Claims {
        Claims { account_id: self.account_id@, timestamp: self.timestamp, nonce: self.nonce@ }
    }
}

pub(crate) fn account_key_bytes() -> (r: Vec<u8>)
    ensures
        r@ == account_key(),
{
    let r = vec![0x7bu8, 0x22, 0x61, 0x63, 0x63, 0x6f, 0x75, 0x6e, 0x74, 0x5f, 0x69, 0x64, 0x22, 0x3a];
    assert(r@ =~= account_key());
    r
}

pub(crate) fn timestamp_key_bytes() -> (r: Vec<u8>)
    ensures
        r@ == timestamp_key(),
{
    let r = vec![0x2cu8, 0x22, 0x74, 0x69, 0x6d, 0x65, 0x73, 0x74, 0x61, 0x6d, 0x70, 0x22, 0x3a];
    assert(r@ =~= timestamp_key());
    r
}

fn nonce_key_bytes() -> (r: Vec<u8>)
    ensures
        r@ == nonce_key(),
{
    let r = vec![0x2cu8, 0x22, 0x6e, 0x6f, 0x6e, 0x63, 0x65, 0x22, 0x3a];
    assert(r@ =~= nonce_key());
    r
}

/// Reads `{"account_id":` with the account's literal and `,"timestamp":`;
/// gives the account and the position after them.
pub(crate) fn read_head(pt: &[u8]) -> (r: Option<(String, usize)>)
    ensures
        r matches Some((a, p)) ==> p <= pt@.len() && pt@.subrange(0, p as int) == account_key() + (quoted(
            encode_utf8(a@)) + timestamp_key()),
        forall|a: Seq<char>, t: Seq<u8>|
            pt@ == #[trigger] (account_key() + (quoted(encode_utf8(a)) + (timestamp_key() + t))) ==> (r
                matches Some((x, p)) && x@ == a && pt@.subrange(p as int, pt@.len() as int) == t),
{
    let ak = account_key_bytes();
    if !matches_at(pt, 0, ak.as_slice()) {
        proof {
            assert forall|a: Seq<char>, t: Seq<u8>|
                pt@ == #[trigger] (account_key() + (quoted(encode_utf8(a)) + (timestamp_key() + t))) implies false by {
                assert(pt@.subrange(0, ak@.len() as int) =~= account_key());
            }
        }
        return None;
    }
    let p1 = ak.len();
    proof {
        assert forall|a: Seq<char>, t: Seq<u8>|
            pt@ == #[trigger] (account_key() + (quoted(encode_utf8(a)) + (timestamp_key() + t))) implies pt@.subrange(
            p1 as int, pt@.len() as int) == quoted(encode_utf8(a)) + (timestamp_key() + t) by {
            assert(pt@.subrange(p1 as int, pt@.len() as int) =~= quoted(encode_utf8(a)) + (timestamp_key() + t));
        }
    }
    let (account_id, p2) = match read_string(pt, p1) {
        Some(v) => v,
        None => return None,
    };
    let tk = timestamp_key_bytes();
    if !matches_at(pt, p2, tk.as_slice()) {
        proof {
            assert forall|a: Seq<char>, t: Seq<u8>|
                pt@ == #[trigger] (account_key() + (quoted(encode_utf8(a)) + (timestamp_key() + t))) implies false by {
                assert(pt@.subrange(p1 as int, pt@.len() as int) == quoted(encode_utf8(a)) + (timestamp_key() + t));
                assert(pt@.subrange(p2 as int, pt@.len() as int) =~= timestamp_key() + t);
                assert(pt@.subrange(p2 as int, p2 + timestamp_key().len()) =~= timestamp_key());
            }
        }
        return None;
    }
    assert(p2 + tk@.len() <= pt.len());
    let p3 = p2 + tk.len();
    proof {
        assert(pt@.subrange(0, p3 as int) =~= pt@.subrange(0, p1 as int) + (pt@.subrange(p1 as int, p2 as int)
            + pt@.subrange(p2 as int, p3 as int)));
        assert forall|a: Seq<char>, t: Seq<u8>|
            pt@ == #[trigger] (account_key() + (quoted(encode_utf8(a)) + (timestamp_key() + t))) implies
            pt@.subrange(p3 as int, pt@.len() as int) == t by {
            assert(pt@.subrange(p1 as int, pt@.len() as int) == quoted(encode_utf8(a)) + (timestamp_key() + t));
            assert(pt@.subrange(p2 as int, pt@.len() as int) =~= timestamp_key() + t);
            assert(pt@.subrange(p3 as int, pt@.len() as int) =~= t);
        }
    }
    Some((account_id, p3))
}

/// Reads the timestamp, `,"nonce":` with the nonce's literal, and the closing
/// brace that ends the text.
fn read_tail(pt: &[u8], pos: usize) -> (r: Option<(i64, String)>)
    requires
        pos <= pt@.len(),
    ensures
        r matches Some((ts, n)) ==> pt@.subrange(pos as int, pt@.len() as int) == tail_text(ts, n@),
        forall|ts: i64, n: Seq<char>|
            pt@.subrange(pos as int, pt@.len() as int) == #[trigger] tail_text(ts, n) ==> (r matches Some(
                (x, m)) && x == ts && m@ == n),
{
    let ghost rest = pt@.subrange(pos as int, pt@.len() as int);
    let (timestamp, p4) = match read_int(pt, pos) {
        Some(v) => v,
        None => {
            proof {
                assert forall|ts: i64, n: Seq<char>| rest == #[trigger] tail_text(ts, n) implies false by {
                    let t = nonce_key() + (quoted(encode_utf8(n)) + seq![0x7du8]);
                    assert(t[0] == 0x2c);
                }
            }
            return None;
        },
    };
    proof {
        assert forall|ts: i64, n: Seq<char>| rest == #[trigger] tail_text(ts, n) implies timestamp == ts
            && pt@.subrange(p4 as int, pt@.len() as int) == nonce_key() + (quoted(encode_utf8(n)) + seq![0x7du8]) by {
            let t = nonce_key() + (quoted(encode_utf8(n)) + seq![0x7du8]);
            assert(t[0] == 0x2c);
            assert(rest == decimal(ts as int) + t);
            assert(timestamp == ts && p4 == pos + decimal(ts as int).len());
            assert(pt@.subrange(p4 as int, pt@.len() as int) =~= rest.subrange(decimal(ts as int).len() as int, rest.len() as int));
            assert(pt@.subrange(p4 as int, pt@.len() as int) =~= t);
        }
    }
    let nk = nonce_key_bytes();
    if !matches_at(pt, p4, nk.as_slice()) {
        proof {
            assert forall|ts: i64, n: Seq<char>| rest == #[trigger] tail_text(ts, n) implies false by {
                assert(pt@.subrange(p4 as int, p4 + nonce_key().len()) =~= nonce_key());
            }
        }
        return None;
    }
    assert(p4 + nk@.len() <= pt.len());
    let p5 = p4 + nk.len();
    proof {
        assert forall|ts: i64, n: Seq<char>| rest == #[trigger] tail_text(ts, n) implies pt@.subrange(
            p5 as int, pt@.len() as int) == quoted(encode_utf8(n)) + seq![0x7du8] by {
            let r4 = pt@.subrange(p4 as int, pt@.len() as int);
            assert(r4 == nonce_key() + (quoted(encode_utf8(n)) + seq![0x7du8]));
            assert(pt@.subrange(p5 as int, pt@.len() as int) =~= r4.subrange(nonce_key().len() as int, r4.len() as int));
            assert(pt@.subrange(p5 as int, pt@.len() as int) =~= quoted(encode_utf8(n)) + seq![0x7du8]);
        }
    }
    let (nonce, p6) = match read_string(pt, p5) {
        Some(v) => v,
        None => return None,
    };
    if p6 >= pt.len() || p6 + 1 != pt.len() || pt[p6] != 0x7d {
        proof {
            assert forall|ts: i64, n: Seq<char>| rest == #[trigger] tail_text(ts, n) implies false by {
                let r5 = pt@.subrange(p5 as int, pt@.len() as int);
                assert(r5 == quoted(encode_utf8(n)) + seq![0x7du8]);
                assert(p6 == p5 + quoted(encode_utf8(n)).len());
                assert(r5.len() == quoted(encode_utf8(n)).len() + 1);
                assert(r5[quoted(encode_utf8(n)).len() as int] == 0x7d);
                assert(pt@[p6 as int] == r5[quoted(encode_utf8(n)).len() as int]);
            }
        }
        return None;
    }
    proof {
        assert(rest =~= pt@.subrange(pos as int, p4 as int) + (pt@.subrange(p4 as int, p5 as int) + (pt@.subrange(
            p5 as int, p6 as int) + pt@.subrange(p6 as int, pt@.len() as int))));
        assert(pt@.subrange(p6 as int, pt@.len() as int) =~= seq![0x7du8]);
        assert forall|ts: i64, n: Seq<char>| rest == #[trigger] tail_text(ts, n) implies nonce@ == n by {
            assert(pt@.subrange(p5 as int, pt@.len() as int) == quoted(encode_utf8(n)) + seq![0x7du8]);
        }
    }
    Some((timestamp, nonce))
}

impl Jwt {
    /// Claims for `account` issued now, with a fresh nonce.
    pub fn new(account: &str) -> (r: Self)
        ensures
            r@.account_id == account@,
            fresh_nonce(r@.nonce),
    {
        Jwt::issued_at(account, now_seconds())
    }

    /// Claims for `account` issued at `timestamp`, with a fresh nonce.
    pub fn issued_at(account: &str, timestamp: i64) -> (r: Self)
        ensures
            r@.account_id == account@,
            r@.timestamp == timestamp,
            fresh_nonce(r@.nonce),
    {
        let salt = Salt::new();
        Jwt { account_id: account.to_string(), timestamp, nonce: salt.value().to_string() }
    }

    /// The canonical JSON text of these claims.
    pub fn payload(&self) -> (r: Vec<u8>)
        ensures
            r@ == payload_text(self@),
    {
        let mut out = account_key_bytes();
        let a = match json_quote(self.account_id.as_str()) {
            Ok(v) => v,
            Err(_) => Vec::new(),
        };
        push_all(&mut out, a.as_slice());
        push_all(&mut out, timestamp_key_bytes().as_slice());
        push_decimal(&mut out, self.timestamp);
        push_all(&mut out, nonce_key_bytes().as_slice());
        let n = match json_quote(self.nonce.as_str()) {
            Ok(v) => v,
            Err(_) => Vec::new(),
        };
        push_all(&mut out, n.as_slice());
        out.push(0x7d);
        assert(out@ =~= payload_text(self@));
        out
    }

    /// Reads claims from their canonical JSON text.
    pub fn parse(pt: &[u8]) -> (r: Option<Self>)
        ensures
            r matches Some(j) ==> payload_text(j@) == pt@,
            forall|c: Claims| #[trigger] payload_text(c) == pt@ ==> (r matches Some(j) && j@ == c),
    {
        let (account_id, p3) = match read_head(pt) {
            Some(v) => v,
            None => {
                proof {
                    assert forall|c: Claims| #[trigger] payload_text(c) == pt@ implies false by {
                        assert(pt@ == account_key() + (quoted(encode_utf8(c.account_id)) + (timestamp_key()
                            + tail_text(c.timestamp, c.nonce))));
                    }
                }
                return None;
            },
        };
        let (timestamp, nonce) = match read_tail(pt, p3) {
            Some(v) => v,
            None => {
                proof {
                    assert forall|c: Claims| #[trigger] payload_text(c) == pt@ implies false by {
                        assert(pt@ == account_key() + (quoted(encode_utf8(c.account_id)) + (timestamp_key()
                            + tail_text(c.timestamp, c.nonce))));
                    }
                }
                return None;
            },
        };
        let r = Jwt { account_id, timestamp, nonce };
        proof {
            assert(pt@ =~= pt@.subrange(0, p3 as int) + pt@.subrange(p3 as int, pt@.len() as int));
            assert(pt@ =~= payload_text(r@));
            assert forall|c: Claims| #[trigger] payload_text(c) == pt@ implies r@ == c by {
                assert(pt@ == account_key() + (quoted(encode_utf8(c.account_id)) + (timestamp_key()
                    + tail_text(c.timestamp, c.nonce))));
            }
        }
        Some(r)
    }

    /// Reads a token issued under `secret`.
    pub fn from(secret: &str, data: &str) -> (r: Result<Self, TokenError>)
        ensures
            match r {
                Ok(j) => decoded(secret@, encode_utf8(data@)) == Ok::<Claims, TokenError>(j@),
                Err(e) => decoded(secret@, encode_utf8(data@)) == Err::<Claims, TokenError>(e),
            },
    {
        let pt = match Aes256::decrypt_bytes(secret, data.as_bytes()) {
            Ok(v) => v,
            Err(e) => return Err(TokenError::DecryptFailed(e)),
        };
        match Jwt::parse(pt.as_slice()) {
            Some(j) => {
                proof {
                    lemma_claims_of_payload_text(j@);
                }
                Ok(j)
            },
            None => Err(TokenError::MalformedPayload),
        }
    }

    /// The token for these claims under `secret`: it reads back as exactly
    /// these claims under the same secret.
    pub fn to_string(&self, secret: &str) -> (r: Result<String, CryptoError>)
        ensures
            payload_text(self@).len() <= PLAINTEXT_MAX ==> r is Ok,
            r is Ok ==> decoded(secret@, encode_utf8(r->Ok_0@)) == Ok::<Claims, TokenError>(self@),
            r is Ok ==> is_blob_of(secret@, payload_text(self@), r->Ok_0@),
            r is Ok ==> r->Ok_0@.len() == 2 * (NONCE_LEN + payload_text(self@).len() + TAG_LEN),
            r is Ok ==> forall|i: int| 0 <= i < r->Ok_0@.len() ==> is_lower_hex(#[trigger] r->Ok_0@[i]),
            r is Err ==> r == Err::<String, CryptoError>(CryptoError::EncryptionFailed),
    {
        let raw = self.payload();
        proof {
            lemma_claims_of_payload_text(self@);
        }
        Aes256::encrypt_bytes(secret, raw.as_slice())
    }

    pub fn account_id(&self) -> (r: &str)
        ensures
            r@ == self@.account_id,
    {
        self.account_id.as_str()
    }

    pub fn timestamp(&self) -> (r: i64)
        ensures
            r == self@.timestamp,
    {
        self.timestamp
    }
}

} // verus!
