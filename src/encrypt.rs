use vstd::prelude::*;
use vstd::utf8::{decode_utf8, encode_utf8, valid_utf8};
use crate::hex_text::{
    hex_chars, hex_decode, hex_encode, is_lower_hex, lemma_hex_chars_shape, lemma_unhex_hex_chars, unhex,
};
use crate::json_text::push_all;
use aes_gcm::aead::{Aead, KeyInit};
use aes_gcm::AeadCore;
use rand::distributions::DistString;
use sha3::Digest;

verus! {

/// Length in bytes of the nonce that leads every encrypted blob.
pub const NONCE_LEN: usize = 12;

/// Length in bytes of the tag that follows the ciphertext.
pub const TAG_LEN: usize = 16;

/// The longest plaintext, in bytes, that the cipher accepts.
pub const PLAINTEXT_MAX: u64 = 68719476736;

/// Number of random characters in a fresh salt.
pub const SALT_LEN: usize = 32;

/// The SHA3-256 digest of a byte string.
pub uninterp spec fn sha3_256_of(b: Seq<u8>) -> Seq<u8>;

/// What AES-256-GCM decryption gives for a key, a nonce and a ciphertext with
/// its tag: the plaintext, or nothing when the tag does not check.
pub uninterp spec fn aes_gcm_open(key: Seq<u8>, nonce: Seq<u8>, sealed: Seq<u8>) -> Option<Seq<u8>>;

#[derive(Debug, Clone, Copy, PartialEq, Eq, Structural)]
pub enum CryptoError {
    /// The blob is not hexadecimal, or too short to hold a nonce.
    MalformedEncoding,
    /// The tag did not check: tampered data or another secret.
    AuthenticationFailed,
    /// The cipher refused the plaintext.
    EncryptionFailed,
    /// The decrypted bytes are not UTF-8 text.
    InvalidText,
}

pub open spec fn is_alphanumeric(c: char) -> bool {
    ('0' <= c && c <= '9') || ('a' <= c && c <= 'z') || ('A' <= c && c <= 'Z')
}

/// The cipher key for a secret: the digest of its UTF-8 bytes.
pub open spec fn key_of(secret: Seq<char>) -> Seq<u8> {
    sha3_256_of(encode_utf8(secret))
}

/// What decrypting the hex blob with UTF-8 bytes `data` under `secret` yields.
pub open spec fn decrypted(secret: Seq<char>, data: Seq<u8>) -> Result<Seq<u8>, CryptoError> {
    match unhex(data) {
        None => Err(CryptoError::MalformedEncoding),
        Some(b) => if b.len() < NONCE_LEN {
            Err(CryptoError::MalformedEncoding)
        } else {
            match aes_gcm_open(key_of(secret), b.subrange(0, NONCE_LEN as int), b.subrange(NONCE_LEN as int, b.len() as int)) {
                Some(p) => Ok(p),
                None => Err(CryptoError::AuthenticationFailed),
            }
        },
    }
}

/// `text` is the hex of a nonce followed by a ciphertext and its tag that
/// decrypts to `plaintext` under `secret`.
pub open spec fn is_blob_of(secret: Seq<char>, plaintext: Seq<u8>, text: Seq<char>) -> bool {
    exists|nonce: Seq<u8>, sealed: Seq<u8>|
        #![trigger hex_chars(nonce + sealed)]
        nonce.len() == NONCE_LEN && sealed.len() == plaintext.len() + TAG_LEN && text == hex_chars(nonce + sealed)
            && aes_gcm_open(key_of(secret), nonce, sealed) == Some(plaintext)
}

/// The lower-case hex text of the digest of `text`.
pub open spec fn digest_hex_of(text: Seq<char>) -> Seq<char> {
    hex_chars(sha3_256_of(encode_utf8(text)))
}

/// Relies on sha3::Sha3_256::digest: a 32-byte digest of the input alone.
#[verifier::external_body]
fn sha3_digest(b: &[u8]) -> (r: Vec<u8>)
    ensures
        r@ == sha3_256_of(b@),
        r@.len() == 32,
{
    sha3::Sha3_256::digest(b).to_vec()
}

/// Relies on aes_gcm's AeadCore::generate_nonce with the OS generator: twelve
/// random bytes.
#[verifier::external_body]
fn random_nonce() -> (r: Vec<u8>)
    ensures
        r@.len() == NONCE_LEN,
{
    aes_gcm::Aes256Gcm::generate_nonce(&mut aes_gcm::aead::OsRng).to_vec()
}

#[verifier::external_type_specification]
#[verifier::external_body]
pub struct ExAeadError(aes_gcm::Error);

/// Relies on aes_gcm's Aead::encrypt for Aes256Gcm without associated data:
/// it fails only on a plaintext over 2^36 bytes; it returns the ciphertext
/// with a 16-byte tag, which decryption with the same key and nonce opens to
/// the plaintext.
#[verifier::external_body]
fn aes_gcm_seal(key: &[u8], nonce: &[u8], plaintext: &[u8]) -> (r: Result<Vec<u8>, aes_gcm::Error>)
    requires
        key@.len() == 32,
        nonce@.len() == NONCE_LEN,
    ensures
        plaintext@.len() <= PLAINTEXT_MAX ==> r is Ok,
        r is Ok ==> r->Ok_0@.len() == plaintext@.len() + TAG_LEN,
        r is Ok ==> aes_gcm_open(key@, nonce@, r->Ok_0@) == Some(plaintext@),
{
    let cipher = aes_gcm::Aes256Gcm::new(aes_gcm::Key::<aes_gcm::Aes256Gcm>::from_slice(key));
    cipher.encrypt(aes_gcm::Nonce::from_slice(nonce), plaintext)
}

/// Relies on aes_gcm's Aead::decrypt for Aes256Gcm without associated data:
/// the plaintext when the tag checks, an error otherwise.
#[verifier::external_body]
fn aes_gcm_decrypt(key: &[u8], nonce: &[u8], sealed: &[u8]) -> (r: Result<Vec<u8>, aes_gcm::Error>)
    requires
        key@.len() == 32,
        nonce@.len() == NONCE_LEN,
    ensures
        r is Ok <==> aes_gcm_open(key@, nonce@, sealed@) is Some,
        r is Ok ==> aes_gcm_open(key@, nonce@, sealed@) == Some(r->Ok_0@),
{
    let cipher = aes_gcm::Aes256Gcm::new(aes_gcm::Key::<aes_gcm::Aes256Gcm>::from_slice(key));
    cipher.decrypt(aes_gcm::Nonce::from_slice(nonce), sealed)
}

/// Relies on rand's Alphanumeric::sample_string with the thread generator:
/// `len` characters drawn from `0-9`, `a-z` and `A-Z`.
#[verifier::external_body]
fn random_alphanumeric(len: usize) -> (r: String)
    ensures
        r@.len() == len,
        forall|i: int| 0 <= i < r@.len() ==> is_alphanumeric(#[trigger] r@[i]),
{
    rand::distributions::Alphanumeric.sample_string(&mut rand::thread_rng(), len)
}

#[verifier::external_type_specification]
#[verifier::external_body]
pub struct ExFromUtf8Error(std::string::FromUtf8Error);

/// Relies on String::from_utf8: the text when the bytes are valid UTF-8.
#[verifier::external_body]
pub(crate) fn text_from_utf8(b: Vec<u8>) -> (r: Result<String, std::string::FromUtf8Error>)
    ensures
        r is Ok <==> valid_utf8(b@),
        r is Ok ==> r->Ok_0@ == decode_utf8(b@),
{
    String::from_utf8(b)
}

/// A random salt, kept with an account and prefixed to its password before hashing.
pub struct Salt {
    value: String,
}

impl Salt {
    pub closed spec fn view(&self) -> Seq<char> {
        self.value@
    }

    /// A fresh salt of random alphanumeric characters.
    pub fn new() -> (r: Self)
        ensures
            r.view().len() == SALT_LEN,
            forall|i: int| 0 <= i < r.view().len() ==> is_alphanumeric(#[trigger] r.view()[i]),
    {
        Salt { value: random_alphanumeric(SALT_LEN) }
    }

    pub fn from(salt: &str) -> (r: Self)
        ensures
            r.view() == salt@,
    {
        Salt { value: salt.to_string() }
    }

    /// The hash of this salt followed by `key`.
    pub fn salt(&self, key: &str) -> (r: String)
        ensures
            r@ == digest_hex_of(self.view() + key@),
            r@.len() == 64,
            forall|i: int| 0 <= i < r@.len() ==> is_lower_hex(#[trigger] r@[i]),
    {
        let mut bytes: Vec<u8> = Vec::new();
        push_all(&mut bytes, self.value.as_str().as_bytes());
        push_all(&mut bytes, key.as_bytes());
        proof {
            crate::json_text::lemma_encode_utf8_concat(self.value@, key@);
        }
        let d = sha3_digest(bytes.as_slice());
        proof {
            lemma_hex_chars_shape(d@);
        }
        hex_encode(d.as_slice())
    }

    pub fn value(&self) -> (r: &str)
        ensures
            r@ == self.view(),
    {
        self.value.as_str()
    }
}

pub struct Sha256;

impl Sha256 {
    /// The lower-case hex text of the digest of `key`.
    pub fn hash(key: &str) -> (r: String)
        ensures
            r@ == digest_hex_of(key@),
            r@.len() == 64,
            forall|i: int| 0 <= i < r@.len() ==> is_lower_hex(#[trigger] r@[i]),
    {
        let d = sha3_digest(key.as_bytes());
        proof {
            lemma_hex_chars_shape(d@);
        }
        hex_encode(d.as_slice())
    }
}

pub struct Aes256;

impl Aes256 {
    /// Encrypts bytes under `key_str` with a fresh nonce; the hex text of the
    /// nonce followed by the ciphertext and its tag.
    pub fn encrypt_bytes(key_str: &str, plaintext: &[u8]) -> (r: Result<String, CryptoError>)
        ensures
            plaintext@.len() <= PLAINTEXT_MAX ==> r is Ok,
            r is Ok ==> decrypted(key_str@, encode_utf8(r->Ok_0@)) == Ok::<Seq<u8>, CryptoError>(plaintext@),
            r is Ok ==> is_blob_of(key_str@, plaintext@, r->Ok_0@),
            r is Ok ==> r->Ok_0@.len() == 2 * (NONCE_LEN + plaintext@.len() + TAG_LEN),
            r is Ok ==> forall|i: int| 0 <= i < r->Ok_0@.len() ==> is_lower_hex(#[trigger] r->Ok_0@[i]),
            r is Err ==> r == Err::<String, CryptoError>(CryptoError::EncryptionFailed),
    {
        let key = sha3_digest(key_str.as_bytes());
        let nonce = random_nonce();
        let sealed = match aes_gcm_seal(key.as_slice(), nonce.as_slice(), plaintext) {
            Ok(v) => v,
            Err(_) => return Err(CryptoError::EncryptionFailed),
        };
        let mut data: Vec<u8> = Vec::new();
        push_all(&mut data, nonce.as_slice());
        push_all(&mut data, sealed.as_slice());
        let r = hex_encode(data.as_slice());
        proof {
            lemma_unhex_hex_chars(data@);
            lemma_hex_chars_shape(data@);
            assert(data@ == nonce@ + sealed@);
            assert(data@.subrange(0, NONCE_LEN as int) =~= nonce@);
            assert(data@.subrange(NONCE_LEN as int, data@.len() as int) =~= sealed@);
        }
        Ok(r)
    }

    /// Encrypts the UTF-8 bytes of `plaintext`.
    pub fn encrypt(key_str: &str, plaintext: &str) -> (r: Result<String, CryptoError>)
        ensures
            encode_utf8(plaintext@).len() <= PLAINTEXT_MAX ==> r is Ok,
            r is Ok ==> decrypted(key_str@, encode_utf8(r->Ok_0@)) == Ok::<Seq<u8>, CryptoError>(encode_utf8(plaintext@)),
            r is Ok ==> is_blob_of(key_str@, encode_utf8(plaintext@), r->Ok_0@),
            r is Ok ==> r->Ok_0@.len() == 2 * (NONCE_LEN + encode_utf8(plaintext@).len() + TAG_LEN),
            r is Ok ==> forall|i: int| 0 <= i < r->Ok_0@.len() ==> is_lower_hex(#[trigger] r->Ok_0@[i]),
            r is Err ==> r == Err::<String, CryptoError>(CryptoError::EncryptionFailed),
    {
        Aes256::encrypt_bytes(key_str, plaintext.as_bytes())
    }

    /// Decrypts a hex blob made by `encrypt_bytes` under the same key.
    pub fn decrypt_bytes(key_str: &str, encrypted_data: &[u8]) -> (r: Result<Vec<u8>, CryptoError>)
        ensures
            match r {
                Ok(v) => decrypted(key_str@, encrypted_data@) == Ok::<Seq<u8>, CryptoError>(v@),
                Err(e) => decrypted(key_str@, encrypted_data@) == Err::<Seq<u8>, CryptoError>(e),
            },
    {
        let data = match hex_decode(encrypted_data) {
            Ok(v) => v,
            Err(_) => return Err(CryptoError::MalformedEncoding),
        };
        if data.len() < NONCE_LEN {
            return Err(CryptoError::MalformedEncoding);
        }
        let key = sha3_digest(key_str.as_bytes());
        let (nonce, sealed) = data.as_slice().split_at(NONCE_LEN);
        match aes_gcm_decrypt(key.as_slice(), nonce, sealed) {
            Ok(v) => Ok(v),
            Err(_) => Err(CryptoError::AuthenticationFailed),
        }
    }

    /// Decrypts a hex blob into text.
    pub fn decrypt(key_str: &str, encrypted_data: &str) -> (r: Result<String, CryptoError>)
        ensures
            match decrypted(key_str@, encode_utf8(encrypted_data@)) {
                Ok(p) => if valid_utf8(p) {
                    r is Ok && r->Ok_0@ == decode_utf8(p)
                } else {
                    r == Err::<String, CryptoError>(CryptoError::InvalidText)
                },
                Err(e) => r == Err::<String, CryptoError>(e),
            },
    {
        let bytes = Aes256::decrypt_bytes(key_str, encrypted_data.as_bytes())?;
        match text_from_utf8(bytes) {
            Ok(s) => Ok(s),
            Err(_) => Err(CryptoError::InvalidText),
        }
    }
}

} // verus!
