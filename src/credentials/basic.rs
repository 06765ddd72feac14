use vstd::prelude::*;
use vstd::utf8::{decode_utf8, encode_utf8, valid_utf8};
use base64::Engine;
use crate::encrypt::text_from_utf8;
use crate::json_text::{find_single_byte, matches_at, push_all, single_byte_at};

verus! {

/// The bytes that standard base64 text (with padding) stands for, if it is
/// base64.
pub uninterp spec fn base64_decoded(text: Seq<u8>) -> Option<Seq<u8>>;

#[verifier::external_type_specification]
#[verifier::external_body]
pub struct ExDecodeError(base64::DecodeError);

/// Relies on base64's STANDARD engine `decode`: the decoded bytes, or an
/// error when the input is not base64.
#[verifier::external_body]
fn base64_decode(text: &[u8]) -> (r: Result<Vec<u8>, base64::DecodeError>)
    ensures
        r is Ok <==> base64_decoded(text@) is Some,
        r is Ok ==> base64_decoded(text@) == Some(r->Ok_0@),
{
    base64::prelude::BASE64_STANDARD.decode(text)
}

/// `Basic`
pub open spec fn basic_word() -> Seq<u8> {
    seq![0x42u8, 0x61, 0x73, 0x69, 0x63]
}

/// The account id and password that a `Basic` credential of the UTF-8 bytes
/// `d` names: exactly one colon splits them, and each side is text.
pub open spec fn id_and_password(d: Seq<u8>) -> Option<(Seq<char>, Seq<char>)> {
    if !(exists|j: int| single_byte_at(d, 0x3a, j)) {
        None
    } else {
        let j = choose|j: int| single_byte_at(d, 0x3a, j);
        let a = d.subrange(0, j);
        let b = d.subrange(j + 1, d.len() as int);
        if valid_utf8(a) && valid_utf8(b) {
            Some((decode_utf8(a), decode_utf8(b)))
        } else {
            None
        }
    }
}

/// What an `Authorization` header of the `Basic` scheme carries: the header
/// is `Basic` and the base64 credential, split by its only space.
pub open spec fn basic_credentials(header: Seq<char>) -> Option<(Seq<char>, Seq<char>)> {
    let hb = encode_utf8(header);
    if !(exists|k: int| single_byte_at(hb, 0x20, k)) {
        None
    } else {
        let k = choose|k: int| single_byte_at(hb, 0x20, k);
        if hb.subrange(0, k) != basic_word() {
            None
        } else {
            match base64_decoded(hb.subrange(k + 1, hb.len() as int)) {
                None => None,
                Some(d) => id_and_password(d),
            }
        }
    }
}

/// An account id and password, as sent for login.
pub struct BasicAuth {
    id: String,
    password: String,
}

fn basic_word_bytes() -> (r: Vec<u8>)
    ensures
        r@ == basic_word(),
{
    let r = vec![0x42u8, 0x61, 0x73, 0x69, 0x63];
    assert(r@ =~= basic_word());
    r
}

impl BasicAuth {
    pub closed spec fn view(&self) -> (Seq<char>, Seq<char>) {
        (self.id@, self.password@)
    }

    /// Reads the value of an `Authorization` header of the `Basic` scheme.
    pub fn from(header: &str) -> (r: Option<BasicAuth>)
        ensures
            match r {
                Some(a) => basic_credentials(header@) == Some(a.view()),
                None => basic_credentials(header@) is None,
            },
    {
        let hb = header.as_bytes();
        let k = match find_single_byte(hb, 0x20) {
            Some(k) => k,
            None => return None,
        };
        proof {
            assert forall|q: int| single_byte_at(hb@, 0x20, q) implies q == k as int by {
                if q != k as int {
                    assert(hb@[q] != 0x20);
                }
            }
        }
        let word = basic_word_bytes();
        if k != 5 || !matches_at(hb, 0, word.as_slice()) {
            proof {
                assert(basic_word().len() == 5);
                let q = choose|q: int| single_byte_at(hb@, 0x20, q);
                assert(q == k as int);
                assert(hb@.subrange(0, k as int).len() == k);
            }
            return None;
        }
        let (_, encoded) = hb.split_at(k + 1);
        let d = match base64_decode(encoded) {
            Ok(d) => d,
            Err(_) => return None,
        };
        BasicAuth::from_decoded(d.as_slice())
    }

    /// Reads the decoded credential of a `Basic` header: the id and the
    /// password on either side of its only colon.
    pub fn from_decoded(d: &[u8]) -> (r: Option<BasicAuth>)
        ensures
            match r {
                Some(a) => id_and_password(d@) == Some(a.view()),
                None => id_and_password(d@) is None,
            },
    {
        let j = match find_single_byte(d, 0x3a) {
            Some(j) => j,
            None => return None,
        };
        proof {
            assert forall|q: int| single_byte_at(d@, 0x3a, q) implies q == j as int by {
                if q != j as int {
                    assert(d@[q] != 0x3a);
                }
            }
        }
        let (left, right) = d.split_at(j);
        let (_, right) = right.split_at(1);
        assert(right@ =~= d@.subrange(j + 1, d@.len() as int));
        let mut left_bytes: Vec<u8> = Vec::new();
        push_all(&mut left_bytes, left);
        let mut right_bytes: Vec<u8> = Vec::new();
        push_all(&mut right_bytes, right);
        let id = match text_from_utf8(left_bytes) {
            Ok(s) => s,
            Err(_) => return None,
        };
        let password = match text_from_utf8(right_bytes) {
            Ok(s) => s,
            Err(_) => return None,
        };
        Some(BasicAuth { id, password })
    }

    pub fn id(&self) -> (r: &str)
        ensures
            r@ == self.view().0,
    {
        self.id.as_str()
    }

    pub fn password(&self) -> (r: &str)
        ensures
            r@ == self.view().1,
    {
        self.password.as_str()
    }
}

} // verus!
