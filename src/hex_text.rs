use vstd::prelude::*;
use vstd::utf8::{encode_scalar, encode_utf8};
use crate::json_text::lemma_encode_utf8_concat;

verus! {

/// The lower-case hexadecimal digit for a value below sixteen.
pub open spec fn hex_digit(v: u8) -> char {
    if v < 10 {
        (v + 48) as char
    } else {
        (v + 87) as char
    }
}

/// Two lower-case digits for each byte, high half first.
pub open spec fn hex_chars(b: Seq<u8>) -> Seq<char>
    decreases b.len(),
{
    if b.len() == 0 {
        Seq::empty()
    } else {
        seq![hex_digit(b[0] / 16), hex_digit(b[0] % 16)] + hex_chars(b.drop_first())
    }
}

pub open spec fn is_lower_hex(c: char) -> bool {
    ('0' <= c && c <= '9') || ('a' <= c && c <= 'f')
}

/// The digits of a byte string: two per byte, all lower-case hex.
pub proof fn lemma_hex_chars_shape(b: Seq<u8>)
    ensures
        hex_chars(b).len() == 2 * b.len(),
        forall|i: int| 0 <= i < hex_chars(b).len() ==> is_lower_hex(#[trigger] hex_chars(b)[i]),
    decreases b.len(),
{
    if b.len() > 0 {
        lemma_hex_chars_shape(b.drop_first());
        let h = hex_chars(b);
        let rest = hex_chars(b.drop_first());
        assert forall|i: int| 0 <= i < h.len() implies is_lower_hex(#[trigger] h[i]) by {
            if i >= 2 {
                assert(h[i] == rest[i - 2]);
            } else {
                assert(b[0] / 16 < 16 && b[0] % 16 < 16);
            }
        }
    }
}

/// The value of one hexadecimal digit of either case, as a byte.
pub open spec fn hex_value(c: u8) -> Option<u8> {
    if 0x30 <= c && c <= 0x39 {
        Some((c - 48) as u8)
    } else if 0x61 <= c && c <= 0x66 {
        Some((c - 87) as u8)
    } else if 0x41 <= c && c <= 0x46 {
        Some((c - 55) as u8)
    } else {
        None
    }
}

/// The bytes that a text of hexadecimal digit pairs stands for, if it is one.
pub open spec fn unhex(s: Seq<u8>) -> Option<Seq<u8>>
    decreases s.len(),
{
    if s.len() == 0 {
        Some(Seq::empty())
    } else if s.len() == 1 {
        None
    } else {
        match (hex_value(s[0]), hex_value(s[1]), unhex(s.subrange(2, s.len() as int))) {
            (Some(h), Some(l), Some(rest)) => Some(seq![(h * 16 + l) as u8] + rest),
            _ => None,
        }
    }
}

proof fn lemma_ascii_mask(v: u32)
    by (bit_vector)
    requires
        v < 0x80,
    ensures
        v & 0x7F == v,
{
}

/// Reading back the UTF-8 bytes of the digits of a byte string gives the
/// byte string.
pub proof fn lemma_unhex_hex_chars(b: Seq<u8>)
    ensures
        unhex(encode_utf8(hex_chars(b))) == Some(b),
    decreases b.len(),
{
    if b.len() > 0 {
        let hi = b[0] / 16;
        let lo = b[0] % 16;
        let c1 = hex_digit(hi);
        let c2 = hex_digit(lo);
        let rest = hex_chars(b.drop_first());
        lemma_encode_utf8_concat(seq![c1, c2], rest);
        lemma_encode_utf8_concat(seq![c1], seq![c2]);
        assert(seq![c1, c2] =~= seq![c1] + seq![c2]);
        assert(seq![c1].drop_first() =~= Seq::<char>::empty());
        assert(seq![c2].drop_first() =~= Seq::<char>::empty());
        let v1 = c1 as u32;
        let v2 = c2 as u32;
        assert(v1 < 0x80 && v2 < 0x80);
        lemma_ascii_mask(v1);
        lemma_ascii_mask(v2);
        assert(encode_utf8(seq![c1]) == encode_scalar(v1) + encode_utf8(seq![c1].drop_first()));
        assert(encode_utf8(seq![c2]) == encode_scalar(v2) + encode_utf8(seq![c2].drop_first()));
        assert(encode_utf8(seq![c1]) =~= seq![v1 as u8]);
        assert(encode_utf8(seq![c2]) =~= seq![v2 as u8]);
        let e = encode_utf8(hex_chars(b));
        assert(e =~= seq![v1 as u8, v2 as u8] + encode_utf8(rest));
        assert(e.subrange(2, e.len() as int) =~= encode_utf8(rest));
        lemma_unhex_hex_chars(b.drop_first());
        assert(hex_value(v1 as u8) == Some(hi));
        assert(hex_value(v2 as u8) == Some(lo));
        assert(seq![(hi * 16 + lo) as u8] + b.drop_first() =~= b);
    }
}

#[verifier::external_type_specification]
#[verifier::external_body]
pub struct ExFromHexError(hex::FromHexError);

/// Relies on hex::encode: two lower-case digits per byte, in order.
#[verifier::external_body]
pub(crate) fn hex_encode(b: &[u8]) -> (r: String)
    ensures
        r@ == hex_chars(b@),
{
    hex::encode(b)
}

/// Relies on hex::decode: it accepts exactly an even number of digits of
/// either case, and gives the bytes they stand for.
#[verifier::external_body]
pub(crate) fn hex_decode(s: &[u8]) -> (r: Result<Vec<u8>, hex::FromHexError>)
    ensures
        r is Ok <==> unhex(s@) is Some,
        r is Ok ==> unhex(s@) == Some(r->Ok_0@),
{
    hex::decode(s)
}

} // verus!
