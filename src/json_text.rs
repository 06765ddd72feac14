use vstd::prelude::*;
use vstd::utf8::encode_utf8;

verus! {

/// The lower-case hexadecimal digit, as a byte, for a value below sixteen.
pub open spec fn hex_digit_byte(v: u8) -> u8 {
    if v < 10 {
        (v + 48) as u8
    } else {
        (v + 87) as u8
    }
}

/// How one byte of a string appears inside a JSON string literal.
pub open spec fn escape_byte(b: u8) -> Seq<u8> {
    if b == 0x22 {
        seq![0x5c, 0x22]
    } else if b == 0x5c {
        seq![0x5c, 0x5c]
    } else if b == 0x08 {
        seq![0x5c, 0x62]
    } else if b == 0x09 {
        seq![0x5c, 0x74]
    } else if b == 0x0a {
        seq![0x5c, 0x6e]
    } else if b == 0x0c {
        seq![0x5c, 0x66]
    } else if b == 0x0d {
        seq![0x5c, 0x72]
    } else if b < 0x20 {
        seq![0x5c, 0x75, 0x30, 0x30, hex_digit_byte(b / 16), hex_digit_byte(b % 16)]
    } else {
        seq![b]
    }
}

/// The escaped body of a JSON string literal.
pub open spec fn escaped(s: Seq<u8>) -> Seq<u8>
    decreases s.len(),
{
    if s.len() == 0 {
        Seq::empty()
    } else {
        escape_byte(s[0]) + escaped(s.drop_first())
    }
}

/// The compact JSON string literal for the UTF-8 bytes `s`.
pub open spec fn quoted(s: Seq<u8>) -> Seq<u8> {
    seq![0x22u8] + escaped(s) + seq![0x22u8]
}

/// Offset of the first quote byte that no backslash escapes.
pub open spec fn closing_quote(s: Seq<u8>) -> Option<int>
    decreases s.len(),
{
    if s.len() == 0 {
        None
    } else if s[0] == 0x22 {
        Some(0)
    } else if s[0] == 0x5c {
        if s.len() < 2 {
            None
        } else {
            match closing_quote(s.subrange(2, s.len() as int)) {
                Some(i) => Some(i + 2),
                None => None,
            }
        }
    } else {
        match closing_quote(s.drop_first()) {
            Some(i) => Some(i + 1),
            None => None,
        }
    }
}

pub open spec fn is_digit(b: u8) -> bool {
    0x30 <= b && b <= 0x39
}

/// Decimal digits of a natural number, most significant first, no leading zero.
pub open spec fn decimal_digits(n: nat) -> Seq<u8>
    decreases n,
{
    if n < 10 {
        seq![(n + 48) as u8]
    } else {
        decimal_digits(n / 10).push((n % 10 + 48) as u8)
    }
}

/// The JSON text of an integer.
pub open spec fn decimal(n: int) -> Seq<u8> {
    if n < 0 {
        seq![0x2du8] + decimal_digits((-n) as nat)
    } else {
        decimal_digits(n as nat)
    }
}

/// The number that a run of digits spells.
pub open spec fn digits_value(s: Seq<u8>) -> nat
    decreases s.len(),
{
    if s.len() == 0 {
        0
    } else {
        digits_value(s.drop_last()) * 10 + (s.last() - 48) as nat
    }
}

/// Length of the run of digits that starts `s`.
pub open spec fn digit_run(s: Seq<u8>) -> nat
    decreases s.len(),
{
    if s.len() == 0 || !is_digit(s[0]) {
        0
    } else {
        1 + digit_run(s.drop_first())
    }
}

proof fn lemma_closing_quote_step(x: Seq<u8>)
    requires
        x.len() > 0,
        x[0] != 0x22,
        x[0] != 0x5c,
    ensures
        closing_quote(x) == (match closing_quote(x.drop_first()) {
            Some(i) => Some(i + 1),
            None => None,
        }),
{
}

proof fn lemma_closing_quote_unit(c: u8, t: Seq<u8>)
    ensures
        closing_quote(escape_byte(c) + t) == (match closing_quote(t) {
            Some(i) => Some(i + escape_byte(c).len()),
            None => None,
        }),
{
    let u = escape_byte(c);
    let s = u + t;
    if u.len() == 1 {
        assert(s.drop_first() =~= t);
        lemma_closing_quote_step(s);
    } else if u.len() == 2 {
        assert(s.subrange(2, s.len() as int) =~= t);
    } else {
        let x2 = s.subrange(2, s.len() as int);
        let x3 = x2.drop_first();
        let x4 = x3.drop_first();
        let x5 = x4.drop_first();
        assert(x5.drop_first() =~= t);
        assert(x2[0] == u[2] && x3[0] == u[3] && x4[0] == u[4] && x5[0] == u[5]);
        lemma_closing_quote_step(x5);
        lemma_closing_quote_step(x4);
        lemma_closing_quote_step(x3);
        lemma_closing_quote_step(x2);
    }
}

/// The closing quote of a literal is found right after its escaped body.
pub proof fn lemma_closing_quote_escaped(s: Seq<u8>, t: Seq<u8>)
    ensures
        closing_quote(escaped(s) + seq![0x22u8] + t) == Some(escaped(s).len() as int),
    decreases s.len(),
{
    if s.len() == 0 {
        assert(escaped(s) + seq![0x22u8] + t =~= seq![0x22u8] + t);
    } else {
        let rest = escaped(s.drop_first()) + seq![0x22u8] + t;
        lemma_closing_quote_escaped(s.drop_first(), t);
        lemma_closing_quote_unit(s[0], rest);
        assert(escaped(s) + seq![0x22u8] + t =~= escape_byte(s[0]) + rest);
    }
}

proof fn lemma_escape_byte_injective(a: u8, b: u8, ta: Seq<u8>, tb: Seq<u8>)
    requires
        escape_byte(a) + ta == escape_byte(b) + tb,
    ensures
        a == b,
        ta == tb,
{
    let ua = escape_byte(a);
    let ub = escape_byte(b);
    let s = ua + ta;
    assert(s[0] == ua[0] && s[0] == ub[0]);
    if ua.len() > 1 {
        assert(s[1] == ua[1] && s[1] == ub[1]);
    }
    if ua.len() == 6 {
        assert(s[4] == ua[4] && s[4] == ub[4]);
        assert(s[5] == ua[5] && s[5] == ub[5]);
        assert(a == (a / 16) * 16 + a % 16);
        assert(b == (b / 16) * 16 + b % 16);
    }
    assert(ua =~= ub);
    assert(ta =~= s.subrange(ua.len() as int, s.len() as int));
    assert(tb =~= s.subrange(ub.len() as int, s.len() as int));
}

/// Distinct strings have distinct escaped bodies.
pub proof fn lemma_escaped_injective(a: Seq<u8>, b: Seq<u8>)
    requires
        escaped(a) == escaped(b),
    ensures
        a == b,
    decreases a.len(),
{
    if a.len() == 0 && b.len() == 0 {
    } else if a.len() == 0 {
        assert(escape_byte(b[0]).len() > 0);
    } else if b.len() == 0 {
        assert(escape_byte(a[0]).len() > 0);
    } else {
        lemma_escape_byte_injective(a[0], b[0], escaped(a.drop_first()), escaped(b.drop_first()));
        lemma_escaped_injective(a.drop_first(), b.drop_first());
        assert(a =~= seq![a[0]] + a.drop_first());
        assert(b =~= seq![b[0]] + b.drop_first());
    }
}

/// The digits of a number spell that number.
pub proof fn lemma_digits_value(n: nat)
    ensures
        digits_value(decimal_digits(n)) == n,
        decimal_digits(n).len() >= 1,
        forall|i: int| 0 <= i < decimal_digits(n).len() ==> is_digit(#[trigger] decimal_digits(n)[i]),
    decreases n,
{
    if n >= 10 {
        lemma_digits_value(n / 10);
        let d = decimal_digits(n);
        assert(d.drop_last() =~= decimal_digits(n / 10));
        assert(d.last() == (n % 10 + 48) as u8);
        assert((d.last() - 48) as nat == n % 10);
        assert((n / 10) * 10 + n % 10 == n);
        assert(digits_value(d) == digits_value(d.drop_last()) * 10 + (d.last() - 48) as nat);
        assert(digits_value(d) == n);
    } else {
        let d = decimal_digits(n);
        assert(d.drop_last() =~= Seq::<u8>::empty());
        assert(digits_value(d) == digits_value(d.drop_last()) * 10 + (d.last() - 48) as nat);
        assert(digits_value(d) == n);
    }
}

/// A run of digits followed by something else is read whole.
pub proof fn lemma_digit_run(d: Seq<u8>, t: Seq<u8>)
    requires
        forall|i: int| 0 <= i < d.len() ==> is_digit(#[trigger] d[i]),
        t.len() == 0 || !is_digit(t[0]),
    ensures
        digit_run(d + t) == d.len(),
    decreases d.len(),
{
    if d.len() == 0 {
        assert(d + t =~= t);
    } else {
        assert((d + t).drop_first() =~= d.drop_first() + t);
        lemma_digit_run(d.drop_first(), t);
    }
}

proof fn lemma_digit_run_digits(s: Seq<u8>)
    ensures
        digit_run(s) <= s.len(),
        forall|i: int| 0 <= i < digit_run(s) ==> is_digit(#[trigger] s[i]),
    decreases s.len(),
{
    if s.len() > 0 && is_digit(s[0]) {
        lemma_digit_run_digits(s.drop_first());
        assert forall|i: int| 0 <= i < digit_run(s) implies is_digit(#[trigger] s[i]) by {
            if i > 0 {
                assert(s[i] == s.drop_first()[i - 1]);
            }
        }
    }
}

proof fn lemma_digits_value_monotone(s: Seq<u8>, j: int, k: int)
    requires
        0 <= j <= k <= s.len(),
        forall|i: int| 0 <= i < k ==> is_digit(#[trigger] s[i]),
    ensures
        digits_value(s.subrange(0, j)) <= digits_value(s.subrange(0, k)),
    decreases k - j,
{
    if j < k {
        lemma_digits_value_monotone(s, j, k - 1);
        assert(s.subrange(0, k).drop_last() =~= s.subrange(0, k - 1));
    }
}

/// UTF-8 encoding distributes over concatenation.
pub proof fn lemma_encode_utf8_concat(a: Seq<char>, b: Seq<char>)
    ensures
        encode_utf8(a + b) == encode_utf8(a) + encode_utf8(b),
    decreases a.len(),
{
    if a.len() == 0 {
        assert(a + b =~= b);
    } else {
        assert((a + b).drop_first() =~= a.drop_first() + b);
        lemma_encode_utf8_concat(a.drop_first(), b);
        assert(encode_utf8(a + b) =~= encode_utf8(a) + encode_utf8(b));
    }
}

/// Escaping at most sextuples the length.
pub proof fn lemma_escaped_len(s: Seq<u8>)
    ensures
        escaped(s).len() <= 6 * s.len(),
    decreases s.len(),
{
    if s.len() > 0 {
        lemma_escaped_len(s.drop_first());
    }
}

/// UTF-8 takes at most four bytes per character.
pub proof fn lemma_encode_utf8_len(c: Seq<char>)
    ensures
        encode_utf8(c).len() <= 4 * c.len(),
    decreases c.len(),
{
    if c.len() > 0 {
        lemma_encode_utf8_len(c.drop_first());
    }
}

pub open spec fn pow10(k: nat) -> nat
    decreases k,
{
    if k == 0 {
        1
    } else {
        10 * pow10((k - 1) as nat)
    }
}

proof fn lemma_digits_len(n: nat, k: nat)
    requires
        k >= 1,
        n < pow10(k),
    ensures
        decimal_digits(n).len() <= k,
    decreases n,
{
    if n >= 10 {
        assert(k >= 2) by {
            if k == 1 {
                assert(pow10(1) == 10 * pow10(0));
            }
        }
        let p = pow10((k - 1) as nat);
        assert(pow10(k) == 10 * p);
        assert(n / 10 < p) by (nonlinear_arith)
            requires
                n < 10 * p,
        ;
        lemma_digits_len(n / 10, (k - 1) as nat);
    }
}

/// An `i64` takes at most twenty bytes of text.
pub proof fn lemma_decimal_len(n: i64)
    ensures
        decimal(n as int).len() <= 20,
{
    reveal_with_fuel(pow10, 20);
    assert(pow10(19) == 10000000000000000000nat);
    let m: int = if n < 0 { -(n as int) } else { n as int };
    lemma_digits_len(m as nat, 19);
}

/// A string literal can be taken off the front of a text in one way only.
pub proof fn lemma_quoted_split(a: Seq<u8>, b: Seq<u8>, s: Seq<u8>, t: Seq<u8>)
    requires
        quoted(a) + s == quoted(b) + t,
    ensures
        a == b,
        s == t,
{
    let x = quoted(a) + s;
    lemma_closing_quote_escaped(a, s);
    lemma_closing_quote_escaped(b, t);
    assert(x.drop_first() =~= escaped(a) + seq![0x22u8] + s);
    assert((quoted(b) + t).drop_first() =~= escaped(b) + seq![0x22u8] + t);
    let n = escaped(a).len() as int;
    assert(escaped(a) =~= x.subrange(1, n + 1));
    assert(escaped(b) =~= x.subrange(1, n + 1));
    lemma_escaped_injective(a, b);
    assert(s =~= x.subrange(n + 2, x.len() as int));
    assert(t =~= x.subrange(n + 2, x.len() as int));
}

/// Texts are equal when their UTF-8 encodings are.
pub proof fn lemma_encode_utf8_injective(a: Seq<char>, b: Seq<char>)
    requires
        encode_utf8(a) == encode_utf8(b),
    ensures
        a == b,
{
    vstd::utf8::encode_utf8_decode_utf8(a);
    vstd::utf8::encode_utf8_decode_utf8(b);
}

/// An integer can be taken off the front of a text in one way only, when
/// what follows it does not start with a digit.
pub proof fn lemma_decimal_split(m: int, n: int, s: Seq<u8>, t: Seq<u8>)
    requires
        decimal(m) + s == decimal(n) + t,
        s.len() == 0 || !is_digit(s[0]),
        t.len() == 0 || !is_digit(t[0]),
    ensures
        m == n,
        s == t,
{
    let x = decimal(m) + s;
    let dm = if m < 0 { decimal_digits((-m) as nat) } else { decimal_digits(m as nat) };
    let dn = if n < 0 { decimal_digits((-n) as nat) } else { decimal_digits(n as nat) };
    lemma_digits_value(if m < 0 { (-m) as nat } else { m as nat });
    lemma_digits_value(if n < 0 { (-n) as nat } else { n as nat });
    assert(is_digit(dm[0]) && is_digit(dn[0]));
    let om: int = if m < 0 { 1 } else { 0 };
    let on: int = if n < 0 { 1 } else { 0 };
    assert(x[0] == decimal(m)[0]);
    assert((decimal(n) + t)[0] == decimal(n)[0]);
    assert(om == on);
    let y = x.subrange(om, x.len() as int);
    assert(y =~= dm + s);
    assert(y =~= dn + t);
    lemma_digit_run(dm, s);
    lemma_digit_run(dn, t);
    assert(dm =~= y.subrange(0, dm.len() as int));
    assert(dn =~= y.subrange(0, dn.len() as int));
    assert(s =~= y.subrange(dm.len() as int, y.len() as int));
    assert(t =~= y.subrange(dn.len() as int, y.len() as int));
}

/// Whether `k` occurs in `b` at `pos`.
pub fn matches_at(b: &[u8], pos: usize, k: &[u8]) -> (r: bool)
    ensures
        r == (pos + k@.len() <= b@.len() && b@.subrange(pos as int, pos + k@.len()) == k@),
{
    if pos > b.len() || k.len() > b.len() - pos {
        return false;
    }
    let mut i: usize = 0;
    while i < k.len()
        invariant
            i <= k@.len(),
            pos + k@.len() <= b@.len(),
            b@.len() == b.len(),
            forall|j: int| 0 <= j < i ==> b@[pos + j] == k@[j],
        decreases k@.len() - i,
    {
        if b[pos + i] != k[i] {
            assert(b@.subrange(pos as int, pos + k@.len())[i as int] != k@[i as int]);
            return false;
        }
        i = i + 1;
    }
    assert(b@.subrange(pos as int, pos + k@.len()) =~= k@);
    true
}

/// `b` holds the byte `x` exactly once, at `k`.
pub open spec fn single_byte_at(b: Seq<u8>, x: u8, k: int) -> bool {
    &&& 0 <= k < b.len()
    &&& b[k] == x
    &&& forall|j: int| 0 <= j < b.len() && j != k ==> b[j] != x
}

/// Position of the only `x` in `b`, if it holds exactly one.
pub fn find_single_byte(b: &[u8], x: u8) -> (r: Option<usize>)
    ensures
        r matches Some(k) ==> single_byte_at(b@, x, k as int),
        r is None ==> !(exists|k: int| single_byte_at(b@, x, k)),
{
    let mut i: usize = 0;
    while i < b.len() && b[i] != x
        invariant
            i <= b@.len(),
            forall|j: int| 0 <= j < i ==> b@[j] != x,
        decreases b@.len() - i,
    {
        i = i + 1;
    }
    if i == b.len() {
        return None;
    }
    let k = i;
    let mut j: usize = k + 1;
    while j < b.len()
        invariant
            k < j <= b@.len(),
            k < b@.len(),
            b@[k as int] == x,
            forall|m: int| 0 <= m < k ==> b@[m] != x,
            forall|m: int| k < m < j ==> b@[m] != x,
        decreases b@.len() - j,
    {
        if b[j] == x {
            proof {
                assert forall|q: int| !single_byte_at(b@, x, q) by {
                    if q == k as int {
                        assert(b@[j as int] == x);
                    } else if 0 <= q < b@.len() {
                        assert(b@[k as int] == x);
                    }
                }
            }
            return None;
        }
        j = j + 1;
    }
    Some(k)
}

/// Whether two texts are equal, compared byte by byte.
pub fn same_text(a: &str, b: &str) -> (r: bool)
    ensures
        r == (a@ == b@),
{
    let ab = a.as_bytes();
    let bb = b.as_bytes();
    let r = ab.len() == bb.len() && matches_at(ab, 0, bb);
    proof {
        if r {
            assert(ab@ =~= ab@.subrange(0, bb@.len() as int));
            lemma_encode_utf8_injective(a@, b@);
        }
        if a@ == b@ {
            assert(ab@ == bb@);
            assert(ab@.subrange(0, bb@.len() as int) =~= ab@);
        }
    }
    r
}

/// Reads the string literal that starts at `pos`; gives the string and the
/// position after the literal, if the literal is in the form that
/// serialising a string writes.
pub fn read_string(b: &[u8], pos: usize) -> (r: Option<(String, usize)>)
    requires
        pos <= b@.len(),
    ensures
        r matches Some((s, end)) ==> pos <= end <= b@.len() && b@.subrange(pos as int, end as int)
            == quoted(encode_utf8(s@)),
        forall|x: Seq<char>, t: Seq<u8>|
            b@.subrange(pos as int, b@.len() as int) == #[trigger] (quoted(encode_utf8(x)) + t) ==> (r
                matches Some((s, end)) && s@ == x && end == pos + quoted(encode_utf8(x)).len()),
{
    if pos >= b.len() || b[pos] != 0x22 {
        proof {
            assert forall|x: Seq<char>, t: Seq<u8>|
                b@.subrange(pos as int, b@.len() as int) == #[trigger] (quoted(encode_utf8(x)) + t)
                implies false by {
                let q = quoted(encode_utf8(x));
                assert(q[0] == 0x22);
                assert((q + t).len() >= 2);
                assert((q + t)[0] == 0x22);
            }
        }
        return None;
    }
    let close = match find_closing_quote(b, pos + 1) {
        Some(c) => c,
        None => {
            proof {
                assert forall|x: Seq<char>, t: Seq<u8>|
                    b@.subrange(pos as int, b@.len() as int) == #[trigger] (quoted(encode_utf8(x)) + t)
                    implies false by {
                    lemma_closing_quote_escaped(encode_utf8(x), t);
                    let y = b@.subrange(pos as int, b@.len() as int);
                    assert(b@.subrange(pos + 1, b@.len() as int) =~= y.drop_first());
                    assert(y.drop_first() =~= escaped(encode_utf8(x)) + seq![0x22u8] + t);
                }
            }
            return None;
        },
    };
    let (_, rest) = b.split_at(pos);
    let (lit, _) = rest.split_at(close + 1 - pos);
    assert(lit@ =~= b@.subrange(pos as int, close + 1));
    proof {
        assert forall|x: Seq<char>, t: Seq<u8>|
            b@.subrange(pos as int, b@.len() as int) == #[trigger] (quoted(encode_utf8(x)) + t)
            implies lit@ == quoted(encode_utf8(x)) by {
            lemma_closing_quote_escaped(encode_utf8(x), t);
            let y = b@.subrange(pos as int, b@.len() as int);
            assert(b@.subrange(pos + 1, b@.len() as int) =~= y.drop_first());
            assert(y.drop_first() =~= escaped(encode_utf8(x)) + seq![0x22u8] + t);
            assert(lit@ =~= y.subrange(0, quoted(encode_utf8(x)).len() as int));
            assert(lit@ =~= quoted(encode_utf8(x)));
        }
    }
    let s = match json_unquote(lit) {
        Ok(s) => s,
        Err(_) => return None,
    };
    let again = match json_quote(s.as_str()) {
        Ok(v) => v,
        Err(_) => return None,
    };
    if !matches_at(lit, 0, again.as_slice()) || again.len() != lit.len() {
        proof {
            assert forall|x: Seq<char>, t: Seq<u8>|
                b@.subrange(pos as int, b@.len() as int) == #[trigger] (quoted(encode_utf8(x)) + t)
                implies false by {
                assert(lit@.subrange(0, again@.len() as int) =~= lit@);
            }
        }
        return None;
    }
    assert(lit@.subrange(0, again@.len() as int) =~= lit@);
    Some((s, close + 1))
}

/// Reads the JSON integer that starts at `pos`; gives it and the position
/// after it, if it is written as serialising an `i64` writes it.
pub fn read_int(b: &[u8], pos: usize) -> (r: Option<(i64, usize)>)
    requires
        pos <= b@.len(),
    ensures
        r matches Some((n, end)) ==> pos <= end <= b@.len() && b@.subrange(pos as int, end as int)
            == decimal(n as int),
        forall|m: i64, t: Seq<u8>|
            b@.subrange(pos as int, b@.len() as int) == #[trigger] (decimal(m as int) + t) && (t.len()
                == 0 || !is_digit(t[0])) ==> (r matches Some((n, end)) && n == m && end == pos
                + decimal(m as int).len()),
{
    let negative = pos < b.len() && b[pos] == 0x2d;
    let start: usize = if negative { pos + 1 } else { pos };
    let (mag, end) = match read_digits(b, start) {
        Some(p) => p,
        None => {
            proof {
                assert forall|m: i64, t: Seq<u8>|
                    b@.subrange(pos as int, b@.len() as int) == #[trigger] (decimal(m as int) + t) && (
                    t.len() == 0 || !is_digit(t[0])) implies false by {
                    lemma_read_int_complete(b@, pos as int, m as int, t);
                }
            }
            return None;
        },
    };
    if (negative && mag > 9223372036854775808) || (!negative && mag > 9223372036854775807) {
        proof {
            assert forall|m: i64, t: Seq<u8>|
                b@.subrange(pos as int, b@.len() as int) == #[trigger] (decimal(m as int) + t) && (t.len()
                    == 0 || !is_digit(t[0])) implies false by {
                lemma_read_int_complete(b@, pos as int, m as int, t);
            }
        }
        return None;
    }
    let n: i64 = if negative {
        if mag == 9223372036854775808 { i64::MIN } else { -(mag as i64) }
    } else {
        mag as i64
    };
    let mut text: Vec<u8> = Vec::new();
    push_decimal(&mut text, n);
    if !matches_at(b, pos, text.as_slice()) || pos + text.len() != end {
        proof {
            assert forall|m: i64, t: Seq<u8>|
                b@.subrange(pos as int, b@.len() as int) == #[trigger] (decimal(m as int) + t) && (t.len()
                    == 0 || !is_digit(t[0])) implies false by {
                lemma_read_int_complete(b@, pos as int, m as int, t);
                let y = b@.subrange(pos as int, b@.len() as int);
                assert(y.len() == decimal(m as int).len() + t.len());
                assert(y.subrange(0, decimal(m as int).len() as int) =~= decimal(m as int));
                assert(b@.subrange(pos as int, pos + decimal(m as int).len()) =~= y.subrange(0, decimal(m as int).len() as int));
                assert(n == m);
            }
        }
        return None;
    }
    proof {
        assert forall|m: i64, t: Seq<u8>|
            b@.subrange(pos as int, b@.len() as int) == #[trigger] (decimal(m as int) + t) && (t.len() == 0
                || !is_digit(t[0])) implies n == m && end == pos + decimal(m as int).len() by {
            lemma_read_int_complete(b@, pos as int, m as int, t);
        }
    }
    Some((n, end))
}

proof fn lemma_read_int_complete(b: Seq<u8>, pos: int, m: int, t: Seq<u8>)
    requires
        0 <= pos <= b.len(),
        b.subrange(pos, b.len() as int) == decimal(m) + t,
        t.len() == 0 || !is_digit(t[0]),
    ensures
        ({
            let neg = pos < b.len() && b[pos] == 0x2d;
            let start = if neg { pos + 1 } else { pos };
            let run = digit_run(b.subrange(start, b.len() as int));
            let mag: int = if m < 0 { -m } else { m };
            &&& neg == (m < 0)
            &&& run == decimal_digits(mag as nat).len()
            &&& run > 0
            &&& digits_value(b.subrange(start, start + run)) == mag
            &&& start + run == pos + decimal(m).len()
        }),
{
    let mag: int = if m < 0 { -m } else { m };
    let d = decimal_digits(mag as nat);
    lemma_digits_value(mag as nat);
    let x = b.subrange(pos, b.len() as int);
    assert(x[0] == decimal(m)[0]);
    let neg = pos < b.len() && b[pos] == 0x2d;
    let start = if neg { pos + 1 } else { pos };
    assert(neg == (m < 0));
    if m < 0 {
        assert(b.subrange(start, b.len() as int) =~= x.drop_first());
        assert(x.drop_first() =~= d + t);
    } else {
        assert(x =~= d + t);
    }
    lemma_digit_run(d, t);
    assert(b.subrange(start, start + d.len()) =~= d);
}

#[verifier::external_type_specification]
#[verifier::external_body]
pub struct ExJsonError(serde_json::Error);

/// Relies on serde_json::to_vec on a `str`: the compact literal, with `"`,
/// `\` and control bytes escaped and every other byte kept. Writing into a
/// vector cannot fail.
#[verifier::external_body]
pub(crate) fn json_quote(s: &str) -> (r: Result<Vec<u8>, serde_json::Error>)
    ensures
        r is Ok,
        r is Ok ==> r->Ok_0@ == quoted(encode_utf8(s@)),
{
    serde_json::to_vec(s)
}


/// Relies on serde_json::from_slice into a `String`: a literal in the form
/// that serialising a string writes is read back as that string.
#[verifier::external_body]
pub(crate) fn json_unquote(lit: &[u8]) -> (r: Result<String, serde_json::Error>)
    ensures
        forall|s: Seq<char>| #[trigger] quoted(encode_utf8(s)) == lit@ ==> r is Ok && r->Ok_0@ == s,
{
    serde_json::from_slice::<String>(lit)
}

/// Index of the closing quote of a literal whose body starts at `start`.
pub fn find_closing_quote(b: &[u8], start: usize) -> (r: Option<usize>)
    requires
        start <= b@.len(),
    ensures
        r == (match closing_quote(b@.subrange(start as int, b@.len() as int)) {
            Some(i) => Some((i + start) as usize),
            None => None,
        }),
        r matches Some(c) ==> start <= c < b@.len() && b@[c as int] == 0x22,
{
    let mut i: usize = start;
    while i < b.len()
        invariant
            start <= i <= b@.len(),
            closing_quote(b@.subrange(start as int, b@.len() as int)) == (match closing_quote(
                b@.subrange(i as int, b@.len() as int),
            ) {
                Some(k) => Some(k + (i - start)),
                None => None,
            }),
        decreases b@.len() - i,
    {
        let ghost tail = b@.subrange(i as int, b@.len() as int);
        if b[i] == 0x22 {
            return Some(i);
        } else if b[i] == 0x5c {
            if i + 1 >= b.len() {
                return None;
            }
            assert(tail.subrange(2, tail.len() as int) =~= b@.subrange(i + 2, b@.len() as int));
            i = i + 2;
        } else {
            assert(tail.drop_first() =~= b@.subrange(i + 1, b@.len() as int));
            i = i + 1;
        }
    }
    None
}

/// Appends every byte of `b`.
pub fn push_all(out: &mut Vec<u8>, b: &[u8])
    ensures
        final(out)@ == old(out)@ + b@,
{
    let mut i: usize = 0;
    while i < b.len()
        invariant
            i <= b@.len(),
            out@ == old(out)@ + b@.subrange(0, i as int),
        decreases b@.len() - i,
    {
        out.push(b[i]);
        i = i + 1;
        assert(out@ =~= old(out)@ + b@.subrange(0, i as int));
    }
    assert(b@.subrange(0, i as int) =~= b@);
}

/// Appends the decimal digits of `n`.
pub fn push_digits(out: &mut Vec<u8>, n: u64)
    ensures
        final(out)@ == old(out)@ + decimal_digits(n as nat),
    decreases n,
{
    if n >= 10 {
        push_digits(out, n / 10);
        out.push((n % 10) as u8 + 48);
        assert(decimal_digits(n as nat) == decimal_digits((n / 10) as nat).push((n % 10 + 48) as u8));
    } else {
        out.push(n as u8 + 48);
    }
}

/// Appends the JSON text of `n`.
pub fn push_decimal(out: &mut Vec<u8>, n: i64)
    ensures
        final(out)@ == old(out)@ + decimal(n as int),
{
    if n < 0 {
        out.push(0x2d);
        let m: u64 = if n == i64::MIN { 9223372036854775808u64 } else { (-n) as u64 };
        push_digits(out, m);
        assert(final(out)@ =~= old(out)@ + decimal(n as int));
    } else {
        push_digits(out, n as u64);
    }
}

/// Reads the run of digits at `start`; `None` when the run is empty or
/// spells a number above `2^63`.
pub fn read_digits(b: &[u8], start: usize) -> (r: Option<(u64, usize)>)
    requires
        start <= b@.len(),
    ensures
        ({
            let run = digit_run(b@.subrange(start as int, b@.len() as int));
            let v = digits_value(b@.subrange(start as int, start + run));
            match r {
                Some((n, end)) => end == start + run && run > 0 && n == v && v <= 9223372036854775808,
                None => run == 0 || v > 9223372036854775808,
            }
        }),
{
    let mut i: usize = start;
    let mut acc: u64 = 0;
    while i < b.len() && 0x30 <= b[i] && b[i] <= 0x39
        invariant
            start <= i <= b@.len(),
            acc <= 9223372036854775808,
            digit_run(b@.subrange(start as int, b@.len() as int)) == (i - start) + digit_run(
                b@.subrange(i as int, b@.len() as int),
            ),
            acc == digits_value(b@.subrange(start as int, i as int)),
        decreases b@.len() - i,
    {
        let ghost tail = b@.subrange(i as int, b@.len() as int);
        assert(tail.drop_first() =~= b@.subrange(i + 1, b@.len() as int));
        let d = (b[i] - 48) as u64;
        assert(b@.subrange(start as int, i + 1).drop_last() =~= b@.subrange(start as int, i as int));
        if acc > 922337203685477580 || (acc == 922337203685477580 && d > 8) {
            proof {
                let t = b@.subrange(start as int, b@.len() as int);
                let run = digit_run(t);
                assert(digit_run(tail) >= 1);
                lemma_digit_run_digits(t);
                lemma_digits_value_monotone(t, i + 1 - start, run as int);
                assert(t.subrange(0, i + 1 - start) =~= b@.subrange(start as int, i + 1));
                assert(t.subrange(0, run as int) =~= b@.subrange(start as int, start + run));
            }
            return None;
        }
        acc = acc * 10 + d;
        i = i + 1;
    }
    assert(digit_run(b@.subrange(i as int, b@.len() as int)) == 0);
    if i == start {
        return None;
    }
    Some((acc, i))
}

} // verus!
