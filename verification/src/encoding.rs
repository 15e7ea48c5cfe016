//! Bytes as text: the base64 encoding in which objects travel and tokens are written.

use vstd::prelude::*;
use vstd::string::*;

verus! {

/// The digit with the value `n` in base 64, where `c62` and `c63` are the last two.
pub open spec fn digit64(n: int, c62: char, c63: char) -> char {
    if n < 26 {
        (65 + n) as char
    } else if n < 52 {
        (97 + (n - 26)) as char
    } else if n < 62 {
        (48 + (n - 52)) as char
    } else if n == 62 {
        c62
    } else {
        c63
    }
}

/// `b` in base 64: four digits for three bytes, and two or three for the one or two bytes that
/// are left, filled up with `=` where `pad` holds.
pub open spec fn base64(b: Seq<u8>, c62: char, c63: char, pad: bool) -> Seq<char>
    decreases b.len(),
{
    let fill = if pad {
        seq!['=']
    } else {
        Seq::<char>::empty()
    };
    if b.len() == 0 {
        Seq::empty()
    } else if b.len() == 1 {
        seq![digit64(b[0] as int / 4, c62, c63), digit64(b[0] as int % 4 * 16, c62, c63)] + fill + fill
    } else if b.len() == 2 {
        seq![
            digit64(b[0] as int / 4, c62, c63),
            digit64(b[0] as int % 4 * 16 + b[1] as int / 16, c62, c63),
            digit64(b[1] as int % 16 * 4, c62, c63),
        ] + fill
    } else {
        seq![
            digit64(b[0] as int / 4, c62, c63),
            digit64(b[0] as int % 4 * 16 + b[1] as int / 16, c62, c63),
            digit64(b[1] as int % 16 * 4 + b[2] as int / 64, c62, c63),
            digit64(b[2] as int % 64, c62, c63),
        ] + base64(b.skip(3), c62, c63, pad)
    }
}

/// `b` in the standard base64 encoding.
pub open spec fn standard64(b: Seq<u8>) -> Seq<char> {
    base64(b, '+', '/', true)
}

/// `b` in the base64 encoding for names and addresses, which needs no `+`, `/` or `=`.
pub open spec fn url64(b: Seq<u8>) -> Seq<char> {
    base64(b, '-', '_', false)
}

/// Why a text is no base64: the error of the `base64` crate.
#[verifier::external_type_specification]
#[verifier::external_body]
pub struct ExDecodeError(base64::DecodeError);

/// Calls `encode` of `base64::engine::general_purpose::STANDARD`. Trusted: it writes the bytes
/// in the standard base64 encoding, filled up with `=`.
#[verifier::external_body]
pub(crate) fn encode_standard(b: &[u8]) -> (r: String)
    ensures
        r@ == standard64(b@),
{
    base64::Engine::encode(&base64::engine::general_purpose::STANDARD, b)
}

/// Calls `encode` of `base64::engine::general_purpose::URL_SAFE_NO_PAD`. Trusted: it writes the
/// bytes in the base64 encoding with `-` and `_`, not filled up.
#[verifier::external_body]
pub(crate) fn encode_url(b: &[u8]) -> (r: String)
    ensures
        r@ == url64(b@),
{
    base64::Engine::encode(&base64::engine::general_purpose::URL_SAFE_NO_PAD, b)
}

/// Calls `decode` of `base64::engine::general_purpose::STANDARD`. Trusted: it accepts exactly
/// the texts that encoding gives, and returns the bytes that they encode.
#[verifier::external_body]
pub(crate) fn decode_standard(s: &str) -> (r: Result<Vec<u8>, base64::DecodeError>)
    ensures
        r is Ok ==> standard64(r->Ok_0@) == s@,
        r is Err ==> forall|b: Seq<u8>| #[trigger] standard64(b) != s@,
{
    base64::Engine::decode(&base64::engine::general_purpose::STANDARD, s)
}

/// The bytes in the standard base64 encoding.
pub fn encode_base64(b: &[u8]) -> (r: String)
    ensures
        r@ == standard64(b@),
{
    encode_standard(b)
}

/// The bytes that a text in the standard base64 encoding stands for, or `None` for any other
/// text.
pub fn decode_base64(s: &str) -> (r: Option<Vec<u8>>)
    ensures
        match r {
            Some(b) => standard64(b@) == s@,
            None => forall|b: Seq<u8>| #[trigger] standard64(b) != s@,
        },
{
    match decode_standard(s) {
        Ok(b) => Some(b),
        Err(_) => None,
    }
}

proof fn lemma_digit_injective(m: int, n: int)
    requires
        0 <= m < 64,
        0 <= n < 64,
        digit64(m, '+', '/') == digit64(n, '+', '/'),
    ensures
        m == n,
{
}

proof fn lemma_digit_not_fill(n: int)
    requires
        0 <= n < 64,
    ensures
        digit64(n, '+', '/') != '=',
{
}

proof fn lemma_triple(a0: int, a1: int, a2: int, b0: int, b1: int, b2: int)
    requires
        0 <= a0 < 256,
        0 <= a1 < 256,
        0 <= a2 < 256,
        0 <= b0 < 256,
        0 <= b1 < 256,
        0 <= b2 < 256,
        a0 / 4 == b0 / 4,
        a0 % 4 * 16 + a1 / 16 == b0 % 4 * 16 + b1 / 16,
        a1 % 16 * 4 + a2 / 64 == b1 % 16 * 4 + b2 / 64,
        a2 % 64 == b2 % 64,
    ensures
        a0 == b0,
        a1 == b1,
        a2 == b2,
{
}

/// Two byte strings with the same encoding are the same: what is decoded is what was encoded.
pub proof fn law_base64_round_trip(a: Seq<u8>, b: Seq<u8>)
    requires
        standard64(a) == standard64(b),
    ensures
        a == b,
    decreases a.len(),
{
    let s = standard64(a);
    if a.len() == 0 {
        assert(s.len() == 0);
        if b.len() > 0 {
            assert(standard64(b).len() > 0);
        }
        assert(a =~= b);
    } else if b.len() == 0 {
        assert(s.len() > 0);
        assert(standard64(b).len() == 0);
    } else {
        let a0 = a[0] as int;
        let a1 = if a.len() > 1 {
            a[1] as int
        } else {
            0
        };
        let a2 = if a.len() > 2 {
            a[2] as int
        } else {
            0
        };
        let b0 = b[0] as int;
        let b1 = if b.len() > 1 {
            b[1] as int
        } else {
            0
        };
        let b2 = if b.len() > 2 {
            b[2] as int
        } else {
            0
        };
        lemma_quad(a, s);
        lemma_quad(b, s);
        lemma_digit_injective(a0 / 4, b0 / 4);
        lemma_digit_injective(a0 % 4 * 16 + a1 / 16, b0 % 4 * 16 + b1 / 16);
        lemma_digit_not_fill(a1 % 16 * 4 + a2 / 64);
        lemma_digit_not_fill(b1 % 16 * 4 + b2 / 64);
        lemma_digit_not_fill(a2 % 64);
        lemma_digit_not_fill(b2 % 64);
        assert(a.len() > 1 <==> b.len() > 1);
        assert(a.len() > 2 <==> b.len() > 2);
        if a.len() > 1 {
            lemma_digit_injective(a1 % 16 * 4 + a2 / 64, b1 % 16 * 4 + b2 / 64);
        }
        if a.len() > 2 {
            lemma_digit_injective(a2 % 64, b2 % 64);
            assert(s.skip(4) =~= standard64(a.skip(3)));
            assert(s.skip(4) =~= standard64(b.skip(3)));
            law_base64_round_trip(a.skip(3), b.skip(3));
            lemma_triple(a0, a1, a2, b0, b1, b2);
            assert(a =~= seq![a[0], a[1], a[2]] + a.skip(3));
            assert(b =~= seq![b[0], b[1], b[2]] + b.skip(3));
        } else {
            lemma_triple(a0, a1, 0, b0, b1, 0);
            assert(a =~= b);
        }
    }
}

/// The first four characters of an encoding.
proof fn lemma_quad(b: Seq<u8>, s: Seq<char>)
    requires
        b.len() > 0,
        s == standard64(b),
    ensures
        ({
            let b0 = b[0] as int;
            let b1 = if b.len() > 1 {
                b[1] as int
            } else {
                0
            };
            let b2 = if b.len() > 2 {
                b[2] as int
            } else {
                0
            };
            &&& s.len() >= 4
            &&& s[0] == digit64(b0 / 4, '+', '/')
            &&& s[1] == digit64(b0 % 4 * 16 + b1 / 16, '+', '/')
            &&& s[2] == (if b.len() > 1 {
                digit64(b1 % 16 * 4 + b2 / 64, '+', '/')
            } else {
                '='
            })
            &&& s[3] == (if b.len() > 2 {
                digit64(b2 % 64, '+', '/')
            } else {
                '='
            })
            &&& b.len() <= 3 || s.skip(4) == standard64(b.skip(3))
        }),
{
    if b.len() > 3 {
        assert(s.skip(4) =~= standard64(b.skip(3)));
    }
}

/// The digits of base 64 are the capital letters, the small letters, the figures, and two more.
pub proof fn law_digits_of_base64(n: int, x: char, y: char)
    requires
        0 <= n < 62,
    ensures
        digit64(n, x, y) == "ABCDEFGHIJKLMNOPQRSTUVWXYZabcdefghijklmnopqrstuvwxyz0123456789"@[n],
        digit64(62, x, y) == x,
        digit64(63, x, y) == y,
{
    reveal_strlit("ABCDEFGHIJKLMNOPQRSTUVWXYZabcdefghijklmnopqrstuvwxyz0123456789");
}

/// Bytes are encoded three by three, each three in four characters of their own.
pub proof fn law_encoding_goes_three_by_three(a: u8, b: u8, c: u8, rest: Seq<u8>)
    ensures
        standard64(Seq::empty()).len() == 0,
        standard64(seq![a, b, c] + rest) == standard64(seq![a, b, c]) + standard64(rest),
        standard64(seq![a, b, c]).len() == 4,
        standard64(seq![a, b]).len() == 4 && standard64(seq![a, b])[3] == '=' && standard64(seq![a, b]).take(2)
            == standard64(seq![a, b, 0u8]).take(2),
        standard64(seq![a]).len() == 4 && standard64(seq![a])[2] == '=' && standard64(seq![a])[3] == '=',
        url64(seq![a, b, c] + rest) == url64(seq![a, b, c]) + url64(rest),
{
    let s = seq![a, b, c];
    let all = s + rest;
    assert(all.skip(3) =~= rest);
    assert(s.skip(3) =~= Seq::<u8>::empty());
    assert(base64(s.skip(3), '+', '/', true) == Seq::<char>::empty());
    assert(base64(s.skip(3), '-', '_', false) == Seq::<char>::empty());
    assert(standard64(all) =~= standard64(s) + standard64(rest));
    assert(url64(all) =~= url64(s) + url64(rest));
    let z = seq![a, b, 0u8];
    assert(z.skip(3) =~= Seq::<u8>::empty());
    assert(standard64(seq![a, b]).take(2) =~= standard64(z).take(2));
}

} // verus!
