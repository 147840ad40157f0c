//! Base64 (RFC 4648, standard alphabet, padded with `=`), by the base64 crate.
use base64::Engine;
use vstd::prelude::*;

verus! {

/// The character of a 6-bit value: `A`-`Z`, `a`-`z`, `0`-`9`, `+`, `/`.
pub open spec fn b64_digit(v: int) -> char {
    if v < 26 {
        (65 + v) as char
    } else if v < 52 {
        (97 + (v - 26)) as char
    } else if v < 62 {
        (48 + (v - 52)) as char
    } else if v == 62 {
        '+'
    } else {
        '/'
    }
}

/// The standard base64 encoding of `d`: each group of three bytes becomes four characters of
/// six bits each; a last group of one or two bytes is padded with `==` or `=`.
pub open spec fn base64_standard(d: Seq<u8>) -> Seq<char>
    decreases d.len(),
{
    if d.len() == 0 {
        Seq::empty()
    } else if d.len() == 1 {
        seq![b64_digit(d[0] as int / 4), b64_digit((d[0] as int % 4) * 16), '=', '=']
    } else if d.len() == 2 {
        seq![
            b64_digit(d[0] as int / 4),
            b64_digit((d[0] as int % 4) * 16 + d[1] as int / 16),
            b64_digit((d[1] as int % 16) * 4),
            '=',
        ]
    } else {
        seq![
            b64_digit(d[0] as int / 4),
            b64_digit((d[0] as int % 4) * 16 + d[1] as int / 16),
            b64_digit((d[1] as int % 16) * 4 + d[2] as int / 64),
            b64_digit(d[2] as int % 64),
        ] + base64_standard(d.subrange(3, d.len() as int))
    }
}

/// The 6-bit value of a base64 character (63 for `/` and anything outside the alphabet).
pub open spec fn b64_value(c: char) -> int {
    if 'A' <= c <= 'Z' {
        c as int - 65
    } else if 'a' <= c <= 'z' {
        c as int - 97 + 26
    } else if '0' <= c <= '9' {
        c as int - 48 + 52
    } else if c == '+' {
        62
    } else {
        63
    }
}

/// Decodes standard padded base64, four characters at a time.
pub open spec fn base64_decode(s: Seq<char>) -> Seq<u8>
    decreases s.len(),
{
    if s.len() < 4 {
        Seq::empty()
    } else {
        let a = b64_value(s[0]);
        let b = b64_value(s[1]);
        let c = b64_value(s[2]);
        let e = b64_value(s[3]);
        let group: Seq<u8> = if s[2] == '=' {
            seq![(a * 4 + b / 16) as u8]
        } else if s[3] == '=' {
            seq![(a * 4 + b / 16) as u8, ((b % 16) * 16 + c / 4) as u8]
        } else {
            seq![(a * 4 + b / 16) as u8, ((b % 16) * 16 + c / 4) as u8, ((c % 4) * 64 + e) as u8]
        };
        group + base64_decode(s.subrange(4, s.len() as int))
    }
}

/// Calls `base64::engine::general_purpose::STANDARD.encode`: the standard padded base64 of
/// `data`.
#[verifier::external_body]
pub(crate) fn base64_encode(data: &[u8]) -> (r: String)
    ensures
        r@ == base64_standard(data@),
{
    base64::engine::general_purpose::STANDARD.encode(data)
}

/// A 6-bit value reads back from its character, which is never `=`.
proof fn lemma_digit_value(v: int)
    requires
        0 <= v < 64,
    ensures
        b64_value(b64_digit(v)) == v,
        b64_digit(v) != '=',
{
    if v < 26 {
        assert((65 + v) as char as int == 65 + v);
    } else if v < 52 {
        assert((97 + (v - 26)) as char as int == 97 + (v - 26));
    } else if v < 62 {
        assert((48 + (v - 52)) as char as int == 48 + (v - 52));
    }
}

/// Base64 gives four characters for every three bytes or part of three.
pub proof fn law_base64_length(d: Seq<u8>)
    ensures
        base64_standard(d).len() == 4 * ((d.len() + 2) / 3),
    decreases d.len(),
{
    if d.len() >= 3 {
        law_base64_length(d.subrange(3, d.len() as int));
    }
}

/// Decoding the base64 of some bytes gives those bytes back.
pub proof fn law_base64_round_trip(d: Seq<u8>)
    ensures
        base64_decode(base64_standard(d)) == d,
    decreases d.len(),
{
    let s = base64_standard(d);
    if d.len() == 0 {
        assert(s.len() == 0);
        assert(base64_decode(s) =~= d);
    } else {
        let x = d[0] as int;
        let y = if d.len() >= 2 { d[1] as int } else { 0 };
        let z = if d.len() >= 3 { d[2] as int } else { 0 };
        let a = x / 4;
        let b = (x % 4) * 16 + y / 16;
        let c = (y % 16) * 4 + z / 64;
        let e = z % 64;
        assert(0 <= a < 64 && 0 <= b < 64 && 0 <= c < 64 && 0 <= e < 64) by (nonlinear_arith)
            requires
                0 <= x < 256,
                0 <= y < 256,
                0 <= z < 256,
                a == x / 4,
                b == (x % 4) * 16 + y / 16,
                c == (y % 16) * 4 + z / 64,
                e == z % 64,
        ;
        assert(a * 4 + b / 16 == x && (b % 16) * 16 + c / 4 == y && (c % 4) * 64 + e == z) by (nonlinear_arith)
            requires
                0 <= x < 256,
                0 <= y < 256,
                0 <= z < 256,
                a == x / 4,
                b == (x % 4) * 16 + y / 16,
                c == (y % 16) * 4 + z / 64,
                e == z % 64,
        ;
        lemma_digit_value(a);
        lemma_digit_value(b);
        lemma_digit_value(c);
        lemma_digit_value(e);
        if d.len() == 1 {
            assert((x % 4) * 16 == b);
            assert(s[2] == '=');
            assert(s.subrange(4, s.len() as int) =~= Seq::<char>::empty());
            assert(base64_decode(s.subrange(4, s.len() as int)) =~= Seq::<u8>::empty());
            assert(base64_decode(s) =~= d);
        } else if d.len() == 2 {
            assert((y % 16) * 4 == c);
            assert(s[2] != '=' && s[3] == '=');
            assert(s.subrange(4, s.len() as int) =~= Seq::<char>::empty());
            assert(base64_decode(s.subrange(4, s.len() as int)) =~= Seq::<u8>::empty());
            assert(base64_decode(s) =~= d);
        } else {
            let rest = d.subrange(3, d.len() as int);
            law_base64_round_trip(rest);
            assert(s.subrange(4, s.len() as int) =~= base64_standard(rest));
            assert(s[2] != '=' && s[3] != '=');
            assert(base64_decode(s) =~= seq![d[0], d[1], d[2]] + rest);
            assert(seq![d[0], d[1], d[2]] + rest =~= d);
        }
    }
}

} // verus!
