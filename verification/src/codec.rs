//! Hexadecimal key text, through the `hex` crate.
use vstd::prelude::*;
use crate::text::{all_hex, is_hex_digit, upper, upper_char};

verus! {

/// The outside error type of `hex::decode`.
#[verifier::external_type_specification]
#[verifier::external_body]
pub struct ExFromHexError(hex::FromHexError);

/// The value of a hexadecimal digit.
pub open spec fn hex_val(c: char) -> nat {
    if '0' <= c && c <= '9' {
        ((c as u32) - ('0' as u32)) as nat
    } else if 'a' <= c && c <= 'f' {
        ((c as u32) - ('a' as u32) + 10) as nat
    } else {
        ((c as u32) - ('A' as u32) + 10) as nat
    }
}

/// The upper-case hexadecimal digit of `d < 16`.
pub open spec fn hex_digit(d: nat) -> char {
    if d < 10 {
        ((d + ('0' as u32)) as u32) as char
    } else {
        ((d - 10 + ('A' as u32)) as u32) as char
    }
}

/// The bytes written by pairs of hexadecimal digits.
pub open spec fn hex_bytes(s: Seq<char>) -> Seq<u8> {
    Seq::new(s.len() / 2, |i: int| (hex_val(s[2 * i]) * 16 + hex_val(s[2 * i + 1])) as u8)
}

/// Upper-case hexadecimal text of bytes, two digits per byte.
pub open spec fn hex_upper_text(b: Seq<u8>) -> Seq<char> {
    Seq::new(
        2 * b.len(),
        |i: int|
            if i % 2 == 0 {
                hex_digit((b[i / 2] / 16) as nat)
            } else {
                hex_digit((b[i / 2] % 16) as nat)
            },
    )
}

/// `hex::decode`: it succeeds exactly on an even number of hexadecimal digits (either
/// case), each pair giving one byte, high digit first.
#[verifier::external_body]
pub(crate) fn hex_decode(data: &str) -> (r: Result<Vec<u8>, hex::FromHexError>)
    ensures
        r is Ok <==> (data@.len() % 2 == 0 && all_hex(data@)),
        r matches Ok(b) ==> b@ == hex_bytes(data@),
{
    hex::decode(data)
}

/// `hex::encode_upper`: two upper-case hexadecimal digits per byte, high digit first.
#[verifier::external_body]
pub(crate) fn hex_encode_upper(data: &[u8]) -> (r: String)
    ensures
        r@ == hex_upper_text(data@),
{
    hex::encode_upper(data)
}

pub proof fn lemma_hex_digit_roundtrip(d: nat)
    requires
        d < 16,
    ensures
        is_hex_digit(hex_digit(d)),
        hex_val(hex_digit(d)) == d,
{
}

pub proof fn lemma_hex_val_roundtrip(c: char)
    requires
        is_hex_digit(c),
    ensures
        hex_val(c) < 16,
        hex_digit(hex_val(c)) == upper_char(c),
{
}

proof fn lemma_byte_split(b: u8)
    ensures
        b / 16 < 16,
        (b / 16) * 16 + b % 16 == b,
{
}

proof fn lemma_byte_join(h: nat, l: nat)
    requires
        h < 16,
        l < 16,
    ensures
        ((h * 16 + l) as u8) / 16 == h,
        ((h * 16 + l) as u8) % 16 == l,
{
    assert(h * 16 + l < 256) by (nonlinear_arith)
        requires
            h < 16,
            l < 16,
    ;
    assert(((h * 16 + l) as u8) as nat == h * 16 + l);
    assert((h * 16 + l) / 16 == h && (h * 16 + l) % 16 == l) by (nonlinear_arith)
        requires
            h < 16,
            l < 16,
    ;
}

/// Hexadecimal text of bytes decodes to those bytes.
pub proof fn lemma_hex_bytes_of_text(b: Seq<u8>)
    ensures
        hex_bytes(hex_upper_text(b)) == b,
        hex_upper_text(b).len() == 2 * b.len(),
        all_hex(hex_upper_text(b)),
{
    let t = hex_upper_text(b);
    assert forall|i: int| 0 <= i < b.len() implies hex_bytes(t)[i] == b[i] by {
        lemma_byte_split(b[i]);
        assert((2 * i) / 2 == i);
        assert((2 * i + 1) / 2 == i);
        assert((2 * i) % 2 == 0);
        assert((2 * i + 1) % 2 == 1);
        lemma_hex_digit_roundtrip((b[i] / 16) as nat);
        lemma_hex_digit_roundtrip((b[i] % 16) as nat);
    }
    assert(hex_bytes(t) =~= b);
    assert forall|i: int| 0 <= i < t.len() implies is_hex_digit(#[trigger] t[i]) by {
        lemma_byte_split(b[i / 2]);
        if i % 2 == 0 {
            lemma_hex_digit_roundtrip((b[i / 2] / 16) as nat);
        } else {
            lemma_hex_digit_roundtrip((b[i / 2] % 16) as nat);
        }
    }
}

/// Re-encoding the bytes of even-length hexadecimal text gives the text in upper case.
pub proof fn lemma_text_of_hex_bytes(s: Seq<char>)
    requires
        s.len() % 2 == 0,
        all_hex(s),
    ensures
        hex_upper_text(hex_bytes(s)) == upper(s),
{
    let b = hex_bytes(s);
    let t = hex_upper_text(b);
    assert forall|i: int| 0 <= i < s.len() implies t[i] == upper(s)[i] by {
        let j = i / 2;
        assert(0 <= j < b.len());
        assert(i == 2 * j || i == 2 * j + 1);
        assert(is_hex_digit(s[2 * j]) && is_hex_digit(s[2 * j + 1]));
        lemma_hex_val_roundtrip(s[2 * j]);
        lemma_hex_val_roundtrip(s[2 * j + 1]);
        lemma_byte_join(hex_val(s[2 * j]), hex_val(s[2 * j + 1]));
    }
    assert(t =~= upper(s));
}

} // verus!
