//! Lowercase hexadecimal text for object ids: the mathematical encoding,
//! and the calls into the `hex` crate that realise it.

use vstd::prelude::*;

verus! {

/// The lowercase hex digit for a nibble.
pub open spec fn hex_digit(n: u8) -> char {
    if n < 10 {
        (48 + n) as char
    } else {
        (87 + n) as char
    }
}

/// The lowercase hex rendering of a byte sequence, high nibble first.
pub open spec fn hex_of(b: Seq<u8>) -> Seq<char>
    decreases b.len(),
{
    if b.len() == 0 {
        Seq::empty()
    } else {
        seq![hex_digit(b.first() / 16), hex_digit(b.first() % 16)] + hex_of(b.drop_first())
    }
}

/// A lowercase hex digit character.
pub open spec fn is_hex_lower_char(c: char) -> bool {
    ('0' <= c <= '9') || ('a' <= c <= 'f')
}

/// Every character of `s` is a lowercase hex digit.
pub open spec fn is_hex_lower(s: Seq<char>) -> bool {
    forall|i: int| 0 <= i < s.len() ==> is_hex_lower_char(#[trigger] s[i])
}

/// The nibble a hex digit stands for.
pub open spec fn hex_val(c: char) -> u8 {
    if '0' <= c <= '9' {
        ((c as u32) - 48) as u8
    } else if 'a' <= c <= 'f' {
        ((c as u32) - 87) as u8
    } else {
        0
    }
}

/// The bytes a hex text stands for, two digits per byte; a trailing odd
/// digit is ignored.
pub open spec fn unhex(s: Seq<char>) -> Seq<u8>
    decreases s.len(),
{
    if s.len() < 2 {
        Seq::empty()
    } else {
        seq![(hex_val(s[0]) * 16 + hex_val(s[1])) as u8] + unhex(s.skip(2))
    }
}

/// Hex encoding is reversible, two digits per byte, all lowercase hex.
pub proof fn lemma_hex_of_unhex(b: Seq<u8>)
    ensures
        hex_of(b).len() == 2 * b.len(),
        is_hex_lower(hex_of(b)),
        unhex(hex_of(b)) == b,
    decreases b.len(),
{
    if b.len() > 0 {
        lemma_hex_of_unhex(b.drop_first());
        let s = hex_of(b);
        assert(s[0] == hex_digit(b.first() / 16));
        assert(s[1] == hex_digit(b.first() % 16));
        assert(hex_val(hex_digit(b.first() / 16)) == b.first() / 16);
        assert(hex_val(hex_digit(b.first() % 16)) == b.first() % 16);
        assert((b.first() / 16) * 16 + b.first() % 16 == b.first()) by {
            vstd::arithmetic::div_mod::lemma_fundamental_div_mod(b.first() as int, 16);
        }
        assert(s.skip(2) =~= hex_of(b.drop_first()));
        assert(unhex(s) =~= b);
        assert forall|i: int| 0 <= i < s.len() implies is_hex_lower_char(#[trigger] s[i]) by {
            if i >= 2 {
                assert(s[i] == hex_of(b.drop_first())[i - 2]);
            }
        }
    }
}

/// Lowercase hex text is ASCII.
pub proof fn lemma_hex_lower_ascii(s: Seq<char>)
    requires
        is_hex_lower(s),
    ensures
        vstd::utf8::is_ascii_chars(s),
{
}

/// Relies on `hex::encode`: two lowercase hex digits per input byte,
/// high nibble first.
#[verifier::external_body]
pub fn hex_encode(data: &Vec<u8>) -> (r: String)
    ensures
        r@ == hex_of(data@),
{
    hex::encode(data.as_slice())
}

/// Relies on `hex::decode`: an even run of hex digits decodes to the
/// bytes the digit pairs stand for.
#[verifier::external_body]
pub fn hex_decode(data: &str) -> (r: Vec<u8>)
    requires
        is_hex_lower(data@),
        data@.len() % 2 == 0,
    ensures
        r@ == unhex(data@),
{
    hex::decode(data).expect("an even run of hex digits decodes")
}

/// A hex digit's value is a nibble, and renders back to the digit.
proof fn lemma_hex_digit_round_trip(c: char)
    requires
        is_hex_lower_char(c),
    ensures
        hex_val(c) < 16,
        hex_digit(hex_val(c)) == c,
{
    vstd::utf8::char_u32_cast(c, c as u32);
}

/// Decoding is reversible on even runs of lowercase hex digits: the
/// bytes render back to the text, one byte per digit pair.
pub proof fn lemma_unhex_hex_of(s: Seq<char>)
    requires
        is_hex_lower(s),
        s.len() % 2 == 0,
    ensures
        unhex(s).len() == s.len() / 2,
        hex_of(unhex(s)) == s,
    decreases s.len(),
{
    if s.len() >= 2 {
        lemma_hex_digit_round_trip(s[0]);
        lemma_hex_digit_round_trip(s[1]);
        let b0 = (hex_val(s[0]) * 16 + hex_val(s[1])) as u8;
        assert(b0 / 16 == hex_val(s[0]) && b0 % 16 == hex_val(s[1])) by {
            vstd::arithmetic::div_mod::lemma_fundamental_div_mod_converse(
                b0 as int,
                16,
                hex_val(s[0]) as int,
                hex_val(s[1]) as int,
            );
        }
        let t = s.skip(2);
        assert(is_hex_lower(t)) by {
            assert forall|i: int| 0 <= i < t.len() implies is_hex_lower_char(#[trigger] t[i]) by {
                assert(t[i] == s[i + 2]);
            }
        }
        lemma_unhex_hex_of(t);
        assert(unhex(s).first() == b0);
        assert(unhex(s).drop_first() =~= unhex(t));
        assert(hex_of(unhex(s)) =~= s);
    } else {
        assert(unhex(s) =~= Seq::<u8>::empty());
        assert(hex_of(unhex(s)) =~= s);
    }
}

} // verus!
