use vstd::prelude::*;

verus! {

/// The lowercase hexadecimal digit for a value below 16.
pub open spec fn hex_digit(n: u8) -> char
    recommends
        n < 16,
{
    if n < 10 {
        ((n + 48) as u8) as char
    } else {
        ((n + 87) as u8) as char
    }
}

/// The lowercase hexadecimal rendering of a byte sequence, two digits per
/// byte, high digit first.
pub open spec fn hex_of(b: Seq<u8>) -> Seq<char> {
    Seq::new(b.len() * 2, |i: int| if i % 2 == 0 {
        hex_digit(b[i / 2] / 16)
    } else {
        hex_digit(b[i / 2] % 16)
    })
}

pub open spec fn is_hex_digit(c: char) -> bool {
    ('0' <= c && c <= '9') || ('a' <= c && c <= 'f') || ('A' <= c && c <= 'F')
}

pub open spec fn is_lower_hex_digit(c: char) -> bool {
    ('0' <= c && c <= '9') || ('a' <= c && c <= 'f')
}

/// The value of one hexadecimal digit, upper or lower case.
pub open spec fn hex_val(c: char) -> u8
    recommends
        is_hex_digit(c),
{
    if '0' <= c && c <= '9' {
        ((c as u8) - 48) as u8
    } else if 'a' <= c && c <= 'f' {
        ((c as u8) - 97 + 10) as u8
    } else {
        ((c as u8) - 65 + 10) as u8
    }
}

/// A string of hexadecimal digit pairs, as the decoder accepts it.
pub open spec fn is_hex_str(s: Seq<char>) -> bool {
    s.len() % 2 == 0 && (forall|i: int| 0 <= i < s.len() ==> is_hex_digit(#[trigger] s[i]))
}

/// The bytes denoted by a string of hexadecimal digit pairs.
pub open spec fn hex_decoded(s: Seq<char>) -> Seq<u8>
    recommends
        is_hex_str(s),
{
    Seq::new(s.len() / 2, |i: int| (hex_val(s[2 * i]) * 16 + hex_val(s[2 * i + 1])) as u8)
}

/// Relies on hex::encode: it renders each byte as two lowercase
/// hexadecimal digits, high digit first.
#[verifier::external_body]
pub fn hex_encode(data: &Vec<u8>) -> (r: String)
    ensures
        r@ == hex_of(data@),
{
    hex::encode(data)
}

/// Relies on hex::decode: it accepts exactly strings of hexadecimal digit
/// pairs, upper or lower case, and returns the denoted bytes.
#[verifier::external_body]
pub fn hex_decode(data: &str) -> (r: Option<Vec<u8>>)
    ensures
        r is Some <==> is_hex_str(data@),
        r matches Some(v) ==> v@ == hex_decoded(data@),
{
    hex::decode(data).ok()
}

/// Encoding a byte sequence yields a well-formed lowercase string that
/// decodes back to the same bytes.
pub proof fn lemma_hex_of_decodes(b: Seq<u8>)
    ensures
        is_hex_str(hex_of(b)),
        forall|i: int| 0 <= i < hex_of(b).len() ==> is_lower_hex_digit(#[trigger] hex_of(b)[i]),
        hex_decoded(hex_of(b)) == b,
{
    let s = hex_of(b);
    assert forall|i: int| 0 <= i < s.len() implies is_lower_hex_digit(#[trigger] s[i])
        && is_hex_digit(s[i]) by {
        let v = if i % 2 == 0 {
            b[i / 2] / 16
        } else {
            b[i / 2] % 16
        };
        assert(v < 16);
    }
    assert forall|i: int| 0 <= i < b.len() implies hex_decoded(s)[i] == b[i] by {
        assert(s[2 * i] == hex_digit(b[i] / 16));
        assert(s[2 * i + 1] == hex_digit(b[i] % 16));
        assert(hex_val(hex_digit(b[i] / 16)) == b[i] / 16);
        assert(hex_val(hex_digit(b[i] % 16)) == b[i] % 16);
    }
    assert(hex_decoded(s) =~= b);
}

/// Decoding a lowercase hexadecimal string and encoding the result gives
/// the string back.
pub proof fn lemma_hex_decode_encodes(s: Seq<char>)
    requires
        s.len() % 2 == 0,
        forall|i: int| 0 <= i < s.len() ==> is_lower_hex_digit(#[trigger] s[i]),
    ensures
        is_hex_str(s),
        hex_of(hex_decoded(s)) == s,
{
    let b = hex_decoded(s);
    assert forall|i: int| 0 <= i < s.len() implies hex_of(b)[i] == s[i] by {
        let j = i / 2;
        assert(b[j] == hex_val(s[2 * j]) * 16 + hex_val(s[2 * j + 1]));
        assert(hex_val(s[2 * j]) < 16 && hex_val(s[2 * j + 1]) < 16);
        assert(b[j] / 16 == hex_val(s[2 * j]));
        assert(b[j] % 16 == hex_val(s[2 * j + 1]));
        assert(hex_digit(hex_val(s[2 * j])) == s[2 * j]);
        assert(hex_digit(hex_val(s[2 * j + 1])) == s[2 * j + 1]);
        if i % 2 == 0 {
            assert(i == 2 * j);
        } else {
            assert(i == 2 * j + 1);
        }
    }
    assert(hex_of(b) =~= s);
}

} // verus!
