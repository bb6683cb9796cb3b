use vstd::prelude::*;

verus! {

use vstd::utf8::{decode_utf8, encode_utf8, valid_utf8, is_ascii_chars};
use vstd::utf8::{is_ascii_chars_encode_utf8, encode_utf8_decode_utf8, encode_utf8_valid_utf8};

/// The bytes of a character sequence under the identity embedding; it agrees
/// with the UTF-8 encoding exactly when every character is ASCII.
pub open spec fn ascii_bytes(s: Seq<char>) -> Seq<u8> {
    Seq::new(s.len(), |i: int| s[i] as u8)
}

/// The characters of a byte sequence under the identity embedding; it agrees
/// with UTF-8 decoding exactly when every byte is below 128.
pub open spec fn ascii_chars(b: Seq<u8>) -> Seq<char> {
    Seq::new(b.len(), |i: int| b[i] as char)
}

pub open spec fn all_ascii_bytes(b: Seq<u8>) -> bool {
    forall|i: int| 0 <= i < b.len() ==> b[i] < 128
}

/// For ASCII text the UTF-8 encoding is the identity embedding byte for byte.
pub proof fn lemma_ascii_encode(s: Seq<char>)
    requires
        is_ascii_chars(s),
    ensures
        encode_utf8(s) == ascii_bytes(s),
        all_ascii_bytes(ascii_bytes(s)),
{
    is_ascii_chars_encode_utf8(s);
    assert(encode_utf8(s) =~= ascii_bytes(s));
}

/// Bytes below 128 are valid UTF-8 and decode to themselves character for
/// character.
pub proof fn lemma_ascii_decode(b: Seq<u8>)
    requires
        all_ascii_bytes(b),
    ensures
        valid_utf8(b),
        decode_utf8(b) == ascii_chars(b),
        is_ascii_chars(ascii_chars(b)),
{
    let s = ascii_chars(b);
    assert forall|i: int| 0 <= i < s.len() implies '\0' <= #[trigger] s[i] <= '\u{7f}' by {
        assert(b[i] < 128);
    }
    lemma_ascii_encode(s);
    assert(encode_utf8(s) =~= b);
    encode_utf8_valid_utf8(s);
    encode_utf8_decode_utf8(s);
}

/// Character-wise equality of two string slices.
pub fn str_eq(a: &str, b: &str) -> (r: bool)
    ensures
        r == (a@ == b@),
{
    let an = a.unicode_len();
    let bn = b.unicode_len();
    if an != bn {
        assert(a@ != b@);
        return false;
    }
    let mut i: usize = 0;
    while i < an
        invariant
            an == a@.len(),
            bn == b@.len(),
            an == bn,
            i <= an,
            forall|j: int| 0 <= j < i ==> a@[j] == b@[j],
        decreases an - i,
    {
        if a.get_char(i) != b.get_char(i) {
            return false;
        }
        i += 1;
    }
    proof {
        assert(a@ =~= b@);
    }
    true
}

/// Relies on String::push: it appends exactly the given character.
#[verifier::external_body]
pub fn push_char(s: &mut String, c: char)
    ensures
        final(s)@ == old(s)@.push(c),
{
    s.push(c);
}

/// Relies on String::from_utf8: it succeeds exactly on valid UTF-8 input
/// and returns the decoding of those bytes.
#[verifier::external_body]
pub fn string_from_utf8(bytes: Vec<u8>) -> (r: Option<String>)
    ensures
        r is Some <==> valid_utf8(bytes@),
        r matches Some(s) ==> s@ == decode_utf8(bytes@),
{
    match String::from_utf8(bytes) {
        Ok(s) => Some(s),
        Err(_) => None,
    }
}

/// Builds the string of a byte sequence that is known to be ASCII.
pub fn ascii_to_string(bytes: Vec<u8>) -> (r: String)
    requires
        all_ascii_bytes(bytes@),
    ensures
        r@ == ascii_chars(bytes@),
{
    proof {
        lemma_ascii_decode(bytes@);
    }
    match string_from_utf8(bytes) {
        Some(s) => s,
        None => {
            // ASCII bytes are valid UTF-8, so decoding cannot fail
            String::new()
        },
    }
}

/// ASCII encoding and decoding are mutually inverse.
pub proof fn lemma_ascii_identity(s: Seq<char>)
    requires
        is_ascii_chars(s),
    ensures
        ascii_chars(ascii_bytes(s)) == s,
        all_ascii_bytes(ascii_bytes(s)),
        forall|i: int| 0 <= i < s.len() ==> ((#[trigger] s[i]) as u8 == 0 <==> s[i] == '\0'),
{
    assert forall|i: int| #![trigger s[i]] 0 <= i < s.len() implies (((s[i] as u8) < 128) && (((
    s[i] as u8) as char) == s[i]) && ((s[i] as u8) == 0 <==> s[i] == '\0')) by {
        assert('\0' <= s[i] <= '\u{7f}');
    }
    assert(ascii_chars(ascii_bytes(s)) =~= s);
}

/// Whether one character sequence is at most another in lexicographic order.
pub open spec fn seq_le(a: Seq<char>, b: Seq<char>) -> bool
    decreases a.len(),
{
    if a.len() == 0 {
        true
    } else if b.len() == 0 {
        false
    } else if a[0] != b[0] {
        (a[0] as u32) < (b[0] as u32)
    } else {
        seq_le(a.drop_first(), b.drop_first())
    }
}

/// Unequal characters have unequal code points.
pub proof fn lemma_char_neq(a: char, b: char)
    requires
        a != b,
    ensures
        (a as u32) != (b as u32),
{
    vstd::utf8::char_u32_cast(a, a as u32);
    vstd::utf8::char_u32_cast(b, b as u32);
}

/// Lexicographic order is reflexive and total.
pub proof fn lemma_seq_le_total(a: Seq<char>, b: Seq<char>)
    ensures
        seq_le(a, a),
        seq_le(a, b) || seq_le(b, a),
    decreases a.len(),
{
    if a.len() > 0 {
        if b.len() > 0 && a[0] != b[0] {
            lemma_char_neq(a[0], b[0]);
        }
        lemma_seq_le_total(a.drop_first(), a.drop_first());
        if b.len() > 0 {
            lemma_seq_le_total(a.drop_first(), b.drop_first());
        }
    }
}

/// Lexicographic order is antisymmetric.
pub proof fn lemma_seq_le_antisym(a: Seq<char>, b: Seq<char>)
    requires
        seq_le(a, b),
        seq_le(b, a),
    ensures
        a == b,
    decreases a.len(),
{
    if a.len() == 0 {
        assert(b.len() == 0);
        assert(a =~= b);
    } else {
        assert(b.len() > 0);
        if a[0] != b[0] {
            lemma_char_neq(a[0], b[0]);
        }
        assert(a[0] == b[0]);
        lemma_seq_le_antisym(a.drop_first(), b.drop_first());
        assert forall|i: int| 0 <= i < a.len() implies a[i] == b[i] by {
            if i > 0 {
                assert(a[i] == a.drop_first()[i - 1]);
                assert(b[i] == b.drop_first()[i - 1]);
            }
        }
        assert(a =~= b);
    }
}

/// Lexicographic order is transitive.
pub proof fn lemma_seq_le_trans(a: Seq<char>, b: Seq<char>, c: Seq<char>)
    requires
        seq_le(a, b),
        seq_le(b, c),
    ensures
        seq_le(a, c),
    decreases a.len(),
{
    if a.len() > 0 && b.len() > 0 && c.len() > 0 {
        if a[0] == b[0] && b[0] == c[0] {
            lemma_seq_le_trans(a.drop_first(), b.drop_first(), c.drop_first());
        } else {
            if a[0] != b[0] {
                lemma_char_neq(a[0], b[0]);
            }
            if b[0] != c[0] {
                lemma_char_neq(b[0], c[0]);
            }
            if a[0] != c[0] {
                lemma_char_neq(a[0], c[0]);
            }
        }
    }
}

/// Dropping a shared first character keeps the order relation.
proof fn lemma_seq_le_common_head(a: Seq<char>, b: Seq<char>)
    requires
        a.len() > 0,
        b.len() > 0,
        a[0] == b[0],
    ensures
        seq_le(a, b) == seq_le(a.drop_first(), b.drop_first()),
{
}

/// Lexicographic comparison of two string slices.
pub fn str_le(a: &str, b: &str) -> (r: bool)
    ensures
        r == seq_le(a@, b@),
{
    let an = a.unicode_len();
    let bn = b.unicode_len();
    let mut i: usize = 0;
    proof {
        assert(a@.skip(0) =~= a@);
        assert(b@.skip(0) =~= b@);
    }
    loop
        invariant
            i <= an,
            i <= bn,
            an == a@.len(),
            bn == b@.len(),
            forall|j: int| 0 <= j < i ==> a@[j] == b@[j],
            seq_le(a@, b@) == seq_le(a@.skip(i as int), b@.skip(i as int)),
        decreases an - i,
    {
        if i == an {
            assert(a@.skip(i as int).len() == 0);
            return true;
        }
        if i == bn {
            assert(b@.skip(i as int).len() == 0 && a@.skip(i as int).len() > 0);
            return false;
        }
        let ca = a.get_char(i);
        let cb = b.get_char(i);
        if ca != cb {
            assert(a@.skip(i as int)[0] == ca && b@.skip(i as int)[0] == cb);
            return (ca as u32) < (cb as u32);
        }
        proof {
            lemma_seq_le_common_head(a@.skip(i as int), b@.skip(i as int));
            assert(a@.skip(i as int).drop_first() =~= a@.skip(i as int + 1));
            assert(b@.skip(i as int).drop_first() =~= b@.skip(i as int + 1));
        }
        i += 1;
    }
}

/// Whether a string slice holds a character.
pub fn contains_char(s: &str, c: char) -> (r: bool)
    ensures
        r == exists|i: int| 0 <= i < s@.len() && s@[i] == c,
{
    let n = s.unicode_len();
    let mut i: usize = 0;
    while i < n
        invariant
            i <= n,
            n == s@.len(),
            forall|j: int| 0 <= j < i ==> s@[j] != c,
        decreases n - i,
    {
        if s.get_char(i) == c {
            return true;
        }
        i += 1;
    }
    false
}


/// The position of the first occurrence of a character.
pub open spec fn find_char(s: Seq<char>, c: char) -> Option<int>
    decreases s.len(),
{
    if s.len() == 0 {
        None
    } else if s[0] == c {
        Some(0)
    } else {
        match find_char(s.drop_first(), c) {
            None => None,
            Some(i) => Some(i + 1),
        }
    }
}

/// `find_char` returns exactly the position of the first occurrence.
pub proof fn lemma_find_char_some(s: Seq<char>, c: char, k: int)
    requires
        0 <= k < s.len(),
        s[k] == c,
        forall|j: int| 0 <= j < k ==> s[j] != c,
    ensures
        find_char(s, c) == Some(k),
    decreases k,
{
    if k > 0 {
        lemma_find_char_some(s.drop_first(), c, k - 1);
    }
}

/// `find_char` returns nothing exactly when the character does not occur.
pub proof fn lemma_find_char_none(s: Seq<char>, c: char)
    requires
        forall|j: int| 0 <= j < s.len() ==> s[j] != c,
    ensures
        find_char(s, c) is None,
    decreases s.len(),
{
    if s.len() > 0 {
        lemma_find_char_none(s.drop_first(), c);
    }
}

/// Scans a string for a character from a given position on.
pub fn scan_char(s: &str, from: usize, c: char) -> (r: Option<usize>)
    requires
        from <= s@.len(),
    ensures
        match r {
            Some(i) => from <= i < s@.len() && s@[i as int] == c && (forall|j: int|
                from <= j < i ==> s@[j] != c),
            None => forall|j: int| from <= j < s@.len() ==> s@[j] != c,
        },
{
    let n = s.unicode_len();
    let mut i = from;
    while i < n
        invariant
            from <= i <= n,
            n == s@.len(),
            forall|j: int| from <= j < i ==> s@[j] != c,
        decreases n - i,
    {
        if s.get_char(i) == c {
            return Some(i);
        }
        i += 1;
    }
    None
}


/// A found position is in range.
pub proof fn lemma_find_char_bounds(s: Seq<char>, c: char)
    ensures
        match find_char(s, c) {
            Some(i) => 0 <= i < s.len() && s[i] == c,
            None => true,
        },
    decreases s.len(),
{
    if s.len() > 0 && s[0] != c {
        lemma_find_char_bounds(s.drop_first(), c);
    }
}


/// A found position is the first occurrence.
pub proof fn lemma_find_char_first(s: Seq<char>, c: char)
    ensures
        match find_char(s, c) {
            Some(i) => 0 <= i < s.len() && s[i] == c && (forall|j: int| 0 <= j < i ==> s[j] != c),
            None => forall|j: int| 0 <= j < s.len() ==> s[j] != c,
        },
    decreases s.len(),
{
    if s.len() > 0 && s[0] != c {
        lemma_find_char_first(s.drop_first(), c);
        match find_char(s.drop_first(), c) {
            Some(i) => {
                assert forall|j: int| 0 <= j < i + 1 implies s[j] != c by {
                    if j > 0 {
                        assert(s.drop_first()[j - 1] != c);
                    }
                }
            },
            None => {
                assert forall|j: int| 0 <= j < s.len() implies s[j] != c by {
                    if j > 0 {
                        assert(s.drop_first()[j - 1] != c);
                    }
                }
            },
        }
    }
}

} // verus!
