use vstd::prelude::*;

verus! {

use crate::object_error::ObjectError;
use crate::digest::{sha256_of, sha256_digest};
use crate::hex_codec::{hex_of, hex_encode};
use crate::text::{all_ascii_bytes, string_from_utf8, str_eq};
use crate::tree::{Tree, find_byte, lemma_find_byte_some, lemma_find_byte_none, tree_bytes, parse_tree, tree_parse, tree_serialize, leaf_le_fn, leaf_ok};
use crate::kvlm::{Kvlm, kvlm_parse, kvlm_serialize_spec};
use vstd::utf8::{decode_utf8, encode_utf8, valid_utf8};

/// One stored object: its format tag and its payload.
pub struct GaalObject<GaalObjectType> {
    pub fmt: String,
    pub data: GaalObjectType,
}

impl<GaalObjectType: Clone> Clone for GaalObject<GaalObjectType> {
    fn clone(&self) -> (r: Self)
        ensures
            r.fmt@ == self.fmt@,
    {
        Self { fmt: self.fmt.clone(), data: self.data.clone() }
    }
}

/// The decimal digits of a number, highest first, as bytes.
pub open spec fn dec_bytes(n: nat) -> Seq<u8>
    decreases n,
{
    if n < 10 {
        seq![(48 + n) as u8]
    } else {
        dec_bytes(n / 10).push((48 + n % 10) as u8)
    }
}

/// Renders a number in decimal.
fn render_dec(n: usize) -> (r: Vec<u8>)
    ensures
        r@ == dec_bytes(n as nat),
        all_ascii_bytes(r@),
{
    let mut out: Vec<u8> = Vec::new();
    let mut m = n;
    while m >= 10
        invariant
            dec_bytes(n as nat) == dec_bytes(m as nat) + out@,
            forall|i: int| 0 <= i < out@.len() ==> 48 <= #[trigger] out@[i] < 58,
        decreases m,
    {
        let ghost before = out@;
        let d = (m % 10) as u8 + 48;
        out.insert(0, d);
        proof {
            assert(out@ =~= seq![d] + before);
            assert(dec_bytes(m as nat) == dec_bytes((m / 10) as nat).push(d));
            assert(dec_bytes((m / 10) as nat) + out@ =~= (dec_bytes((m / 10) as nat).push(d))
                + before);
            assert(m / 10 < m) by (nonlinear_arith)
                requires
                    m >= 10,
            ;
        }
        m = m / 10;
    }
    let d = (m % 10) as u8 + 48;
    out.insert(0, d);
    proof {
        let ghost rest = out@.drop_first();
        assert(dec_bytes(m as nat) == seq![d]);
        assert(out@ =~= dec_bytes(m as nat) + out@.subrange(1, out@.len() as int));
        assert(dec_bytes(n as nat) =~= out@);
    }
    out
}

/// The wire envelope: the format tag, a separator, the payload length in
/// decimal, a separator, the payload.
pub open spec fn envelope_bytes(fmt: Seq<char>, payload: Seq<u8>) -> Seq<u8> {
    encode_utf8(fmt) + seq![0u8] + dec_bytes(payload.len()) + seq![0u8] + payload
}

/// The content id of an envelope: the digest of all its bytes, in
/// lowercase hexadecimal.
pub open spec fn envelope_id(env: Seq<u8>) -> Seq<char> {
    hex_of(sha256_of(env))
}

/// Frames a payload under a format tag and addresses it: the envelope
/// bytes and their id.
pub fn hash_envelope(fmt: &str, payload: Vec<u8>) -> (r: (String, Vec<u8>))
    ensures
        r.1@ == envelope_bytes(fmt@, payload@),
        r.0@ == envelope_id(r.1@),
        r.0@.len() == 64,
{
    let ghost pv = payload@;
    let mut env: Vec<u8> = fmt.as_bytes_vec();
    env.push(0);
    let mut len_bytes = render_dec(payload.len());
    env.append(&mut len_bytes);
    env.push(0);
    let mut p = payload;
    env.append(&mut p);
    proof {
        assert(env@ =~= envelope_bytes(fmt@, pv));
    }
    let digest = sha256_digest(&env);
    let id = hex_encode(&digest);
    (id, env)
}

/// The three parts of an envelope: the bytes before the first separator,
/// those before the second, and all that follow it.
pub open spec fn parse_envelope(b: Seq<u8>) -> Option<(Seq<u8>, Seq<u8>, Seq<u8>)> {
    match find_byte(b, 0u8) {
        None => None,
        Some(f) => {
            let after = b.skip(f + 1);
            match find_byte(after, 0u8) {
                None => None,
                Some(l) => Some((b.take(f), after.take(l), after.skip(l + 1))),
            }
        },
    }
}

/// Splits an envelope into format, length field and payload.
#[verifier::loop_isolation(false)]
pub fn split_envelope(raw: &Vec<u8>) -> (r: Option<(Vec<u8>, Vec<u8>, Vec<u8>)>)
    ensures
        match r {
            Some((f, l, p)) => parse_envelope(raw@) == Some((f@, l@, p@)),
            None => parse_envelope(raw@) is None,
        },
{
    let n = raw.len();
    let mut i: usize = 0;
    while i < n && raw[i] != 0
        invariant
            i <= n,
            forall|j: int| 0 <= j < i ==> raw@[j] != 0,
        decreases n - i,
    {
        i += 1;
    }
    if i == n {
        proof {
            lemma_find_byte_none(raw@, 0u8);
        }
        return None;
    }
    proof {
        lemma_find_byte_some(raw@, 0u8, i as int);
    }
    let ghost after = raw@.skip(i + 1);
    let mut j = i + 1;
    while j < n && raw[j] != 0
        invariant
            i + 1 <= j <= n,
            forall|q: int| i + 1 <= q < j ==> raw@[q] != 0,
        decreases n - j,
    {
        j += 1;
    }
    if j == n {
        proof {
            assert forall|q: int| 0 <= q < after.len() implies after[q] != 0 by {
                assert(after[q] == raw@[i + 1 + q]);
            }
            lemma_find_byte_none(after, 0u8);
        }
        return None;
    }
    proof {
        assert(after[j - i - 1] == raw@[j as int]);
        assert forall|q: int| 0 <= q < j - i - 1 implies after[q] != 0 by {
            assert(after[q] == raw@[i + 1 + q]);
        }
        lemma_find_byte_some(after, 0u8, j - i - 1);
    }
    let fmt_raw = bytes_range(raw, 0, i);
    let len_raw = bytes_range(raw, i + 1, j);
    let payload = bytes_range(raw, j + 1, n);
    proof {
        assert(fmt_raw@ =~= raw@.take(i as int));
        assert(len_raw@ =~= after.take(j - i - 1));
        assert(payload@ =~= after.skip(j - i));
    }
    Some((fmt_raw, len_raw, payload))
}

/// Copies a byte range out of a vector.
fn bytes_range(v: &Vec<u8>, a: usize, b: usize) -> (r: Vec<u8>)
    requires
        a <= b <= v@.len(),
    ensures
        r@ == v@.subrange(a as int, b as int),
{
    let mut out: Vec<u8> = Vec::new();
    let mut k = a;
    while k < b
        invariant
            a <= k <= b <= v@.len(),
            out@.len() == k - a,
            forall|t: int| 0 <= t < k - a ==> out@[t] == v@[a + t],
        decreases b - k,
    {
        out.push(v[k]);
        k += 1;
    }
    proof {
        assert(out@ =~= v@.subrange(a as int, b as int));
    }
    out
}

/// A stored object of one of the four formats, exactly one held at a
/// time.
pub enum GaalCoreDirectoryObjectType {
    Blob(GaalObject<String>),
    Commit(GaalObject<Kvlm>),
    Tag(GaalObject<String>),
    Tree(GaalObject<Tree>),
}

/// The format tag an object carries.
pub open spec fn object_fmt(o: GaalCoreDirectoryObjectType) -> Seq<char> {
    match o {
        GaalCoreDirectoryObjectType::Blob(b) => b.fmt@,
        GaalCoreDirectoryObjectType::Commit(c) => c.fmt@,
        GaalCoreDirectoryObjectType::Tag(t) => t.fmt@,
        GaalCoreDirectoryObjectType::Tree(t) => t.fmt@,
    }
}

/// The payload bytes an object serializes to.
pub open spec fn object_payload(o: GaalCoreDirectoryObjectType) -> Seq<u8> {
    match o {
        GaalCoreDirectoryObjectType::Blob(b) => encode_utf8(b.data@),
        GaalCoreDirectoryObjectType::Commit(c) => encode_utf8(
            kvlm_serialize_spec(c.data@.fields, c.data@.message),
        ),
        GaalCoreDirectoryObjectType::Tag(t) => encode_utf8(t.data@),
        GaalCoreDirectoryObjectType::Tree(t) => tree_bytes(t.data@.sort_by(leaf_le_fn())),
    }
}

/// Whether an object's payload can be emitted: only a tree with an entry
/// the binary form cannot carry is refused.
pub open spec fn object_serializable(o: GaalCoreDirectoryObjectType) -> bool {
    match o {
        GaalCoreDirectoryObjectType::Tree(t) => forall|i: int|
            0 <= i < t.data@.len() ==> leaf_ok(#[trigger] t.data@[i]),
        _ => true,
    }
}

/// The full envelope of an object.
pub open spec fn object_envelope(o: GaalCoreDirectoryObjectType) -> Seq<u8> {
    envelope_bytes(object_fmt(o), object_payload(o))
}

impl GaalCoreDirectoryObjectType {
    /// The format tag.
    pub fn fmt(&self) -> (r: &String)
        ensures
            r@ == object_fmt(*self),
    {
        match self {
            GaalCoreDirectoryObjectType::Blob(b) => &b.fmt,
            GaalCoreDirectoryObjectType::Commit(c) => &c.fmt,
            GaalCoreDirectoryObjectType::Tag(t) => &t.fmt,
            GaalCoreDirectoryObjectType::Tree(t) => &t.fmt,
        }
    }

    /// The payload bytes of this object.
    pub fn serialize(&self) -> (r: Result<Vec<u8>, ObjectError>)
        ensures
            match r {
                Ok(b) => b@ == object_payload(*self) && object_serializable(*self),
                Err(_) => !object_serializable(*self),
            },
    {
        match self {
            GaalCoreDirectoryObjectType::Blob(b) => Ok(b.data.as_str().as_bytes_vec()),
            GaalCoreDirectoryObjectType::Commit(c) => {
                let text = c.data.serialize();
                Ok(text.as_str().as_bytes_vec())
            },
            GaalCoreDirectoryObjectType::Tag(t) => Ok(t.data.as_str().as_bytes_vec()),
            GaalCoreDirectoryObjectType::Tree(t) => tree_serialize(&t.data),
        }
    }

    /// The content id and envelope bytes of this object: the payload is
    /// framed under the format tag and digested.
    pub fn hash(&self) -> (r: Result<(String, Vec<u8>), ObjectError>)
        ensures
            match r {
                Ok((id, env)) => env@ == object_envelope(*self) && id@ == envelope_id(env@)
                    && id@.len() == 64 && object_serializable(*self),
                Err(_) => !object_serializable(*self),
            },
    {
        let payload = match self.serialize() {
            Ok(p) => p,
            Err(e) => {
                return Err(e);
            },
        };
        let fmt = self.fmt();
        let fmt_str = fmt.clone();
        Ok(hash_envelope(fmt_str.as_str(), payload))
    }
}


/// The four format tags differ pairwise.
proof fn lemma_fmt_literals_distinct()
    ensures
        "blob"@ != "tree"@,
        "blob"@ != "commit"@,
        "blob"@ != "tag"@,
        "tree"@ != "commit"@,
        "tree"@ != "tag"@,
        "commit"@ != "tag"@,
{
    reveal_strlit("blob");
    reveal_strlit("commit");
    reveal_strlit("tree");
    reveal_strlit("tag");
    assert("blob"@[0] == 'b' && "tree"@[0] == 't' && "commit"@[0] == 'c' && "tag"@[0] == 't');
    assert("tree"@.len() == 4 && "tag"@.len() == 3 && "commit"@.len() == 6);
}

/// The four format tags the store understands.
pub open spec fn known_fmt(fmt: Seq<char>) -> bool {
    fmt == "blob"@ || fmt == "commit"@ || fmt == "tree"@ || fmt == "tag"@
}

/// Whether envelope bytes can be read back as an object: two separators,
/// a format tag the store understands, and a payload its codec accepts.
pub open spec fn from_hash_ok(b: Seq<u8>) -> bool {
    match parse_envelope(b) {
        None => false,
        Some(parts) => valid_utf8(parts.0) && {
            let fmt = decode_utf8(parts.0);
            ||| ((fmt == "blob"@ || fmt == "tag"@ || fmt == "commit"@) && valid_utf8(parts.2))
            ||| (fmt == "tree"@ && parse_tree(parts.2) is Some)
        },
    }
}

/// Whether an object is what reading the given envelope bytes yields.
pub open spec fn object_read_back(o: GaalCoreDirectoryObjectType, b: Seq<u8>) -> bool {
    match parse_envelope(b) {
        Some(parts) => {
            let fmt = decode_utf8(parts.0);
            object_fmt(o) == fmt && match o {
                GaalCoreDirectoryObjectType::Blob(bo) => fmt == "blob"@ && bo.data@ == decode_utf8(
                    parts.2,
                ),
                GaalCoreDirectoryObjectType::Tag(t) => fmt == "tag"@ && t.data@ == decode_utf8(
                    parts.2,
                ),
                GaalCoreDirectoryObjectType::Commit(c) => fmt == "commit"@ && (
                    c.data@.fields,
                    c.data@.message,
                ) == kvlm_parse(decode_utf8(parts.2)),
                GaalCoreDirectoryObjectType::Tree(t) => fmt == "tree"@ && parse_tree(parts.2)
                    == Some(t.data@),
            }
        },
        None => false,
    }
}

impl GaalCoreDirectoryObjectType {
    /// Builds an object of the named format from its payload text.
    pub fn new_object(fmt: &str, data: String) -> (r: Result<Self, ObjectError>)
        ensures
            match r {
                Ok(o) => object_fmt(o) == fmt@ && known_fmt(fmt@) && match o {
                    GaalCoreDirectoryObjectType::Blob(b) => fmt@ == "blob"@ && b.data@ == data@,
                    GaalCoreDirectoryObjectType::Tag(t) => fmt@ == "tag"@ && t.data@ == data@,
                    GaalCoreDirectoryObjectType::Commit(c) => fmt@ == "commit"@ && (
                        c.data@.fields,
                        c.data@.message,
                    ) == kvlm_parse(data@),
                    GaalCoreDirectoryObjectType::Tree(t) => fmt@ == "tree"@ && parse_tree(
                        encode_utf8(data@),
                    ) == Some(t.data@),
                },
                Err(_) => !known_fmt(fmt@) || (fmt@ == "tree"@ && parse_tree(
                    encode_utf8(data@),
                ) is None),
            },
    {
        if str_eq(fmt, "blob") {
            Ok(
                GaalCoreDirectoryObjectType::Blob(
                    GaalObject { fmt: "blob".to_owned(), data },
                ),
            )
        } else if str_eq(fmt, "commit") {
            let kvlm = Kvlm::parse(data.as_str());
            Ok(
                GaalCoreDirectoryObjectType::Commit(
                    GaalObject { fmt: "commit".to_owned(), data: kvlm },
                ),
            )
        } else if str_eq(fmt, "tree") {
            let bytes = data.as_str().as_bytes_vec();
            match tree_parse(&bytes) {
                Ok(leafs) => Ok(
                    GaalCoreDirectoryObjectType::Tree(
                        GaalObject { fmt: "tree".to_owned(), data: Tree { leafs } },
                    ),
                ),
                Err(e) => Err(e),
            }
        } else if str_eq(fmt, "tag") {
            Ok(
                GaalCoreDirectoryObjectType::Tag(
                    GaalObject { fmt: "tag".to_owned(), data },
                ),
            )
        } else {
            let mut m = "unsupported object format: ".to_owned();
            m.append(fmt);
            Err(ObjectError::Inexistent(m))
        }
    }

    /// Reads an object back from envelope bytes: the format tag chooses
    /// the payload codec.
    pub fn from_hash(data: &Vec<u8>) -> (r: Result<Self, ObjectError>)
        ensures
            r is Ok <==> from_hash_ok(data@),
            r matches Ok(o) ==> object_read_back(o, data@),
    {
        proof {
            lemma_fmt_literals_distinct();
        }
        let parts = match split_envelope(data) {
            Some(p) => p,
            None => {
                return Err(
                    ObjectError::Inexistent("object bytes are not an envelope".to_owned()),
                );
            },
        };
        let (fmt_raw, _len_raw, payload) = parts;
        let ghost g_fmt = fmt_raw@;
        let ghost g_len = _len_raw@;
        let ghost g_payload = payload@;
        proof {
            assert(parse_envelope(data@) == Some((g_fmt, g_len, g_payload)));
        }
        let fmt = match string_from_utf8(fmt_raw) {
            Some(f) => f,
            None => {
                return Err(
                    ObjectError::Inexistent("object format tag is not text".to_owned()),
                );
            },
        };
        if str_eq(fmt.as_str(), "blob") {
            match string_from_utf8(payload) {
                Some(text) => Ok(
                    GaalCoreDirectoryObjectType::Blob(GaalObject { fmt, data: text }),
                ),
                None => {
                    assert(!from_hash_ok(data@));
                    Err(ObjectError::InvalidData("payload is not text".to_owned()))
                },
            }
        } else if str_eq(fmt.as_str(), "commit") {
            match string_from_utf8(payload) {
                Some(text) => {
                    let kvlm = Kvlm::parse(text.as_str());
                    Ok(GaalCoreDirectoryObjectType::Commit(GaalObject { fmt, data: kvlm }))
                },
                None => {
                    assert(!from_hash_ok(data@));
                    Err(ObjectError::InvalidData("payload is not text".to_owned()))
                },
            }
        } else if str_eq(fmt.as_str(), "tree") {
            match tree_parse(&payload) {
                Ok(leafs) => Ok(
                    GaalCoreDirectoryObjectType::Tree(GaalObject { fmt, data: Tree { leafs } }),
                ),
                Err(e) => {
                    assert(!from_hash_ok(data@));
                    Err(e)
                },
            }
        } else if str_eq(fmt.as_str(), "tag") {
            match string_from_utf8(payload) {
                Some(text) => Ok(
                    GaalCoreDirectoryObjectType::Tag(GaalObject { fmt, data: text }),
                ),
                None => {
                    assert(!from_hash_ok(data@));
                    Err(ObjectError::InvalidData("payload is not text".to_owned()))
                },
            }
        } else {
            proof {
                match parse_envelope(data@) {
                    Some(ps) => {
                        assert(decode_utf8(ps.0) == fmt@);
                        assert(fmt@ != "tree"@ && fmt@ != "blob"@ && fmt@ != "tag"@ && fmt@
                            != "commit"@);
                        assert(!from_hash_ok(data@));
                    },
                    None => {
                        assert(false);
                    },
                }
            }
            let mut m = "unsupported object format: ".to_owned();
            m.append(fmt.as_str());
            Err(ObjectError::Inexistent(m))
        }
    }
}

/// The object codec's entry points, as the store calls them.  The impl on
/// `GaalCoreDirectoryObject` delegates to the verified functions above.
pub trait GaalCoreDirectoryObjectsActions {
    fn new_object(fmt: &str, data: String) -> (r: Result<GaalCoreDirectoryObjectType, ObjectError>);

    fn from_hash(data: &Vec<u8>) -> (r: Result<GaalCoreDirectoryObjectType, ObjectError>);

    fn hash_object(o: &GaalCoreDirectoryObjectType) -> (r: Result<(String, Vec<u8>), ObjectError>)
        ensures
            match r {
                Ok((id, env)) => env@ == object_envelope(*o) && id@ == envelope_id(env@)
                    && object_serializable(*o),
                Err(_) => !object_serializable(*o),
            },
    ;
}

/// The one object codec of this store.
pub struct GaalCoreDirectoryObject;

impl GaalCoreDirectoryObjectsActions for GaalCoreDirectoryObject {
    fn new_object(fmt: &str, data: String) -> (r: Result<GaalCoreDirectoryObjectType, ObjectError>) {
        GaalCoreDirectoryObjectType::new_object(fmt, data)
    }

    fn from_hash(data: &Vec<u8>) -> (r: Result<GaalCoreDirectoryObjectType, ObjectError>) {
        GaalCoreDirectoryObjectType::from_hash(data)
    }

    fn hash_object(o: &GaalCoreDirectoryObjectType) -> (r: Result<(String, Vec<u8>), ObjectError>) {
        o.hash()
    }
}

} // verus!
