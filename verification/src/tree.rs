use vstd::prelude::*;

verus! {

use crate::object_error::ObjectError;
use crate::hex_codec::{hex_of, hex_decoded, is_hex_str, is_lower_hex_digit, hex_encode, hex_decode};
use crate::hex_codec::lemma_hex_decode_encodes;
use crate::text::{ascii_bytes, ascii_chars, all_ascii_bytes, lemma_ascii_identity, ascii_to_string};
use crate::text::{seq_le, lemma_seq_le_total, lemma_seq_le_antisym, lemma_seq_le_trans, str_le, str_eq, contains_char};
use vstd::utf8::is_ascii_chars;
use vstd::relations::{total_ordering, sorted_by};
use vstd::seq_lib::{group_to_multiset_ensures, lemma_sorted_unique};

/// One directory entry: a six-digit mode, an entry name and the content id
/// of what it names, as forty hexadecimal characters standing for twenty
/// raw bytes.
#[derive(Debug, PartialEq)]
pub struct TreeLeaf {
    pub mode: String,
    pub path: String,
    pub sha: String,
}

/// The mathematical shape of one directory entry.
#[verifier::ext_equal]
pub struct TreeLeafView {
    pub mode: Seq<char>,
    pub path: Seq<char>,
    pub sha: Seq<char>,
}

impl View for TreeLeaf {
    type V = TreeLeafView;

    open spec fn view(&self) -> TreeLeafView {
        TreeLeafView { mode: self.mode@, path: self.path@, sha: self.sha@ }
    }
}

impl Clone for TreeLeaf {
    fn clone(&self) -> (r: Self)
        ensures
            r@ == self@,
    {
        Self { mode: self.mode.clone(), path: self.path.clone(), sha: self.sha.clone() }
    }
}

/// A directory object: a list of entries.  The binary form is independent
/// of the order the entries are held in.
#[derive(Debug, PartialEq)]
pub struct Tree {
    pub leafs: Vec<TreeLeaf>,
}

impl View for Tree {
    type V = Seq<TreeLeafView>;

    open spec fn view(&self) -> Seq<TreeLeafView> {
        self.leafs@.map_values(|l: TreeLeaf| l@)
    }
}

impl Clone for Tree {
    fn clone(&self) -> (r: Self)
        ensures
            r@ == self@,
    {
        let mut leafs: Vec<TreeLeaf> = Vec::new();
        let mut i: usize = 0;
        while i < self.leafs.len()
            invariant
                i <= self.leafs@.len(),
                leafs@.len() == i,
                forall|j: int| 0 <= j < i ==> #[trigger] leafs@[j]@ == self.leafs@[j]@,
            decreases self.leafs@.len() - i,
        {
            let l = self.leafs[i].clone();
            leafs.push(l);
            i += 1;
        }
        let r = Self { leafs };
        proof {
            assert(r@ =~= self@);
        }
        r
    }
}

/// An entry that the binary form can carry: mode without a space, name
/// without a terminator, both plain ASCII, and an id of forty hexadecimal
/// digits.
pub open spec fn leaf_ok(l: TreeLeafView) -> bool {
    &&& is_ascii_chars(l.mode)
    &&& (forall|i: int| 0 <= i < l.mode.len() ==> l.mode[i] != ' ')
    &&& is_ascii_chars(l.path)
    &&& (forall|i: int| 0 <= i < l.path.len() ==> l.path[i] != '\0')
    &&& is_hex_str(l.sha)
    &&& l.sha.len() == 40
}

/// A canonical entry: exactly six ASCII digits of mode, an ASCII name
/// without a terminator, and forty lowercase hexadecimal digits of id.
/// Decoding the binary form yields such entries back.
pub open spec fn leaf_wf(l: TreeLeafView) -> bool {
    &&& l.mode.len() == 6
    &&& (forall|i: int| 0 <= i < l.mode.len() ==> '0' <= #[trigger] l.mode[i] <= '9')
    &&& is_ascii_chars(l.path)
    &&& (forall|i: int| 0 <= i < l.path.len() ==> l.path[i] != '\0')
    &&& l.sha.len() == 40
    &&& (forall|i: int| 0 <= i < l.sha.len() ==> is_lower_hex_digit(#[trigger] l.sha[i]))
}

/// A canonical entry can be carried by the binary form.
pub proof fn lemma_leaf_wf_ok(l: TreeLeafView)
    requires
        leaf_wf(l),
    ensures
        leaf_ok(l),
{
    assert forall|i: int| 0 <= i < l.mode.len() implies ('\0' <= #[trigger] l.mode[i] <= '\u{7f}'
        && l.mode[i] != ' ') by {
        assert('0' <= l.mode[i] <= '9');
    }
}

/// The sort key of an entry: its name, with a trailing slash unless the
/// mode marks a plain file or symbolic link.
pub open spec fn leaf_key(l: TreeLeafView) -> Seq<char> {
    if l.mode.len() >= 2 && l.mode[0] == '1' && l.mode[1] == '0' {
        l.path
    } else {
        l.path + "/"@
    }
}

/// The order entries are emitted in: by key, ties broken by comparing the
/// mode, the name and the id in turn.
pub open spec fn leaf_le(a: TreeLeafView, b: TreeLeafView) -> bool {
    if leaf_key(a) != leaf_key(b) {
        seq_le(leaf_key(a), leaf_key(b))
    } else if a.mode != b.mode {
        seq_le(a.mode, b.mode)
    } else if a.path != b.path {
        seq_le(a.path, b.path)
    } else {
        seq_le(a.sha, b.sha)
    }
}

/// `leaf_le` as a comparison value.
pub open spec fn leaf_le_fn() -> spec_fn(TreeLeafView, TreeLeafView) -> bool {
    |a: TreeLeafView, b: TreeLeafView| leaf_le(a, b)
}

/// The emission order is a total order on entries.
pub proof fn lemma_leaf_le_total_ordering()
    ensures
        total_ordering(leaf_le_fn()),
{
    let leq = leaf_le_fn();
    assert forall|a: TreeLeafView| #[trigger] leq(a, a) by {
        lemma_seq_le_total(a.sha, a.sha);
    }
    assert forall|a: TreeLeafView, b: TreeLeafView| #[trigger] leq(a, b) && #[trigger] leq(b, a)
        implies a == b by {
        lemma_leaf_le_antisym(a, b);
    }
    assert forall|a: TreeLeafView, b: TreeLeafView, c: TreeLeafView|
        #[trigger] leq(a, b) && #[trigger] leq(b, c) implies leq(a, c) by {
        lemma_leaf_le_trans(a, b, c);
    }
    assert forall|a: TreeLeafView, b: TreeLeafView| #![trigger leq(a, b)] true implies leq(a, b)
        || leq(b, a) by {
        lemma_seq_le_total(leaf_key(a), leaf_key(b));
        lemma_seq_le_total(a.mode, b.mode);
        lemma_seq_le_total(a.path, b.path);
        lemma_seq_le_total(a.sha, b.sha);
    }
}

proof fn lemma_leaf_le_antisym(a: TreeLeafView, b: TreeLeafView)
    requires
        leaf_le(a, b),
        leaf_le(b, a),
    ensures
        a == b,
{
    if leaf_key(a) != leaf_key(b) {
        lemma_seq_le_antisym(leaf_key(a), leaf_key(b));
    } else if a.mode != b.mode {
        lemma_seq_le_antisym(a.mode, b.mode);
    } else if a.path != b.path {
        lemma_seq_le_antisym(a.path, b.path);
    } else {
        lemma_seq_le_antisym(a.sha, b.sha);
        assert(a =~= b);
    }
}

proof fn lemma_leaf_le_trans(a: TreeLeafView, b: TreeLeafView, c: TreeLeafView)
    requires
        leaf_le(a, b),
        leaf_le(b, c),
    ensures
        leaf_le(a, c),
{
    let ka = leaf_key(a);
    let kb = leaf_key(b);
    let kc = leaf_key(c);
    lemma_seq_le_total(ka, ka);
    lemma_seq_le_total(kb, kb);
    lemma_seq_le_total(kc, kc);
    assert(seq_le(ka, kb) && seq_le(kb, kc));
    lemma_seq_le_trans(ka, kb, kc);
    if ka == kc {
        lemma_seq_le_antisym(kb, ka);
        lemma_seq_le_total(a.mode, a.mode);
        lemma_seq_le_total(b.mode, b.mode);
        lemma_seq_le_total(c.mode, c.mode);
        assert(seq_le(a.mode, b.mode) && seq_le(b.mode, c.mode));
        lemma_seq_le_trans(a.mode, b.mode, c.mode);
        if a.mode == c.mode {
            lemma_seq_le_antisym(b.mode, a.mode);
            lemma_seq_le_total(a.path, a.path);
            lemma_seq_le_total(b.path, b.path);
            lemma_seq_le_total(c.path, c.path);
            assert(seq_le(a.path, b.path) && seq_le(b.path, c.path));
            lemma_seq_le_trans(a.path, b.path, c.path);
            if a.path == c.path {
                lemma_seq_le_antisym(b.path, a.path);
                lemma_seq_le_trans(a.sha, b.sha, c.sha);
            }
        }
    }
}


/// The bytes of one entry: the mode, a space, the name, a terminator, and
/// the twenty raw bytes the id denotes.
pub open spec fn leaf_bytes(l: TreeLeafView) -> Seq<u8> {
    ascii_bytes(l.mode) + seq![32u8] + ascii_bytes(l.path) + seq![0u8] + hex_decoded(l.sha)
}

/// The bytes of a list of entries, in the order given.
pub open spec fn tree_bytes(ls: Seq<TreeLeafView>) -> Seq<u8>
    decreases ls.len(),
{
    if ls.len() == 0 {
        Seq::empty()
    } else {
        leaf_bytes(ls[0]) + tree_bytes(ls.drop_first())
    }
}

/// Emission distributes over appending one entry at the end.
pub proof fn lemma_tree_bytes_snoc(ls: Seq<TreeLeafView>, l: TreeLeafView)
    ensures
        tree_bytes(ls.push(l)) == tree_bytes(ls) + leaf_bytes(l),
    decreases ls.len(),
{
    if ls.len() == 0 {
        assert(ls.push(l)[0] == l);
        assert(ls.push(l).drop_first() =~= Seq::<TreeLeafView>::empty());
        assert(tree_bytes(ls.push(l)) == leaf_bytes(l) + tree_bytes(
            Seq::<TreeLeafView>::empty(),
        ));
        assert(tree_bytes(ls.push(l)) =~= tree_bytes(ls) + leaf_bytes(l));
    } else {
        assert(ls.push(l)[0] == ls[0]);
        assert(ls.push(l).drop_first() =~= ls.drop_first().push(l));
        lemma_tree_bytes_snoc(ls.drop_first(), l);
        assert(tree_bytes(ls.push(l)) == leaf_bytes(ls[0]) + (tree_bytes(ls.drop_first())
            + leaf_bytes(l)));
        assert(tree_bytes(ls.push(l)) =~= tree_bytes(ls) + leaf_bytes(l));
    }
}

/// The position of the first occurrence of a byte.
pub open spec fn find_byte(b: Seq<u8>, x: u8) -> Option<int>
    decreases b.len(),
{
    if b.len() == 0 {
        None
    } else if b[0] == x {
        Some(0)
    } else {
        match find_byte(b.drop_first(), x) {
            None => None,
            Some(i) => Some(i + 1),
        }
    }
}

/// `find_byte` returns exactly the position of the first occurrence.
pub proof fn lemma_find_byte_some(b: Seq<u8>, x: u8, k: int)
    requires
        0 <= k < b.len(),
        b[k] == x,
        forall|j: int| 0 <= j < k ==> b[j] != x,
    ensures
        find_byte(b, x) == Some(k),
    decreases k,
{
    if k > 0 {
        lemma_find_byte_some(b.drop_first(), x, k - 1);
    }
}

/// `find_byte` returns nothing exactly when the byte does not occur.
pub proof fn lemma_find_byte_none(b: Seq<u8>, x: u8)
    requires
        forall|j: int| 0 <= j < b.len() ==> b[j] != x,
    ensures
        find_byte(b, x) is None,
    decreases b.len(),
{
    if b.len() > 0 {
        lemma_find_byte_none(b.drop_first(), x);
    }
}

/// One entry read from the front of a byte sequence, with the count of
/// bytes consumed: ASCII mode up to a space, a five-digit mode gaining a
/// leading zero, ASCII name up to a terminator, then exactly twenty raw
/// bytes rendered as forty lowercase hexadecimal digits.
pub open spec fn parse_leaf(b: Seq<u8>) -> Option<(TreeLeafView, int)> {
    match find_byte(b, 32u8) {
        None => None,
        Some(sp) => {
            let mode_raw = b.take(sp);
            if !all_ascii_bytes(mode_raw) {
                None
            } else {
                let mode = if sp == 5 {
                    seq!['0'] + ascii_chars(mode_raw)
                } else {
                    ascii_chars(mode_raw)
                };
                let after = b.skip(sp + 1);
                match find_byte(after, 0u8) {
                    None => None,
                    Some(nl) => {
                        let path_raw = after.take(nl);
                        if !all_ascii_bytes(path_raw) {
                            None
                        } else if after.len() < nl + 21 {
                            None
                        } else {
                            Some(
                                (
                                    TreeLeafView {
                                        mode,
                                        path: ascii_chars(path_raw),
                                        sha: hex_of(after.subrange(nl + 1, nl + 21)),
                                    },
                                    sp + 1 + nl + 21,
                                ),
                            )
                        }
                    },
                }
            }
        },
    }
}

/// The entries read from a byte sequence until it is exhausted; `None`
/// once any entry is malformed.
pub open spec fn parse_tree(b: Seq<u8>) -> Option<Seq<TreeLeafView>>
    decreases b.len(),
{
    if b.len() == 0 {
        Some(Seq::empty())
    } else {
        match parse_leaf(b) {
            None => None,
            Some((l, n)) => {
                if n <= 0 || n > b.len() {
                    None
                } else {
                    match parse_tree(b.skip(n)) {
                        None => None,
                        Some(rest) => Some(seq![l] + rest),
                    }
                }
            },
        }
    }
}

/// Reads one entry of a tree object starting at the given byte position.
/// On success the returned position is the first byte after the entry.
#[verifier::loop_isolation(false)]
pub fn tree_parse_one(raw: &Vec<u8>, start: usize) -> (r: Result<(TreeLeaf, usize), ObjectError>)
    requires
        start < raw@.len(),
    ensures
        match r {
            Ok((leaf, next)) => parse_leaf(raw@.skip(start as int)) == Some(
                (leaf@, next - start as int),
            ) && start < next <= raw@.len(),
            Err(_) => parse_leaf(raw@.skip(start as int)) is None,
        },
{
    let ghost b = raw@.skip(start as int);
    let n = raw.len();
    let mut i = start;
    while i < n && raw[i] != 32
        invariant
            start <= i <= n,
            n == raw@.len(),
            forall|j: int| start <= j < i ==> raw@[j] != 32,
        decreases n - i,
    {
        i += 1;
    }
    if i == n {
        proof {
            assert forall|j: int| 0 <= j < b.len() implies b[j] != 32 by {
                assert(b[j] == raw@[start + j]);
            }
            lemma_find_byte_none(b, 32u8);
        }
        return Err(ObjectError::InvalidData("entry without a mode separator".to_owned()));
    }
    proof {
        assert(b[i - start as int] == 32);
        assert forall|j: int| 0 <= j < i - start as int implies b[j] != 32 by {
            assert(b[j] == raw@[start + j]);
        }
        lemma_find_byte_some(b, 32u8, i - start as int);
    }
    let ghost sp = i - start as int;
    let mut mode_bytes: Vec<u8> = Vec::new();
    let mut k = start;
    while k < i
        invariant
            start <= k <= i <= n,
            n == raw@.len(),
            mode_bytes@.len() == k - start,
            forall|j: int| 0 <= j < k - start ==> mode_bytes@[j] == raw@[start + j] && raw@[start
                + j] < 128,
        decreases i - k,
    {
        let x = raw[k];
        if x >= 128 {
            proof {
                assert(b[k - start as int] == raw@[k as int]);
                assert(b.take(sp)[k - start as int] == b[k - start as int]);
                assert(!all_ascii_bytes(b.take(sp)));
            }
            return Err(ObjectError::InvalidData("mode is not plain text".to_owned()));
        }
        mode_bytes.push(x);
        k += 1;
    }
    proof {
        assert(mode_bytes@ =~= b.take(sp));
        assert(all_ascii_bytes(b.take(sp)));
    }
    let short_mode = i - start == 5;
    let core_mode = ascii_to_string(mode_bytes);
    let mode_str = if short_mode {
        let mut m = "0".to_owned();
        m.append(core_mode.as_str());
        proof {
            reveal_strlit("0");
            assert(m@ =~= seq!['0'] + ascii_chars(b.take(sp)));
        }
        m
    } else {
        core_mode
    };
    let mut j = i + 1;
    while j < n && raw[j] != 0
        invariant
            i + 1 <= j <= n,
            n == raw@.len(),
            forall|q: int| i + 1 <= q < j ==> raw@[q] != 0,
        decreases n - j,
    {
        j += 1;
    }
    let ghost after = b.skip(sp + 1);
    proof {
        assert(after =~= raw@.skip(i + 1));
    }
    if j == n {
        proof {
            assert forall|q: int| 0 <= q < after.len() implies after[q] != 0 by {
                assert(after[q] == raw@[i + 1 + q]);
            }
            lemma_find_byte_none(after, 0u8);
        }
        return Err(ObjectError::InvalidData("entry without a name terminator".to_owned()));
    }
    proof {
        assert(after[j - i - 1] == raw@[j as int]);
        assert forall|q: int| 0 <= q < j - i - 1 implies after[q] != 0 by {
            assert(after[q] == raw@[i + 1 + q]);
        }
        lemma_find_byte_some(after, 0u8, j - i - 1);
    }
    let ghost nl = j - i - 1;
    let mut path_bytes: Vec<u8> = Vec::new();
    let mut q = i + 1;
    while q < j
        invariant
            i + 1 <= q <= j <= n,
            n == raw@.len(),
            path_bytes@.len() == q - i - 1,
            forall|t: int| 0 <= t < q - i - 1 ==> path_bytes@[t] == raw@[i + 1 + t] && raw@[i + 1
                + t] < 128,
        decreases j - q,
    {
        let x = raw[q];
        if x >= 128 {
            proof {
                assert(after[q - i - 1] == raw@[q as int]);
                assert(after.take(nl)[q - i - 1] == after[q - i - 1]);
                assert(!all_ascii_bytes(after.take(nl)));
            }
            return Err(ObjectError::InvalidData("entry name is not plain text".to_owned()));
        }
        path_bytes.push(x);
        q += 1;
    }
    proof {
        assert(path_bytes@ =~= after.take(nl));
        assert(all_ascii_bytes(after.take(nl)));
    }
    let path_str = ascii_to_string(path_bytes);
    if n - j < 21 {
        proof {
            assert(after.len() < nl + 21);
        }
        return Err(ObjectError::InvalidData("entry id shorter than twenty bytes".to_owned()));
    }
    let mut sha_bytes: Vec<u8> = Vec::new();
    let mut t = j + 1;
    while t < j + 21
        invariant
            j + 21 <= n,
            n == raw@.len(),
            j + 1 <= t <= j + 21,
            sha_bytes@.len() == t - j - 1,
            forall|w: int| 0 <= w < t - j - 1 ==> sha_bytes@[w] == raw@[j + 1 + w],
        decreases j + 21 - t,
    {
        sha_bytes.push(raw[t]);
        t += 1;
    }
    let sha_str = hex_encode(&sha_bytes);
    let next = j + 21;
    proof {
        assert(sha_bytes@ =~= after.subrange(nl + 1, nl + 21));
        assert(next - start as int == sp + 1 + nl + 21);
    }
    Ok((TreeLeaf { mode: mode_str, path: path_str, sha: sha_str }, next))
}

/// Reads the entries of a tree object from its binary form.
#[verifier::loop_isolation(false)]
pub fn tree_parse(raw: &Vec<u8>) -> (r: Result<Vec<TreeLeaf>, ObjectError>)
    ensures
        match r {
            Ok(ls) => parse_tree(raw@) == Some(ls@.map_values(|l: TreeLeaf| l@)),
            Err(_) => parse_tree(raw@) is None,
        },
{
    let mut leafs: Vec<TreeLeaf> = Vec::new();
    let mut i: usize = 0;
    proof {
        assert(raw@.skip(0) =~= raw@);
    }
    while i < raw.len()
        invariant
            i <= raw@.len(),
            match parse_tree(raw@.skip(i as int)) {
                Some(rest) => parse_tree(raw@) == Some(
                    leafs@.map_values(|l: TreeLeaf| l@) + rest,
                ),
                None => parse_tree(raw@) is None,
            },
        decreases raw@.len() - i,
    {
        let ghost b_i = raw@.skip(i as int);
        match tree_parse_one(raw, i) {
            Err(e) => {
                proof {
                    assert(b_i.len() > 0);
                    assert(parse_tree(b_i) is None);
                }
                return Err(e);
            },
            Ok((leaf, next)) => {
                proof {
                    let n = next - i as int;
                    assert(b_i.skip(n) =~= raw@.skip(next as int));
                    match parse_tree(raw@.skip(next as int)) {
                        Some(rest) => {
                            assert(parse_tree(b_i) == Some(seq![leaf@] + rest));
                            assert(leafs@.push(leaf).map_values(|l: TreeLeaf| l@) + rest =~= leafs@
                                .map_values(|l: TreeLeaf| l@) + (seq![leaf@] + rest));
                        },
                        None => {
                            assert(parse_tree(b_i) is None);
                        },
                    }
                }
                leafs.push(leaf);
                i = next;
            },
        }
    }
    proof {
        assert(raw@.skip(i as int).len() == 0);
        assert(parse_tree(raw@.skip(i as int)) == Some(Seq::<TreeLeafView>::empty()));
        assert(leafs@.map_values(|l: TreeLeaf| l@) + Seq::<TreeLeafView>::empty() =~= leafs@
            .map_values(|l: TreeLeaf| l@));
    }
    Ok(leafs)
}


/// The sort key of an entry, as the emitter computes it.
pub fn tree_leaf_sort_key(leaf: &TreeLeaf) -> (r: String)
    ensures
        r@ == leaf_key(leaf@),
{
    if leaf.mode.as_str().unicode_len() >= 2 {
        let c0 = leaf.mode.as_str().get_char(0);
        let c1 = leaf.mode.as_str().get_char(1);
        if c0 == '1' && c1 == '0' {
            return leaf.path.clone();
        }
    }
    let mut k = leaf.path.clone();
    k.append("/");
    k
}

/// The emission order, as the emitter compares two entries.
fn tree_leaf_le(a: &TreeLeaf, b: &TreeLeaf) -> (r: bool)
    ensures
        r == leaf_le(a@, b@),
{
    let ka = tree_leaf_sort_key(a);
    let kb = tree_leaf_sort_key(b);
    if !str_eq(ka.as_str(), kb.as_str()) {
        return str_le(ka.as_str(), kb.as_str());
    }
    if !str_eq(a.mode.as_str(), b.mode.as_str()) {
        return str_le(a.mode.as_str(), b.mode.as_str());
    }
    if !str_eq(a.path.as_str(), b.path.as_str()) {
        return str_le(a.path.as_str(), b.path.as_str());
    }
    str_le(a.sha.as_str(), b.sha.as_str())
}

/// Orders entries by the emission order, keeping exactly the given
/// entries.
#[verifier::loop_isolation(false)]
fn sort_leafs(v: &Vec<TreeLeaf>) -> (r: Vec<TreeLeaf>)
    ensures
        sorted_by(r@.map_values(|l: TreeLeaf| l@), leaf_le_fn()),
        r@.map_values(|l: TreeLeaf| l@).to_multiset() == v@.map_values(
            |l: TreeLeaf| l@,
        ).to_multiset(),
{
    broadcast use group_to_multiset_ensures;

    let ghost lv = |l: TreeLeaf| l@;
    let mut out: Vec<TreeLeaf> = Vec::new();
    let mut i: usize = 0;
    proof {
        assert(v@.take(0).map_values(lv) =~= Seq::<TreeLeafView>::empty());
        assert(out@.map_values(lv) =~= Seq::<TreeLeafView>::empty());
        lemma_leaf_le_total_ordering();
    }
    while i < v.len()
        invariant
            i <= v@.len(),
            sorted_by(out@.map_values(lv), leaf_le_fn()),
            out@.map_values(lv).to_multiset() == v@.take(i as int).map_values(lv).to_multiset(),
        decreases v@.len() - i,
    {
        let e = v[i].clone();
        let mut j: usize = 0;
        while j < out.len() && tree_leaf_le(&out[j], &e)
            invariant
                j <= out@.len(),
                forall|k: int| 0 <= k < j ==> leaf_le(#[trigger] out@.map_values(lv)[k], e@),
            decreases out@.len() - j,
        {
            j += 1;
        }
        let ghost old_out = out@;
        out.insert(j, e);
        proof {
            let s_old = old_out.map_values(lv);
            let s_new = out@.map_values(lv);
            assert(s_new =~= s_old.insert(j as int, e@));
            assert forall|p: int, q: int| 0 <= p < q < s_new.len() implies leaf_le_fn()(
                s_new[p],
                s_new[q],
            ) by {
                let leq = leaf_le_fn();
                if q < j {
                    assert(s_new[p] == s_old[p] && s_new[q] == s_old[q]);
                } else if p > j {
                    assert(s_new[p] == s_old[p - 1] && s_new[q] == s_old[q - 1]);
                } else if p < j && q == j {
                    assert(s_new[p] == s_old[p]);
                    assert(leaf_le(s_old[p], e@));
                } else if p == j && q > j {
                    assert(s_new[q] == s_old[q - 1]);
                    if j < s_old.len() {
                        assert(!leaf_le(s_old[j as int], e@));
                        assert(leq(e@, s_old[j as int]) || leq(s_old[j as int], e@));
                        if q - 1 > j {
                            assert(leq(s_old[j as int], s_old[q - 1]));
                        }
                    }
                } else if p < j && q > j {
                    assert(s_new[p] == s_old[p] && s_new[q] == s_old[q - 1]);
                }
            }
            assert(v@.take(i + 1) =~= v@.take(i as int).push(v@[i as int]));
            assert(v@.take(i + 1).map_values(lv) =~= v@.take(i as int).map_values(lv).push(
                v@[i as int]@,
            ));
            assert(s_new.to_multiset() =~= v@.take(i + 1).map_values(lv).to_multiset());
        }
        i += 1;
    }
    proof {
        assert(v@.take(v@.len() as int) =~= v@);
    }
    out
}

/// Emits the binary form of a tree: each entry in emission order as its
/// mode, a space, its name, a terminator and the twenty raw bytes of its
/// id.  It fails exactly when some entry cannot be carried by that form.
#[verifier::loop_isolation(false)]
pub fn tree_serialize(tree: &Tree) -> (r: Result<Vec<u8>, ObjectError>)
    ensures
        match r {
            Ok(b) => b@ == tree_bytes(tree@.sort_by(leaf_le_fn())) && (forall|i: int|
                0 <= i < tree@.len() ==> leaf_ok(#[trigger] tree@[i])),
            Err(_) => !(forall|i: int| 0 <= i < tree@.len() ==> leaf_ok(#[trigger] tree@[i])),
        },
{
    broadcast use group_to_multiset_ensures;

    let ghost lv = |l: TreeLeaf| l@;
    let sorted = sort_leafs(&tree.leafs);
    let ghost sv = sorted@.map_values(lv);
    proof {
        lemma_leaf_le_total_ordering();
        tree@.lemma_sort_by_ensures(leaf_le_fn());
        lemma_sorted_unique(sv, tree@.sort_by(leaf_le_fn()), leaf_le_fn());
        assert(sv == tree@.sort_by(leaf_le_fn()));
    }
    let mut bytes: Vec<u8> = Vec::new();
    let mut i: usize = 0;
    proof {
        assert(sv.take(0) =~= Seq::<TreeLeafView>::empty());
    }
    while i < sorted.len()
        invariant
            i <= sorted@.len(),
            forall|k: int| 0 <= k < i ==> leaf_ok(#[trigger] sv[k]),
            bytes@ == tree_bytes(sv.take(i as int)),
        decreases sorted@.len() - i,
    {
        let leaf = &sorted[i];
        let mode_ok = leaf.mode.as_str().is_ascii() && !contains_char(leaf.mode.as_str(), ' ');
        let path_ok = leaf.path.as_str().is_ascii() && !contains_char(leaf.path.as_str(), '\0');
        if !mode_ok || !path_ok {
            proof {
                assert(!leaf_ok(sv[i as int]));
                lemma_bad_leaf_in_tree(tree@, sv, i as int);
            }
            return Err(ObjectError::InvalidData("entry cannot be encoded".to_owned()));
        }
        let sha_bytes = match hex_decode(leaf.sha.as_str()) {
            None => {
                proof {
                    assert(!leaf_ok(sv[i as int]));
                    lemma_bad_leaf_in_tree(tree@, sv, i as int);
                }
                return Err(ObjectError::InvalidData("entry id is not hexadecimal".to_owned()));
            },
            Some(v) => v,
        };
        if sha_bytes.len() != 20 {
            proof {
                assert(!leaf_ok(sv[i as int]));
                lemma_bad_leaf_in_tree(tree@, sv, i as int);
            }
            return Err(ObjectError::InvalidData("entry id is not twenty bytes".to_owned()));
        }
        let mut mode_bytes = leaf.mode.as_str().as_bytes_vec();
        let mut path_bytes = leaf.path.as_str().as_bytes_vec();
        proof {
            crate::text::lemma_ascii_encode(leaf.mode@);
            crate::text::lemma_ascii_encode(leaf.path@);
            assert(leaf_ok(sv[i as int]));
        }
        let ghost before = bytes@;
        bytes.append(&mut mode_bytes);
        bytes.push(32);
        bytes.append(&mut path_bytes);
        bytes.push(0);
        let mut sb = sha_bytes;
        bytes.append(&mut sb);
        proof {
            assert(bytes@ =~= before + leaf_bytes(sv[i as int]));
            assert(sv.take(i + 1) =~= sv.take(i as int).push(sv[i as int]));
            lemma_tree_bytes_snoc(sv.take(i as int), sv[i as int]);
        }
        i += 1;
    }
    proof {
        assert(sv.take(sv.len() as int) =~= sv);
        assert forall|k: int| 0 <= k < tree@.len() implies leaf_ok(#[trigger] tree@[k]) by {
            assert(tree@.to_multiset().contains(tree@[k]));
            assert(sv.to_multiset().contains(tree@[k]));
            assert(sv.contains(tree@[k]));
            let w = choose|w: int| 0 <= w < sv.len() && sv[w] == tree@[k];
            assert(leaf_ok(sv[w]));
        }
    }
    Ok(bytes)
}

/// An entry of the ordered list that cannot be carried also sits in the
/// tree it came from.
proof fn lemma_bad_leaf_in_tree(t: Seq<TreeLeafView>, sv: Seq<TreeLeafView>, i: int)
    requires
        sv.to_multiset() == t.to_multiset(),
        0 <= i < sv.len(),
        !leaf_ok(sv[i]),
    ensures
        !(forall|k: int| 0 <= k < t.len() ==> leaf_ok(#[trigger] t[k])),
{
    broadcast use group_to_multiset_ensures;

    assert(sv.to_multiset().contains(sv[i]));
    assert(t.to_multiset().contains(sv[i]));
    assert(t.contains(sv[i]));
    let w = choose|w: int| 0 <= w < t.len() && t[w] == sv[i];
    assert(!leaf_ok(t[w]));
}


/// One canonical entry followed by anything reads back as exactly that
/// entry, consuming exactly its bytes.
pub proof fn lemma_parse_leaf_bytes(l: TreeLeafView, rest: Seq<u8>)
    requires
        leaf_wf(l),
    ensures
        parse_leaf(leaf_bytes(l) + rest) == Some((l, leaf_bytes(l).len() as int)),
{
    let b = leaf_bytes(l) + rest;
    lemma_leaf_wf_ok(l);
    lemma_ascii_identity(l.mode);
    lemma_ascii_identity(l.path);
    lemma_hex_decode_encodes(l.sha);
    let pn = l.path.len() as int;
    assert(b.len() == 28 + pn + rest.len());
    assert(b[6] == 32);
    assert forall|j: int| 0 <= j < 6 implies b[j] != 32 by {
        assert(b[j] == l.mode[j] as u8);
        assert('0' <= l.mode[j] <= '9');
        if l.mode[j] as u8 == 32 {
            assert((l.mode[j] as u8) as char == l.mode[j]);
            assert(l.mode[j] == 32u8 as char);
        }
    }
    lemma_find_byte_some(b, 32u8, 6);
    assert(b.take(6) =~= ascii_bytes(l.mode));
    let after = b.skip(7);
    assert(after =~= ascii_bytes(l.path) + seq![0u8] + hex_decoded(l.sha) + rest);
    assert(after[pn] == 0);
    assert forall|j: int| 0 <= j < pn implies after[j] != 0 by {
        assert(after[j] == l.path[j] as u8);
        assert(l.path[j] != '\0');
    }
    lemma_find_byte_some(after, 0u8, pn);
    assert(after.take(pn) =~= ascii_bytes(l.path));
    assert(after.len() == pn + 21 + rest.len());
    assert(after.subrange(pn + 1, pn + 21) =~= hex_decoded(l.sha));
    assert(ascii_chars(b.take(6)) == l.mode);
    assert(ascii_chars(after.take(pn)) == l.path);
    assert(hex_of(after.subrange(pn + 1, pn + 21)) == l.sha);
    let got = parse_leaf(b).unwrap();
    assert(got.0 =~= l);
    assert(got.1 == 28 + pn);
}

/// A list of canonical entries reads back from its emitted bytes
/// unchanged.
pub proof fn lemma_tree_bytes_parse(ls: Seq<TreeLeafView>)
    requires
        forall|i: int| 0 <= i < ls.len() ==> leaf_wf(#[trigger] ls[i]),
    ensures
        parse_tree(tree_bytes(ls)) == Some(ls),
    decreases ls.len(),
{
    if ls.len() == 0 {
        assert(tree_bytes(ls).len() == 0);
    } else {
        let b = tree_bytes(ls);
        let l = ls[0];
        let rest = tree_bytes(ls.drop_first());
        assert(b == leaf_bytes(l) + rest);
        lemma_parse_leaf_bytes(l, rest);
        let n = leaf_bytes(l).len() as int;
        assert(n >= 28);
        assert(b.len() == n + rest.len());
        assert(b.skip(n) =~= rest);
        lemma_tree_bytes_parse(ls.drop_first());
        assert(parse_tree(b) == Some(seq![l] + ls.drop_first()));
        assert(seq![l] + ls.drop_first() =~= ls);
    }
}

/// Emission does not depend on the order entries are listed in: two lists
/// holding the same entries emit the same bytes.
pub proof fn lemma_tree_bytes_order_independent(l1: Seq<TreeLeafView>, l2: Seq<TreeLeafView>)
    requires
        l1.to_multiset() == l2.to_multiset(),
    ensures
        l1.sort_by(leaf_le_fn()) == l2.sort_by(leaf_le_fn()),
        tree_bytes(l1.sort_by(leaf_le_fn())) == tree_bytes(l2.sort_by(leaf_le_fn())),
{
    lemma_leaf_le_total_ordering();
    l1.lemma_sort_by_ensures(leaf_le_fn());
    l2.lemma_sort_by_ensures(leaf_le_fn());
    lemma_sorted_unique(l1.sort_by(leaf_le_fn()), l2.sort_by(leaf_le_fn()), leaf_le_fn());
}

/// Reading the emitted bytes of a tree of canonical entries yields the
/// same set of entries: the ordered list, holding exactly the entries the
/// tree held.
pub proof fn lemma_tree_round_trip(ls: Seq<TreeLeafView>)
    requires
        forall|i: int| 0 <= i < ls.len() ==> leaf_wf(#[trigger] ls[i]),
    ensures
        parse_tree(tree_bytes(ls.sort_by(leaf_le_fn()))) == Some(ls.sort_by(leaf_le_fn())),
        ls.sort_by(leaf_le_fn()).to_multiset() == ls.to_multiset(),
{
    broadcast use group_to_multiset_ensures;

    lemma_leaf_le_total_ordering();
    ls.lemma_sort_by_ensures(leaf_le_fn());
    let sv = ls.sort_by(leaf_le_fn());
    assert forall|i: int| 0 <= i < sv.len() implies leaf_wf(#[trigger] sv[i]) by {
        assert(sv.to_multiset().contains(sv[i]));
        assert(ls.to_multiset().contains(sv[i]));
        assert(ls.contains(sv[i]));
        let w = choose|w: int| 0 <= w < ls.len() && ls[w] == sv[i];
        assert(leaf_wf(ls[w]));
    }
    lemma_tree_bytes_parse(sv);
}

} // verus!
