use vstd::prelude::*;
use indexmap::IndexMap;

verus! {

use crate::assoc::{kv_has, kv_get, kv_unique, kv_upsert, lemma_kv_upsert, lemma_kv_upsert_twice, lemma_kv_idx_unique};
use crate::text::{find_char, lemma_find_char_some, lemma_find_char_none, lemma_find_char_bounds, lemma_find_char_first, scan_char, push_char};

/// The key-value-list-message form declared for the ordered header map of
/// the indexmap crate, which carries the fields.
#[verifier::external_type_specification]
#[verifier::external_body]
#[verifier::reject_recursive_types(K)]
#[verifier::reject_recursive_types(V)]
#[verifier::reject_recursive_types(S)]
pub struct ExIndexMap<K, V, S>(IndexMap<K, V, S>);

/// What an ordered header map holds: its key-value pairs in storage order.
/// Only the indexmap crate computes it; the wrappers below say how each
/// call changes it.
pub uninterp spec fn kvlm_fields_of(m: IndexMap<String, String>) -> Seq<(Seq<char>, Seq<char>)>;

/// Relies on IndexMap::new: the new map holds nothing.
#[verifier::external_body]
fn imap_new() -> (r: IndexMap<String, String>)
    ensures
        kvlm_fields_of(r) == Seq::<(Seq<char>, Seq<char>)>::empty(),
{
    IndexMap::new()
}

/// Relies on IndexMap::insert: an existing key keeps its place in the
/// order and its value is replaced; a new key is appended at the end.
#[verifier::external_body]
fn imap_insert(m: &mut IndexMap<String, String>, k: String, v: String)
    ensures
        kv_unique(kvlm_fields_of(*old(m))) ==> kvlm_fields_of(*final(m)) == kv_upsert(
            kvlm_fields_of(*old(m)),
            k@,
            v@,
        ),
{
    m.insert(k, v);
}

/// Relies on IndexMap::get: it returns the value stored under an
/// equivalent key, if one is held.
#[verifier::external_body]
fn imap_get<'a>(m: &'a IndexMap<String, String>, k: &str) -> (r: Option<&'a String>)
    ensures
        kv_unique(kvlm_fields_of(*m)) ==> match r {
            Some(v) => kv_has(kvlm_fields_of(*m), k@) && v@ == kv_get(kvlm_fields_of(*m), k@),
            None => !kv_has(kvlm_fields_of(*m), k@),
        },
{
    m.get(k)
}

/// Relies on IndexMap::iter: it yields the pairs in storage order; each
/// pair is cloned into a plain vector.
#[verifier::external_body]
fn imap_items(m: &IndexMap<String, String>) -> (r: Vec<(String, String)>)
    ensures
        r@.map_values(|p: (String, String)| (p.0@, p.1@)) == kvlm_fields_of(*m),
{
    m.iter().map(|(k, v)| (k.clone(), v.clone())).collect()
}

/// Relies on IndexMap::clone: the clone holds the same pairs in the same
/// order.
#[verifier::external_body]
fn imap_clone(m: &IndexMap<String, String>) -> (r: IndexMap<String, String>)
    ensures
        kvlm_fields_of(r) == kvlm_fields_of(*m),
{
    m.clone()
}

/// A key-value-list message: insertion-ordered headers and a free-text
/// body.
pub struct Kvlm {
    pub fields: IndexMap<String, String>,
    pub message: String,
}

/// The mathematical shape of a key-value-list message.
#[verifier::ext_equal]
pub struct KvlmView {
    pub fields: Seq<(Seq<char>, Seq<char>)>,
    pub message: Seq<char>,
}

impl View for Kvlm {
    type V = KvlmView;

    open spec fn view(&self) -> KvlmView {
        KvlmView { fields: kvlm_fields_of(self.fields), message: self.message@ }
    }
}

impl Clone for Kvlm {
    fn clone(&self) -> (r: Self)
        ensures
            r@ == self@,
    {
        let r = Self { fields: imap_clone(&self.fields), message: self.message.clone() };
        proof {
            assert(r@ =~= self@);
        }
        r
    }
}

/// The view of a running current-key register.
pub open spec fn opt_view(c: Option<String>) -> Option<Seq<char>> {
    match c {
        Some(k) => Some(k@),
        None => None,
    }
}

/// The message text with one trailing line break removed, if any.
pub open spec fn msg_trim(m: Seq<char>) -> Seq<char> {
    if m.len() > 0 && m.last() == '\n' {
        m.drop_last()
    } else {
        m
    }
}

/// How one header line changes the fields: a line opening with a space
/// appends a continuation to the current key's value; otherwise the text
/// before the first space opens a header under that key; a line without a
/// space changes nothing.
pub open spec fn kvlm_line_fields(
    line: Seq<char>,
    fields: Seq<(Seq<char>, Seq<char>)>,
    current: Option<Seq<char>>,
) -> Seq<(Seq<char>, Seq<char>)> {
    if line.len() > 0 && line[0] == ' ' {
        match current {
            Some(k) => if kv_has(fields, k) {
                kv_upsert(fields, k, kv_get(fields, k) + seq!['\n'] + line.drop_first())
            } else {
                fields
            },
            None => fields,
        }
    } else {
        match find_char(line, ' ') {
            Some(sp) => kv_upsert(fields, line.take(sp), line.skip(sp + 1)),
            None => fields,
        }
    }
}

/// How one header line changes the current key.
pub open spec fn kvlm_line_current(line: Seq<char>, current: Option<Seq<char>>) -> Option<
    Seq<char>,
> {
    if line.len() > 0 && line[0] == ' ' {
        current
    } else {
        match find_char(line, ' ') {
            Some(sp) => Some(line.take(sp)),
            None => current,
        }
    }
}

/// Reading the text line by line: the first blank line ends the headers
/// and the rest is the message, with one trailing line break trimmed.
pub open spec fn kvlm_parse_headers(
    s: Seq<char>,
    fields: Seq<(Seq<char>, Seq<char>)>,
    current: Option<Seq<char>>,
) -> (Seq<(Seq<char>, Seq<char>)>, Seq<char>)
    decreases s.len(),
    via kvlm_parse_headers_decreases
{
    if s.len() == 0 {
        (fields, Seq::empty())
    } else {
        match find_char(s, '\n') {
            Some(i) => {
                let line = s.take(i);
                let rest = s.skip(i + 1);
                if line.len() == 0 {
                    (fields, msg_trim(rest))
                } else {
                    kvlm_parse_headers(
                        rest,
                        kvlm_line_fields(line, fields, current),
                        kvlm_line_current(line, current),
                    )
                }
            },
            None => {
                (kvlm_line_fields(s, fields, current), Seq::empty())
            },
        }
    }
}

#[via_fn]
proof fn kvlm_parse_headers_decreases(
    s: Seq<char>,
    fields: Seq<(Seq<char>, Seq<char>)>,
    current: Option<Seq<char>>,
) {
    lemma_find_char_bounds(s, '\n');
}

/// What parsing a whole text yields: the headers and the message.
pub open spec fn kvlm_parse(s: Seq<char>) -> (Seq<(Seq<char>, Seq<char>)>, Seq<char>) {
    kvlm_parse_headers(s, Seq::empty(), None)
}

/// A value with each embedded line break followed by one marker space.
pub open spec fn reindent(v: Seq<char>) -> Seq<char>
    decreases v.len(),
{
    if v.len() == 0 {
        Seq::empty()
    } else if v[0] == '\n' {
        seq!['\n', ' '] + reindent(v.drop_first())
    } else {
        seq![v[0]] + reindent(v.drop_first())
    }
}

/// The header block: each pair as key, space, re-indented value and a
/// line break, in order.
pub open spec fn serialize_fields(fields: Seq<(Seq<char>, Seq<char>)>) -> Seq<char>
    decreases fields.len(),
{
    if fields.len() == 0 {
        Seq::empty()
    } else {
        fields[0].0 + seq![' '] + reindent(fields[0].1) + seq!['\n'] + serialize_fields(
            fields.drop_first(),
        )
    }
}

/// The whole text: the header block, a blank line, the message verbatim.
pub open spec fn kvlm_serialize_spec(
    fields: Seq<(Seq<char>, Seq<char>)>,
    message: Seq<char>,
) -> Seq<char> {
    serialize_fields(fields) + seq!['\n'] + message
}

proof fn lemma_reindent_snoc(v: Seq<char>, c: char)
    ensures
        reindent(v.push(c)) == reindent(v) + (if c == '\n' {
            seq!['\n', ' ']
        } else {
            seq![c]
        }),
    decreases v.len(),
{
    let unit: Seq<char> = if c == '\n' {
        seq!['\n', ' ']
    } else {
        seq![c]
    };
    if v.len() == 0 {
        assert(v.push(c)[0] == c);
        assert(v.push(c).drop_first() =~= Seq::<char>::empty());
        assert(reindent(Seq::<char>::empty()) == Seq::<char>::empty());
        assert(reindent(v.push(c)) == unit + reindent(v.push(c).drop_first()));
        assert(reindent(v.push(c)) =~= reindent(v) + unit);
    } else {
        assert(v.push(c)[0] == v[0]);
        assert(v.push(c).drop_first() =~= v.drop_first().push(c));
        lemma_reindent_snoc(v.drop_first(), c);
        let head: Seq<char> = if v[0] == '\n' {
            seq!['\n', ' ']
        } else {
            seq![v[0]]
        };
        assert(reindent(v.push(c)) == head + reindent(v.drop_first().push(c)));
        assert(reindent(v) == head + reindent(v.drop_first()));
        assert(head + (reindent(v.drop_first()) + unit) =~= (head + reindent(v.drop_first()))
            + unit);
    }
}

proof fn lemma_serialize_fields_snoc(fields: Seq<(Seq<char>, Seq<char>)>, p: (Seq<char>, Seq<char>))
    ensures
        serialize_fields(fields.push(p)) == serialize_fields(fields) + (p.0 + seq![' '] + reindent(
            p.1,
        ) + seq!['\n']),
    decreases fields.len(),
{
    if fields.len() == 0 {
        assert(fields.push(p)[0] == p);
        assert(fields.push(p).drop_first() =~= Seq::<(Seq<char>, Seq<char>)>::empty());
        assert(serialize_fields(Seq::<(Seq<char>, Seq<char>)>::empty()) == Seq::<char>::empty());
        assert(serialize_fields(fields.push(p)) == p.0 + seq![' '] + reindent(p.1) + seq!['\n']
            + serialize_fields(fields.push(p).drop_first()));
        assert(serialize_fields(fields.push(p)) =~= serialize_fields(fields) + (p.0 + seq![' ']
            + reindent(p.1) + seq!['\n']));
    } else {
        assert(fields.push(p)[0] == fields[0]);
        assert(fields.push(p).drop_first() =~= fields.drop_first().push(p));
        lemma_serialize_fields_snoc(fields.drop_first(), p);
        let head = fields[0].0 + seq![' '] + reindent(fields[0].1) + seq!['\n'];
        let unit = p.0 + seq![' '] + reindent(p.1) + seq!['\n'];
        assert(serialize_fields(fields.push(p)) == head + serialize_fields(
            fields.drop_first().push(p),
        ));
        assert(serialize_fields(fields) == head + serialize_fields(fields.drop_first()));
        assert(head + (serialize_fields(fields.drop_first()) + unit) =~= (head + serialize_fields(
            fields.drop_first(),
        )) + unit);
    }
}

impl Kvlm {
    /// A message with no headers and an empty body.
    pub fn new() -> (r: Self)
        ensures
            r@.fields == Seq::<(Seq<char>, Seq<char>)>::empty(),
            r@.message == Seq::<char>::empty(),
            kv_unique(r@.fields),
    {
        Self { fields: imap_new(), message: String::new() }
    }

    /// The value stored under a header key.
    pub fn get<'a>(&'a self, key: &str) -> (r: Option<&'a String>)
        requires
            kv_unique(self@.fields),
        ensures
            match r {
                Some(v) => kv_has(self@.fields, key@) && v@ == kv_get(self@.fields, key@),
                None => !kv_has(self@.fields, key@),
            },
    {
        imap_get(&self.fields, key)
    }

    /// Reads a key-value-list message from its text: headers line by line
    /// until the first blank line, then the message.
    #[verifier::loop_isolation(false)]
    #[verifier::rlimit(60)]
    pub fn parse(data: &str) -> (r: Kvlm)
        ensures
            r@.fields == kvlm_parse(data@).0,
            r@.message == kvlm_parse(data@).1,
            kv_unique(r@.fields),
    {
        let n = data.unicode_len();
        let mut fields = imap_new();
        let mut current: Option<String> = None;
        let mut pos: usize = 0;
        proof {
            assert(data@.skip(0) =~= data@);
        }
        loop
            invariant
                pos <= n,
                kv_unique(kvlm_fields_of(fields)),
                kvlm_parse(data@) == kvlm_parse_headers(
                    data@.skip(pos as int),
                    kvlm_fields_of(fields),
                    opt_view(current),
                ),
            decreases n - pos,
        {
            let ghost suffix = data@.skip(pos as int);
            if pos == n {
                assert(suffix.len() == 0);
                return Kvlm { fields, message: String::new() };
            }
            let (line_end, rest_start, had_nl): (usize, usize, bool) = match scan_char(
                data,
                pos,
                '\n',
            ) {
                Some(i) => (i, i + 1, true),
                None => (n, n, false),
            };
            proof {
                if had_nl {
                    assert(suffix[line_end - pos as int] == '\n');
                    assert forall|j: int| 0 <= j < line_end - pos as int implies suffix[j] != '\n'
                    by {
                        assert(suffix[j] == data@[pos + j]);
                    }
                    lemma_find_char_some(suffix, '\n', line_end - pos as int);
                } else {
                    assert forall|j: int| 0 <= j < suffix.len() implies suffix[j] != '\n' by {
                        assert(suffix[j] == data@[pos + j]);
                    }
                    lemma_find_char_none(suffix, '\n');
                }
            }
            let ghost line = data@.subrange(pos as int, line_end as int);
            proof {
                assert(line =~= suffix.take(line_end - pos as int));
            }
            if line_end == pos {
                // first blank line: the rest is the message
                assert(had_nl);
                let mut msg_end = n;
                if rest_start < n && data.get_char(n - 1) == '\n' {
                    msg_end = n - 1;
                }
                let message = data.substring_char(rest_start, msg_end).to_owned();
                proof {
                    let rest = data@.skip(rest_start as int);
                    assert(rest =~= suffix.skip(line_end - pos as int + 1));
                    if rest.len() > 0 && rest.last() == '\n' {
                        assert(rest.last() == data@[n - 1]);
                        assert(message@ =~= msg_trim(rest));
                    } else {
                        if rest_start < n {
                            assert(rest.last() == data@[n - 1]);
                        }
                        assert(message@ =~= msg_trim(rest));
                    }
                }
                return Kvlm { fields, message };
            }
            // the line is not empty: a header or a continuation
            let ghost f0 = kvlm_fields_of(fields);
            let ghost c0 = opt_view(current);
            let first = data.get_char(pos);
            assert(first == line[0]);
            if first == ' ' {
                let appended: Option<(String, String)> = match &current {
                    None => None,
                    Some(k) => {
                        match imap_get(&fields, k.as_str()) {
                            None => None,
                            Some(v) => {
                                let mut nv = v.clone();
                                push_char(&mut nv, '\n');
                                nv.append(data.substring_char(pos + 1, line_end));
                                Some((k.clone(), nv))
                            },
                        }
                    },
                };
                match appended {
                    Some((k, nv)) => {
                        proof {
                            assert(data@.subrange(pos + 1, line_end as int) =~= line.drop_first());
                            assert(nv@ == kv_get(f0, k@) + seq!['\n'] + line.drop_first());
                            lemma_kv_upsert(f0, k@, nv@);
                        }
                        imap_insert(&mut fields, k, nv);
                        assert(kvlm_fields_of(fields) == kvlm_line_fields(line, f0, c0));
                    },
                    None => {
                        assert(kvlm_fields_of(fields) == kvlm_line_fields(line, f0, c0));
                    },
                }
                assert(opt_view(current) == kvlm_line_current(line, c0));
            } else {
                let sp = scan_char(data, pos, ' ');
                let mut header: Option<(String, String)> = None;
                match sp {
                    Some(spi) => {
                        if spi < line_end {
                            proof {
                                assert(line[spi - pos as int] == ' ');
                                assert forall|j: int| 0 <= j < spi - pos as int implies line[j]
                                    != ' ' by {
                                    assert(line[j] == data@[pos + j]);
                                }
                                lemma_find_char_some(line, ' ', spi - pos as int);
                            }
                            let key = data.substring_char(pos, spi).to_owned();
                            let value = data.substring_char(spi + 1, line_end).to_owned();
                            proof {
                                assert(key@ =~= line.take(spi - pos as int));
                                assert(value@ =~= line.skip(spi - pos as int + 1));
                            }
                            header = Some((key, value));
                        } else {
                            proof {
                                assert forall|j: int| 0 <= j < line.len() implies line[j] != ' '
                                by {
                                    assert(line[j] == data@[pos + j]);
                                }
                                lemma_find_char_none(line, ' ');
                            }
                        }
                    },
                    None => {
                        proof {
                            assert forall|j: int| 0 <= j < line.len() implies line[j] != ' ' by {
                                assert(line[j] == data@[pos + j]);
                            }
                            lemma_find_char_none(line, ' ');
                        }
                    },
                }
                match header {
                    Some((key, value)) => {
                        proof {
                            lemma_kv_upsert(f0, key@, value@);
                        }
                        let k2 = key.clone();
                        imap_insert(&mut fields, key, value);
                        current = Some(k2);
                        assert(kvlm_fields_of(fields) == kvlm_line_fields(line, f0, c0));
                        assert(opt_view(current) == kvlm_line_current(line, c0));
                    },
                    None => {
                        assert(kvlm_fields_of(fields) == kvlm_line_fields(line, f0, c0));
                        assert(opt_view(current) == kvlm_line_current(line, c0));
                    },
                }
            }
            proof {
                if had_nl {
                    assert(data@.skip(rest_start as int) =~= suffix.skip(line_end - pos as int
                        + 1));
                } else {
                    assert(line =~= suffix);
                    assert(data@.skip(rest_start as int).len() == 0);
                }
            }
            pos = rest_start;
        }
    }
}


impl Default for Kvlm {
    /// The empty message.
    fn default() -> (r: Self)
        ensures
            r@.fields == Seq::<(Seq<char>, Seq<char>)>::empty(),
            r@.message == Seq::<char>::empty(),
    {
        Kvlm::new()
    }
}

impl Kvlm {
    /// Writes a key-value-list message as text: each header in held order
    /// with embedded line breaks re-indented, a blank line, the message
    /// verbatim.
    #[verifier::loop_isolation(false)]
    pub fn serialize(&self) -> (r: String)
        ensures
            r@ == kvlm_serialize_spec(self@.fields, self@.message),
    {
        let items = imap_items(&self.fields);
        let ghost fv = self@.fields;
        let mut out = String::new();
        let mut i: usize = 0;
        proof {
            assert(fv.take(0) =~= Seq::<(Seq<char>, Seq<char>)>::empty());
            assert(out@ =~= serialize_fields(fv.take(0)));
        }
        while i < items.len()
            invariant
                i <= items@.len(),
                out@ == serialize_fields(fv.take(i as int)),
            decreases items@.len() - i,
        {
            let ghost fvi = fv[i as int];
            proof {
                assert(fvi == (items@[i as int].0@, items@[i as int].1@));
            }
            out.append(items[i].0.as_str());
            push_char(&mut out, ' ');
            let ghost pre = out@;
            let vn = items[i].1.as_str().unicode_len();
            let mut j: usize = 0;
            proof {
                assert(items@[i as int].1@.take(0) =~= Seq::<char>::empty());
                assert(out@ =~= pre + reindent(items@[i as int].1@.take(0)));
            }
            while j < vn
                invariant
                    j <= vn,
                    i < items@.len(),
                    vn == items@[i as int].1@.len(),
                    out@ == pre + reindent(items@[i as int].1@.take(j as int)),
                decreases vn - j,
            {
                let c = items[i].1.as_str().get_char(j);
                push_char(&mut out, c);
                if c == '\n' {
                    push_char(&mut out, ' ');
                }
                proof {
                    let v = items@[i as int].1@;
                    assert(v.take(j + 1) =~= v.take(j as int).push(v[j as int]));
                    lemma_reindent_snoc(v.take(j as int), v[j as int]);
                    assert(out@ =~= pre + reindent(v.take(j + 1)));
                }
                j += 1;
            }
            push_char(&mut out, '\n');
            proof {
                let v = items@[i as int].1@;
                assert(v.take(vn as int) =~= v);
                assert(fv.take(i + 1) =~= fv.take(i as int).push(fvi));
                lemma_serialize_fields_snoc(fv.take(i as int), fvi);
                assert(out@ =~= serialize_fields(fv.take(i + 1)));
            }
            i += 1;
        }
        push_char(&mut out, '\n');
        out.append(self.message.as_str());
        proof {
            assert(fv.take(items@.len() as int) =~= fv);
            assert(out@ =~= kvlm_serialize_spec(self@.fields, self@.message));
        }
        out
    }
}


/// A header key the text form can carry: non-empty, without a space or a
/// line break.
pub open spec fn kvlm_key_wf(k: Seq<char>) -> bool {
    k.len() > 0 && (forall|j: int| 0 <= j < k.len() ==> k[j] != ' ' && k[j] != '\n')
}

/// Re-indenting text without line breaks changes nothing.
proof fn lemma_reindent_no_nl(v: Seq<char>)
    requires
        forall|j: int| 0 <= j < v.len() ==> v[j] != '\n',
    ensures
        reindent(v) == v,
    decreases v.len(),
{
    if v.len() > 0 {
        assert forall|j: int| 0 <= j < v.drop_first().len() implies v.drop_first()[j] != '\n' by {
            assert(v.drop_first()[j] == v[j + 1]);
        }
        lemma_reindent_no_nl(v.drop_first());
        assert(reindent(v) =~= v);
    }
}

/// Re-indenting splits at the first line break.
proof fn lemma_reindent_split(v1: Seq<char>, v2: Seq<char>)
    requires
        forall|j: int| 0 <= j < v1.len() ==> v1[j] != '\n',
    ensures
        reindent(v1 + seq!['\n'] + v2) == v1 + seq!['\n', ' '] + reindent(v2),
    decreases v1.len(),
{
    let v = v1 + seq!['\n'] + v2;
    if v1.len() == 0 {
        assert(v[0] == '\n');
        assert(v.drop_first() =~= v2);
        assert(reindent(v) =~= v1 + seq!['\n', ' '] + reindent(v2));
    } else {
        assert(v[0] == v1[0]);
        assert(v1[0] != '\n');
        assert forall|j: int| 0 <= j < v1.drop_first().len() implies v1.drop_first()[j] != '\n'
        by {
            assert(v1.drop_first()[j] == v1[j + 1]);
        }
        assert(v.drop_first() =~= v1.drop_first() + seq!['\n'] + v2);
        lemma_reindent_split(v1.drop_first(), v2);
        assert(reindent(v) =~= v1 + seq!['\n', ' '] + reindent(v2));
    }
}

/// A block of continuation lines carrying a value remainder extends the
/// current key's value by a line break and that remainder, and reading
/// goes on behind the block unchanged.
proof fn lemma_parse_cont(
    w: Seq<char>,
    u: Seq<char>,
    k: Seq<char>,
    acc: Seq<(Seq<char>, Seq<char>)>,
    tail: Seq<char>,
)
    requires
        kv_unique(acc),
        kv_has(acc, k),
        kv_get(acc, k) == u,
    ensures
        kvlm_parse_headers(seq![' '] + reindent(w) + seq!['\n'] + tail, acc, Some(k))
            == kvlm_parse_headers(tail, kv_upsert(acc, k, u + seq!['\n'] + w), Some(k)),
    decreases w.len(),
{
    lemma_find_char_first(w, '\n');
    match find_char(w, '\n') {
        None => {
            lemma_reindent_no_nl(w);
            let s = seq![' '] + reindent(w) + seq!['\n'] + tail;
            assert(s.len() == 2 + w.len() + tail.len());
            assert(s[1 + w.len() as int] == '\n');
            assert forall|j: int| 0 <= j < 1 + w.len() implies s[j] != '\n' by {
                if j > 0 {
                    assert(s[j] == w[j - 1]);
                }
            }
            lemma_find_char_some(s, '\n', 1 + w.len() as int);
            let line = s.take(1 + w.len() as int);
            assert(line[0] == ' ');
            assert(line.len() > 0);
            assert(line.drop_first() =~= w);
            assert(s.skip(1 + w.len() as int + 1) =~= tail);
            assert(kvlm_line_fields(line, acc, Some(k)) == kv_upsert(
                acc,
                k,
                u + seq!['\n'] + w,
            ));
            assert(kvlm_line_current(line, Some(k)) == Some(k));
        },
        Some(p) => {
            let w1 = w.take(p);
            let w2 = w.skip(p + 1);
            assert(w =~= w1 + seq!['\n'] + w2);
            lemma_reindent_split(w1, w2);
            let s = seq![' '] + reindent(w) + seq!['\n'] + tail;
            let s2 = seq![' '] + reindent(w2) + seq!['\n'] + tail;
            assert(s =~= seq![' '] + w1 + seq!['\n'] + s2);
            assert(s[1 + w1.len() as int] == '\n');
            assert forall|j: int| 0 <= j < 1 + w1.len() implies s[j] != '\n' by {
                if j > 0 {
                    assert(s[j] == w1[j - 1]);
                    assert(w1[j - 1] == w[j - 1]);
                }
            }
            lemma_find_char_some(s, '\n', 1 + w1.len() as int);
            let line = s.take(1 + w1.len() as int);
            assert(line[0] == ' ');
            assert(line.drop_first() =~= w1);
            assert(s.skip(1 + w1.len() as int + 1) =~= s2);
            let acc1 = kv_upsert(acc, k, u + seq!['\n'] + w1);
            assert(kvlm_line_fields(line, acc, Some(k)) == acc1);
            assert(kvlm_line_current(line, Some(k)) == Some(k));
            lemma_kv_upsert(acc, k, u + seq!['\n'] + w1);
            lemma_parse_cont(w2, u + seq!['\n'] + w1, k, acc1, tail);
            lemma_kv_upsert_twice(acc, k, u + seq!['\n'] + w1, (u + seq!['\n'] + w1) + seq![
                '\n',
            ] + w2);
            assert((u + seq!['\n'] + w1) + seq!['\n'] + w2 =~= u + seq!['\n'] + w);
        },
    }
}

/// Reading the emitted header block under any running state appends the
/// emitted pairs and yields the message unchanged.
#[verifier::rlimit(100)]
proof fn lemma_parse_serialized_fields(
    rest: Seq<(Seq<char>, Seq<char>)>,
    acc: Seq<(Seq<char>, Seq<char>)>,
    cur: Option<Seq<char>>,
    message: Seq<char>,
)
    requires
        kv_unique(acc + rest),
        forall|i: int| 0 <= i < rest.len() ==> kvlm_key_wf(#[trigger] rest[i].0),
        message.len() > 0 ==> message.last() != '\n',
    ensures
        kvlm_parse_headers(serialize_fields(rest) + seq!['\n'] + message, acc, cur) == (
            acc + rest,
            message,
        ),
    decreases rest.len(),
{
    assert(kv_unique(acc)) by {
        assert forall|i: int, j: int| 0 <= i < j < acc.len() implies acc[i].0 != acc[j].0 by {
            assert((acc + rest)[i] == acc[i] && (acc + rest)[j] == acc[j]);
        }
    }
    if rest.len() == 0 {
        let s = serialize_fields(rest) + seq!['\n'] + message;
        assert(s =~= seq!['\n'] + message);
        assert(s[0] == '\n');
        lemma_find_char_some(s, '\n', 0);
        assert(s.take(0).len() == 0);
        assert(s.skip(1) =~= message);
        assert(msg_trim(message) == message);
        assert(acc + rest =~= acc);
    } else {
        let k = rest[0].0;
        let v = rest[0].1;
        let tail = serialize_fields(rest.drop_first()) + seq!['\n'] + message;
        let s = serialize_fields(rest) + seq!['\n'] + message;
        assert(s =~= k + seq![' '] + reindent(v) + seq!['\n'] + tail);
        assert(kvlm_key_wf(k));
        assert(!kv_has(acc, k)) by {
            if kv_has(acc, k) {
                let i = choose|i: int| 0 <= i < acc.len() && acc[i].0 == k;
                assert((acc + rest)[i].0 == k);
                assert((acc + rest)[acc.len() as int].0 == k);
            }
        }
        lemma_find_char_first(v, '\n');
        match find_char(v, '\n') {
            None => {
                lemma_reindent_no_nl(v);
                assert(s[k.len() + 1 + v.len() as int] == '\n');
                assert forall|j: int| 0 <= j < k.len() + 1 + v.len() as int implies s[j] != '\n' by {
                    if j < k.len() {
                        assert(s[j] == k[j]);
                    } else if j == k.len() {
                        assert(s[j] == ' ');
                    } else {
                        assert(s[j] == v[j - k.len() - 1]);
                    }
                }
                lemma_find_char_some(s, '\n', k.len() + 1 + v.len() as int);
                let line = s.take(k.len() as int + 1 + v.len() as int);
                assert(line.len() > 0);
                assert(line[0] == k[0]);
                assert(line[0] != ' ');
                assert(line[k.len() as int] == ' ');
                assert forall|j: int| 0 <= j < k.len() implies line[j] != ' ' by {
                    assert(line[j] == k[j]);
                }
                lemma_find_char_some(line, ' ', k.len() as int);
                assert(line.take(k.len() as int) =~= k);
                assert(line.skip(k.len() as int + 1) =~= v);
                let acc1 = kv_upsert(acc, k, v);
                assert(acc1 == acc.push((k, v)));
                assert(kvlm_line_fields(line, acc, cur) == acc1);
                assert(kvlm_line_current(line, cur) == Some(k));
                assert(s.skip(k.len() as int + 1 + v.len() as int + 1) =~= tail);
                assert(acc1 + rest.drop_first() =~= acc + rest);
                assert forall|i: int| 0 <= i < rest.drop_first().len() implies kvlm_key_wf(
                    #[trigger] rest.drop_first()[i].0,
                ) by {
                    assert(rest.drop_first()[i] == rest[i + 1]);
                }
                lemma_parse_serialized_fields(rest.drop_first(), acc1, Some(k), message);
            },
            Some(p) => {
                let v1 = v.take(p);
                let v2 = v.skip(p + 1);
                assert(v =~= v1 + seq!['\n'] + v2);
                lemma_reindent_split(v1, v2);
                let cont = seq![' '] + reindent(v2) + seq!['\n'] + tail;
                assert(s =~= k + seq![' '] + v1 + seq!['\n'] + cont);
                assert(s[k.len() + 1 + v1.len() as int] == '\n');
                assert forall|j: int| 0 <= j < k.len() + 1 + v1.len() as int implies s[j] != '\n' by {
                    if j < k.len() {
                        assert(s[j] == k[j]);
                    } else if j == k.len() {
                        assert(s[j] == ' ');
                    } else {
                        assert(s[j] == v1[j - k.len() - 1]);
                        assert(v1[j - k.len() - 1] == v[j - k.len() - 1]);
                    }
                }
                lemma_find_char_some(s, '\n', k.len() + 1 + v1.len() as int);
                let line = s.take(k.len() as int + 1 + v1.len() as int);
                assert(line.len() > 0);
                assert(line[0] == k[0]);
                assert(line[0] != ' ');
                assert(line[k.len() as int] == ' ');
                assert forall|j: int| 0 <= j < k.len() implies line[j] != ' ' by {
                    assert(line[j] == k[j]);
                }
                lemma_find_char_some(line, ' ', k.len() as int);
                assert(line.take(k.len() as int) =~= k);
                assert(line.skip(k.len() as int + 1) =~= v1);
                let acc1 = kv_upsert(acc, k, v1);
                assert(acc1 == acc.push((k, v1)));
                assert(kvlm_line_fields(line, acc, cur) == acc1);
                assert(kvlm_line_current(line, cur) == Some(k));
                assert(s.skip(k.len() as int + 1 + v1.len() as int + 1) =~= cont);
                lemma_kv_upsert(acc, k, v1);
                lemma_parse_cont(v2, v1, k, acc1, tail);
                lemma_kv_upsert_twice(acc, k, v1, v1 + seq!['\n'] + v2);
                let acc2 = kv_upsert(acc, k, v1 + seq!['\n'] + v2);
                assert(v1 + seq!['\n'] + v2 =~= v);
                assert(acc2 == acc.push((k, v)));
                assert(acc2 + rest.drop_first() =~= acc + rest);
                assert forall|i: int| 0 <= i < rest.drop_first().len() implies kvlm_key_wf(
                    #[trigger] rest.drop_first()[i].0,
                ) by {
                    assert(rest.drop_first()[i] == rest[i + 1]);
                }
                lemma_parse_serialized_fields(rest.drop_first(), acc2, Some(k), message);
            },
        }
    }
}

/// Writing a key-value-list message as text and reading it back yields
/// the same headers and the same message, for any message whose keys are
/// non-empty, hold neither space nor line break and are pairwise
/// distinct, and whose body does not end in a line break.
pub proof fn lemma_kvlm_round_trip(fields: Seq<(Seq<char>, Seq<char>)>, message: Seq<char>)
    requires
        kv_unique(fields),
        forall|i: int| 0 <= i < fields.len() ==> kvlm_key_wf(#[trigger] fields[i].0),
        message.len() > 0 ==> message.last() != '\n',
    ensures
        kvlm_parse(kvlm_serialize_spec(fields, message)) == (fields, message),
{
    let acc = Seq::<(Seq<char>, Seq<char>)>::empty();
    assert(acc + fields =~= fields);
    lemma_parse_serialized_fields(fields, acc, None, message);
}

} // verus!
