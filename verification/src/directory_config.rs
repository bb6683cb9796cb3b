use vstd::prelude::*;

verus! {

use crate::assoc::{kv_has, kv_idx, kv_get, kv_unique, kv_upsert, kv_remove};
use crate::assoc::{lemma_kv_idx_unique, lemma_kv_upsert, lemma_kv_remove, assoc_position};

broadcast use
    vstd::std_specs::vec::axiom_vec_index_decreases,
    vstd::std_specs::vec::axiom_vec_decreases_to_view,
    vstd::seq::axiom_seq_index_decreases;

/// One configuration value, addressed by the name it is stored under.
#[derive(Debug, PartialEq)]
pub struct GaalDirectoryConfigSectionItem {
    value: String,
}

impl Clone for GaalDirectoryConfigSectionItem {
    fn clone(&self) -> (r: Self)
        ensures
            r@ == self@,
    {
        Self { value: self.value.clone() }
    }
}

impl View for GaalDirectoryConfigSectionItem {
    type V = Seq<char>;

    closed spec fn view(&self) -> Seq<char> {
        self.value@
    }
}

impl GaalDirectoryConfigSectionItem {
    pub fn new(value: &String) -> (r: Self)
        ensures
            r@ == value@,
    {
        Self { value: value.clone() }
    }

    pub fn get_value(&self) -> (r: &String)
        ensures
            r@ == self@,
    {
        &self.value
    }

    pub fn set_value(&mut self, value: &String)
        ensures
            final(self)@ == value@,
    {
        self.value = value.clone();
    }
}

/// The mathematical shape of a section: two association sequences, one of
/// items and one of child sections.
#[verifier::ext_equal]
pub struct SectionView {
    pub items: Seq<(Seq<char>, Seq<char>)>,
    pub sections: Seq<(Seq<char>, SectionView)>,
}

/// The section with no items and no children.
pub open spec fn empty_section_view() -> SectionView {
    SectionView { items: Seq::empty(), sections: Seq::empty() }
}

impl SectionView {
    /// Keys are unique among items and among children, recursively.
    pub open spec fn wf(self) -> bool
        decreases self,
    {
        &&& kv_unique(self.items)
        &&& kv_unique(self.sections)
        &&& forall|i: int| #![trigger self.sections[i]]
            0 <= i < self.sections.len() ==> self.sections[i].1.wf()
    }
}

/// The view of a path of segment slices.
pub open spec fn path_view(p: Seq<&str>) -> Seq<Seq<char>> {
    p.map_values(|s: &str| s@)
}

/// The section found by walking a path of child names; `None` once any hop
/// is absent, and for the empty path.
pub open spec fn sec_get_section(v: SectionView, path: Seq<Seq<char>>) -> Option<SectionView>
    decreases path.len(),
{
    if path.len() == 0 {
        None
    } else if kv_has(v.sections, path[0]) {
        if path.len() == 1 {
            Some(kv_get(v.sections, path[0]))
        } else {
            sec_get_section(kv_get(v.sections, path[0]), path.drop_first())
        }
    } else {
        None
    }
}

/// The item found by walking all path segments but the last through child
/// sections and looking the last up among the items there.
pub open spec fn sec_get_item(v: SectionView, path: Seq<Seq<char>>) -> Option<Seq<char>>
    recommends
        path.len() >= 1,
    decreases path.len(),
{
    if path.len() <= 1 {
        if path.len() == 1 && kv_has(v.items, path[0]) {
            Some(kv_get(v.items, path[0]))
        } else {
            None
        }
    } else if kv_has(v.sections, path[0]) {
        sec_get_item(kv_get(v.sections, path[0]), path.drop_first())
    } else {
        None
    }
}

/// Placing a section at a path: the last segment names the slot written;
/// earlier segments are walked, and a missing hop is synthesized when
/// `force` is set and ends the walk with no effect otherwise.
pub open spec fn sec_insert_section(
    v: SectionView,
    path: Seq<Seq<char>>,
    nv: SectionView,
    force: bool,
) -> SectionView
    recommends
        path.len() >= 1,
    decreases path.len(),
{
    if path.len() <= 1 {
        if path.len() == 1 {
            SectionView { sections: kv_upsert(v.sections, path[0], nv), ..v }
        } else {
            v
        }
    } else if kv_has(v.sections, path[0]) {
        SectionView {
            sections: kv_upsert(
                v.sections,
                path[0],
                sec_insert_section(kv_get(v.sections, path[0]), path.drop_first(), nv, force),
            ),
            ..v
        }
    } else if force {
        SectionView {
            sections: v.sections.push(
                (path[0], sec_insert_section(empty_section_view(), path.drop_first(), nv, force)),
            ),
            ..v
        }
    } else {
        v
    }
}

/// Placing an item at a path, with the same walking and synthesis rule.
pub open spec fn sec_insert_item(
    v: SectionView,
    path: Seq<Seq<char>>,
    value: Seq<char>,
    force: bool,
) -> SectionView
    recommends
        path.len() >= 1,
    decreases path.len(),
{
    if path.len() <= 1 {
        if path.len() == 1 {
            SectionView { items: kv_upsert(v.items, path[0], value), ..v }
        } else {
            v
        }
    } else if kv_has(v.sections, path[0]) {
        SectionView {
            sections: kv_upsert(
                v.sections,
                path[0],
                sec_insert_item(kv_get(v.sections, path[0]), path.drop_first(), value, force),
            ),
            ..v
        }
    } else if force {
        SectionView {
            sections: v.sections.push(
                (path[0], sec_insert_item(empty_section_view(), path.drop_first(), value, force)),
            ),
            ..v
        }
    } else {
        v
    }
}

/// Removing the section leaf a path names; a missing hop ends the walk with
/// no effect.
pub open spec fn sec_delete_section(v: SectionView, path: Seq<Seq<char>>) -> SectionView
    decreases path.len(),
{
    if path.len() == 0 {
        v
    } else if path.len() == 1 {
        SectionView { sections: kv_remove(v.sections, path[0]), ..v }
    } else if kv_has(v.sections, path[0]) {
        SectionView {
            sections: kv_upsert(
                v.sections,
                path[0],
                sec_delete_section(kv_get(v.sections, path[0]), path.drop_first()),
            ),
            ..v
        }
    } else {
        v
    }
}

/// Removing the item a path names; a missing hop ends the walk with no
/// effect.
pub open spec fn sec_delete_item(v: SectionView, path: Seq<Seq<char>>) -> SectionView
    recommends
        path.len() >= 1,
    decreases path.len(),
{
    if path.len() <= 1 {
        if path.len() == 1 {
            SectionView { items: kv_remove(v.items, path[0]), ..v }
        } else {
            v
        }
    } else if kv_has(v.sections, path[0]) {
        SectionView {
            sections: kv_upsert(
                v.sections,
                path[0],
                sec_delete_item(kv_get(v.sections, path[0]), path.drop_first()),
            ),
            ..v
        }
    } else {
        v
    }
}

/// One node of the configuration tree: named items and named child
/// sections, each name used once.
#[derive(Debug, PartialEq)]
pub struct GaalDirectoryConfigSection {
    items: Vec<(String, GaalDirectoryConfigSectionItem)>,
    sections: Vec<(String, GaalDirectoryConfigSection)>,
}

impl Clone for GaalDirectoryConfigSection {
    fn clone(&self) -> (r: Self)
        ensures
            r@ == self@,
        decreases *self,
    {
        let mut items: Vec<(String, GaalDirectoryConfigSectionItem)> = Vec::new();
        let mut i: usize = 0;
        while i < self.items.len()
            invariant
                i <= self.items@.len(),
                items@.len() == i,
                forall|j: int|
                    0 <= j < i ==> #[trigger] items@[j].0@ == self.items@[j].0@ && items@[j].1@
                        == self.items@[j].1@,
            decreases self.items@.len() - i,
        {
            let p = (self.items[i].0.clone(), self.items[i].1.clone());
            items.push(p);
            i += 1;
        }
        let mut sections: Vec<(String, GaalDirectoryConfigSection)> = Vec::new();
        let mut k: usize = 0;
        while k < self.sections.len()
            invariant
                k <= self.sections@.len(),
                sections@.len() == k,
                forall|j: int|
                    0 <= j < k ==> #[trigger] sections@[j].0@ == self.sections@[j].0@
                        && sections@[j].1@ == self.sections@[j].1@,
            decreases self.sections@.len() - k,
        {
            let p = (self.sections[k].0.clone(), self.sections[k].1.clone());
            sections.push(p);
            k += 1;
        }
        let r = Self { items, sections };
        proof {
            lemma_sections_view(self.sections@);
            lemma_sections_view(sections@);
            assert(r@.items =~= self@.items);
            assert(r@.sections =~= self@.sections);
            assert(r@ =~= self@);
        }
        r
    }
}

impl View for GaalDirectoryConfigSection {
    type V = SectionView;

    closed spec fn view(&self) -> SectionView {
        section_view(*self)
    }
}

/// The view of a section node: each association vector becomes an
/// association sequence, children recursively.
pub closed spec fn section_view(s: GaalDirectoryConfigSection) -> SectionView
    decreases s, 1int,
    via section_view_decreases
{
    SectionView {
        items: s.items@.map_values(|p: (String, GaalDirectoryConfigSectionItem)| (p.0@, p.1@)),
        sections: sections_view(s.sections@),
    }
}

#[via_fn]
proof fn section_view_decreases(s: GaalDirectoryConfigSection) {
    vstd::std_specs::vec::axiom_vec_decreases_to_view(s.sections);
    assert(decreases_to!(s => s.sections));
    assert(decreases_to!(s.sections => s.sections@));
}

/// The views of a sequence of named child sections, in order.
pub closed spec fn sections_view(vs: Seq<(String, GaalDirectoryConfigSection)>) -> Seq<
    (Seq<char>, SectionView),
>
    decreases vs, 0int,
    via sections_view_decreases
{
    if vs.len() == 0 {
        Seq::empty()
    } else {
        seq![(vs[0].0@, section_view(vs[0].1))] + sections_view(vs.drop_first())
    }
}

#[via_fn]
proof fn sections_view_decreases(vs: Seq<(String, GaalDirectoryConfigSection)>) {
    if vs.len() > 0 {
        vstd::seq::axiom_seq_index_decreases(vs, 0);
        assert(decreases_to!(vs => vs[0]));
        assert(decreases_to!(vs[0] => vs[0].1));
    }
}

/// Index-wise reading of `sections_view`.
pub broadcast proof fn lemma_sections_view(vs: Seq<(String, GaalDirectoryConfigSection)>)
    ensures
        (#[trigger] sections_view(vs)).len() == vs.len(),
        forall|i: int|
            0 <= i < vs.len() ==> #[trigger] sections_view(vs)[i] == (
                vs[i].0@,
                section_view(vs[i].1),
            ),
    decreases vs.len(),
{
    if vs.len() > 0 {
        lemma_sections_view(vs.drop_first());
        assert forall|i: int| 0 <= i < vs.len() implies #[trigger] sections_view(vs)[i] == (
            vs[i].0@,
            section_view(vs[i].1),
        ) by {
            if i > 0 {
                assert(sections_view(vs)[i] == sections_view(vs.drop_first())[i - 1]);
                assert(vs.drop_first()[i - 1] == vs[i]);
            }
        }
    }
}

impl GaalDirectoryConfigSection {
    pub fn new() -> (r: Self)
        ensures
            r@ == empty_section_view(),
            r@.wf(),
    {
        let r = Self { items: Vec::new(), sections: Vec::new() };
        proof {
            broadcast use lemma_sections_view;

            assert(r@.items =~= empty_section_view().items);
            assert(r@.sections =~= empty_section_view().sections);
            assert(r@ =~= empty_section_view());
        }
        r
    }

    /// The position of a child name in this node, tied to the view.
    fn child_position(&self, name: &str) -> (r: Option<usize>)
        requires
            kv_unique(self@.sections),
        ensures
            match r {
                Some(i) => 0 <= i < self@.sections.len() && self@.sections[i as int].0 == name@
                    && kv_has(self@.sections, name@) && kv_idx(self@.sections, name@) == i,
                None => !kv_has(self@.sections, name@),
            },
    {
        let r = assoc_position(&self.sections, name);
        proof {
            lemma_sections_view(self.sections@);
            match r {
                Some(i) => {
                    lemma_kv_idx_unique(self@.sections, name@, i as int);
                },
                None => {
                    if kv_has(self@.sections, name@) {
                        let j = kv_idx(self@.sections, name@);
                        assert(self.sections@[j].0@ == name@);
                    }
                },
            }
        }
        r
    }

    /// The position of an item name in this node, tied to the view.
    fn item_position(&self, name: &str) -> (r: Option<usize>)
        requires
            kv_unique(self@.items),
        ensures
            match r {
                Some(i) => 0 <= i < self@.items.len() && self@.items[i as int].0 == name@
                    && kv_has(self@.items, name@) && kv_idx(self@.items, name@) == i,
                None => !kv_has(self@.items, name@),
            },
    {
        let r = assoc_position(&self.items, name);
        proof {
            match r {
                Some(i) => {
                    lemma_kv_idx_unique(self@.items, name@, i as int);
                },
                None => {
                    if kv_has(self@.items, name@) {
                        let j = kv_idx(self@.items, name@);
                        assert(self.items@[j].0@ == name@);
                    }
                },
            }
        }
        r
    }

    fn get_section_from(&self, path: &[&str], from: usize) -> (r: Option<&Self>)
        requires
            self@.wf(),
            from < path@.len(),
        ensures
            match r {
                Some(s) => sec_get_section(self@, path_view(path@).skip(from as int))
                    == Some(s@) && s@.wf(),
                None => sec_get_section(self@, path_view(path@).skip(from as int)) is None,
            },
        decreases path@.len() - from,
    {
        broadcast use lemma_sections_view;

        let ghost rest = path_view(path@).skip(from as int);
        match self.child_position(path[from]) {
            None => {
                assert(!kv_has(self@.sections, rest[0]));
                None
            },
            Some(i) => {
                proof {
                    lemma_sections_view(self.sections@);
                }
                let child = &self.sections[i].1;
                assert(self@.sections[i as int].1.wf());
                assert(kv_get(self@.sections, rest[0]) == child@);
                assert(child@.wf());
                if from + 1 == path.len() {
                    assert(rest.len() == 1);
                    Some(child)
                } else {
                    let r = child.get_section_from(path, from + 1);
                    proof {
                        assert(path_view(path@).skip(from as int + 1) =~= rest.drop_first());
                    }
                    r
                }
            },
        }
    }

    pub fn get_section(&self, path: &[&str]) -> (r: Option<&Self>)
        requires
            self@.wf(),
        ensures
            match r {
                Some(s) => sec_get_section(self@, path_view(path@)) == Some(s@) && s@.wf(),
                None => sec_get_section(self@, path_view(path@)) is None,
            },
    {
        if path.len() == 0 {
            return None;
        }
        let r = self.get_section_from(path, 0);
        proof {
            assert(path_view(path@).skip(0) =~= path_view(path@));
        }
        r
    }

    fn get_item_from(&self, path: &[&str], from: usize) -> (r: Option<
        &GaalDirectoryConfigSectionItem,
    >)
        requires
            self@.wf(),
            from < path@.len(),
        ensures
            match r {
                Some(it) => sec_get_item(self@, path_view(path@).skip(from as int)) == Some(it@),
                None => sec_get_item(self@, path_view(path@).skip(from as int)) is None,
            },
        decreases path@.len() - from,
    {
        broadcast use lemma_sections_view;

        let ghost rest = path_view(path@).skip(from as int);
        if from == path.len() - 1 {
            assert(rest.len() == 1);
            match self.item_position(path[from]) {
                None => None,
                Some(i) => {
                    let it = &self.items[i].1;
                    assert(kv_get(self@.items, rest[0]) == it@);
                    Some(it)
                },
            }
        } else {
            match self.child_position(path[from]) {
                None => {
                    assert(!kv_has(self@.sections, rest[0]));
                    None
                },
                Some(i) => {
                    proof {
                        lemma_sections_view(self.sections@);
                    }
                    let child = &self.sections[i].1;
                    assert(self@.sections[i as int].1.wf());
                    assert(kv_get(self@.sections, rest[0]) == child@);
                    let r = child.get_item_from(path, from + 1);
                    proof {
                        assert(path_view(path@).skip(from as int + 1) =~= rest.drop_first());
                    }
                    r
                },
            }
        }
    }

    pub fn get_item(&self, path: &[&str]) -> (r: Option<&GaalDirectoryConfigSectionItem>)
        requires
            self@.wf(),
            path@.len() >= 1,
        ensures
            match r {
                Some(it) => sec_get_item(self@, path_view(path@)) == Some(it@),
                None => sec_get_item(self@, path_view(path@)) is None,
            },
    {
        let r = self.get_item_from(path, 0);
        proof {
            assert(path_view(path@).skip(0) =~= path_view(path@));
        }
        r
    }

    /// The items of this node, in held order, as plain pairs.
    pub fn items_list(&self) -> (r: Vec<(String, String)>)
        ensures
            r@.map_values(|p: (String, String)| (p.0@, p.1@)) == self@.items,
    {
        let mut out: Vec<(String, String)> = Vec::new();
        let mut i: usize = 0;
        while i < self.items.len()
            invariant
                i <= self.items@.len(),
                out@.len() == i,
                forall|j: int|
                    0 <= j < i ==> #[trigger] out@[j].0@ == self.items@[j].0@ && out@[j].1@
                        == self.items@[j].1@,
            decreases self.items@.len() - i,
        {
            let k = self.items[i].0.clone();
            let v = self.items[i].1.get_value().clone();
            out.push((k, v));
            i += 1;
        }
        proof {
            assert(out@.map_values(|p: (String, String)| (p.0@, p.1@)) =~= self@.items);
        }
        out
    }

    /// The names of the child sections of this node, in held order.
    pub fn section_names(&self) -> (r: Vec<String>)
        ensures
            r@.map_values(|s: String| s@) == self@.sections.map_values(
                |p: (Seq<char>, SectionView)| p.0,
            ),
    {
        let mut out: Vec<String> = Vec::new();
        let mut i: usize = 0;
        while i < self.sections.len()
            invariant
                i <= self.sections@.len(),
                out@.len() == i,
                forall|j: int| 0 <= j < i ==> #[trigger] out@[j]@ == self.sections@[j].0@,
            decreases self.sections@.len() - i,
        {
            let k = self.sections[i].0.clone();
            out.push(k);
            i += 1;
        }
        proof {
            lemma_sections_view(self.sections@);
            assert(out@.map_values(|s: String| s@) =~= self@.sections.map_values(
                |p: (Seq<char>, SectionView)| p.0,
            ));
        }
        out
    }

    fn insert_section_from(&mut self, path: &[&str], from: usize, section: Self, force: bool)
        requires
            old(self)@.wf(),
            from < path@.len(),
        ensures
            final(self)@ == sec_insert_section(
                old(self)@,
                path_view(path@).skip(from as int),
                section@,
                force,
            ),
        decreases path@.len() - from,
    {
        let ghost rest = path_view(path@).skip(from as int);
        if from == path.len() - 1 {
            assert(rest.len() == 1);
            match self.child_position(path[from]) {
                Some(i) => {
                    proof {
                        lemma_sections_view(self.sections@);
                    }
                    let pair = self.sections.remove(i);
                    self.sections.insert(i, (pair.0, section));
                    proof {
                        lemma_sections_view(old(self).sections@);
                        lemma_sections_view(self.sections@);
                        assert(self@.sections =~= kv_upsert(old(self)@.sections, rest[0], section@));
                        assert(self@ =~= sec_insert_section(old(self)@, rest, section@, force));
                    }
                },
                None => {
                    self.sections.push((path[from].to_owned(), section));
                    proof {
                        lemma_sections_view(old(self).sections@);
                        lemma_sections_view(self.sections@);
                        assert(self@.sections =~= kv_upsert(old(self)@.sections, rest[0], section@));
                        assert(self@ =~= sec_insert_section(old(self)@, rest, section@, force));
                    }
                },
            }
        } else {
            match self.child_position(path[from]) {
                Some(i) => {
                    proof {
                        lemma_sections_view(self.sections@);
                    }
                    let mut pair = self.sections.remove(i);
                    assert(pair.1@ == kv_get(old(self)@.sections, rest[0]));
                    assert(pair.1@.wf());
                    pair.1.insert_section_from(path, from + 1, section, force);
                    self.sections.insert(i, pair);
                    proof {
                        assert(path_view(path@).skip(from as int + 1) =~= rest.drop_first());
                        lemma_sections_view(old(self).sections@);
                        lemma_sections_view(self.sections@);
                        assert(self@.sections =~= kv_upsert(
                            old(self)@.sections,
                            rest[0],
                            sec_insert_section(
                                kv_get(old(self)@.sections, rest[0]),
                                rest.drop_first(),
                                section@,
                                force,
                            ),
                        ));
                        assert(self@ =~= sec_insert_section(old(self)@, rest, section@, force));
                    }
                },
                None => {
                    if force {
                        let mut child = Self::new();
                        child.insert_section_from(path, from + 1, section, force);
                        self.sections.push((path[from].to_owned(), child));
                        proof {
                            assert(path_view(path@).skip(from as int + 1) =~= rest.drop_first());
                            lemma_sections_view(old(self).sections@);
                            lemma_sections_view(self.sections@);
                            assert(self@.sections =~= old(self)@.sections.push(
                                (
                                    rest[0],
                                    sec_insert_section(
                                        empty_section_view(),
                                        rest.drop_first(),
                                        section@,
                                        force,
                                    ),
                                ),
                            ));
                            assert(self@ =~= sec_insert_section(old(self)@, rest, section@, force));
                        }
                    } else {
                        proof {
                            assert(self@ =~= sec_insert_section(old(self)@, rest, section@, force));
                        }
                    }
                },
            }
        }
    }

    pub fn insert_section(&mut self, path: &[&str], section: Self, force: bool)
        requires
            old(self)@.wf(),
        ensures
            final(self)@ == sec_insert_section(old(self)@, path_view(path@), section@, force),
    {
        if path.len() == 0 {
            proof {
                assert(self@ =~= sec_insert_section(old(self)@, path_view(path@), section@, force));
            }
            return ;
        }
        self.insert_section_from(path, 0, section, force);
        proof {
            assert(path_view(path@).skip(0) =~= path_view(path@));
        }
    }

    fn insert_item_from(
        &mut self,
        path: &[&str],
        from: usize,
        item: GaalDirectoryConfigSectionItem,
        force: bool,
    )
        requires
            old(self)@.wf(),
            from < path@.len(),
        ensures
            final(self)@ == sec_insert_item(
                old(self)@,
                path_view(path@).skip(from as int),
                item@,
                force,
            ),
        decreases path@.len() - from,
    {
        let ghost rest = path_view(path@).skip(from as int);
        if from == path.len() - 1 {
            assert(rest.len() == 1);
            match self.item_position(path[from]) {
                Some(i) => {
                    let pair = self.items.remove(i);
                    self.items.insert(i, (pair.0, item));
                    proof {
                        lemma_sections_view(old(self).sections@);
                        lemma_sections_view(self.sections@);
                        assert(self@.items =~= kv_upsert(old(self)@.items, rest[0], item@));
                        assert(self@ =~= sec_insert_item(old(self)@, rest, item@, force));
                    }
                },
                None => {
                    self.items.push((path[from].to_owned(), item));
                    proof {
                        lemma_sections_view(old(self).sections@);
                        lemma_sections_view(self.sections@);
                        assert(self@.items =~= kv_upsert(old(self)@.items, rest[0], item@));
                        assert(self@ =~= sec_insert_item(old(self)@, rest, item@, force));
                    }
                },
            }
        } else {
            match self.child_position(path[from]) {
                Some(i) => {
                    proof {
                        lemma_sections_view(self.sections@);
                    }
                    let mut pair = self.sections.remove(i);
                    assert(pair.1@ == kv_get(old(self)@.sections, rest[0]));
                    assert(pair.1@.wf());
                    pair.1.insert_item_from(path, from + 1, item, force);
                    self.sections.insert(i, pair);
                    proof {
                        assert(path_view(path@).skip(from as int + 1) =~= rest.drop_first());
                        lemma_sections_view(old(self).sections@);
                        lemma_sections_view(self.sections@);
                        assert(self@.sections =~= kv_upsert(
                            old(self)@.sections,
                            rest[0],
                            sec_insert_item(
                                kv_get(old(self)@.sections, rest[0]),
                                rest.drop_first(),
                                item@,
                                force,
                            ),
                        ));
                        assert(self@ =~= sec_insert_item(old(self)@, rest, item@, force));
                    }
                },
                None => {
                    if force {
                        let mut child = Self::new();
                        child.insert_item_from(path, from + 1, item, force);
                        self.sections.push((path[from].to_owned(), child));
                        proof {
                            assert(path_view(path@).skip(from as int + 1) =~= rest.drop_first());
                            lemma_sections_view(old(self).sections@);
                            lemma_sections_view(self.sections@);
                            assert(self@.sections =~= old(self)@.sections.push(
                                (
                                    rest[0],
                                    sec_insert_item(
                                        empty_section_view(),
                                        rest.drop_first(),
                                        item@,
                                        force,
                                    ),
                                ),
                            ));
                            assert(self@ =~= sec_insert_item(old(self)@, rest, item@, force));
                        }
                    } else {
                        proof {
                            assert(self@ =~= sec_insert_item(old(self)@, rest, item@, force));
                        }
                    }
                },
            }
        }
    }

    pub fn insert_item(&mut self, path: &[&str], item: GaalDirectoryConfigSectionItem, force: bool)
        requires
            old(self)@.wf(),
            path@.len() >= 1,
        ensures
            final(self)@ == sec_insert_item(old(self)@, path_view(path@), item@, force),
    {
        self.insert_item_from(path, 0, item, force);
        proof {
            assert(path_view(path@).skip(0) =~= path_view(path@));
        }
    }

    fn delete_section_from(&mut self, path: &[&str], from: usize)
        requires
            old(self)@.wf(),
            from < path@.len(),
        ensures
            final(self)@ == sec_delete_section(old(self)@, path_view(path@).skip(from as int)),
        decreases path@.len() - from,
    {
        let ghost rest = path_view(path@).skip(from as int);
        if from == path.len() - 1 {
            assert(rest.len() == 1);
            match self.child_position(path[from]) {
                Some(i) => {
                    proof {
                        lemma_sections_view(self.sections@);
                    }
                    self.sections.remove(i);
                    proof {
                        lemma_sections_view(old(self).sections@);
                        lemma_sections_view(self.sections@);
                        assert(self@.sections =~= kv_remove(old(self)@.sections, rest[0]));
                        assert(self@ =~= sec_delete_section(old(self)@, rest));
                    }
                },
                None => {
                    proof {
                        assert(self@.sections =~= kv_remove(old(self)@.sections, rest[0]));
                        assert(self@ =~= sec_delete_section(old(self)@, rest));
                    }
                },
            }
        } else {
            match self.child_position(path[from]) {
                Some(i) => {
                    proof {
                        lemma_sections_view(self.sections@);
                    }
                    let mut pair = self.sections.remove(i);
                    assert(pair.1@ == kv_get(old(self)@.sections, rest[0]));
                    assert(pair.1@.wf());
                    pair.1.delete_section_from(path, from + 1);
                    self.sections.insert(i, pair);
                    proof {
                        assert(path_view(path@).skip(from as int + 1) =~= rest.drop_first());
                        lemma_sections_view(old(self).sections@);
                        lemma_sections_view(self.sections@);
                        assert(self@.sections =~= kv_upsert(
                            old(self)@.sections,
                            rest[0],
                            sec_delete_section(
                                kv_get(old(self)@.sections, rest[0]),
                                rest.drop_first(),
                            ),
                        ));
                        assert(self@ =~= sec_delete_section(old(self)@, rest));
                    }
                },
                None => {
                    proof {
                        assert(self@ =~= sec_delete_section(old(self)@, rest));
                    }
                },
            }
        }
    }

    pub fn delete_section(&mut self, path: &[&str])
        requires
            old(self)@.wf(),
        ensures
            final(self)@ == sec_delete_section(old(self)@, path_view(path@)),
    {
        if path.len() == 0 {
            proof {
                assert(self@ =~= sec_delete_section(old(self)@, path_view(path@)));
            }
            return ;
        }
        self.delete_section_from(path, 0);
        proof {
            assert(path_view(path@).skip(0) =~= path_view(path@));
        }
    }

    fn delete_item_from(&mut self, path: &[&str], from: usize)
        requires
            old(self)@.wf(),
            from < path@.len(),
        ensures
            final(self)@ == sec_delete_item(old(self)@, path_view(path@).skip(from as int)),
        decreases path@.len() - from,
    {
        let ghost rest = path_view(path@).skip(from as int);
        if from == path.len() - 1 {
            assert(rest.len() == 1);
            match self.item_position(path[from]) {
                Some(i) => {
                    self.items.remove(i);
                    proof {
                        lemma_sections_view(old(self).sections@);
                        lemma_sections_view(self.sections@);
                        assert(self@.items =~= kv_remove(old(self)@.items, rest[0]));
                        assert(self@ =~= sec_delete_item(old(self)@, rest));
                    }
                },
                None => {
                    proof {
                        assert(self@.items =~= kv_remove(old(self)@.items, rest[0]));
                        assert(self@ =~= sec_delete_item(old(self)@, rest));
                    }
                },
            }
        } else {
            match self.child_position(path[from]) {
                Some(i) => {
                    proof {
                        lemma_sections_view(self.sections@);
                    }
                    let mut pair = self.sections.remove(i);
                    assert(pair.1@ == kv_get(old(self)@.sections, rest[0]));
                    assert(pair.1@.wf());
                    pair.1.delete_item_from(path, from + 1);
                    self.sections.insert(i, pair);
                    proof {
                        assert(path_view(path@).skip(from as int + 1) =~= rest.drop_first());
                        lemma_sections_view(old(self).sections@);
                        lemma_sections_view(self.sections@);
                        assert(self@.sections =~= kv_upsert(
                            old(self)@.sections,
                            rest[0],
                            sec_delete_item(kv_get(old(self)@.sections, rest[0]), rest.drop_first()),
                        ));
                        assert(self@ =~= sec_delete_item(old(self)@, rest));
                    }
                },
                None => {
                    proof {
                        assert(self@ =~= sec_delete_item(old(self)@, rest));
                    }
                },
            }
        }
    }

    pub fn delete_item(&mut self, path: &[&str])
        requires
            old(self)@.wf(),
            path@.len() >= 1,
        ensures
            final(self)@ == sec_delete_item(old(self)@, path_view(path@)),
    {
        self.delete_item_from(path, 0);
        proof {
            assert(path_view(path@).skip(0) =~= path_view(path@));
        }
    }
}


/// Writing a child section under one name keeps the tree well formed.
proof fn lemma_wf_sections_upsert(v: SectionView, k: Seq<char>, c: SectionView)
    requires
        v.wf(),
        c.wf(),
    ensures
        (SectionView { sections: kv_upsert(v.sections, k, c), ..v }).wf(),
{
    lemma_kv_upsert(v.sections, k, c);
    let t = kv_upsert(v.sections, k, c);
    if kv_has(v.sections, k) {
        let i = kv_idx(v.sections, k);
        assert forall|j: int| 0 <= j < t.len() implies #[trigger] t[j].1.wf() by {
            if j != i {
                assert(t[j] == v.sections[j]);
                assert(v.sections[j].1.wf());
            }
        }
    } else {
        assert forall|j: int| 0 <= j < t.len() implies #[trigger] t[j].1.wf() by {
            if j < v.sections.len() {
                assert(t[j] == v.sections[j]);
                assert(v.sections[j].1.wf());
            }
        }
    }
}

/// The empty section is well formed.
proof fn lemma_wf_empty()
    ensures
        empty_section_view().wf(),
{
}

/// Placing a well-formed section keeps the tree well formed.
pub proof fn lemma_sec_insert_section_wf(
    v: SectionView,
    path: Seq<Seq<char>>,
    nv: SectionView,
    force: bool,
)
    requires
        v.wf(),
        nv.wf(),
    ensures
        sec_insert_section(v, path, nv, force).wf(),
    decreases path.len(),
{
    if path.len() == 0 {
    } else if path.len() == 1 {
        lemma_wf_sections_upsert(v, path[0], nv);
    } else if kv_has(v.sections, path[0]) {
        let i = kv_idx(v.sections, path[0]);
        assert(v.sections[i].1.wf());
        lemma_sec_insert_section_wf(kv_get(v.sections, path[0]), path.drop_first(), nv, force);
        lemma_wf_sections_upsert(
            v,
            path[0],
            sec_insert_section(kv_get(v.sections, path[0]), path.drop_first(), nv, force),
        );
    } else if force {
        lemma_wf_empty();
        lemma_sec_insert_section_wf(empty_section_view(), path.drop_first(), nv, force);
        let c = sec_insert_section(empty_section_view(), path.drop_first(), nv, force);
        assert(kv_upsert(v.sections, path[0], c) == v.sections.push((path[0], c)));
        lemma_wf_sections_upsert(v, path[0], c);
        assert(sec_insert_section(v, path, nv, force) == (SectionView {
            sections: kv_upsert(v.sections, path[0], c),
            ..v
        }));
    }
}

/// Placing an item keeps the tree well formed.
pub proof fn lemma_sec_insert_item_wf(
    v: SectionView,
    path: Seq<Seq<char>>,
    value: Seq<char>,
    force: bool,
)
    requires
        v.wf(),
    ensures
        sec_insert_item(v, path, value, force).wf(),
    decreases path.len(),
{
    if path.len() == 0 {
    } else if path.len() == 1 {
        lemma_kv_upsert(v.items, path[0], value);
        let t = sec_insert_item(v, path, value, force);
        assert forall|j: int| 0 <= j < t.sections.len() implies #[trigger] t.sections[j].1.wf() by {
            assert(v.sections[j].1.wf());
        }
    } else if kv_has(v.sections, path[0]) {
        let i = kv_idx(v.sections, path[0]);
        assert(v.sections[i].1.wf());
        lemma_sec_insert_item_wf(kv_get(v.sections, path[0]), path.drop_first(), value, force);
        lemma_wf_sections_upsert(
            v,
            path[0],
            sec_insert_item(kv_get(v.sections, path[0]), path.drop_first(), value, force),
        );
    } else if force {
        lemma_wf_empty();
        lemma_sec_insert_item_wf(empty_section_view(), path.drop_first(), value, force);
        let c = sec_insert_item(empty_section_view(), path.drop_first(), value, force);
        assert(kv_upsert(v.sections, path[0], c) == v.sections.push((path[0], c)));
        lemma_wf_sections_upsert(v, path[0], c);
        assert(sec_insert_item(v, path, value, force) == (SectionView {
            sections: kv_upsert(v.sections, path[0], c),
            ..v
        }));
    }
}

/// Removing a section leaf keeps the tree well formed.
pub proof fn lemma_sec_delete_section_wf(v: SectionView, path: Seq<Seq<char>>)
    requires
        v.wf(),
    ensures
        sec_delete_section(v, path).wf(),
    decreases path.len(),
{
    if path.len() == 0 {
    } else if path.len() == 1 {
        lemma_kv_remove(v.sections, path[0]);
        let t = sec_delete_section(v, path);
        if kv_has(v.sections, path[0]) {
            let i = kv_idx(v.sections, path[0]);
            assert forall|j: int| 0 <= j < t.sections.len() implies #[trigger] t.sections[j].1.wf() by {
                let j2: int = if j < i {
                    j
                } else {
                    j + 1
                };
                assert(t.sections[j] == v.sections[j2]);
                assert(v.sections[j2].1.wf());
            }
        }
    } else if kv_has(v.sections, path[0]) {
        let i = kv_idx(v.sections, path[0]);
        assert(v.sections[i].1.wf());
        lemma_sec_delete_section_wf(kv_get(v.sections, path[0]), path.drop_first());
        lemma_wf_sections_upsert(
            v,
            path[0],
            sec_delete_section(kv_get(v.sections, path[0]), path.drop_first()),
        );
    }
}

/// Removing an item keeps the tree well formed.
pub proof fn lemma_sec_delete_item_wf(v: SectionView, path: Seq<Seq<char>>)
    requires
        v.wf(),
    ensures
        sec_delete_item(v, path).wf(),
    decreases path.len(),
{
    if path.len() == 0 {
    } else if path.len() == 1 {
        lemma_kv_remove(v.items, path[0]);
        let t = sec_delete_item(v, path);
        assert forall|j: int| 0 <= j < t.sections.len() implies #[trigger] t.sections[j].1.wf() by {
            assert(v.sections[j].1.wf());
        }
    } else if kv_has(v.sections, path[0]) {
        let i = kv_idx(v.sections, path[0]);
        assert(v.sections[i].1.wf());
        lemma_sec_delete_item_wf(kv_get(v.sections, path[0]), path.drop_first());
        lemma_wf_sections_upsert(
            v,
            path[0],
            sec_delete_item(kv_get(v.sections, path[0]), path.drop_first()),
        );
    }
}

/// After a forced item insertion the same path yields the inserted value.
pub proof fn lemma_sec_insert_item_then_get(v: SectionView, path: Seq<Seq<char>>, value: Seq<char>)
    requires
        v.wf(),
        path.len() >= 1,
    ensures
        sec_get_item(sec_insert_item(v, path, value, true), path) == Some(value),
    decreases path.len(),
{
    if path.len() == 1 {
        lemma_kv_upsert(v.items, path[0], value);
    } else if kv_has(v.sections, path[0]) {
        let child = kv_get(v.sections, path[0]);
        let i = kv_idx(v.sections, path[0]);
        assert(v.sections[i].1.wf());
        lemma_sec_insert_item_then_get(child, path.drop_first(), value);
        lemma_kv_upsert(v.sections, path[0], sec_insert_item(child, path.drop_first(), value, true));
    } else {
        lemma_wf_empty();
        lemma_sec_insert_item_then_get(empty_section_view(), path.drop_first(), value);
        let c = sec_insert_item(empty_section_view(), path.drop_first(), value, true);
        assert(kv_upsert(v.sections, path[0], c) == v.sections.push((path[0], c)));
        lemma_kv_upsert(v.sections, path[0], c);
        assert(sec_insert_item(v, path, value, true) == (SectionView {
            sections: kv_upsert(v.sections, path[0], c),
            ..v
        }));
    }
}

/// After an item removal the same path yields nothing.
pub proof fn lemma_sec_delete_item_then_get(v: SectionView, path: Seq<Seq<char>>)
    requires
        v.wf(),
        path.len() >= 1,
    ensures
        sec_get_item(sec_delete_item(v, path), path) is None,
    decreases path.len(),
{
    if path.len() == 1 {
        lemma_kv_remove(v.items, path[0]);
    } else if kv_has(v.sections, path[0]) {
        let child = kv_get(v.sections, path[0]);
        let i = kv_idx(v.sections, path[0]);
        assert(v.sections[i].1.wf());
        lemma_sec_delete_item_then_get(child, path.drop_first());
        lemma_kv_upsert(v.sections, path[0], sec_delete_item(child, path.drop_first()));
    }
}


/// The mathematical shape of a whole configuration: its name and the root
/// node holding the top-level sections.
#[verifier::ext_equal]
pub struct ConfigView {
    pub id: Seq<char>,
    pub root: SectionView,
}

impl ConfigView {
    pub open spec fn wf(self) -> bool {
        self.root.wf()
    }
}

/// The configuration created by `Default::default`: three core items,
/// forced into place under the name `gal_config`.
pub open spec fn default_config_view() -> ConfigView {
    ConfigView {
        id: "gal_config"@,
        root: sec_insert_item(
            sec_insert_item(
                sec_insert_item(
                    empty_section_view(),
                    seq!["core"@, "repositoryformatversion"@],
                    "0"@,
                    true,
                ),
                seq!["core"@, "filemode"@],
                "false"@,
                true,
            ),
            seq!["core"@, "bare"@],
            "false"@,
            true,
        ),
    }
}

/// A named configuration: a root of top-level sections with the same
/// operations one level up.  Item paths must name a section and an item,
/// so they carry at least two segments.
#[derive(Debug, PartialEq)]
pub struct GaalDirectoryConfig {
    id: String,
    root: GaalDirectoryConfigSection,
}

impl View for GaalDirectoryConfig {
    type V = ConfigView;

    closed spec fn view(&self) -> ConfigView {
        ConfigView { id: self.id@, root: self.root@ }
    }
}

impl Clone for GaalDirectoryConfig {
    fn clone(&self) -> (r: Self)
        ensures
            r@ == self@,
    {
        Self { id: self.id.clone(), root: self.root.clone() }
    }
}

impl GaalDirectoryConfig {
    pub fn new(id: &str) -> (r: Self)
        ensures
            r@.id == id@,
            r@.root == empty_section_view(),
            r@.wf(),
    {
        Self { id: id.to_owned(), root: GaalDirectoryConfigSection::new() }
    }

    /// The name this configuration was created under.
    pub fn id(&self) -> (r: &String)
        ensures
            r@ == self@.id,
    {
        &self.id
    }

    pub fn get_section(&self, path: &[&str]) -> (r: Option<&GaalDirectoryConfigSection>)
        requires
            self@.wf(),
        ensures
            match r {
                Some(s) => sec_get_section(self@.root, path_view(path@)) == Some(s@) && s@.wf(),
                None => sec_get_section(self@.root, path_view(path@)) is None,
            },
    {
        self.root.get_section(path)
    }

    pub fn insert_section(&mut self, path: &[&str], section: GaalDirectoryConfigSection, force: bool)
        requires
            old(self)@.wf(),
        ensures
            final(self)@.id == old(self)@.id,
            final(self)@.root == sec_insert_section(
                old(self)@.root,
                path_view(path@),
                section@,
                force,
            ),
    {
        self.root.insert_section(path, section, force);
    }

    pub fn delete_section(&mut self, path: &[&str])
        requires
            old(self)@.wf(),
        ensures
            final(self)@.id == old(self)@.id,
            final(self)@.root == sec_delete_section(old(self)@.root, path_view(path@)),
    {
        self.root.delete_section(path);
    }

    pub fn get_item(&self, path: &[&str]) -> (r: Option<&GaalDirectoryConfigSectionItem>)
        requires
            self@.wf(),
            path@.len() >= 2,
        ensures
            match r {
                Some(it) => sec_get_item(self@.root, path_view(path@)) == Some(it@),
                None => sec_get_item(self@.root, path_view(path@)) is None,
            },
    {
        self.root.get_item(path)
    }

    pub fn insert_item(&mut self, path: &[&str], item: GaalDirectoryConfigSectionItem, force: bool)
        requires
            old(self)@.wf(),
            path@.len() >= 2,
        ensures
            final(self)@.id == old(self)@.id,
            final(self)@.root == sec_insert_item(old(self)@.root, path_view(path@), item@, force),
    {
        self.root.insert_item(path, item, force);
    }

    pub fn delete_item(&mut self, path: &[&str])
        requires
            old(self)@.wf(),
            path@.len() >= 2,
        ensures
            final(self)@.id == old(self)@.id,
            final(self)@.root == sec_delete_item(old(self)@.root, path_view(path@)),
    {
        self.root.delete_item(path);
    }
}

impl GaalDirectoryConfig {
    /// The names of the top-level sections, in held order.
    pub fn section_names(&self) -> (r: Vec<String>)
        ensures
            r@.map_values(|s: String| s@) == self@.root.sections.map_values(
                |p: (Seq<char>, SectionView)| p.0,
            ),
    {
        self.root.section_names()
    }
}

impl Default for GaalDirectoryConfig {
    /// The repository configuration written on first creation.
    fn default() -> (r: Self)
        ensures
            r@ == default_config_view(),
            r@.wf(),
    {
        let mut c = Self::new("gal_config");
        let fmt_path: [&str; 2] = ["core", "repositoryformatversion"];
        let fmt_value: String = "0".to_owned();
        c.insert_item(&fmt_path, GaalDirectoryConfigSectionItem::new(&fmt_value), true);
        proof {
            assert(path_view(fmt_path@) =~= seq!["core"@, "repositoryformatversion"@]);
            lemma_wf_empty();
            lemma_sec_insert_item_wf(
                empty_section_view(),
                seq!["core"@, "repositoryformatversion"@],
                "0"@,
                true,
            );
        }
        let mode_path: [&str; 2] = ["core", "filemode"];
        let mode_value: String = "false".to_owned();
        c.insert_item(&mode_path, GaalDirectoryConfigSectionItem::new(&mode_value), true);
        proof {
            assert(path_view(mode_path@) =~= seq!["core"@, "filemode"@]);
            lemma_sec_insert_item_wf(
                sec_insert_item(
                    empty_section_view(),
                    seq!["core"@, "repositoryformatversion"@],
                    "0"@,
                    true,
                ),
                seq!["core"@, "filemode"@],
                "false"@,
                true,
            );
        }
        let bare_path: [&str; 2] = ["core", "bare"];
        let bare_value: String = "false".to_owned();
        c.insert_item(&bare_path, GaalDirectoryConfigSectionItem::new(&bare_value), true);
        proof {
            assert(path_view(bare_path@) =~= seq!["core"@, "bare"@]);
            lemma_sec_insert_item_wf(
                sec_insert_item(
                    sec_insert_item(
                        empty_section_view(),
                        seq!["core"@, "repositoryformatversion"@],
                        "0"@,
                        true,
                    ),
                    seq!["core"@, "filemode"@],
                    "false"@,
                    true,
                ),
                seq!["core"@, "bare"@],
                "false"@,
                true,
            );
            assert(c@ =~= default_config_view());
        }
        c
    }
}


/// The interface of a configuration value.  The impl on
/// `GaalDirectoryConfigSectionItem` is the verified one.
pub trait GaalDirectoryConfigSectionItemActions: View<V = Seq<char>> + Sized {
    fn new(value: &String) -> (r: Self)
        ensures
            r@ == value@,
    ;

    fn get_value(&self) -> (r: &String)
        ensures
            r@ == self@,
    ;

    fn set_value(&mut self, value: &String)
        ensures
            final(self)@ == value@,
    ;
}

impl GaalDirectoryConfigSectionItemActions for GaalDirectoryConfigSectionItem {
    fn new(value: &String) -> (r: Self) {
        GaalDirectoryConfigSectionItem::new(value)
    }

    fn get_value(&self) -> (r: &String) {
        GaalDirectoryConfigSectionItem::get_value(self)
    }

    fn set_value(&mut self, value: &String) {
        GaalDirectoryConfigSectionItem::set_value(self, value)
    }
}

/// The interface of one section node, addressed by paths of child names.
pub trait GaalDirectoryConfigSectionActions: View<V = SectionView> + Sized {
    fn new() -> (r: Self)
        ensures
            r@ == empty_section_view(),
    ;

    fn get_section(&self, path: &[&str]) -> (r: Option<&Self>)
        requires
            self@.wf(),
        ensures
            match r {
                Some(s) => sec_get_section(self@, path_view(path@)) == Some(s@),
                None => sec_get_section(self@, path_view(path@)) is None,
            },
    ;

    fn insert_section(&mut self, path: &[&str], section: Self, force: bool)
        requires
            old(self)@.wf(),
        ensures
            final(self)@ == sec_insert_section(old(self)@, path_view(path@), section@, force),
    ;

    fn delete_section(&mut self, path: &[&str])
        requires
            old(self)@.wf(),
        ensures
            final(self)@ == sec_delete_section(old(self)@, path_view(path@)),
    ;

    fn get_item(&self, path: &[&str]) -> (r: Option<&GaalDirectoryConfigSectionItem>)
        requires
            self@.wf(),
            path@.len() >= 1,
        ensures
            match r {
                Some(it) => sec_get_item(self@, path_view(path@)) == Some(it@),
                None => sec_get_item(self@, path_view(path@)) is None,
            },
    ;

    fn delete_item(&mut self, path: &[&str])
        requires
            old(self)@.wf(),
            path@.len() >= 1,
        ensures
            final(self)@ == sec_delete_item(old(self)@, path_view(path@)),
    ;

    fn insert_item(&mut self, path: &[&str], item: GaalDirectoryConfigSectionItem, force: bool)
        requires
            old(self)@.wf(),
            path@.len() >= 1,
        ensures
            final(self)@ == sec_insert_item(old(self)@, path_view(path@), item@, force),
    ;
}

impl GaalDirectoryConfigSectionActions for GaalDirectoryConfigSection {
    fn new() -> (r: Self) {
        GaalDirectoryConfigSection::new()
    }

    fn get_section(&self, path: &[&str]) -> (r: Option<&Self>) {
        GaalDirectoryConfigSection::get_section(self, path)
    }

    fn insert_section(&mut self, path: &[&str], section: Self, force: bool) {
        GaalDirectoryConfigSection::insert_section(self, path, section, force)
    }

    fn delete_section(&mut self, path: &[&str]) {
        GaalDirectoryConfigSection::delete_section(self, path)
    }

    fn get_item(&self, path: &[&str]) -> (r: Option<&GaalDirectoryConfigSectionItem>) {
        GaalDirectoryConfigSection::get_item(self, path)
    }

    fn delete_item(&mut self, path: &[&str]) {
        GaalDirectoryConfigSection::delete_item(self, path)
    }

    fn insert_item(&mut self, path: &[&str], item: GaalDirectoryConfigSectionItem, force: bool) {
        GaalDirectoryConfigSection::insert_item(self, path, item, force)
    }
}

/// The interface of a named configuration; item paths carry at least a
/// section name and an item name.
pub trait GaalDirectoryConfigActions: View<V = ConfigView> + Sized {
    fn new(id: &str) -> (r: Self)
        ensures
            r@.id == id@,
            r@.root == empty_section_view(),
    ;

    fn get_section(&self, path: &[&str]) -> (r: Option<&GaalDirectoryConfigSection>)
        requires
            self@.wf(),
        ensures
            match r {
                Some(s) => sec_get_section(self@.root, path_view(path@)) == Some(s@),
                None => sec_get_section(self@.root, path_view(path@)) is None,
            },
    ;

    fn insert_section(&mut self, path: &[&str], section: GaalDirectoryConfigSection, force: bool)
        requires
            old(self)@.wf(),
        ensures
            final(self)@.id == old(self)@.id,
            final(self)@.root == sec_insert_section(
                old(self)@.root,
                path_view(path@),
                section@,
                force,
            ),
    ;

    fn delete_section(&mut self, path: &[&str])
        requires
            old(self)@.wf(),
        ensures
            final(self)@.id == old(self)@.id,
            final(self)@.root == sec_delete_section(old(self)@.root, path_view(path@)),
    ;

    fn get_item(&self, path: &[&str]) -> (r: Option<&GaalDirectoryConfigSectionItem>)
        requires
            self@.wf(),
            path@.len() >= 2,
        ensures
            match r {
                Some(it) => sec_get_item(self@.root, path_view(path@)) == Some(it@),
                None => sec_get_item(self@.root, path_view(path@)) is None,
            },
    ;

    fn delete_item(&mut self, path: &[&str])
        requires
            old(self)@.wf(),
            path@.len() >= 2,
        ensures
            final(self)@.id == old(self)@.id,
            final(self)@.root == sec_delete_item(old(self)@.root, path_view(path@)),
    ;

    fn insert_item(&mut self, path: &[&str], item: GaalDirectoryConfigSectionItem, force: bool)
        requires
            old(self)@.wf(),
            path@.len() >= 2,
        ensures
            final(self)@.id == old(self)@.id,
            final(self)@.root == sec_insert_item(old(self)@.root, path_view(path@), item@, force),
    ;
}

impl GaalDirectoryConfigActions for GaalDirectoryConfig {
    fn new(id: &str) -> (r: Self) {
        GaalDirectoryConfig::new(id)
    }

    fn get_section(&self, path: &[&str]) -> (r: Option<&GaalDirectoryConfigSection>) {
        GaalDirectoryConfig::get_section(self, path)
    }

    fn insert_section(&mut self, path: &[&str], section: GaalDirectoryConfigSection, force: bool) {
        GaalDirectoryConfig::insert_section(self, path, section, force)
    }

    fn delete_section(&mut self, path: &[&str]) {
        GaalDirectoryConfig::delete_section(self, path)
    }

    fn get_item(&self, path: &[&str]) -> (r: Option<&GaalDirectoryConfigSectionItem>) {
        GaalDirectoryConfig::get_item(self, path)
    }

    fn delete_item(&mut self, path: &[&str]) {
        GaalDirectoryConfig::delete_item(self, path)
    }

    fn insert_item(&mut self, path: &[&str], item: GaalDirectoryConfigSectionItem, force: bool) {
        GaalDirectoryConfig::insert_item(self, path, item, force)
    }
}

} // verus!
