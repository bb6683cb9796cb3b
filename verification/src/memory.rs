use vstd::prelude::*;

verus! {

use crate::actions::Error;
use crate::directory::{GaalCoreDirectoryActionsType, GaalCoreDirectoryActions, pview, prefixes};
use crate::directory_config::{GaalDirectoryConfig, ConfigView};
use crate::text::str_eq;
use crate::repository::clone_path;

/// The prefixes of a path up to a given length.
pub open spec fn pre_set(p: Seq<Seq<char>>, k: int) -> Set<Seq<Seq<char>>> {
    Set::new(|q: Seq<Seq<char>>| exists|m: int| 1 <= m <= k && q == p.take(m))
}

/// The directories a list of paths denotes.
pub open spec fn dirs_of(s: Seq<Vec<String>>) -> Set<Seq<Seq<char>>> {
    Set::new(|q: Seq<Seq<char>>| exists|i: int| 0 <= i < s.len() && pview(s[i]@) == q)
}

/// The entry map a journal of writes denotes: later writes win.
pub open spec fn files_of(s: Seq<(Vec<String>, Vec<u8>, bool)>) -> Map<
    Seq<Seq<char>>,
    (Seq<u8>, bool),
>
    decreases s.len(),
{
    if s.len() == 0 {
        Map::empty()
    } else {
        files_of(s.drop_last()).insert(pview(s.last().0@), (s.last().1@, s.last().2))
    }
}

/// The configuration map a journal of writes denotes: later writes win.
pub open spec fn configs_of(s: Seq<(Vec<String>, GaalDirectoryConfig)>) -> Map<
    Seq<Seq<char>>,
    ConfigView,
>
    decreases s.len(),
{
    if s.len() == 0 {
        Map::empty()
    } else {
        configs_of(s.drop_last()).insert(pview(s.last().0@), s.last().1@)
    }
}

/// The last write under a key decides the journal's value there.
proof fn lemma_files_of_found(s: Seq<(Vec<String>, Vec<u8>, bool)>, i: int)
    requires
        0 <= i < s.len(),
        forall|j: int| i < j < s.len() ==> pview(#[trigger] s[j].0@) != pview(s[i].0@),
    ensures
        files_of(s).dom().contains(pview(s[i].0@)),
        files_of(s)[pview(s[i].0@)] == (s[i].1@, s[i].2),
    decreases s.len(),
{
    if i + 1 == s.len() {
        assert(s.last() == s[i]);
    } else {
        assert(s.drop_last()[i] == s[i]);
        assert forall|j: int| i < j < s.drop_last().len() implies pview(
            #[trigger] s.drop_last()[j].0@,
        ) != pview(s.drop_last()[i].0@) by {
            assert(s.drop_last()[j] == s[j]);
        }
        lemma_files_of_found(s.drop_last(), i);
        assert(s.last() == s[s.len() - 1]);
        assert(pview(s.last().0@) != pview(s[i].0@));
    }
}

/// A key never written is absent from the journal's map.
proof fn lemma_files_of_absent(s: Seq<(Vec<String>, Vec<u8>, bool)>, k: Seq<Seq<char>>)
    requires
        forall|j: int| 0 <= j < s.len() ==> pview(#[trigger] s[j].0@) != k,
    ensures
        !files_of(s).dom().contains(k),
    decreases s.len(),
{
    if s.len() > 0 {
        assert forall|j: int| 0 <= j < s.drop_last().len() implies pview(
            #[trigger] s.drop_last()[j].0@,
        ) != k by {
            assert(s.drop_last()[j] == s[j]);
        }
        lemma_files_of_absent(s.drop_last(), k);
        assert(s.last() == s[s.len() - 1]);
    }
}

/// The last write under a key decides the journal's configuration there.
proof fn lemma_configs_of_found(s: Seq<(Vec<String>, GaalDirectoryConfig)>, i: int)
    requires
        0 <= i < s.len(),
        forall|j: int| i < j < s.len() ==> pview(#[trigger] s[j].0@) != pview(s[i].0@),
    ensures
        configs_of(s).dom().contains(pview(s[i].0@)),
        configs_of(s)[pview(s[i].0@)] == s[i].1@,
    decreases s.len(),
{
    if i + 1 == s.len() {
        assert(s.last() == s[i]);
    } else {
        assert(s.drop_last()[i] == s[i]);
        assert forall|j: int| i < j < s.drop_last().len() implies pview(
            #[trigger] s.drop_last()[j].0@,
        ) != pview(s.drop_last()[i].0@) by {
            assert(s.drop_last()[j] == s[j]);
        }
        lemma_configs_of_found(s.drop_last(), i);
        assert(s.last() == s[s.len() - 1]);
        assert(pview(s.last().0@) != pview(s[i].0@));
    }
}

/// A key never written is absent from the journal's configurations.
proof fn lemma_configs_of_absent(s: Seq<(Vec<String>, GaalDirectoryConfig)>, k: Seq<Seq<char>>)
    requires
        forall|j: int| 0 <= j < s.len() ==> pview(#[trigger] s[j].0@) != k,
    ensures
        !configs_of(s).dom().contains(k),
    decreases s.len(),
{
    if s.len() > 0 {
        assert forall|j: int| 0 <= j < s.drop_last().len() implies pview(
            #[trigger] s.drop_last()[j].0@,
        ) != k by {
            assert(s.drop_last()[j] == s[j]);
        }
        lemma_configs_of_absent(s.drop_last(), k);
        assert(s.last() == s[s.len() - 1]);
    }
}

/// Whether two paths carry the same segments.
pub fn path_eq(a: &Vec<String>, b: &Vec<String>) -> (r: bool)
    ensures
        r == (pview(a@) == pview(b@)),
{
    if a.len() != b.len() {
        assert(pview(a@).len() != pview(b@).len());
        return false;
    }
    let mut i: usize = 0;
    while i < a.len()
        invariant
            i <= a@.len(),
            a@.len() == b@.len(),
            forall|j: int| 0 <= j < i ==> a@[j]@ == b@[j]@,
        decreases a@.len() - i,
    {
        if !str_eq(a[i].as_str(), b[i].as_str()) {
            assert(pview(a@)[i as int] != pview(b@)[i as int]);
            return false;
        }
        i += 1;
    }
    proof {
        assert(pview(a@) =~= pview(b@));
    }
    true
}

/// Copies a byte vector.
fn clone_bytes(v: &Vec<u8>) -> (r: Vec<u8>)
    ensures
        r@ == v@,
{
    let mut out: Vec<u8> = Vec::new();
    let mut i: usize = 0;
    while i < v.len()
        invariant
            i <= v@.len(),
            out@.len() == i,
            forall|j: int| 0 <= j < i ==> out@[j] == v@[j],
        decreases v@.len() - i,
    {
        out.push(v[i]);
        i += 1;
    }
    proof {
        assert(out@ =~= v@);
    }
    out
}

/// A backend that keeps everything in memory: a list of directories and
/// two write journals.  It never fails, and it is the reference
/// implementation the repository logic is exercised against.
pub struct GaalCoreDirectoryMemory {
    dirs: Vec<Vec<String>>,
    files: Vec<(Vec<String>, Vec<u8>, bool)>,
    configs: Vec<(Vec<String>, GaalDirectoryConfig)>,
}

impl GaalCoreDirectoryMemory {
    /// An empty world: no directories, no entries, no configurations.
    pub fn new() -> (r: Self)
        ensures
            r.dirs() == Set::<Seq<Seq<char>>>::empty(),
            r.entries() == Map::<Seq<Seq<char>>, (Seq<u8>, bool)>::empty(),
            r.configs() == Map::<Seq<Seq<char>>, ConfigView>::empty(),
    {
        let r = Self { dirs: Vec::new(), files: Vec::new(), configs: Vec::new() };
        proof {
            assert(r.dirs() =~= Set::<Seq<Seq<char>>>::empty());
        }
        r
    }

    /// The position of the latest entry write under a path, if any.
    fn find_file(&self, path: &Vec<String>) -> (r: Option<usize>)
        ensures
            match r {
                Some(i) => 0 <= i < self.files@.len() && pview(self.files@[i as int].0@) == pview(
                    path@,
                ) && (forall|j: int|
                    i < j < self.files@.len() ==> pview(#[trigger] self.files@[j].0@) != pview(
                        path@,
                    )),
                None => forall|j: int|
                    0 <= j < self.files@.len() ==> pview(#[trigger] self.files@[j].0@) != pview(
                        path@,
                    ),
            },
    {
        let mut i = self.files.len();
        while i > 0
            invariant
                i <= self.files@.len(),
                forall|j: int|
                    i <= j < self.files@.len() ==> pview(#[trigger] self.files@[j].0@) != pview(
                        path@,
                    ),
            decreases i,
        {
            i = i - 1;
            if path_eq(&self.files[i].0, path) {
                return Some(i);
            }
        }
        None
    }

    /// The position of the latest configuration write under a path.
    fn find_config(&self, path: &Vec<String>) -> (r: Option<usize>)
        ensures
            match r {
                Some(i) => 0 <= i < self.configs@.len() && pview(self.configs@[i as int].0@)
                    == pview(path@) && (forall|j: int|
                    i < j < self.configs@.len() ==> pview(#[trigger] self.configs@[j].0@) != pview(
                        path@,
                    )),
                None => forall|j: int|
                    0 <= j < self.configs@.len() ==> pview(#[trigger] self.configs@[j].0@)
                        != pview(path@),
            },
    {
        let mut i = self.configs.len();
        while i > 0
            invariant
                i <= self.configs@.len(),
                forall|j: int|
                    i <= j < self.configs@.len() ==> pview(#[trigger] self.configs@[j].0@)
                        != pview(path@),
            decreases i,
        {
            i = i - 1;
            if path_eq(&self.configs[i].0, path) {
                return Some(i);
            }
        }
        None
    }
}

impl GaalCoreDirectoryActionsType for GaalCoreDirectoryMemory {
    closed spec fn dirs(&self) -> Set<Seq<Seq<char>>> {
        dirs_of(self.dirs@)
    }

    closed spec fn entries(&self) -> Map<Seq<Seq<char>>, (Seq<u8>, bool)> {
        files_of(self.files@)
    }

    closed spec fn configs(&self) -> Map<Seq<Seq<char>>, ConfigView> {
        configs_of(self.configs@)
    }

    #[verifier::loop_isolation(false)]
    fn make_path(&mut self, path: &Vec<String>) -> (r: Result<(), Error>) {
        let ghost d0 = dirs_of(self.dirs@);
        let ghost pv = pview(path@);
        let mut cur: Vec<String> = Vec::new();
        let mut n: usize = 0;
        proof {
            assert(pview(cur@) =~= pv.take(0));
            assert(dirs_of(self.dirs@) =~= d0.union(pre_set(pv, 0)));
        }
        while n < path.len()
            invariant
                n <= path@.len(),
                pv == pview(path@),
                pview(cur@) == pv.take(n as int),
                self.files@ == old(self).files@,
                self.configs@ == old(self).configs@,
                dirs_of(self.dirs@) == d0.union(pre_set(pv, n as int)),
            decreases path@.len() - n,
        {
            let seg = path[n].clone();
            let ghost cv = cur@;
            cur.push(seg);
            proof {
                assert(pview(cv).len() == n);
                assert forall|j: int| 0 <= j < n + 1 implies pview(cur@)[j] == pv.take(n + 1)[j]
                by {
                    if j < n {
                        assert(pview(cv)[j] == pv.take(n as int)[j]);
                        assert(cur@[j] == cv[j]);
                    }
                }
                assert(pview(cur@) =~= pv.take(n + 1));
            }
            let ghost prev = self.dirs@;
            let one = clone_path(&cur);
            self.dirs.push(one);
            n += 1;
            proof {
                assert(self.dirs@.drop_last() =~= prev);
                assert(pview(self.dirs@.last()@) == pv.take(n as int));
                assert forall|q: Seq<Seq<char>>| dirs_of(self.dirs@).contains(q) implies dirs_of(
                    prev,
                ).insert(pv.take(n as int)).contains(q) by {
                    let i = choose|i: int|
                        0 <= i < self.dirs@.len() && pview(self.dirs@[i]@) == q;
                    if i < prev.len() {
                        assert(prev[i] == self.dirs@[i]);
                        assert(pview(prev[i]@) == q);
                    } else {
                        assert(pview(self.dirs@[i]@) == pv.take(n as int));
                    }
                }
                assert forall|q: Seq<Seq<char>>| dirs_of(prev).insert(
                    pv.take(n as int),
                ).contains(q) implies dirs_of(self.dirs@).contains(q) by {
                    if dirs_of(prev).contains(q) {
                        let i = choose|i: int| 0 <= i < prev.len() && pview(prev[i]@) == q;
                        assert(self.dirs@[i] == prev[i]);
                        assert(pview(self.dirs@[i]@) == q);
                    } else {
                        assert(pview(self.dirs@[self.dirs@.len() - 1]@) == q);
                    }
                }
                assert(dirs_of(self.dirs@) =~= dirs_of(prev).insert(pv.take(n as int)));
                assert forall|q: Seq<Seq<char>>| pre_set(pv, n as int).contains(q) implies pre_set(
                    pv,
                    n - 1,
                ).insert(pv.take(n as int)).contains(q) by {
                    let m = choose|m: int| 1 <= m <= n && q == pv.take(m);
                    if m < n {
                        assert(pre_set(pv, n - 1).contains(q));
                    }
                }
                assert forall|q: Seq<Seq<char>>| pre_set(pv, n - 1).insert(
                    pv.take(n as int),
                ).contains(q) implies pre_set(pv, n as int).contains(q) by {
                    if pre_set(pv, n - 1).contains(q) {
                        let m = choose|m: int| 1 <= m <= n - 1 && q == pv.take(m);
                        assert(1 <= m <= n && q == pv.take(m));
                    } else {
                        assert(q == pv.take(n as int));
                    }
                }
                assert(pre_set(pv, n as int) =~= pre_set(pv, n - 1).insert(pv.take(n as int)));
                assert(dirs_of(self.dirs@) =~= d0.union(pre_set(pv, n as int)));
            }
        }
        proof {
            assert forall|q: Seq<Seq<char>>| pre_set(pv, pv.len() as int).contains(q)
                <==> prefixes(pv).contains(q) by {}
            assert(pre_set(pv, pv.len() as int) =~= prefixes(pv));
            assert(dirs_of(self.dirs@) =~= d0.union(prefixes(pv)));
        }
        Ok(())
    }

    fn make_entry(&mut self, path: &Vec<String>) -> (r: Result<(), Error>) {
        let mut parent = clone_path(path);
        let last = parent.pop();
        proof {
            assert(pview(parent@) =~= pview(path@).drop_last());
        }
        match self.make_path(&parent) {
            Ok(_) => {},
            Err(e) => {
                return Err(e);
            },
        }
        let ghost f0 = self.files@;
        let stored = clone_path(path);
        self.files.push((stored, Vec::new(), false));
        proof {
            assert(self.files@.drop_last() =~= f0);
            assert(pview(self.files@.last().0@) =~= pview(path@));
            assert(files_of(self.files@) == files_of(f0).insert(
                pview(path@),
                (Seq::<u8>::empty(), false),
            ));
        }
        Ok(())
    }

    fn is_path(&self, path: &Vec<String>) -> (r: bool) {
        let mut i: usize = 0;
        while i < self.dirs.len()
            invariant
                i <= self.dirs@.len(),
                forall|j: int| 0 <= j < i ==> pview(#[trigger] self.dirs@[j]@) != pview(path@),
            decreases self.dirs@.len() - i,
        {
            if path_eq(&self.dirs[i], path) {
                return true;
            }
            i += 1;
        }
        proof {
            if self.dirs().contains(pview(path@)) {
                let w = choose|w: int|
                    0 <= w < self.dirs@.len() && pview(self.dirs@[w]@) == pview(path@);
            }
        }
        false
    }

    fn is_entry(&self, path: &Vec<String>) -> (r: bool) {
        match self.find_file(path) {
            Some(i) => {
                proof {
                    lemma_files_of_found(self.files@, i as int);
                }
                true
            },
            None => {
                proof {
                    lemma_files_of_absent(self.files@, pview(path@));
                }
                false
            },
        }
    }

    fn get_path(&self) -> (r: Vec<String>) {
        Vec::new()
    }

    fn save_data(&mut self, path: &Vec<String>, data: Vec<u8>, compress: bool) -> (r: Result<
        (),
        Error,
    >) {
        let ghost f0 = self.files@;
        let stored = clone_path(path);
        self.files.push((stored, data, compress));
        proof {
            assert(self.files@.drop_last() =~= f0);
            assert(pview(self.files@.last().0@) =~= pview(path@));
        }
        Ok(())
    }

    fn get_data(&self, path: &Vec<String>, decompress: bool) -> (r: Result<Vec<u8>, Error>) {
        match self.find_file(path) {
            Some(i) => {
                proof {
                    lemma_files_of_found(self.files@, i as int);
                }
                if self.files[i].2 != decompress {
                    return Err(Error::Io("entry stored under the other flag".to_owned()));
                }
                Ok(clone_bytes(&self.files[i].1))
            },
            None => Err(Error::Io("no entry under this path".to_owned())),
        }
    }

    fn is_config(&self, path: &Vec<String>) -> (r: bool) {
        match self.find_config(path) {
            Some(i) => {
                proof {
                    lemma_configs_of_found(self.configs@, i as int);
                }
                true
            },
            None => {
                proof {
                    lemma_configs_of_absent(self.configs@, pview(path@));
                }
                false
            },
        }
    }

    fn save_config(&mut self, path: &Vec<String>, config: &GaalDirectoryConfig) -> (r: Result<
        (),
        Error,
    >) {
        let ghost c0 = self.configs@;
        let stored = clone_path(path);
        self.configs.push((stored, config.clone()));
        proof {
            assert(self.configs@.drop_last() =~= c0);
            assert(pview(self.configs@.last().0@) =~= pview(path@));
        }
        Ok(())
    }

    fn get_config(&self, path: &Vec<String>) -> (r: Result<GaalDirectoryConfig, Error>) {
        match self.find_config(path) {
            Some(i) => {
                proof {
                    lemma_configs_of_found(self.configs@, i as int);
                }
                Ok(self.configs[i].1.clone())
            },
            None => Err(Error::Io("no configuration under this path".to_owned())),
        }
    }
}

impl GaalCoreDirectoryActions for GaalCoreDirectoryMemory {

}

} // verus!
