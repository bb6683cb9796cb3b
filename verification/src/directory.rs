use vstd::prelude::*;

verus! {

use crate::actions::Error;
use crate::directory_config::{GaalDirectoryConfig, ConfigView};

/// The view of a path: its segments as character sequences.
pub open spec fn pview(p: Seq<String>) -> Seq<Seq<char>> {
    p.map_values(|s: String| s@)
}

/// Every non-empty prefix of a path, the path itself included: what a
/// recursive directory creation brings into being.
pub open spec fn prefixes(p: Seq<Seq<char>>) -> Set<Seq<Seq<char>>> {
    Set::new(|q: Seq<Seq<char>>| exists|n: int| 1 <= n <= p.len() && q == p.take(n))
}

/// A storage backend: directories, byte entries and structured
/// configurations, all addressed by paths of segments.  The three spec
/// functions are its model; every operation says how it reads or changes
/// that model.  An entry carries its bytes and whether they were stored
/// under the compression flag.
pub trait GaalCoreDirectoryActionsType: Sized {
    /// The directories that exist; an implementation outside the verifier
    /// inherits the empty default and is held to nothing.
    open spec fn dirs(&self) -> Set<Seq<Seq<char>>> {
        Set::empty()
    }

    /// The entries that exist, each with its bytes and compression flag.
    open spec fn entries(&self) -> Map<Seq<Seq<char>>, (Seq<u8>, bool)> {
        Map::empty()
    }

    /// The configurations that exist.
    open spec fn configs(&self) -> Map<Seq<Seq<char>>, ConfigView> {
        Map::empty()
    }

    /// Creates a directory and all its ancestors; repeatable.
    fn make_path(&mut self, path: &Vec<String>) -> (r: Result<(), Error>)
        ensures
            r is Ok ==> final(self).dirs() == old(self).dirs().union(prefixes(pview(path@))),
            r is Ok ==> final(self).entries() == old(self).entries(),
            r is Ok ==> final(self).configs() == old(self).configs(),
    ;

    /// Creates an entry with placeholder content, and the directories
    /// above it.
    fn make_entry(&mut self, path: &Vec<String>) -> (r: Result<(), Error>)
        requires
            path@.len() >= 1,
        ensures
            r is Ok ==> final(self).dirs() == old(self).dirs().union(
                prefixes(pview(path@).drop_last()),
            ),
            r is Ok ==> exists|c: (Seq<u8>, bool)|
                final(self).entries() == old(self).entries().insert(pview(path@), c),
            r is Ok ==> final(self).configs() == old(self).configs(),
    ;

    /// Whether a directory exists.
    fn is_path(&self, path: &Vec<String>) -> (r: bool)
        ensures
            r == self.dirs().contains(pview(path@)),
    ;

    /// Whether an entry exists.
    fn is_entry(&self, path: &Vec<String>) -> (r: bool)
        ensures
            r == self.entries().dom().contains(pview(path@)),
    ;

    /// The backend's starting path.
    fn get_path(&self) -> (r: Vec<String>);

    /// Writes an entry's bytes, compressed when asked to.
    fn save_data(&mut self, path: &Vec<String>, data: Vec<u8>, compress: bool) -> (r: Result<
        (),
        Error,
    >)
        ensures
            r is Ok ==> final(self).entries() == old(self).entries().insert(
                pview(path@),
                (data@, compress),
            ),
            r is Ok ==> final(self).dirs() == old(self).dirs(),
            r is Ok ==> final(self).configs() == old(self).configs(),
    ;

    /// Reads an entry's bytes back, decompressing when asked to; what
    /// comes back is what was stored, under the matching flag.
    fn get_data(&self, path: &Vec<String>, decompress: bool) -> (r: Result<Vec<u8>, Error>)
        ensures
            r matches Ok(d) ==> self.entries().dom().contains(pview(path@)) && self.entries()[
                pview(path@)
            ] == (d@, decompress),
    ;

    /// Whether a configuration exists.
    fn is_config(&self, path: &Vec<String>) -> (r: bool)
        ensures
            r == self.configs().dom().contains(pview(path@)),
    ;

    /// Writes a configuration.
    fn save_config(&mut self, path: &Vec<String>, config: &GaalDirectoryConfig) -> (r: Result<
        (),
        Error,
    >)
        ensures
            r is Ok ==> final(self).configs() == old(self).configs().insert(pview(path@), config@),
            r is Ok ==> final(self).dirs() == old(self).dirs(),
            r is Ok ==> final(self).entries() == old(self).entries(),
    ;

    /// Reads a configuration back.
    fn get_config(&self, path: &Vec<String>) -> (r: Result<GaalDirectoryConfig, Error>)
        ensures
            r matches Ok(c) ==> self.configs().dom().contains(pview(path@)) && c@ == self.configs()[
                pview(path@)
            ],
    ;
}

/// A backend fit for a repository.
pub trait GaalCoreDirectoryActions: GaalCoreDirectoryActionsType {

}

/// The two names a repository layout is keyed by: the root marker
/// directory and the configuration entry.
#[derive(Debug, Clone)]
pub struct GaalCoreDirectoryDefaults {
    pub default_gal_dir: String,
    pub default_gal_config: String,
}

/// A backend together with the layout names; everything the repository
/// logic needs of the outside world.
pub struct GaalCoreDirectory<GCDA: GaalCoreDirectoryActionsType> {
    pub defaults: GaalCoreDirectoryDefaults,
    pub actions: GCDA,
}

impl<GCDA: GaalCoreDirectoryActionsType> GaalCoreDirectory<GCDA> {
    pub open spec fn dirs(&self) -> Set<Seq<Seq<char>>> {
        self.actions.dirs()
    }

    pub open spec fn entries(&self) -> Map<Seq<Seq<char>>, (Seq<u8>, bool)> {
        self.actions.entries()
    }

    pub open spec fn configs(&self) -> Map<Seq<Seq<char>>, ConfigView> {
        self.actions.configs()
    }

    pub fn new(defaults: GaalCoreDirectoryDefaults, actions: GCDA) -> (r: Self)
        ensures
            r.defaults.default_gal_dir@ == defaults.default_gal_dir@,
            r.defaults.default_gal_config@ == defaults.default_gal_config@,
            r.actions == actions,
    {
        Self { defaults, actions }
    }

    pub fn make_path(&mut self, path: &Vec<String>) -> (r: Result<(), Error>)
        ensures
            r is Ok ==> final(self).dirs() == old(self).dirs().union(prefixes(pview(path@))),
            r is Ok ==> final(self).entries() == old(self).entries(),
            r is Ok ==> final(self).configs() == old(self).configs(),
            final(self).defaults == old(self).defaults,
    {
        self.actions.make_path(path)
    }

    pub fn make_entry(&mut self, path: &Vec<String>) -> (r: Result<(), Error>)
        requires
            path@.len() >= 1,
        ensures
            r is Ok ==> final(self).dirs() == old(self).dirs().union(
                prefixes(pview(path@).drop_last()),
            ),
            r is Ok ==> exists|c: (Seq<u8>, bool)|
                final(self).entries() == old(self).entries().insert(pview(path@), c),
            r is Ok ==> final(self).configs() == old(self).configs(),
            final(self).defaults == old(self).defaults,
    {
        let r = self.actions.make_entry(path);
        proof {
            if r is Ok {
                let c = choose|c: (Seq<u8>, bool)|
                    self.actions.entries() == old(self).actions.entries().insert(pview(path@), c);
                assert(self.entries() == old(self).entries().insert(pview(path@), c));
            }
        }
        r
    }

    pub fn is_path(&self, path: &Vec<String>) -> (r: bool)
        ensures
            r == self.dirs().contains(pview(path@)),
    {
        self.actions.is_path(path)
    }

    pub fn is_entry(&self, path: &Vec<String>) -> (r: bool)
        ensures
            r == self.entries().dom().contains(pview(path@)),
    {
        self.actions.is_entry(path)
    }

    pub fn get_path(&self) -> (r: Vec<String>) {
        self.actions.get_path()
    }

    pub fn save_data(&mut self, path: &Vec<String>, data: Vec<u8>, compress: bool) -> (r: Result<
        (),
        Error,
    >)
        ensures
            r is Ok ==> final(self).entries() == old(self).entries().insert(
                pview(path@),
                (data@, compress),
            ),
            r is Ok ==> final(self).dirs() == old(self).dirs(),
            r is Ok ==> final(self).configs() == old(self).configs(),
            final(self).defaults == old(self).defaults,
    {
        self.actions.save_data(path, data, compress)
    }

    pub fn get_data(&self, path: &Vec<String>, decompress: bool) -> (r: Result<Vec<u8>, Error>)
        ensures
            r matches Ok(d) ==> self.entries().dom().contains(pview(path@)) && self.entries()[
                pview(path@)
            ] == (d@, decompress),
    {
        self.actions.get_data(path, decompress)
    }

    pub fn is_config(&self, path: &Vec<String>) -> (r: bool)
        ensures
            r == self.configs().dom().contains(pview(path@)),
    {
        self.actions.is_config(path)
    }

    pub fn save_config(&mut self, path: &Vec<String>, config: &GaalDirectoryConfig) -> (r: Result<
        (),
        Error,
    >)
        ensures
            r is Ok ==> final(self).configs() == old(self).configs().insert(pview(path@), config@),
            r is Ok ==> final(self).dirs() == old(self).dirs(),
            r is Ok ==> final(self).entries() == old(self).entries(),
            final(self).defaults == old(self).defaults,
    {
        self.actions.save_config(path, config)
    }

    pub fn get_config(&self, path: &Vec<String>) -> (r: Result<GaalDirectoryConfig, Error>)
        ensures
            r matches Ok(c) ==> self.configs().dom().contains(pview(path@)) && c@ == self.configs()[
                pview(path@)
            ],
    {
        self.actions.get_config(path)
    }

    /// The storage path of a content id: the first two characters name
    /// the fan-out directory and the rest name the entry.
    pub fn hash_object_to_path(&self, hash: String) -> (r: Vec<String>)
        ensures
            r@.len() == 2,
            hash@.len() >= 2 ==> r@[0]@ == hash@.take(2) && r@[1]@ == hash@.skip(2),
            hash@.len() < 2 ==> r@[0]@ == hash@ && r@[1]@ == Seq::<char>::empty(),
    {
        let n = hash.as_str().unicode_len();
        if n < 2 {
            let mut out: Vec<String> = Vec::new();
            out.push(hash);
            out.push(String::new());
            return out;
        }
        let dir = hash.as_str().substring_char(0, 2).to_owned();
        let file = hash.as_str().substring_char(2, n).to_owned();
        let mut out: Vec<String> = Vec::new();
        out.push(dir);
        out.push(file);
        out
    }
}

} // verus!
