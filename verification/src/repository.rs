use vstd::prelude::*;

verus! {

use crate::actions::Error;
use crate::object_error::ObjectError;
use crate::directory::{GaalCoreDirectory, GaalCoreDirectoryActionsType, pview, prefixes};
use crate::directory_config::{GaalDirectoryConfig, ConfigView, default_config_view};
use crate::object::{GaalCoreDirectoryObjectType, object_envelope, object_serializable, envelope_id, from_hash_ok, object_read_back};
use vstd::utf8::{decode_utf8, encode_utf8, valid_utf8};

/// What can go wrong while resolving or building a repository: no
/// repository where one was required, or a failed backend step.
#[derive(Debug)]
pub enum RepositoryError {
    Inexistent(String),
    IoError(Error),
}

impl RepositoryError {
    /// The text of the failure.
    pub fn message(&self) -> (r: String)
        ensures
            self matches RepositoryError::Inexistent(m) ==> r@ == m@,
    {
        match self {
            RepositoryError::Inexistent(m) => m.clone(),
            RepositoryError::IoError(e) => e.message(),
        }
    }
}

/// The directories a repository layout consists of: the root marker with
/// its ancestors, and the five fixed children.
pub open spec fn layout_dirs(root: Seq<Seq<char>>) -> Set<Seq<Seq<char>>> {
    prefixes(root).insert(root.push("branches"@)).insert(root.push("objects"@)).insert(
        root.push("refs"@),
    ).insert(root.push("refs"@).push("heads"@)).insert(root.push("refs"@).push("tags"@))
}

/// Inserts a plain entry only where none exists.
pub open spec fn ensure_entry(
    m: Map<Seq<Seq<char>>, (Seq<u8>, bool)>,
    k: Seq<Seq<char>>,
    v: Seq<u8>,
) -> Map<Seq<Seq<char>>, (Seq<u8>, bool)> {
    if m.dom().contains(k) {
        m
    } else {
        m.insert(k, (v, false))
    }
}

/// The placeholder description a fresh repository carries.
pub open spec fn description_text() -> Seq<char> {
    "Unnamed repository; edit this file 'description' to name the repository."@
}

/// Where a fresh repository points its head.
pub open spec fn head_text() -> Seq<char> {
    "ref: refs/heads/master"@
}

/// The directories after a layout is provisioned.
pub open spec fn created_dirs(d: Set<Seq<Seq<char>>>, root: Seq<Seq<char>>) -> Set<
    Seq<Seq<char>>,
> {
    d.union(layout_dirs(root))
}

/// The entries after the two default files are provisioned where missing.
pub open spec fn created_entries(
    m: Map<Seq<Seq<char>>, (Seq<u8>, bool)>,
    root: Seq<Seq<char>>,
) -> Map<Seq<Seq<char>>, (Seq<u8>, bool)> {
    ensure_entry(
        ensure_entry(m, root.push("description"@), encode_utf8(description_text())),
        root.push("HEAD"@),
        encode_utf8(head_text()),
    )
}

/// The configurations after the default one is provisioned where missing.
pub open spec fn created_configs(
    c: Map<Seq<Seq<char>>, ConfigView>,
    cfgp: Seq<Seq<char>>,
) -> Map<Seq<Seq<char>>, ConfigView> {
    if c.dom().contains(cfgp) {
        c
    } else {
        c.insert(cfgp, default_config_view())
    }
}

/// Whether every component of a repository layout is present.
pub open spec fn layout_ok(
    dirs: Set<Seq<Seq<char>>>,
    entries: Map<Seq<Seq<char>>, (Seq<u8>, bool)>,
    configs: Map<Seq<Seq<char>>, ConfigView>,
    root: Seq<Seq<char>>,
    cfgp: Seq<Seq<char>>,
) -> bool {
    &&& dirs.contains(root)
    &&& configs.dom().contains(cfgp)
    &&& dirs.contains(root.push("branches"@))
    &&& dirs.contains(root.push("objects"@))
    &&& dirs.contains(root.push("refs"@))
    &&& dirs.contains(root.push("refs"@).push("heads"@))
    &&& dirs.contains(root.push("refs"@).push("tags"@))
    &&& entries.dom().contains(root.push("description"@))
    &&& entries.dom().contains(root.push("HEAD"@))
}

/// The deepest ancestor of a path whose marker directory exists.
pub open spec fn find_root(
    dirs: Set<Seq<Seq<char>>>,
    path: Seq<Seq<char>>,
    marker: Seq<char>,
) -> Option<Seq<Seq<char>>>
    decreases path.len(),
{
    if dirs.contains(path.push(marker)) {
        Some(path)
    } else if path.len() == 0 {
        None
    } else {
        find_root(dirs, path.drop_last(), marker)
    }
}

/// Provisioning a layout twice from any state is the same as provisioning
/// it once.
pub proof fn lemma_create_idempotent(
    d: Set<Seq<Seq<char>>>,
    m: Map<Seq<Seq<char>>, (Seq<u8>, bool)>,
    c: Map<Seq<Seq<char>>, ConfigView>,
    root: Seq<Seq<char>>,
    cfgp: Seq<Seq<char>>,
)
    ensures
        created_dirs(created_dirs(d, root), root) == created_dirs(d, root),
        created_entries(created_entries(m, root), root) == created_entries(m, root),
        created_configs(created_configs(c, cfgp), cfgp) == created_configs(c, cfgp),
{
    assert(created_dirs(created_dirs(d, root), root) =~= created_dirs(d, root));
    assert(created_entries(created_entries(m, root), root) =~= created_entries(m, root));
    assert(created_configs(created_configs(c, cfgp), cfgp) =~= created_configs(c, cfgp));
}

/// Adding one segment to a path adds exactly one prefix: the new path.
proof fn lemma_prefixes_push(p: Seq<Seq<char>>, seg: Seq<char>)
    ensures
        prefixes(p.push(seg)) == prefixes(p).insert(p.push(seg)),
{
    let q = p.push(seg);
    assert forall|x: Seq<Seq<char>>| prefixes(q).contains(x) implies prefixes(p).insert(
        q,
    ).contains(x) by {
        let n = choose|n: int| 1 <= n <= q.len() && x == q.take(n);
        if n <= p.len() {
            assert(q.take(n) =~= p.take(n));
        } else {
            assert(q.take(n) =~= q);
        }
    }
    assert forall|x: Seq<Seq<char>>| prefixes(p).insert(q).contains(x) implies prefixes(
        q,
    ).contains(x) by {
        if prefixes(p).contains(x) {
            let n = choose|n: int| 1 <= n <= p.len() && x == p.take(n);
            assert(q.take(n) =~= p.take(n));
        } else {
            assert(q.take(q.len() as int) =~= q);
        }
    }
    assert(prefixes(q) =~= prefixes(p).insert(q));
}

/// Copies a path.
pub fn clone_path(p: &Vec<String>) -> (r: Vec<String>)
    ensures
        pview(r@) == pview(p@),
{
    let mut out: Vec<String> = Vec::new();
    let mut i: usize = 0;
    while i < p.len()
        invariant
            i <= p@.len(),
            out@.len() == i,
            forall|j: int| 0 <= j < i ==> #[trigger] out@[j]@ == p@[j]@,
        decreases p@.len() - i,
    {
        let s = p[i].clone();
        out.push(s);
        i += 1;
    }
    proof {
        assert(pview(out@) =~= pview(p@));
    }
    out
}

/// A resolved repository: its root marker path and its configuration.
pub struct GaalRepository {
    pub gaal: Vec<String>,
    pub config: GaalDirectoryConfig,
}

impl GaalRepository {
    /// Resolves a repository at a working directory.  Under `force` every
    /// missing layout component is created; otherwise every component is
    /// required and nothing is touched.
    #[verifier::rlimit(80)]
    pub fn new<GCDA: GaalCoreDirectoryActionsType>(
        work_dir: Vec<String>,
        directory: &mut GaalCoreDirectory<GCDA>,
        force: bool,
    ) -> (r: Result<Self, RepositoryError>)
        ensures
            ({
                let root = pview(work_dir@).push(old(directory).defaults.default_gal_dir@);
                let cfgp = root.push(old(directory).defaults.default_gal_config@);
                &&& final(directory).defaults == old(directory).defaults
                &&& (!force ==> final(directory).dirs() == old(directory).dirs() && final(directory).entries() == old(directory).entries() && final(directory).configs() == old(directory).configs())
                &&& (!force ==> match r {
                    Ok(_) => layout_ok(
                        old(directory).dirs(),
                        old(directory).entries(),
                        old(directory).configs(),
                        root,
                        cfgp,
                    ),
                    Err(RepositoryError::Inexistent(_)) => !layout_ok(
                        old(directory).dirs(),
                        old(directory).entries(),
                        old(directory).configs(),
                        root,
                        cfgp,
                    ),
                    Err(RepositoryError::IoError(_)) => layout_ok(
                        old(directory).dirs(),
                        old(directory).entries(),
                        old(directory).configs(),
                        root,
                        cfgp,
                    ),
                })
                &&& (force && r is Ok ==> final(directory).dirs() == created_dirs(
                    old(directory).dirs(),
                    root,
                ) && final(directory).entries() == created_entries(old(directory).entries(), root)
                    && final(directory).configs() == created_configs(
                    old(directory).configs(),
                    cfgp,
                ) && layout_ok(
                    final(directory).dirs(),
                    final(directory).entries(),
                    final(directory).configs(),
                    root,
                    cfgp,
                ))
                &&& (match r {
                    Ok(repo) => pview(repo.gaal@) == root && repo.config@ == final(directory).configs()[cfgp],
                    Err(_) => true,
                })
            }),
    {
        let ghost wv0 = work_dir@;
        let ghost d0 = directory.dirs();
        let ghost e0 = directory.entries();
        let ghost c0 = directory.configs();
        let marker = directory.defaults.default_gal_dir.clone();
        let mut gaal_path = work_dir;
        gaal_path.push(marker);
        let ghost root = pview(gaal_path@);
        proof {
            assert(root =~= pview(wv0).push(old(directory).defaults.default_gal_dir@));
        }

        if !force {
            if !directory.is_path(&gaal_path) {
                return Err(
                    RepositoryError::Inexistent("no root marker directory".to_owned()),
                );
            }
        } else {
            match directory.make_path(&gaal_path) {
                Ok(_) => {},
                Err(e) => {
                    return Err(RepositoryError::IoError(e));
                },
            }
        }
        let ghost d1 = directory.dirs();
        proof {
            if force {
                assert(d1 == d0.union(prefixes(root)));
            }
        }

        let mut config_path = clone_path(&gaal_path);
        config_path.push(directory.defaults.default_gal_config.clone());
        let ghost cfgp = pview(config_path@);
        proof {
            assert(cfgp =~= root.push(old(directory).defaults.default_gal_config@));
        }

        if !force {
            if !directory.is_config(&config_path) {
                return Err(
                    RepositoryError::Inexistent("no configuration entry".to_owned()),
                );
            }
        } else {
            if !directory.is_config(&config_path) {
                let base = GaalDirectoryConfig::default();
                match directory.save_config(&config_path, &base) {
                    Ok(_) => {},
                    Err(e) => {
                        return Err(RepositoryError::IoError(e));
                    },
                }
            }
        }
        proof {
            if force {
                assert(directory.configs() == created_configs(c0, cfgp));
            }
        }

        let mut branches_path = clone_path(&gaal_path);
        branches_path.push("branches".to_owned());
        proof {
            assert(pview(branches_path@) =~= root.push("branches"@));
        }
        if !directory.is_path(&branches_path) {
            if !force {
                return Err(RepositoryError::Inexistent("no branches directory".to_owned()));
            }
            match directory.make_path(&branches_path) {
                Ok(_) => {},
                Err(e) => {
                    return Err(RepositoryError::IoError(e));
                },
            }
        }
        let ghost d2 = directory.dirs();
        proof {
            if force {
                lemma_prefixes_push(root, "branches"@);
                assert(d2 =~= d1.insert(root.push("branches"@)));
            }
        }

        let mut objects_path = clone_path(&gaal_path);
        objects_path.push("objects".to_owned());
        proof {
            assert(pview(objects_path@) =~= root.push("objects"@));
        }
        if !directory.is_path(&objects_path) {
            if !force {
                return Err(RepositoryError::Inexistent("no objects directory".to_owned()));
            }
            match directory.make_path(&objects_path) {
                Ok(_) => {},
                Err(e) => {
                    return Err(RepositoryError::IoError(e));
                },
            }
        }
        let ghost d3 = directory.dirs();
        proof {
            if force {
                lemma_prefixes_push(root, "objects"@);
                assert(d3 =~= d2.insert(root.push("objects"@)));
            }
        }

        let mut refs_path = clone_path(&gaal_path);
        refs_path.push("refs".to_owned());
        proof {
            assert(pview(refs_path@) =~= root.push("refs"@));
        }
        if !directory.is_path(&refs_path) {
            if !force {
                return Err(RepositoryError::Inexistent("no refs directory".to_owned()));
            }
            match directory.make_path(&refs_path) {
                Ok(_) => {},
                Err(e) => {
                    return Err(RepositoryError::IoError(e));
                },
            }
        }
        let ghost d4 = directory.dirs();
        proof {
            if force {
                lemma_prefixes_push(root, "refs"@);
                assert(d4 =~= d3.insert(root.push("refs"@)));
            }
        }

        let mut heads_path = clone_path(&refs_path);
        heads_path.push("heads".to_owned());
        proof {
            assert(pview(heads_path@) =~= root.push("refs"@).push("heads"@));
        }
        if !directory.is_path(&heads_path) {
            if !force {
                return Err(RepositoryError::Inexistent("no heads directory".to_owned()));
            }
            match directory.make_path(&heads_path) {
                Ok(_) => {},
                Err(e) => {
                    return Err(RepositoryError::IoError(e));
                },
            }
        }
        let ghost d5 = directory.dirs();
        proof {
            if force {
                lemma_prefixes_push(root, "refs"@);
                lemma_prefixes_push(root.push("refs"@), "heads"@);
                assert(d5 =~= d4.insert(root.push("refs"@).push("heads"@)));
            }
        }

        let mut tags_path = clone_path(&refs_path);
        tags_path.push("tags".to_owned());
        proof {
            assert(pview(tags_path@) =~= root.push("refs"@).push("tags"@));
        }
        if !directory.is_path(&tags_path) {
            if !force {
                return Err(RepositoryError::Inexistent("no tags directory".to_owned()));
            }
            match directory.make_path(&tags_path) {
                Ok(_) => {},
                Err(e) => {
                    return Err(RepositoryError::IoError(e));
                },
            }
        }
        let ghost d6 = directory.dirs();
        proof {
            if force {
                lemma_prefixes_push(root, "refs"@);
                lemma_prefixes_push(root.push("refs"@), "tags"@);
                assert(d6 =~= d5.insert(root.push("refs"@).push("tags"@)));
                assert(d6 =~= created_dirs(d0, root));
            }
        }

        let mut description_path = clone_path(&gaal_path);
        description_path.push("description".to_owned());
        proof {
            assert(pview(description_path@) =~= root.push("description"@));
        }
        if !directory.is_entry(&description_path) {
            if !force {
                return Err(RepositoryError::Inexistent("no description entry".to_owned()));
            }
            let text =
                "Unnamed repository; edit this file 'description' to name the repository.".to_owned();
            match directory.save_data(&description_path, text.as_str().as_bytes_vec(), false) {
                Ok(_) => {},
                Err(e) => {
                    return Err(RepositoryError::IoError(e));
                },
            }
        }
        let ghost e1 = directory.entries();
        proof {
            if force {
                assert(e1 == ensure_entry(
                    e0,
                    root.push("description"@),
                    encode_utf8(description_text()),
                ));
            }
        }

        let mut head_path = clone_path(&gaal_path);
        head_path.push("HEAD".to_owned());
        proof {
            assert(pview(head_path@) =~= root.push("HEAD"@));
        }
        if !directory.is_entry(&head_path) {
            if !force {
                return Err(RepositoryError::Inexistent("no HEAD entry".to_owned()));
            }
            let text = "ref: refs/heads/master".to_owned();
            match directory.save_data(&head_path, text.as_str().as_bytes_vec(), false) {
                Ok(_) => {},
                Err(e) => {
                    return Err(RepositoryError::IoError(e));
                },
            }
        }
        proof {
            if force {
                assert(directory.entries() == created_entries(e0, root));
            }
        }

        let config = match directory.get_config(&config_path) {
            Ok(c) => c,
            Err(e) => {
                return Err(RepositoryError::IoError(e));
            },
        };

        proof {
            assert(root.take(root.len() as int) =~= root);
            assert(prefixes(root).contains(root));
        }
        Ok(GaalRepository { gaal: gaal_path, config })
    }

    /// Provisions a repository at a working directory, creating whatever
    /// is missing; safe to repeat.
    pub fn create<GCDA: GaalCoreDirectoryActionsType>(
        work_dir: Vec<String>,
        directory: &mut GaalCoreDirectory<GCDA>,
    ) -> (r: Result<Self, RepositoryError>)
        ensures
            ({
                let root = pview(work_dir@).push(old(directory).defaults.default_gal_dir@);
                let cfgp = root.push(old(directory).defaults.default_gal_config@);
                &&& final(directory).defaults == old(directory).defaults
                &&& (r is Ok ==> final(directory).dirs() == created_dirs(
                    old(directory).dirs(),
                    root,
                ) && final(directory).entries() == created_entries(old(directory).entries(), root)
                    && final(directory).configs() == created_configs(
                    old(directory).configs(),
                    cfgp,
                ))
                &&& (match r {
                    Ok(repo) => pview(repo.gaal@) == root && repo.config@ == final(directory).configs()[cfgp],
                    Err(_) => true,
                })
            }),
    {
        Self::new(work_dir, directory, true)
    }

    /// Walks up from a path looking for an existing root marker; resolves
    /// the repository there, requiring its whole layout, and fails with
    /// `Inexistent` when no ancestor carries a marker.
    pub fn derive_from_path<GCDA: GaalCoreDirectoryActionsType>(
        work_dir: Vec<String>,
        directory: &mut GaalCoreDirectory<GCDA>,
    ) -> (r: Result<Self, RepositoryError>)
        ensures
            final(directory).defaults == old(directory).defaults,
            final(directory).dirs() == old(directory).dirs(),
            final(directory).entries() == old(directory).entries(),
            final(directory).configs() == old(directory).configs(),
            ({
                let marker = old(directory).defaults.default_gal_dir@;
                let cfg = old(directory).defaults.default_gal_config@;
                match find_root(old(directory).dirs(), pview(work_dir@), marker) {
                    None => r matches Err(RepositoryError::Inexistent(_)),
                    Some(wd) => {
                        let root = wd.push(marker);
                        let cfgp = root.push(cfg);
                        match r {
                            Ok(repo) => layout_ok(
                                old(directory).dirs(),
                                old(directory).entries(),
                                old(directory).configs(),
                                root,
                                cfgp,
                            ) && pview(repo.gaal@) == root && repo.config@ == old(directory).configs()[cfgp],
                            Err(RepositoryError::Inexistent(_)) => !layout_ok(
                                old(directory).dirs(),
                                old(directory).entries(),
                                old(directory).configs(),
                                root,
                                cfgp,
                            ),
                            Err(RepositoryError::IoError(_)) => true,
                        }
                    },
                }
            }),
        decreases work_dir@.len(),
    {
        let ghost wv = work_dir@;
        let marker = directory.defaults.default_gal_dir.clone();
        let mut gaal_path = clone_path(&work_dir);
        gaal_path.push(marker);
        proof {
            assert(pview(gaal_path@) =~= pview(work_dir@).push(
                directory.defaults.default_gal_dir@,
            ));
        }

        if directory.is_path(&gaal_path) {
            return Self::new(work_dir, directory, false);
        }

        if work_dir.len() == 0 {
            return Err(RepositoryError::Inexistent("no root marker directory".to_owned()));
        }

        let mut parent = work_dir;
        parent.pop();
        proof {
            assert(pview(parent@) =~= pview(wv).drop_last());
        }
        Self::derive_from_path(parent, directory)
    }
}


/// The fan-out directory a content id is stored under.
pub open spec fn shard_dir(id: Seq<char>) -> Seq<char> {
    if id.len() >= 2 {
        id.take(2)
    } else {
        id
    }
}

/// The entry name a content id is stored under.
pub open spec fn shard_file(id: Seq<char>) -> Seq<char> {
    if id.len() >= 2 {
        id.skip(2)
    } else {
        Seq::empty()
    }
}

/// Where an object of the given id sits under a repository root.
pub open spec fn object_path(gaal: Seq<Seq<char>>, id: Seq<char>) -> Seq<Seq<char>> {
    gaal.push("objects"@).push(shard_dir(id)).push(shard_file(id))
}

impl GaalRepository {
    /// Stores an object: its envelope is addressed by its id and written,
    /// compressed, under the sharded path.  Writing the same envelope
    /// again writes the same id and the same bytes.
    pub fn object_write<GCDA: GaalCoreDirectoryActionsType>(
        &self,
        directory: &mut GaalCoreDirectory<GCDA>,
        obj: GaalCoreDirectoryObjectType,
    ) -> (r: Result<String, ObjectError>)
        ensures
            final(directory).defaults == old(directory).defaults,
            r matches Ok(id) ==> ({
                &&& object_serializable(obj)
                &&& id@ == envelope_id(object_envelope(obj))
                &&& id@.len() == 64
                &&& final(directory).entries() == old(directory).entries().insert(
                    object_path(pview(self.gaal@), id@),
                    (object_envelope(obj), true),
                )
                &&& final(directory).configs() == old(directory).configs()
                &&& old(directory).dirs().subset_of(final(directory).dirs())
            }),
            !object_serializable(obj) ==> r is Err,
    {
        let (id, env) = match obj.hash() {
            Ok(x) => x,
            Err(e) => {
                return Err(e);
            },
        };
        let shards = directory.hash_object_to_path(id.clone());
        let mut opath = clone_path(&self.gaal);
        opath.push("objects".to_owned());
        opath.push(shards[0].clone());
        opath.push(shards[1].clone());
        proof {
            assert(pview(opath@) =~= object_path(pview(self.gaal@), id@));
        }
        let ghost e0 = directory.entries();
        let ghost d0 = directory.dirs();
        if !directory.is_entry(&opath) {
            match directory.make_entry(&opath) {
                Ok(_) => {},
                Err(e) => {
                    return Err(ObjectError::IoError(e));
                },
            }
        }
        match directory.save_data(&opath, env, true) {
            Ok(_) => {},
            Err(e) => {
                return Err(ObjectError::IoError(e));
            },
        }
        proof {
            assert(directory.entries() =~= e0.insert(
                object_path(pview(self.gaal@), id@),
                (object_envelope(obj), true),
            ));
            assert(d0.subset_of(directory.dirs()));
        }
        Ok(id)
    }

    /// Reads an object back by its id: the stored envelope is fetched,
    /// decompressed and decoded; an id with no entry is reported as
    /// missing.
    pub fn object_read<GCDA: GaalCoreDirectoryActionsType>(
        &self,
        directory: &GaalCoreDirectory<GCDA>,
        hash: String,
    ) -> (r: Result<GaalCoreDirectoryObjectType, ObjectError>)
        ensures
            ({
                let opath = object_path(pview(self.gaal@), hash@);
                &&& (!directory.entries().dom().contains(opath) ==> r matches Err(
                    ObjectError::Inexistent(_),
                ))
                &&& (r matches Ok(o) ==> directory.entries().dom().contains(opath)
                    && directory.entries()[opath].1 == true && from_hash_ok(
                    directory.entries()[opath].0,
                ) && object_read_back(o, directory.entries()[opath].0))
            }),
    {
        let ghost hv = hash@;
        let shards = directory.hash_object_to_path(hash);
        let mut opath = clone_path(&self.gaal);
        opath.push("objects".to_owned());
        opath.push(shards[0].clone());
        opath.push(shards[1].clone());
        proof {
            assert(pview(opath@) =~= object_path(pview(self.gaal@), hv));
        }
        if !directory.is_entry(&opath) {
            return Err(ObjectError::Inexistent("no object under this id".to_owned()));
        }
        let data = match directory.get_data(&opath, true) {
            Ok(d) => d,
            Err(e) => {
                return Err(ObjectError::IoError(e));
            },
        };
        GaalCoreDirectoryObjectType::from_hash(&data)
    }
}


impl<GCDA: GaalCoreDirectoryActionsType> GaalCoreDirectory<GCDA> {
    /// Provisions a repository under this backend; see
    /// `GaalRepository::create`.
    pub fn init(&mut self, path: Vec<String>) -> (r: Result<GaalRepository, RepositoryError>)
        ensures
            ({
                let root = pview(path@).push(old(self).defaults.default_gal_dir@);
                let cfgp = root.push(old(self).defaults.default_gal_config@);
                &&& final(self).defaults == old(self).defaults
                &&& (r is Ok ==> final(self).dirs() == created_dirs(old(self).dirs(), root)
                    && final(self).entries() == created_entries(old(self).entries(), root)
                    && final(self).configs() == created_configs(old(self).configs(), cfgp))
                &&& (match r {
                    Ok(repo) => pview(repo.gaal@) == root && repo.config@ == final(self).configs()[cfgp],
                    Err(_) => true,
                })
            }),
    {
        GaalRepository::create(path, self)
    }

    /// Resolves a repository by walking up from a path; see
    /// `GaalRepository::derive_from_path`.
    pub fn derive_from_path(&mut self, path: Vec<String>) -> (r: Result<
        GaalRepository,
        RepositoryError,
    >)
        ensures
            final(self).defaults == old(self).defaults,
            final(self).dirs() == old(self).dirs(),
            final(self).entries() == old(self).entries(),
            final(self).configs() == old(self).configs(),
            ({
                let marker = old(self).defaults.default_gal_dir@;
                let cfg = old(self).defaults.default_gal_config@;
                match find_root(old(self).dirs(), pview(path@), marker) {
                    None => r matches Err(RepositoryError::Inexistent(_)),
                    Some(wd) => {
                        let root = wd.push(marker);
                        let cfgp = root.push(cfg);
                        match r {
                            Ok(repo) => layout_ok(
                                old(self).dirs(),
                                old(self).entries(),
                                old(self).configs(),
                                root,
                                cfgp,
                            ) && pview(repo.gaal@) == root && repo.config@ == old(self).configs()[
                                cfgp
                            ],
                            Err(RepositoryError::Inexistent(_)) => !layout_ok(
                                old(self).dirs(),
                                old(self).entries(),
                                old(self).configs(),
                                root,
                                cfgp,
                            ),
                            Err(RepositoryError::IoError(_)) => true,
                        }
                    },
                }
            }),
    {
        GaalRepository::derive_from_path(path, self)
    }
}

} // verus!
