use vstd::prelude::*;

verus! {

use crate::directory::{GaalCoreDirectory, GaalCoreDirectoryActionsType, pview};
use crate::repository::{GaalRepository, RepositoryError, created_dirs, created_entries, created_configs, layout_ok, find_root};

/// The engine's front door: it owns a directory layer and hands out
/// repositories.
pub struct GaalCore<GCDA: GaalCoreDirectoryActionsType> {
    pub directory: GaalCoreDirectory<GCDA>,
}

/// What the engine offers: building it over a directory layer, creating a
/// repository, and resolving one by upward search.
pub trait GaalCoreTrait<GCDA: GaalCoreDirectoryActionsType>: Sized {
    /// The directory layer the engine drives.
    spec fn dir(&self) -> GaalCoreDirectory<GCDA>;

    fn new(directory: GaalCoreDirectory<GCDA>) -> (r: Self)
        ensures
            r.dir() == directory,
    ;

    /// Provisions a repository; see `GaalRepository::create`.
    fn init(&mut self, path: Vec<String>) -> (r: Result<GaalRepository, RepositoryError>)
        ensures
            ({
                let root = pview(path@).push(old(self).dir().defaults.default_gal_dir@);
                let cfgp = root.push(old(self).dir().defaults.default_gal_config@);
                &&& final(self).dir().defaults == old(self).dir().defaults
                &&& (r is Ok ==> final(self).dir().dirs() == created_dirs(
                    old(self).dir().dirs(),
                    root,
                ) && final(self).dir().entries() == created_entries(
                    old(self).dir().entries(),
                    root,
                ) && final(self).dir().configs() == created_configs(
                    old(self).dir().configs(),
                    cfgp,
                ))
                &&& (match r {
                    Ok(repo) => pview(repo.gaal@) == root && repo.config@ == final(self).dir().configs()[cfgp],
                    Err(_) => true,
                })
            }),
    ;

    /// Resolves a repository by upward search; see
    /// `GaalRepository::derive_from_path`.
    fn derive_from_path(&mut self, path: Vec<String>) -> (r: Result<
        GaalRepository,
        RepositoryError,
    >)
        ensures
            final(self).dir().defaults == old(self).dir().defaults,
            final(self).dir().dirs() == old(self).dir().dirs(),
            final(self).dir().entries() == old(self).dir().entries(),
            final(self).dir().configs() == old(self).dir().configs(),
            ({
                let marker = old(self).dir().defaults.default_gal_dir@;
                let cfg = old(self).dir().defaults.default_gal_config@;
                match find_root(old(self).dir().dirs(), pview(path@), marker) {
                    None => r matches Err(RepositoryError::Inexistent(_)),
                    Some(wd) => {
                        let root = wd.push(marker);
                        let cfgp = root.push(cfg);
                        match r {
                            Ok(repo) => layout_ok(
                                old(self).dir().dirs(),
                                old(self).dir().entries(),
                                old(self).dir().configs(),
                                root,
                                cfgp,
                            ) && pview(repo.gaal@) == root && repo.config@ == old(self).dir().configs()[cfgp],
                            Err(RepositoryError::Inexistent(_)) => !layout_ok(
                                old(self).dir().dirs(),
                                old(self).dir().entries(),
                                old(self).dir().configs(),
                                root,
                                cfgp,
                            ),
                            Err(RepositoryError::IoError(_)) => true,
                        }
                    },
                }
            }),
    ;
}

impl<GCDA: GaalCoreDirectoryActionsType> GaalCoreTrait<GCDA> for GaalCore<GCDA> {
    open spec fn dir(&self) -> GaalCoreDirectory<GCDA> {
        self.directory
    }

    fn new(directory: GaalCoreDirectory<GCDA>) -> (r: Self) {
        Self { directory }
    }

    fn init(&mut self, path: Vec<String>) -> (r: Result<GaalRepository, RepositoryError>) {
        self.directory.init(path)
    }

    fn derive_from_path(&mut self, path: Vec<String>) -> (r: Result<
        GaalRepository,
        RepositoryError,
    >) {
        self.directory.derive_from_path(path)
    }
}

} // verus!
