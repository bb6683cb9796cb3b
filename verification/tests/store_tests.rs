use gaal::directory::{GaalCoreDirectory, GaalCoreDirectoryDefaults};
use gaal::gaal_core::{GaalCore, GaalCoreTrait};
use gaal::memory::GaalCoreDirectoryMemory;
use gaal::object::GaalCoreDirectoryObjectType;
use gaal::object_error::ObjectError;
use gaal::repository::{GaalRepository, RepositoryError};

fn fresh_directory() -> GaalCoreDirectory<GaalCoreDirectoryMemory> {
    GaalCoreDirectory::new(
        GaalCoreDirectoryDefaults {
            default_gal_dir: ".gal".to_string(),
            default_gal_config: "config".to_string(),
        },
        GaalCoreDirectoryMemory::new(),
    )
}

fn path(segs: &[&str]) -> Vec<String> {
    segs.iter().map(|s| s.to_string()).collect()
}

#[test]
fn create_provisions_the_layout() {
    let mut dir = fresh_directory();
    let repo = GaalRepository::create(path(&["home", "user"]), &mut dir).unwrap();
    assert_eq!(repo.gaal, path(&["home", "user", ".gal"]));
    assert!(dir.is_path(&path(&["home", "user", ".gal", "objects"])));
    assert!(dir.is_path(&path(&["home", "user", ".gal", "refs", "heads"])));
    assert!(dir.is_path(&path(&["home", "user", ".gal", "refs", "tags"])));
    assert!(dir.is_path(&path(&["home", "user", ".gal", "branches"])));
    assert!(dir.is_entry(&path(&["home", "user", ".gal", "description"])));
    assert!(dir.is_entry(&path(&["home", "user", ".gal", "HEAD"])));
    assert!(dir.is_config(&path(&["home", "user", ".gal", "config"])));
    assert_eq!(
        repo.config.get_item(&["core", "repositoryformatversion"]).unwrap().get_value(),
        "0"
    );
}

#[test]
fn create_is_idempotent() {
    let mut dir = fresh_directory();
    let first = GaalRepository::create(path(&["w"]), &mut dir);
    assert!(first.is_ok());
    let head_before = dir.get_data(&path(&["w", ".gal", "HEAD"]), false).unwrap();
    let second = GaalRepository::create(path(&["w"]), &mut dir);
    assert!(second.is_ok());
    let head_after = dir.get_data(&path(&["w", ".gal", "HEAD"]), false).unwrap();
    assert_eq!(head_before, head_after);
    assert_eq!(head_after, b"ref: refs/heads/master".to_vec());
    let cfg = dir.get_config(&path(&["w", ".gal", "config"])).unwrap();
    assert_eq!(cfg.get_item(&["core", "bare"]).unwrap().get_value(), "false");
}

#[test]
fn derive_resolves_the_nearest_marked_ancestor() {
    let mut dir = fresh_directory();
    GaalRepository::create(path(&["a"]), &mut dir).unwrap();
    dir.make_path(&path(&["a", "b", "c"])).unwrap();
    let repo = GaalRepository::derive_from_path(path(&["a", "b", "c"]), &mut dir).unwrap();
    assert_eq!(repo.gaal, path(&["a", ".gal"]));
}

#[test]
fn derive_without_marker_is_inexistent() {
    let mut dir = fresh_directory();
    dir.make_path(&path(&["x", "y"])).unwrap();
    let repo = GaalRepository::derive_from_path(path(&["x", "y"]), &mut dir);
    assert!(matches!(repo, Err(RepositoryError::Inexistent(_))));
}

#[test]
fn object_write_is_content_addressed() {
    let mut dir = fresh_directory();
    let repo = GaalRepository::create(path(&["w"]), &mut dir).unwrap();
    let one = GaalCoreDirectoryObjectType::new_object("blob", "hello".to_string()).unwrap();
    let two = GaalCoreDirectoryObjectType::new_object("blob", "hello".to_string()).unwrap();
    let id1 = repo.object_write(&mut dir, one).unwrap();
    let stored1 = dir
        .get_data(&path(&["w", ".gal", "objects", &id1[0..2], &id1[2..]]), true)
        .unwrap();
    let id2 = repo.object_write(&mut dir, two).unwrap();
    let stored2 = dir
        .get_data(&path(&["w", ".gal", "objects", &id2[0..2], &id2[2..]]), true)
        .unwrap();
    assert_eq!(id1, id2);
    assert_eq!(stored1, stored2);
    assert_eq!(stored1, b"blob\x005\x00hello".to_vec());
    assert_eq!(id1.len(), 64);
    assert!(id1.chars().all(|c| c.is_ascii_hexdigit() && !c.is_ascii_uppercase()));
    let other = GaalCoreDirectoryObjectType::new_object("blob", "other".to_string()).unwrap();
    let id3 = repo.object_write(&mut dir, other).unwrap();
    assert_ne!(id1, id3);
}

#[test]
fn object_round_trip_blob() {
    let mut dir = fresh_directory();
    let repo = GaalRepository::create(path(&["w"]), &mut dir).unwrap();
    let blob = GaalCoreDirectoryObjectType::new_object("blob", "some text".to_string()).unwrap();
    let id = repo.object_write(&mut dir, blob).unwrap();
    let back = repo.object_read(&dir, id).unwrap();
    match back {
        GaalCoreDirectoryObjectType::Blob(b) => {
            assert_eq!(b.fmt, "blob");
            assert_eq!(b.data, "some text");
        },
        _ => panic!("expected a blob"),
    }
}

#[test]
fn object_round_trip_commit() {
    let mut dir = fresh_directory();
    let repo = GaalRepository::create(path(&["w"]), &mut dir).unwrap();
    let text = "Subject Hello\nFrom Alice\n\nBody";
    let commit = GaalCoreDirectoryObjectType::new_object("commit", text.to_string()).unwrap();
    let id = repo.object_write(&mut dir, commit).unwrap();
    let back = repo.object_read(&dir, id).unwrap();
    match back {
        GaalCoreDirectoryObjectType::Commit(c) => {
            assert_eq!(c.data.fields["Subject"], "Hello");
            assert_eq!(c.data.fields["From"], "Alice");
            assert_eq!(c.data.message, "Body");
        },
        _ => panic!("expected a commit"),
    }
}

#[test]
fn object_round_trip_tree() {
    let mut dir = fresh_directory();
    let repo = GaalRepository::create(path(&["w"]), &mut dir).unwrap();
    let tree = GaalCoreDirectoryObjectType::Tree(gaal::object::GaalObject {
        fmt: "tree".to_string(),
        data: gaal::tree::Tree {
            leafs: vec![gaal::tree::TreeLeaf {
                mode: "100644".to_string(),
                path: "README.md".to_string(),
                sha: "1234567890abcdef1234567890abcdef12345678".to_string(),
            }],
        },
    });
    let id = repo.object_write(&mut dir, tree).unwrap();
    let back = repo.object_read(&dir, id).unwrap();
    match back {
        GaalCoreDirectoryObjectType::Tree(t) => {
            assert_eq!(t.data.leafs.len(), 1);
            assert_eq!(t.data.leafs[0].path, "README.md");
        },
        _ => panic!("expected a tree"),
    }
}

#[test]
fn object_read_missing_is_inexistent() {
    let mut dir = fresh_directory();
    let repo = GaalRepository::create(path(&["w"]), &mut dir).unwrap();
    let missing = "0".repeat(64);
    let r = repo.object_read(&dir, missing);
    assert!(matches!(r, Err(ObjectError::Inexistent(_))));
}

#[test]
fn unknown_format_is_refused() {
    let r = GaalCoreDirectoryObjectType::new_object("socket", "x".to_string());
    assert!(matches!(r, Err(ObjectError::Inexistent(_))));
}

#[test]
fn hash_to_path_splits_after_two() {
    let dir = fresh_directory();
    let id = "1234567890abcdef1234567890abcdef1234567890abcdef1234567890abcdef";
    let segs = dir.hash_object_to_path(id.to_string());
    assert_eq!(segs.len(), 2);
    assert_eq!(segs[0], "12");
    assert_eq!(segs[1], &id[2..]);
}

#[test]
fn engine_front_door_builds_and_resolves() {
    let mut engine = GaalCore::new(fresh_directory());
    engine.init(path(&["root"])).unwrap();
    let repo = engine.derive_from_path(path(&["root"])).unwrap();
    assert_eq!(repo.gaal, path(&["root", ".gal"]));
}
