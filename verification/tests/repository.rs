use dvcs::commit::Commit;
use dvcs::directory::{BlobRef, Directory};
use dvcs::error::DvcsError;
use dvcs::hash::DVCSHash;
use dvcs::repository::{ObjectStore, RepositoryInterface};

fn h(data: &[u8]) -> dvcs::hash::Hash {
    dvcs::hash::Hash::from(data)
}

#[test]
fn put_then_get_gives_the_bytes_back() {
    let mut store = ObjectStore::new();
    let data = b"some bytes".to_vec();
    let key = h(&data);
    assert!(!store.contains(&key));
    assert_eq!(store.put(&key, &data), Ok(()));
    assert!(store.contains(&key));
    assert_eq!(store.get(&key), Some(&data));
    assert_eq!(store.get(&h(b"other")), None);
}

#[test]
fn a_second_put_changes_nothing() {
    let mut store = ObjectStore::new();
    let data = b"some bytes".to_vec();
    let key = h(&data);
    store.put(&key, &data).unwrap();
    store.put(&h(b"x"), b"x").unwrap();
    let once = store.clone();
    store.put(&key, &data).unwrap();
    assert_eq!(store, once);
    assert_eq!(store.len(), 2);
    assert_eq!(store.hashes(), vec![key, h(b"x")]);
}

#[test]
fn put_refuses_bytes_that_do_not_hash_to_the_key() {
    let mut store = ObjectStore::new();
    let key = h(b"a");
    let r = store.put(&key, b"b");
    assert_eq!(r, Err(DvcsError::HashMismatch { expected: key.clone(), actual: h(b"b") }));
    assert_eq!(store.len(), 0);
}

#[test]
fn add_keeps_what_is_stored_under_the_key() {
    let mut store = ObjectStore::new();
    let key = h(b"a");
    store.add(&key, b"first");
    store.add(&key, b"second");
    assert_eq!(store.get(&key), Some(&b"first".to_vec()));
}

#[test]
fn objects_fan_out_by_the_first_two_digits() {
    let key = dvcs::hash::Hash::new("hello");
    assert_eq!(
        RepositoryInterface::get_relative_obj_path(key),
        ".my-dvcs/obj/2c/f24dba5fb0a30e26e83b2ac5b9e29e1b161e5c1fa7425e73043362938b9824.obj"
    );
}

#[test]
fn a_repository_is_known_by_its_metadata_directory() {
    let with = vec![("src".to_string(), true), (".my-dvcs".to_string(), true)];
    let file_only = vec![(".my-dvcs".to_string(), false)];
    assert!(RepositoryInterface::is_repo(true, &with));
    assert!(!RepositoryInterface::is_repo(false, &with));
    assert!(!RepositoryInterface::is_repo(true, &file_only));
    assert!(!RepositoryInterface::is_repo(true, &vec![]));
    assert!(RepositoryInterface::new("/tmp/r", true, &with).is_some());
    assert!(RepositoryInterface::new("/tmp/r", true, &file_only).is_none());
    let repo = RepositoryInterface::new("/tmp/r", true, &with).unwrap();
    assert_eq!(repo.get_repo_path(), "/tmp/r");
    assert_eq!(repo.get_current_head(), None);
    assert_eq!(repo.get_branches(), Vec::<String>::new());
}

#[test]
fn branch_paths_lie_below_the_repository() {
    assert_eq!(RepositoryInterface::init("/tmp/r").get_branch_path("master"), "/tmp/r/.my-dvcs/branches/master");
    assert_eq!(RepositoryInterface::init("/tmp/r/").get_branch_path("x"), "/tmp/r/.my-dvcs/branches/x");
    assert_eq!(RepositoryInterface::init("").get_branch_path("x"), ".my-dvcs/branches/x");
}

#[test]
fn blobs_are_stored_under_the_hash_of_their_bytes() {
    let mut repo = RepositoryInterface::init("r");
    let key = repo.create_blob(b"hi");
    assert_eq!(key, h(b"hi"));
    assert!(repo.has_object(&key));
    assert_eq!(repo.get_object(key.clone()), Ok(b"hi".to_vec()));
    assert_eq!(repo.get_blob(&key), Ok(b"hi".to_vec()));
    assert_eq!(repo.get_object_hashes(), vec![key]);
}

#[test]
fn a_missing_object_is_an_io_failure_at_its_path() {
    let repo = RepositoryInterface::init("r");
    let key = h(b"nothing");
    let path = RepositoryInterface::get_relative_obj_path(key.clone());
    let expected = DvcsError::IOFailure { path, cause: "not found".to_string() };
    assert_eq!(repo.get_object(key.clone()), Err(expected));
    assert!(matches!(repo.get_blob(&key), Err(DvcsError::IOFailure { .. })));
    assert!(matches!(repo.get_commit(&key), Err(DvcsError::IOFailure { .. })));
    assert!(matches!(repo.get_directory(&key), Err(DvcsError::IOFailure { .. })));
}

#[test]
fn a_blob_that_does_not_hash_to_its_key_is_a_mismatch() {
    let mut repo = RepositoryInterface::init("r");
    let key = h(b"a");
    repo.add_object(key.clone(), b"b");
    assert_eq!(repo.get_object(key.clone()), Ok(b"b".to_vec()));
    assert_eq!(repo.get_blob(&key), Err(DvcsError::HashMismatch { expected: key, actual: h(b"b") }));
}

#[test]
fn trees_and_commits_are_stored_under_their_own_hash_and_read_back() {
    let mut repo = RepositoryInterface::init("r");
    let mut dir = Directory::new();
    dir.insert_file_ref("a.txt", BlobRef::new(h(b"hi")));
    let dir_key = repo.add_directory(&dir);
    assert_eq!(dir_key, dir.get_hash());
    assert_eq!(repo.get_directory(&dir_key), Ok(dir.clone()));
    let c = Commit::new(vec![], dir_key.clone(), "me", "msg", "now");
    let c_key = repo.add_commit(&c);
    assert_eq!(c_key, c.get_hash());
    assert_eq!(repo.get_commit(&c_key), Ok(c));
    assert_eq!(repo.get_commit(&dir_key), Err(DvcsError::DecodeFailure { object: dir_key.clone() }));
    assert_eq!(repo.get_directory(&c_key), Err(DvcsError::DecodeFailure { object: c_key }));
}

#[test]
fn a_stored_commit_under_a_wrong_key_is_a_mismatch() {
    let mut repo = RepositoryInterface::init("r");
    let c = Commit::new(vec![], h(b"d"), "me", "msg", "now");
    let bytes = dvcs::serializer::encode_commit(&c);
    let wrong = h(b"wrong");
    repo.add_object(wrong.clone(), &bytes);
    assert_eq!(repo.get_commit(&wrong), Err(DvcsError::HashMismatch { expected: wrong, actual: c.get_hash() }));
}

#[test]
fn branches_are_made_once_and_moved_when_they_exist() {
    let mut repo = RepositoryInterface::init("r");
    let a = h(b"a");
    let b = h(b"b");
    assert_eq!(repo.create_branch("master", a.clone()), Ok(()));
    assert_eq!(repo.create_branch("master", b.clone()), Err(DvcsError::BranchExists { name: "master".to_string() }));
    assert_eq!(repo.get_hash_from_branch("master"), Ok(a.clone()));
    assert_eq!(repo.update_branch_head("dev", b.clone()), Err(DvcsError::BranchMissing { name: "dev".to_string() }));
    assert_eq!(repo.update_branch_head("master", b.clone()), Ok(()));
    assert_eq!(repo.get_hash_from_branch("master"), Ok(b.clone()));
    assert_eq!(repo.get_hash_from_branch("dev"), Err(DvcsError::BranchMissing { name: "dev".to_string() }));
    assert_eq!(repo.create_branch("dev", b.clone()), Ok(()));
    assert_eq!(repo.get_branches(), vec!["master".to_string(), "dev".to_string()]);
    assert_eq!(repo.get_branch_from_hash(b), Some("master".to_string()));
    assert_eq!(repo.get_branch_from_hash(a), None);
}

#[test]
fn branch_names_hold_no_separator() {
    let mut repo = RepositoryInterface::init("r");
    for name in ["", "a/b", "a\\b", ".", ".."] {
        assert_eq!(repo.create_branch(name, h(b"a")), Err(DvcsError::InvalidPath), "{:?}", name);
        assert!(!RepositoryInterface::valid_branch_name(name));
    }
    assert!(RepositoryInterface::valid_branch_name("feature-1"));
    assert!(RepositoryInterface::valid_branch_name("..."));
    assert_eq!(repo.get_branches(), Vec::<String>::new());
}

#[test]
fn the_head_names_an_existing_branch_or_none() {
    let mut repo = RepositoryInterface::init("r");
    assert_eq!(repo.get_current_head(), None);
    assert_eq!(repo.update_current_head("master"), Err(DvcsError::BranchMissing { name: "master".to_string() }));
    repo.create_branch("master", h(b"a")).unwrap();
    assert_eq!(repo.update_current_head("master"), Ok(()));
    assert_eq!(repo.get_current_head(), Some("master".to_string()));
    assert_eq!(repo.update_current_head(""), Ok(()));
    assert_eq!(repo.get_current_head(), None);
}

#[test]
fn init_says_what_to_make_on_disk() {
    let (repo, layout) = dvcs::init::init_repo("/tmp/r");
    assert_eq!(repo, RepositoryInterface::init("/tmp/r"));
    assert_eq!(layout.directories, vec![".my-dvcs", ".my-dvcs/obj", ".my-dvcs/branches"]);
    assert_eq!(layout.head_file, ".my-dvcs/head");
    assert_eq!(layout.staging_file, ".my-dvcs/.tracked_files");
    assert_eq!(layout.log_file, ".my-dvcs/logs/log.txt");
    assert_eq!(dvcs::init::layout(), layout);
}
