use dvcs::error::DvcsError;
use dvcs::persist::trim_text;
use dvcs::repository::RepositoryInterface;

#[test]
fn trimming_takes_the_blanks_off_both_ends() {
    assert_eq!(trim_text(""), "");
    assert_eq!(trim_text(" \t\r\n"), "");
    assert_eq!(trim_text("  a b \n"), "a b");
    assert_eq!(trim_text("master"), "master");
    assert_eq!(trim_text("\nx"), "x");
    assert_eq!(trim_text("é \u{a0}"), "é \u{a0}");
}

#[test]
fn an_object_is_taken_up_under_the_hash_that_its_file_names() {
    let mut repo = RepositoryInterface::init("r");
    let hash = dvcs::hash::Hash::from(b"hi");
    let text = hash.as_string();
    assert!(repo.load_object(&text[..2], &text[2..], b"hi"));
    assert_eq!(repo.get_blob(&hash), Ok(b"hi".to_vec()));
    assert!(!repo.load_object("zz", &text[2..], b"hi"));
    assert!(!repo.load_object(&text[..2], "short", b"hi"));
    assert_eq!(repo.get_object_hashes(), vec![hash]);
}

#[test]
fn a_branch_is_taken_up_from_the_text_of_its_file() {
    let mut repo = RepositoryInterface::init("/r");
    let hash = dvcs::hash::Hash::from(b"c");
    assert_eq!(repo.load_branch("master", &format!("{}\n", hash.as_string())), Ok(()));
    assert_eq!(repo.get_hash_from_branch("master"), Ok(hash.clone()));
    assert_eq!(
        repo.load_branch("dev", "not a hash"),
        Err(DvcsError::IOFailure {
            path: "/r/.my-dvcs/branches/dev".to_string(),
            cause: "not a commit hash".to_string()
        })
    );
    assert_eq!(
        repo.load_branch("master", &hash.as_string()),
        Err(DvcsError::BranchExists { name: "master".to_string() })
    );
    assert_eq!(repo.load_branch("a/b", &hash.as_string()), Err(DvcsError::InvalidPath));
    assert_eq!(repo.get_branches(), vec!["master".to_string()]);
}

#[test]
fn the_head_is_taken_up_from_the_text_of_its_file() {
    let mut repo = RepositoryInterface::init("/r");
    assert_eq!(repo.load_head(""), Ok(()));
    assert_eq!(repo.load_head("\n"), Ok(()));
    assert_eq!(repo.get_current_head(), None);
    assert_eq!(repo.load_head("master\n"), Err(DvcsError::BranchMissing { name: "master".to_string() }));
    repo.create_branch("master", dvcs::hash::Hash::from(b"c")).unwrap();
    assert_eq!(repo.load_head(" master\n"), Ok(()));
    assert_eq!(repo.get_current_head(), Some("master".to_string()));
}

#[test]
fn opening_a_place_without_metadata_fails() {
    assert_eq!(RepositoryInterface::open("/r", true, &vec![]), Err(DvcsError::NotARepository));
    let entries = vec![(".my-dvcs".to_string(), true)];
    assert_eq!(RepositoryInterface::open("/r", true, &entries), Ok(RepositoryInterface::init("/r")));
}
