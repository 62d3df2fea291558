use dvcs::commit::Commit;
use dvcs::directory::{BlobRef, Directory};
use dvcs::error::DvcsError;
use dvcs::hash::DVCSHash;
use dvcs::inspect::{
    cat_cmd, compare_file_contents, dvcs_log, get_branches_cmd, lines_of_text, show_diff, Change, LineChange,
};
use dvcs::repository::RepositoryInterface;
use dvcs::staging::{stage_add, StagingArea};
use dvcs::status::{check_status, in_metadata, text_contains, track_status, FileTraverser};
use dvcs::sync::{pull, push};
use dvcs::worktree::WorkTree;

fn snapshot_of(entries: &[(&str, &str)]) -> Directory {
    let mut d = Directory::new();
    for (p, content) in entries {
        d.insert_file_ref(p, BlobRef::new(dvcs::hash::Hash::from(content.as_bytes())));
    }
    d
}

#[test]
fn diff_classifies_each_path() {
    let t1 = snapshot_of(&[("same", "s"), ("changed", "1"), ("removed", "r")]);
    let t2 = snapshot_of(&[("same", "s"), ("changed", "2"), ("added", "a")]);
    assert_eq!(
        show_diff(&t1, &t2),
        vec![
            Change::Add { path: "added".to_string() },
            Change::Modify { path: "changed".to_string() },
            Change::Remove { path: "removed".to_string() },
        ]
    );
    assert_eq!(show_diff(&t1, &t1), vec![]);
    assert_eq!(show_diff(&Directory::new(), &Directory::new()), vec![]);
}

#[test]
fn lines_are_split_as_a_line_reader_does() {
    assert_eq!(lines_of_text(&b"".to_vec()), Vec::<Vec<u8>>::new());
    assert_eq!(lines_of_text(&b"a".to_vec()), vec![b"a".to_vec()]);
    assert_eq!(lines_of_text(&b"a\n".to_vec()), vec![b"a".to_vec()]);
    assert_eq!(lines_of_text(&b"a\r\nb\n\nc".to_vec()), vec![b"a".to_vec(), b"b".to_vec(), b"".to_vec(), b"c".to_vec()]);
}

#[test]
fn files_are_compared_line_by_line() {
    let current = b"one\nTWO\nthree\nextra\n".to_vec();
    let previous = b"one\ntwo\nthree\n".to_vec();
    assert_eq!(
        compare_file_contents(&current, &previous),
        vec![LineChange { line: 2, previous: b"two".to_vec(), current: b"TWO".to_vec() }]
    );
    assert_eq!(compare_file_contents(&current, &current), vec![]);
}

#[test]
fn cat_gives_the_bytes_of_a_file_of_a_commit() {
    let mut repo = RepositoryInterface::init("r");
    let mut staging = StagingArea::new();
    let mut tree = WorkTree::new();
    tree.write("a.txt", vec![0, 159, 146, 150]);
    stage_add(&mut staging, "a.txt", true, false).unwrap();
    let c = dvcs::builder::commit_cmd_at(&mut repo, &mut staging, &tree, "m", "me", "t").unwrap();
    assert_eq!(cat_cmd(&repo, c.get_hash(), "a.txt"), Ok(vec![0, 159, 146, 150]));
    assert_eq!(
        cat_cmd(&repo, c.get_hash(), "b.txt"),
        Err(DvcsError::IOFailure { path: "b.txt".to_string(), cause: "not found".to_string() })
    );
    assert!(matches!(cat_cmd(&repo, c.get_dir_hash(), "a.txt"), Err(DvcsError::DecodeFailure { .. })));
}

#[test]
fn the_log_has_the_newest_commit_on_top() {
    let c1 = Commit::new(vec![], dvcs::hash::Hash::from(b"d"), "me", "first", "t1");
    let c2 = Commit::new(vec![c1.get_hash()], dvcs::hash::Hash::from(b"d"), "me", "second", "t2");
    let log1 = dvcs_log("", &c1);
    let log2 = dvcs_log(&log1, &c2);
    let r1 = format!("Commit:\nhash: {}\nauthor: me\nmessage: first\ntime: t1\n", c1.get_hash().as_string());
    let r2 = format!("Commit:\nhash: {}\nauthor: me\nmessage: second\ntime: t2\n", c2.get_hash().as_string());
    assert_eq!(log1, r1);
    assert_eq!(log2, format!("{}{}", r2, r1));
}

#[test]
fn heads_lists_the_branches_and_the_current_one() {
    let mut repo = RepositoryInterface::init("r");
    assert_eq!(get_branches_cmd(&repo), Err(DvcsError::DetachedHead));
    repo.create_branch("master", dvcs::hash::Hash::from(b"a")).unwrap();
    repo.update_current_head("master").unwrap();
    assert_eq!(get_branches_cmd(&repo), Ok("master\n*curr: master".to_string()));
    repo.create_branch("dev", dvcs::hash::Hash::from(b"a")).unwrap();
    repo.update_current_head("dev").unwrap();
    assert_eq!(get_branches_cmd(&repo), Ok("master\ndev\n*curr: dev".to_string()));
}

#[test]
fn status_gives_the_staged_and_the_untracked_files() {
    let mut s = StagingArea::new();
    stage_add(&mut s, "a.txt", true, false).unwrap();
    stage_add(&mut s, "gone.txt", true, false).unwrap();
    let files = vec!["a.txt".to_string(), "b.txt".to_string(), ".my-dvcs/head".to_string(), "dir/c".to_string()];
    let (staged, untracked) = track_status(&s, &files);
    assert_eq!(staged, vec!["a.txt".to_string(), "gone.txt".to_string()]);
    assert_eq!(untracked, vec!["b.txt".to_string(), "dir/c".to_string()]);
    assert!(in_metadata(".my-dvcs"));
    assert!(in_metadata(".my-dvcs/x"));
    assert!(!in_metadata(".my-dvcs-not"));
}

#[test]
fn check_status_sorts_the_files_by_state() {
    let mut s = StagingArea::new();
    stage_add(&mut s, "a", true, false).unwrap();
    stage_add(&mut s, "b", true, false).unwrap();
    let files = vec![("a".to_string(), false), ("b".to_string(), true), ("c".to_string(), false), ("d".to_string(), true)];
    let report = check_status(&s, &files);
    assert_eq!(report.staged, vec!["a".to_string()]);
    assert_eq!(report.modified, vec!["b".to_string()]);
    assert_eq!(report.untracked, vec!["c".to_string(), "d".to_string()]);
}

#[test]
fn the_traverser_passes_over_hidden_places() {
    let t = FileTraverser::new(".git".to_string());
    let mut all = vec!["kept".to_string()];
    let entries = vec!["a".to_string(), ".git/config".to_string(), "x/.gitignore".to_string(), "kept".to_string(), "b".to_string(), "a".to_string()];
    t.recursive_file_traversal(&entries, &mut all);
    assert_eq!(all, vec!["kept".to_string(), "a".to_string(), "b".to_string()]);
    assert!(text_contains("abc", ""));
    assert!(text_contains("abc", "bc"));
    assert!(text_contains("abc", "abc"));
    assert!(!text_contains("abc", "abcd"));
    assert!(!text_contains("abc", "ac"));
    assert!(text_contains("", ""));
}

#[test]
fn test_pull_valid_paths() {
    let mut remote = WorkTree::new();
    remote.write("test.txt", b"Hello, world!".to_vec());
    let mut local = WorkTree::new();
    assert!(!pull(&remote, &mut local, false));
    assert_eq!(local.read("test.txt"), Some(&b"Hello, world!".to_vec()));
}

#[test]
fn test_push_valid_paths() {
    let mut local = WorkTree::new();
    local.write("test.txt", b"Hello, world!".to_vec());
    let mut remote = WorkTree::new();
    assert!(!push(&local, &mut remote, false));
    assert_eq!(remote.read("test.txt"), Some(&b"Hello, world!".to_vec()));
}

#[test]
fn a_transfer_stops_at_the_first_conflict() {
    let mut source = WorkTree::new();
    source.write("a", b"new a\n".to_vec());
    source.write("b", b"source b\n".to_vec());
    source.write("c", b"c\n".to_vec());
    let mut dest = WorkTree::new();
    dest.write("b", b"dest b\n".to_vec());
    let mut forced = dest.clone();
    assert!(pull(&source, &mut dest, false));
    assert_eq!(dest.read("a"), Some(&b"new a\n".to_vec()));
    assert_eq!(dest.read("b"), Some(&b"dest b\n".to_vec()));
    assert_eq!(dest.read("c"), None);
    assert!(pull(&source, &mut forced, true));
    assert_eq!(forced.read("b"), Some(&b"source b\n".to_vec()));
    assert_eq!(forced.read("c"), None);
}

#[test]
fn a_transfer_without_conflict_brings_the_source_over() {
    let mut source = WorkTree::new();
    source.write("a", b"line\nmore\n".to_vec());
    let mut dest = WorkTree::new();
    dest.write("a", b"line\n".to_vec());
    assert!(!pull(&source, &mut dest, false));
    assert_eq!(dest.read("a"), Some(&b"line\nmore\n".to_vec()));
}
