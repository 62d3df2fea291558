use dvcs::builder::{build_commit, commit, commit_cmd, commit_cmd_at};
use dvcs::checkout::{checkout, checkout_cmd, CheckoutTarget};
use dvcs::commit::Commit;
use dvcs::directory::{BlobRef, Directory};
use dvcs::error::{ConflictKind, DvcsError};
use dvcs::hash::DVCSHash;
use dvcs::inspect::create_branch_cmd;
use dvcs::merge::{get_common_ancestor, merge, merge_cmd, merge_cmd_at, merge_trees};
use dvcs::repository::RepositoryInterface;
use dvcs::staging::{stage_add, StagingArea};
use dvcs::worktree::WorkTree;

struct World {
    repo: RepositoryInterface,
    staging: StagingArea,
    tree: WorkTree,
    tick: u32,
}

fn world() -> World {
    World { repo: RepositoryInterface::init("/tmp/r"), staging: StagingArea::new(), tree: WorkTree::new(), tick: 0 }
}

fn save(w: &mut World, path: &str, text: &str) {
    w.tree.write(path, text.as_bytes().to_vec());
}

fn add(w: &mut World, path: &str) {
    let exists = w.tree.contains(path);
    stage_add(&mut w.staging, path, exists, false).unwrap();
}

fn commit_now(w: &mut World, message: &str) -> Result<Commit, DvcsError> {
    w.tick += 1;
    let now = format!("2024-01-01 00:00:00.{:03}", w.tick);
    commit_cmd_at(&mut w.repo, &mut w.staging, &w.tree, message, "You", &now)
}

fn master(w: &World) -> dvcs::hash::Hash {
    w.repo.get_hash_from_branch("master").unwrap()
}

#[test]
fn init_and_first_commit() {
    let mut w = world();
    save(&mut w, "a.txt", "hi");
    add(&mut w, "a.txt");
    let c1 = commit_now(&mut w, "c1").unwrap();
    assert_eq!(w.repo.get_branches(), vec!["master".to_string()]);
    assert_eq!(w.repo.get_current_head(), Some("master".to_string()));
    assert_eq!(master(&w), c1.get_hash());
    assert!(w.repo.get_object_hashes().len() >= 3);
    assert_eq!(c1.get_parent_hashes(), vec![]);
    assert_eq!(c1.get_message(), "c1");
    assert_eq!(c1.get_author(), "You");
    assert_eq!(w.staging.len(), 0);
    assert_eq!(w.repo.get_commit(&c1.get_hash()), Ok(c1.clone()));
    let tree = w.repo.get_directory(&c1.get_dir_hash()).unwrap();
    let blob = tree.get_file_ref("a.txt").unwrap().get_content_hash().clone();
    assert_eq!(blob, dvcs::hash::Hash::from(b"hi"));
    assert_eq!(w.repo.get_blob(&blob), Ok(b"hi".to_vec()));
}

#[test]
fn second_commit_advances_master() {
    let mut w = world();
    save(&mut w, "a.txt", "hi");
    add(&mut w, "a.txt");
    let c1 = commit_now(&mut w, "c1").unwrap();
    save(&mut w, "a.txt", "hi2");
    add(&mut w, "a.txt");
    let c2 = commit_now(&mut w, "c2").unwrap();
    assert_ne!(c1.get_hash(), c2.get_hash());
    assert_eq!(master(&w), c2.get_hash());
    assert_eq!(c2.get_parent_hashes(), vec![c1.get_hash()]);
}

#[test]
fn checkout_round_trip() {
    let mut w = world();
    save(&mut w, "a.txt", "hi");
    add(&mut w, "a.txt");
    commit_now(&mut w, "c1").unwrap();
    save(&mut w, "a.txt", "hi2");
    add(&mut w, "a.txt");
    commit_now(&mut w, "c2").unwrap();
    assert!(w.tree.remove("a.txt"));
    assert_eq!(w.tree.read("a.txt"), None);
    assert_eq!(checkout_cmd(&mut w.repo, &mut w.tree, "master"), Ok(()));
    assert_eq!(w.tree.read("a.txt"), Some(&b"hi2".to_vec()));
    assert_eq!(w.repo.get_current_head(), Some("master".to_string()));
}

#[test]
fn commit_then_checkout_on_a_clean_tree_gives_the_files_back() {
    let mut w = world();
    save(&mut w, "a.txt", "alpha");
    save(&mut w, "dir/b.bin", "\u{0}\u{1}beta\n");
    save(&mut w, "dir/deeper/c", "");
    add(&mut w, "a.txt");
    add(&mut w, "dir/b.bin");
    add(&mut w, "dir/deeper/c");
    let c = commit_now(&mut w, "all").unwrap();
    let mut clean = WorkTree::new();
    assert_eq!(checkout(&mut w.repo, &mut clean, &CheckoutTarget::Commit(c.get_hash())), Ok(()));
    assert_eq!(clean.len(), 3);
    for p in ["a.txt", "dir/b.bin", "dir/deeper/c"] {
        assert_eq!(clean.read(p), w.tree.read(p));
    }
    assert_eq!(w.repo.get_current_head(), None);
}

#[test]
fn checkout_takes_away_only_the_files_of_the_previous_tree() {
    let mut w = world();
    save(&mut w, "a.txt", "a1");
    save(&mut w, "only-in-first.txt", "x");
    add(&mut w, "a.txt");
    add(&mut w, "only-in-first.txt");
    let c1 = commit_now(&mut w, "c1").unwrap();
    save(&mut w, "a.txt", "a2");
    add(&mut w, "a.txt");
    commit_now(&mut w, "c2").unwrap();
    save(&mut w, "untracked.txt", "keep me");
    w.repo.create_branch("old", c1.get_hash()).unwrap();
    assert_eq!(checkout_cmd(&mut w.repo, &mut w.tree, "old"), Ok(()));
    assert_eq!(w.tree.read("a.txt"), Some(&b"a1".to_vec()));
    assert_eq!(w.tree.read("only-in-first.txt"), Some(&b"x".to_vec()));
    assert_eq!(w.tree.read("untracked.txt"), Some(&b"keep me".to_vec()));
    assert_eq!(checkout_cmd(&mut w.repo, &mut w.tree, "master"), Ok(()));
    assert_eq!(w.tree.read("a.txt"), Some(&b"a2".to_vec()));
    assert_eq!(w.tree.read("only-in-first.txt"), None);
    assert_eq!(w.tree.read("untracked.txt"), Some(&b"keep me".to_vec()));
}

#[test]
fn checkout_of_a_missing_branch_changes_nothing() {
    let mut w = world();
    save(&mut w, "a.txt", "hi");
    add(&mut w, "a.txt");
    commit_now(&mut w, "c1").unwrap();
    let repo = w.repo.clone();
    let tree = w.tree.clone();
    assert_eq!(
        checkout_cmd(&mut w.repo, &mut w.tree, "nope"),
        Err(DvcsError::BranchMissing { name: "nope".to_string() })
    );
    assert_eq!(w.repo, repo);
    assert_eq!(w.tree, tree);
}

#[test]
fn branching() {
    let mut w = world();
    save(&mut w, "a.txt", "hi");
    add(&mut w, "a.txt");
    commit_now(&mut w, "c1").unwrap();
    save(&mut w, "a.txt", "hi2");
    add(&mut w, "a.txt");
    let c2 = commit_now(&mut w, "c2").unwrap();
    assert_eq!(create_branch_cmd(&mut w.repo, "feature"), Ok(()));
    assert_eq!(w.repo.get_hash_from_branch("feature"), Ok(c2.get_hash()));
    assert_eq!(master(&w), c2.get_hash());
    assert_eq!(create_branch_cmd(&mut w.repo, "feature"), Err(DvcsError::BranchExists { name: "feature".to_string() }));
    checkout_cmd(&mut w.repo, &mut w.tree, "feature").unwrap();
    save(&mut w, "a.txt", "feat");
    add(&mut w, "a.txt");
    let cf = commit_now(&mut w, "cf").unwrap();
    assert_eq!(w.repo.get_hash_from_branch("feature"), Ok(cf.get_hash()));
    assert_eq!(master(&w), c2.get_hash());
    assert_eq!(cf.get_parent_hashes(), vec![c2.get_hash()]);
}

fn up_to_feature() -> (World, Commit, Commit) {
    let mut w = world();
    save(&mut w, "a.txt", "hi");
    add(&mut w, "a.txt");
    commit_now(&mut w, "c1").unwrap();
    save(&mut w, "a.txt", "hi2");
    add(&mut w, "a.txt");
    let c2 = commit_now(&mut w, "c2").unwrap();
    create_branch_cmd(&mut w.repo, "feature").unwrap();
    checkout_cmd(&mut w.repo, &mut w.tree, "feature").unwrap();
    save(&mut w, "a.txt", "feat");
    add(&mut w, "a.txt");
    let cf = commit_now(&mut w, "cf").unwrap();
    checkout_cmd(&mut w.repo, &mut w.tree, "master").unwrap();
    assert_eq!(w.tree.read("a.txt"), Some(&b"hi2".to_vec()));
    (w, c2, cf)
}

#[test]
fn trivial_merge() {
    let (mut w, _c2, cf) = up_to_feature();
    save(&mut w, "b.txt", "new");
    add(&mut w, "a.txt");
    add(&mut w, "b.txt");
    let cm = commit_now(&mut w, "cm").unwrap();
    let m = merge_cmd_at(&mut w.repo, "feature", "2024-01-02 00:00:00.000").unwrap();
    assert_eq!(m.get_parent_hashes(), vec![cm.get_hash(), cf.get_hash()]);
    assert_eq!(m.get_author(), "DVCS MERGE");
    assert_eq!(m.get_message(), "Merge Commit");
    assert_eq!(m.get_time_stamp(), "2024-01-02 00:00:00.000");
    assert_eq!(master(&w), m.get_hash());
    assert_eq!(w.repo.get_hash_from_branch("feature"), Ok(cf.get_hash()));
    assert_eq!(w.repo.get_current_head(), Some("master".to_string()));
    let tree = w.repo.get_directory(&m.get_dir_hash()).unwrap();
    assert_eq!(tree.len(), 2);
    let a = tree.get_file_ref("a.txt").unwrap().get_content_hash().clone();
    let b = tree.get_file_ref("b.txt").unwrap().get_content_hash().clone();
    assert_eq!(w.repo.get_blob(&a), Ok(b"feat".to_vec()));
    assert_eq!(w.repo.get_blob(&b), Ok(b"new".to_vec()));
    checkout_cmd(&mut w.repo, &mut w.tree, "master").unwrap();
    assert_eq!(w.tree.read("a.txt"), Some(&b"feat".to_vec()));
    assert_eq!(w.tree.read("b.txt"), Some(&b"new".to_vec()));
}

#[test]
fn a_commit_records_the_staged_files_only() {
    let (mut w, _c2, _cf) = up_to_feature();
    save(&mut w, "b.txt", "new");
    add(&mut w, "b.txt");
    let cm = commit_now(&mut w, "cm").unwrap();
    let tree = w.repo.get_directory(&cm.get_dir_hash()).unwrap();
    assert_eq!(tree.len(), 1);
    assert!(tree.contains_file_ref("b.txt"));
    let before = w.repo.clone();
    let r = merge_cmd_at(&mut w.repo, "feature", "t");
    assert_eq!(
        r,
        Err(DvcsError::MergeConflict { paths: vec!["a.txt".to_string()], kind: ConflictKind::DeleteModify })
    );
    assert_eq!(w.repo, before);
}

#[test]
fn conflict() {
    let mut w = world();
    save(&mut w, "a.txt", "base\nL2\n");
    add(&mut w, "a.txt");
    let c1 = commit_now(&mut w, "c1").unwrap();
    create_branch_cmd(&mut w.repo, "X").unwrap();
    create_branch_cmd(&mut w.repo, "Y").unwrap();
    checkout_cmd(&mut w.repo, &mut w.tree, "X").unwrap();
    save(&mut w, "a.txt", "from X\nL2\n");
    add(&mut w, "a.txt");
    let cx = commit_now(&mut w, "cx").unwrap();
    checkout_cmd(&mut w.repo, &mut w.tree, "Y").unwrap();
    save(&mut w, "a.txt", "from Y\nL2\n");
    add(&mut w, "a.txt");
    let cy = commit_now(&mut w, "cy").unwrap();
    checkout_cmd(&mut w.repo, &mut w.tree, "X").unwrap();
    let before = w.repo.clone();
    let r = merge_cmd(&mut w.repo, "Y");
    assert_eq!(r, Err(DvcsError::MergeConflict { paths: vec!["a.txt".to_string()], kind: ConflictKind::Content }));
    assert_eq!(w.repo, before);
    assert_eq!(master(&w), c1.get_hash());
    assert_eq!(w.repo.get_hash_from_branch("X"), Ok(cx.get_hash()));
    assert_eq!(w.repo.get_hash_from_branch("Y"), Ok(cy.get_hash()));
}

#[test]
fn both_sides_change_different_lines_and_the_text_is_merged() {
    let mut w = world();
    save(&mut w, "a.txt", "one\ntwo\nthree\nfour\nfive\n");
    add(&mut w, "a.txt");
    commit_now(&mut w, "c1").unwrap();
    create_branch_cmd(&mut w.repo, "other").unwrap();
    save(&mut w, "a.txt", "ONE\ntwo\nthree\nfour\nfive\n");
    add(&mut w, "a.txt");
    let here = commit_now(&mut w, "here").unwrap();
    checkout_cmd(&mut w.repo, &mut w.tree, "other").unwrap();
    save(&mut w, "a.txt", "one\ntwo\nthree\nfour\nFIVE\n");
    add(&mut w, "a.txt");
    let there = commit_now(&mut w, "there").unwrap();
    checkout_cmd(&mut w.repo, &mut w.tree, "master").unwrap();
    let m = merge_cmd(&mut w.repo, "other").unwrap();
    assert_eq!(m.get_parent_hashes(), vec![here.get_hash(), there.get_hash()]);
    assert_eq!(m.get_time_stamp().len(), 23);
    let tree = w.repo.get_directory(&m.get_dir_hash()).unwrap();
    let a = tree.get_file_ref("a.txt").unwrap().get_content_hash().clone();
    assert_eq!(w.repo.get_blob(&a), Ok(b"ONE\ntwo\nthree\nfour\nFIVE\n".to_vec()));
    assert_eq!(a, dvcs::hash::Hash::from(b"ONE\ntwo\nthree\nfour\nFIVE\n"));
}

#[test]
fn merging_a_commit_with_itself_gives_its_tree() {
    let mut w = world();
    save(&mut w, "a.txt", "hi");
    save(&mut w, "b.txt", "there");
    add(&mut w, "a.txt");
    add(&mut w, "b.txt");
    let c = commit_now(&mut w, "c1").unwrap();
    let before = w.repo.clone();
    let merged = merge(&mut w.repo, &c, &c).unwrap();
    assert_eq!(merged, w.repo.get_directory(&c.get_dir_hash()).unwrap());
    assert_eq!(merged.get_hash(), c.get_dir_hash());
    assert_eq!(w.repo, before);
}

#[test]
fn the_ancestor_of_a_commit_and_itself_or_its_parent() {
    let mut w = world();
    save(&mut w, "a.txt", "hi");
    add(&mut w, "a.txt");
    let c1 = commit_now(&mut w, "c1").unwrap();
    save(&mut w, "a.txt", "hi2");
    add(&mut w, "a.txt");
    let c2 = commit_now(&mut w, "c2").unwrap();
    save(&mut w, "a.txt", "hi3");
    add(&mut w, "a.txt");
    let c3 = commit_now(&mut w, "c3").unwrap();
    assert_eq!(get_common_ancestor(&w.repo, &c2, &c2).unwrap().get_hash(), c2.get_hash());
    assert_eq!(get_common_ancestor(&w.repo, &c2, &c1).unwrap().get_hash(), c1.get_hash());
    assert_eq!(get_common_ancestor(&w.repo, &c1, &c2).unwrap().get_hash(), c1.get_hash());
    assert_eq!(get_common_ancestor(&w.repo, &c3, &c1).unwrap().get_hash(), c1.get_hash());
}

#[test]
fn histories_without_a_common_commit_have_no_ancestor() {
    let mut w = world();
    let d = Directory::new();
    let a = build_commit("a", &vec![], &d, "root a", "t1", &mut w.repo);
    let b = build_commit("b", &vec![], &d, "root b", "t2", &mut w.repo);
    assert_eq!(get_common_ancestor(&w.repo, &a, &b), Err(DvcsError::NoCommonAncestor));
    let before = w.repo.clone();
    assert_eq!(merge(&mut w.repo, &a, &b), Err(DvcsError::NoCommonAncestor));
    assert_eq!(w.repo, before);
}

fn tree_of(entries: &[(&str, &str)]) -> Directory {
    let mut d = Directory::new();
    for (p, content) in entries {
        d.insert_file_ref(p, BlobRef::new(dvcs::hash::Hash::from(content.as_bytes())));
    }
    d
}

#[test]
fn merge_without_line_merges_does_not_depend_on_the_direction() {
    let base = tree_of(&[("same", "s"), ("left", "l0"), ("right", "r0"), ("both", "b0"), ("gone-left", "g"), ("gone-both", "x")]);
    let a = tree_of(&[("same", "s"), ("left", "l1"), ("right", "r0"), ("both", "b1"), ("new-a", "na"), ("new-both", "nb")]);
    let b = tree_of(&[("same", "s"), ("left", "l0"), ("right", "r1"), ("both", "b1"), ("gone-left", "g"), ("new-b", "nb"), ("new-both", "nb")]);
    let mut repo = RepositoryInterface::init("r");
    let ab = merge_trees(&mut repo, &base, &a, &b).unwrap();
    let ba = merge_trees(&mut repo, &base, &b, &a).unwrap();
    assert_eq!(ab, ba);
    assert_eq!(ab.get_hash(), ba.get_hash());
    let expected = tree_of(&[("same", "s"), ("left", "l1"), ("right", "r1"), ("both", "b1"), ("new-a", "na"), ("new-b", "nb"), ("new-both", "nb")]);
    assert_eq!(ab, expected);
    assert_eq!(repo.get_object_hashes().len(), 0);
}

#[test]
fn a_change_on_one_side_and_a_deletion_on_the_other_is_a_conflict() {
    let base = tree_of(&[("m", "0"), ("z", "0")]);
    let changed = tree_of(&[("m", "1"), ("z", "1")]);
    let deleted = tree_of(&[]);
    let mut repo = RepositoryInterface::init("r");
    assert_eq!(
        merge_trees(&mut repo, &base, &changed, &deleted),
        Err(DvcsError::MergeConflict {
            paths: vec!["m".to_string(), "z".to_string()],
            kind: ConflictKind::ModifyDelete
        })
    );
    assert_eq!(
        merge_trees(&mut repo, &base, &deleted, &changed),
        Err(DvcsError::MergeConflict {
            paths: vec!["m".to_string(), "z".to_string()],
            kind: ConflictKind::DeleteModify
        })
    );
}

#[test]
fn a_conflict_is_reported_with_the_paths_that_conflict_in_the_same_way() {
    let mut repo = RepositoryInterface::init("r");
    for content in ["0\n", "1\n", "2\n"] {
        repo.create_blob(content.as_bytes());
    }
    let base = tree_of(&[("a", "0\n"), ("b", "0\n"), ("c", "0\n"), ("d", "0\n"), ("e", "0\n")]);
    let into = tree_of(&[("a", "0\n"), ("b", "1\n"), ("c", "1\n"), ("e", "1\n")]);
    let from = tree_of(&[("a", "2\n"), ("b", "2\n"), ("d", "2\n"), ("e", "2\n")]);
    let before = repo.clone();
    assert_eq!(
        merge_trees(&mut repo, &base, &into, &from),
        Err(DvcsError::MergeConflict {
            paths: vec!["b".to_string(), "e".to_string()],
            kind: ConflictKind::Content
        })
    );
    assert_eq!(repo, before);
}

#[test]
fn a_line_merge_needs_the_blobs() {
    let base = tree_of(&[("f", "0")]);
    let a = tree_of(&[("f", "1")]);
    let b = tree_of(&[("f", "2")]);
    let mut repo = RepositoryInterface::init("r");
    let r = merge_trees(&mut repo, &base, &a, &b);
    let path = RepositoryInterface::get_relative_obj_path(dvcs::hash::Hash::from(b"0"));
    assert_eq!(r, Err(DvcsError::IOFailure { path, cause: "not found".to_string() }));
}

#[test]
fn files_added_on_both_sides_are_merged_with_an_empty_ancestor() {
    let mut repo = RepositoryInterface::init("r");
    repo.create_blob(b"same line\n");
    repo.create_blob(b"one\n");
    repo.create_blob(b"two\n");
    let base = tree_of(&[]);
    let same_a = tree_of(&[("f", "same line\n")]);
    let same_b = tree_of(&[("f", "same line\n")]);
    assert_eq!(merge_trees(&mut repo, &base, &same_a, &same_b), Ok(tree_of(&[("f", "same line\n")])));
    let a = tree_of(&[("f", "one\n")]);
    let b = tree_of(&[("f", "two\n")]);
    assert_eq!(
        merge_trees(&mut repo, &base, &a, &b),
        Err(DvcsError::MergeConflict { paths: vec!["f".to_string()], kind: ConflictKind::Content })
    );
}

#[test]
fn commit_needs_something_staged() {
    let mut w = world();
    let before = w.repo.clone();
    assert_eq!(commit_now(&mut w, "nothing"), Err(DvcsError::EmptyStaging));
    assert_eq!(w.repo, before);
}

#[test]
fn commit_of_a_staged_path_without_a_file_changes_nothing() {
    let mut w = world();
    save(&mut w, "a.txt", "hi");
    add(&mut w, "a.txt");
    w.staging.add("gone.txt");
    let before = w.repo.clone();
    assert_eq!(
        commit_now(&mut w, "c"),
        Err(DvcsError::IOFailure { path: "gone.txt".to_string(), cause: "not found".to_string() })
    );
    assert_eq!(w.repo, before);
    assert_eq!(w.staging.len(), 2);
}

#[test]
fn commit_without_a_head_needs_master_to_be_free() {
    let mut w = world();
    save(&mut w, "a.txt", "hi");
    add(&mut w, "a.txt");
    let c1 = commit_now(&mut w, "c1").unwrap();
    checkout(&mut w.repo, &mut w.tree, &CheckoutTarget::Commit(c1.get_hash())).unwrap();
    assert_eq!(w.repo.get_current_head(), None);
    add(&mut w, "a.txt");
    assert_eq!(commit_now(&mut w, "c2"), Err(DvcsError::BranchExists { name: "master".to_string() }));
    assert_eq!(create_branch_cmd(&mut w.repo, "x"), Err(DvcsError::DetachedHead));
    assert_eq!(merge_cmd_at(&mut w.repo, "master", "t"), Err(DvcsError::DetachedHead));
}

#[test]
fn merge_of_a_missing_branch_fails() {
    let mut w = world();
    save(&mut w, "a.txt", "hi");
    add(&mut w, "a.txt");
    commit_now(&mut w, "c1").unwrap();
    assert_eq!(merge_cmd_at(&mut w.repo, "nope", "t"), Err(DvcsError::BranchMissing { name: "nope".to_string() }));
}

#[test]
fn commit_test() {
    let mut repo = RepositoryInterface::init("test");
    let mut tree = WorkTree::new();
    tree.write("test.txt", b"one".to_vec());
    tree.write("idk/test.txt", b"two".to_vec());
    let file_paths = vec!["test.txt".to_string(), "idk/test.txt".to_string()];

    let dir = repo.create_dir_from_files(&file_paths, &tree).unwrap();

    println!("Created directory");
    let c = commit("Justin", &vec![], &dir, "Initial commit", &mut repo);
    assert_eq!(c.get_author(), "Justin");
    assert_eq!(c.get_message(), "Initial commit");
    assert_eq!(c.get_dir_hash(), dir.get_hash());
    assert_eq!(c.get_time_stamp().len(), 23);
    assert_eq!(repo.get_commit(&c.get_hash()), Ok(c));
    assert_eq!(repo.get_directory(&dir.get_hash()), Ok(dir));
}

#[test]
fn commit_cmd_test() {
    let mut repo = RepositoryInterface::init(".");
    let mut staging = StagingArea::new();
    let mut tree = WorkTree::new();
    tree.write("test.txt", b"one".to_vec());
    tree.write("idk/test.txt", b"two".to_vec());
    stage_add(&mut staging, "test.txt", true, false).unwrap();
    stage_add(&mut staging, "idk/test.txt", true, false).unwrap();
    println!("Added to staging area");

    let c = commit_cmd(&mut repo, &mut staging, &tree, "Commit 2", "Juicetin").unwrap();
    assert_eq!(c.get_author(), "Juicetin");
    assert_eq!(c.get_message(), "Commit 2");
    assert_eq!(repo.get_hash_from_branch("master"), Ok(c.get_hash()));
    assert_eq!(staging.len(), 0);
}

#[test]
fn commit_empty_cmd_test() {
    let mut repo = RepositoryInterface::init(".");
    let mut staging = StagingArea::new();
    let tree = WorkTree::new();
    assert_eq!(commit_cmd(&mut repo, &mut staging, &tree, "Empty Commit", "Juicetin"), Err(DvcsError::EmptyStaging));
}

#[test]
fn checkout_test() {
    let mut repo = RepositoryInterface::init("test");
    let mut tree = WorkTree::new();
    tree.write("test.txt", b"one".to_vec());
    tree.write("idk/test.txt", b"two".to_vec());
    let file_paths = vec!["test.txt".to_string(), "idk/test.txt".to_string()];

    let dir = repo.create_dir_from_files(&file_paths, &tree).unwrap();
    let c = commit("Justin", &vec![], &dir, "Initial commit", &mut repo);

    let mut out = WorkTree::new();
    assert_eq!(checkout(&mut repo, &mut out, &CheckoutTarget::Commit(c.get_hash())), Ok(()));
    assert_eq!(out.read("test.txt"), Some(&b"one".to_vec()));
    assert_eq!(out.read("idk/test.txt"), Some(&b"two".to_vec()));
}
