//! Checkout: putting the tree of a commit into the working directory, and the
//! law that a commit checks out as it was made.

use crate::builder::{
    commit_cmd_spec, commit_written, master, next_commit, store_with_blobs, tree_of_files,
};
use crate::commit::CommitView;
use crate::directory::{
    entries_of, has_path, hashes_valid, lemma_pairs_lookup, lemma_pairs_unique, pairs_map,
    pairs_of, sorted_by_path, tree_hash, BlobRef, Directory,
};
use crate::hash::{hash_of_bytes, is_hash_text};
use crate::repository::store_put;
use crate::serializer::{
    commit_bytes, directory_bytes, lemma_commit_round_trip, lemma_directory_round_trip,
};
use crate::table::{key_index, keys_distinct, lemma_table_lookup, lemma_table_push, lemma_table_update};
use crate::error::{DvcsError, ErrorView};
use crate::merge::first_paths;
use crate::repository::{
    branch_hash, stored_blob, stored_commit, stored_directory, RepoView, RepositoryInterface,
};
use crate::table::has_key;
use crate::text::{lemma_text_lt_irreflexive, lemma_text_lt_transitive, text_lt};
use crate::worktree::WorkTree;
use vstd::prelude::*;
use vstd::string::*;

verus! {

/// What to check out: the commit that a branch points to, or a commit named
/// by its hash.
#[derive(Debug, PartialEq, Eq)]
pub enum CheckoutTarget {
    Branch(String),
    Commit(crate::hash::Hash),
}

/// The mathematical value of a checkout target.
pub enum TargetView {
    Branch(Seq<char>),
    Commit(Seq<char>),
}

impl View for CheckoutTarget {
    type V = TargetView;

    open spec fn view(&self) -> TargetView {
        match self {
            CheckoutTarget::Branch(name) => TargetView::Branch(name@),
            CheckoutTarget::Commit(h) => TargetView::Commit(h@),
        }
    }
}

/// The hash of the commit that the target names.
pub open spec fn target_hash(repo: RepoView, target: TargetView) -> Result<Seq<char>, ErrorView> {
    match target {
        TargetView::Branch(name) => if has_key(repo.branches, name) {
            Ok(branch_hash(repo.branches, name)->0)
        } else {
            Err(ErrorView::BranchMissing { name: name })
        },
        TargetView::Commit(h) => Ok(h),
    }
}

/// The head after the checkout: the branch that was checked out, or no
/// branch where a commit was named by its hash.
pub open spec fn target_head(target: TargetView) -> Seq<char> {
    match target {
        TargetView::Branch(name) => name,
        TargetView::Commit(_) => Seq::empty(),
    }
}

/// The tree of the commit that the current branch points to: the files that
/// a checkout takes away. Where the head names no branch it is empty.
pub open spec fn previous_tree(repo: RepoView) -> Result<Map<Seq<char>, Seq<char>>, ErrorView> {
    if repo.head.len() == 0 {
        Ok(Map::empty())
    } else {
        match stored_commit(repo.objects, branch_hash(repo.branches, repo.head)->0) {
            Err(e) => Err(e),
            Ok(c) => stored_directory(repo.objects, c.dir_hash),
        }
    }
}

/// Every blob of the tree can be read.
pub open spec fn all_readable(objs: Map<Seq<char>, Seq<u8>>, tree: Map<Seq<char>, Seq<char>>) -> bool {
    forall|p: Seq<char>| #[trigger] tree.contains_key(p) ==> stored_blob(objs, tree[p]) is Ok
}

/// `p` is the first path of the tree, in ascending order, whose blob cannot
/// be read.
pub open spec fn first_unreadable(
    objs: Map<Seq<char>, Seq<u8>>,
    tree: Map<Seq<char>, Seq<char>>,
    p: Seq<char>,
) -> bool {
    &&& tree.contains_key(p)
    &&& stored_blob(objs, tree[p]) is Err
    &&& forall|q: Seq<char>|
        text_lt(q, p) && #[trigger] tree.contains_key(q) ==> stored_blob(objs, tree[q]) is Ok
}

/// The files of the working directory after a checkout: the files of the
/// tree `prev` are gone, unless the tree `tree` has them; the files of
/// `tree` hold the content of their blobs; every other file is as it was.
pub open spec fn checked_out_files(
    objs: Map<Seq<char>, Seq<u8>>,
    files: Map<Seq<char>, Seq<u8>>,
    prev: Map<Seq<char>, Seq<char>>,
    tree: Map<Seq<char>, Seq<char>>,
) -> Map<Seq<char>, Seq<u8>> {
    Map::new(
        |p: Seq<char>| tree.contains_key(p) || (files.contains_key(p) && !prev.contains_key(p)),
        |p: Seq<char>|
            if tree.contains_key(p) {
                stored_blob(objs, tree[p])->Ok_0
            } else {
                files[p]
            },
    )
}

/// How a checkout ends once the commit, its tree and the tree to take away
/// were read: it fails on the first blob that cannot be read, and else sets
/// the head and rewrites the files.
pub open spec fn checkout_finish(
    repo: RepoView,
    files: Map<Seq<char>, Seq<u8>>,
    target: TargetView,
    prev: Map<Seq<char>, Seq<char>>,
    tree: Map<Seq<char>, Seq<char>>,
    new_repo: RepoView,
    new_files: Map<Seq<char>, Seq<u8>>,
    r: Result<(), ErrorView>,
) -> bool {
    if all_readable(repo.objects, tree) {
        &&& r == Ok::<(), ErrorView>(())
        &&& new_repo == (RepoView { head: target_head(target), ..repo })
        &&& new_files == checked_out_files(repo.objects, files, prev, tree)
    } else {
        &&& new_repo == repo
        &&& new_files == files
        &&& exists|p: Seq<char>| #[trigger]
            first_unreadable(repo.objects, tree, p) && r == Err::<(), ErrorView>(
                stored_blob(repo.objects, tree[p])->Err_0,
            )
    }
}

/// The two trees that a checkout works on: that of the commit to check
/// out, and that of the current branch. The commit is read first, then its
/// tree, then the commit of the current branch and its tree.
pub open spec fn checkout_inputs(repo: RepoView, target: TargetView) -> Result<
    (Map<Seq<char>, Seq<char>>, Map<Seq<char>, Seq<char>>),
    ErrorView,
> {
    match target_hash(repo, target) {
        Err(e) => Err(e),
        Ok(h) => match stored_commit(repo.objects, h) {
            Err(e) => Err(e),
            Ok(c) => match stored_directory(repo.objects, c.dir_hash) {
                Err(e) => Err(e),
                Ok(tree) => match previous_tree(repo) {
                    Err(e) => Err(e),
                    Ok(prev) => Ok((tree, prev)),
                },
            },
        },
    }
}

/// What a checkout answers with, and how it leaves the repository and the
/// working directory. Everything is read before anything is changed: the
/// two trees, then the blobs in ascending order of path. Where it fails,
/// nothing changes.
pub open spec fn checkout_result(
    repo: RepoView,
    files: Map<Seq<char>, Seq<u8>>,
    target: TargetView,
    new_repo: RepoView,
    new_files: Map<Seq<char>, Seq<u8>>,
    r: Result<(), ErrorView>,
) -> bool {
    match checkout_inputs(repo, target) {
        Err(e) => r == Err::<(), ErrorView>(e) && new_repo == repo && new_files == files,
        Ok(trees) => checkout_finish(repo, files, target, trees.1, trees.0, new_repo, new_files, r),
    }
}

/// The value of what a checkout answers with.
pub open spec fn checkout_answer(r: Result<(), DvcsError>) -> Result<(), ErrorView> {
    match r {
        Ok(_) => Ok(()),
        Err(e) => Err(e@),
    }
}

/// The contents of a vector of byte vectors.
pub open spec fn blob_views(v: Seq<Vec<u8>>) -> Seq<Seq<u8>> {
    Seq::new(v.len(), |i: int| v[i]@)
}

/// Reads the blob of every entry of the tree, in ascending order of path.
fn read_blobs(file_system: &RepositoryInterface, tree: &Directory, pairs: &Vec<(String, BlobRef)>) -> (r:
    Result<Vec<Vec<u8>>, DvcsError>)
    requires
        file_system.wf(),
        tree.wf(),
        pairs_of(pairs@) == tree.entries(),
    ensures
        r is Ok <==> all_readable(file_system.objects(), tree@),
        r matches Ok(blobs) ==> blobs.len() == pairs.len() && forall|i: int|
            0 <= i < blobs.len() ==> Ok::<Seq<u8>, ErrorView>((#[trigger] blobs@[i])@)
                == stored_blob(file_system.objects(), tree.entries()[i].1),
        r matches Err(e) ==> exists|p: Seq<char>| #[trigger]
            first_unreadable(file_system.objects(), tree@, p) && e@ == stored_blob(
                file_system.objects(),
                tree@[p],
            )->Err_0,
{
    let ghost objs = file_system.objects();
    let ghost es = tree.entries();
    let mut blobs: Vec<Vec<u8>> = Vec::new();
    let mut k: usize = 0;
    while k < pairs.len()
        invariant
            k <= pairs.len(),
            file_system.wf(),
            objs == file_system.objects(),
            tree.wf(),
            es == tree.entries(),
            pairs_of(pairs@) == es,
            blobs.len() == k,
            forall|i: int|
                0 <= i < k ==> Ok::<Seq<u8>, ErrorView>((#[trigger] blobs@[i])@) == stored_blob(
                    objs,
                    es[i].1,
                ),
        decreases pairs.len() - k,
    {
        assert(es[k as int] == (pairs@[k as int].0@, pairs@[k as int].1@));
        assert(crate::hash::is_hash_text(es[k as int].1));
        proof {
            lemma_pairs_lookup(es, k as int);
        }
        match file_system.get_blob(pairs[k].1.get_content_hash()) {
            Ok(d) => {
                blobs.push(d);
            },
            Err(e) => {
                proof {
                    let p = es[k as int].0;
                    lemma_text_lt_irreflexive(p);
                    assert forall|q: Seq<char>|
                        text_lt(q, p) && #[trigger] tree@.contains_key(q) implies stored_blob(
                        objs,
                        tree@[q],
                    ) is Ok by {
                        assert(has_path(es, q));
                        let j = choose|j: int| 0 <= j < es.len() && (#[trigger] es[j]).0 == q;
                        lemma_pairs_lookup(es, j);
                        lemma_text_lt_irreflexive(q);
                        if j > k {
                            assert(text_lt(es[k as int].0, es[j].0));
                            lemma_text_lt_transitive(q, p, q);
                        }
                        assert(j < k);
                        assert(Ok::<Seq<u8>, ErrorView>(blobs@[j]@) == stored_blob(objs, es[j].1));
                    }
                    assert(first_unreadable(objs, tree@, p));
                }
                return Err(e);
            },
        }
        k += 1;
    }
    proof {
        assert forall|p: Seq<char>| #[trigger] tree@.contains_key(p) implies stored_blob(
            objs,
            tree@[p],
        ) is Ok by {
            assert(has_path(es, p));
            let j = choose|j: int| 0 <= j < es.len() && (#[trigger] es[j]).0 == p;
            lemma_pairs_lookup(es, j);
            assert(Ok::<Seq<u8>, ErrorView>(blobs@[j]@) == stored_blob(objs, es[j].1));
        }
    }
    Ok(blobs)
}

/// Clears the working directory of the files of the tree `prev`: these and
/// no others are taken away.
pub fn clear_directory(worktree: &mut WorkTree, prev: &Directory)
    requires
        old(worktree).wf(),
        prev.wf(),
    ensures
        final(worktree).wf(),
        final(worktree)@ == old(worktree)@.remove_keys(prev@.dom()),
{
    let pairs = prev.get_key_value_pairs();
    let ghost es = prev.entries();
    let ghost files = worktree@;
    let mut k: usize = 0;
    assert(worktree@ =~= files.remove_keys(first_paths(es, 0)));
    while k < pairs.len()
        invariant
            k <= pairs.len(),
            worktree.wf(),
            es == prev.entries(),
            pairs_of(pairs@) == es,
            worktree@ == files.remove_keys(first_paths(es, k as int)),
        decreases pairs.len() - k,
    {
        assert(es[k as int] == (pairs@[k as int].0@, pairs@[k as int].1@));
        let ghost before = worktree@;
        let _ = worktree.remove(pairs[k].0.as_str());
        proof {
            let path = es[k as int].0;
            assert(first_paths(es, k + 1) =~= first_paths(es, k as int).insert(path)) by {
                assert forall|p: Seq<char>| first_paths(es, k + 1).contains(p) <==> first_paths(
                    es,
                    k as int,
                ).insert(path).contains(p) by {
                    if first_paths(es, k as int).contains(p) {
                        let j = choose|j: int|
                            0 <= j < k && j < es.len() && (#[trigger] es[j]).0 == p;
                        assert(0 <= j < k + 1 && es[j].0 == p);
                    }
                    if p == path {
                        assert(0 <= k < k + 1 && es[k as int].0 == p);
                    }
                    if first_paths(es, k + 1).contains(p) {
                        let j = choose|j: int|
                            0 <= j < k + 1 && j < es.len() && (#[trigger] es[j]).0 == p;
                        if j < k {
                            assert(0 <= j < k && es[j].0 == p);
                        }
                    }
                }
            }
            assert(worktree@ =~= files.remove_keys(first_paths(es, k + 1)));
        }
        k += 1;
    }
    proof {
        assert(first_paths(es, k as int) =~= prev@.dom()) by {
            assert forall|p: Seq<char>| first_paths(es, k as int).contains(p) <==> prev@.dom().contains(
                p,
            ) by {
                if prev@.contains_key(p) {
                    assert(has_path(es, p));
                    let j = choose|j: int| 0 <= j < es.len() && (#[trigger] es[j]).0 == p;
                    assert(0 <= j < k && es[j].0 == p);
                }
                if first_paths(es, k as int).contains(p) {
                    let j = choose|j: int| 0 <= j < k && j < es.len() && (#[trigger] es[j]).0 == p;
                    assert(has_path(es, p));
                }
            }
        }
    }
}

/// The files after the first `k` entries of a tree were written over
/// `files`, each with the blob of its place.
pub open spec fn written_files(
    files: Map<Seq<char>, Seq<u8>>,
    es: Seq<(Seq<char>, Seq<char>)>,
    blobs: Seq<Seq<u8>>,
    k: int,
) -> Map<Seq<char>, Seq<u8>>
    decreases k,
{
    if k <= 0 {
        files
    } else {
        written_files(files, es, blobs, k - 1).insert(es[k - 1].0, blobs[k - 1])
    }
}

proof fn lemma_written_files(
    files: Map<Seq<char>, Seq<u8>>,
    es: Seq<(Seq<char>, Seq<char>)>,
    blobs: Seq<Seq<u8>>,
    k: int,
    p: Seq<char>,
)
    requires
        sorted_by_path(es),
        0 <= k <= es.len(),
        es.len() == blobs.len(),
    ensures
        written_files(files, es, blobs, k).contains_key(p) <==> first_paths(es, k).contains(p)
            || files.contains_key(p),
        forall|j: int|
            0 <= j < k && es[j].0 == p ==> written_files(files, es, blobs, k)[p] == blobs[j],
        !first_paths(es, k).contains(p) ==> written_files(files, es, blobs, k)[p] == files[p],
    decreases k,
{
    if k > 0 {
        lemma_written_files(files, es, blobs, k - 1, p);
        let last = es[k - 1].0;
        if first_paths(es, k - 1).contains(p) {
            let j = choose|j: int| 0 <= j < k - 1 && j < es.len() && (#[trigger] es[j]).0 == p;
            assert(0 <= j < k && es[j].0 == p);
        }
        if p == last {
            assert(0 <= k - 1 < k && es[k - 1].0 == p);
        }
        if first_paths(es, k).contains(p) {
            let j = choose|j: int| 0 <= j < k && j < es.len() && (#[trigger] es[j]).0 == p;
            if j < k - 1 {
                assert(0 <= j < k - 1 && es[j].0 == p);
            }
        }
        assert forall|j: int| 0 <= j < k && es[j].0 == p implies written_files(
            files,
            es,
            blobs,
            k,
        )[p] == blobs[j] by {
            lemma_text_lt_irreflexive(p);
            if j < k - 1 {
                assert(text_lt(es[j].0, es[k - 1].0));
            }
        }
    }
}

/// Reads the tree of the commit to check out and the tree of the current
/// branch.
fn load_trees(file_system: &RepositoryInterface, target: &CheckoutTarget) -> (r: Result<
    (Directory, Directory),
    DvcsError,
>)
    requires
        file_system.wf(),
        target matches CheckoutTarget::Commit(h) ==> h.wf(),
    ensures
        r is Ok <==> checkout_inputs(file_system@, target@) is Ok,
        r matches Ok(trees) ==> trees.0.wf() && trees.1.wf() && checkout_inputs(
            file_system@,
            target@,
        ) == Ok::<(Map<Seq<char>, Seq<char>>, Map<Seq<char>, Seq<char>>), ErrorView>(
            (trees.0@, trees.1@),
        ),
        r matches Err(e) ==> checkout_inputs(file_system@, target@) == Err::<
            (Map<Seq<char>, Seq<char>>, Map<Seq<char>, Seq<char>>),
            ErrorView,
        >(e@),
{
    proof {
        file_system.lemma_wf();
    }
    let hash = match target {
        CheckoutTarget::Branch(name) => match file_system.get_hash_from_branch(name.as_str()) {
            Ok(h) => h,
            Err(e) => {
                return Err(e);
            },
        },
        CheckoutTarget::Commit(h) => h.clone(),
    };
    let commit = match file_system.get_commit(&hash) {
        Ok(c) => c,
        Err(e) => {
            return Err(e);
        },
    };
    let directory = match file_system.get_directory(&commit.get_dir_hash()) {
        Ok(d) => d,
        Err(e) => {
            return Err(e);
        },
    };
    let previous = match file_system.get_current_head() {
        None => Directory::new(),
        Some(branch) => {
            let at = match file_system.get_hash_from_branch(branch.as_str()) {
                Ok(h) => h,
                Err(e) => {
                    return Err(e);
                },
            };
            let prev_commit = match file_system.get_commit(&at) {
                Ok(c) => c,
                Err(e) => {
                    return Err(e);
                },
            };
            match file_system.get_directory(&prev_commit.get_dir_hash()) {
                Ok(d) => d,
                Err(e) => {
                    return Err(e);
                },
            }
        },
    };
    Ok((directory, previous))
}

/// Writes the files of a tree into the working directory, each with the
/// blob of its place.
fn write_tree(
    worktree: &mut WorkTree,
    directory: &Directory,
    pairs: &Vec<(String, BlobRef)>,
    blobs: &Vec<Vec<u8>>,
)
    requires
        old(worktree).wf(),
        directory.wf(),
        pairs_of(pairs@) == directory.entries(),
        blobs.len() == pairs.len(),
    ensures
        final(worktree).wf(),
        final(worktree)@.dom() == directory@.dom().union(old(worktree)@.dom()),
        forall|p: Seq<char>|
            !(#[trigger] directory@.contains_key(p)) ==> final(worktree)@[p] == old(worktree)@[p],
        forall|j: int|
            0 <= j < blobs.len() ==> final(worktree)@[(#[trigger] directory.entries()[j]).0]
                == blobs@[j]@,
{
    let ghost es = directory.entries();
    let ghost start = worktree@;
    let ghost bv = blob_views(blobs@);
    let mut k: usize = 0;
    while k < pairs.len()
        invariant
            k <= pairs.len(),
            worktree.wf(),
            es == directory.entries(),
            pairs_of(pairs@) == es,
            blobs.len() == pairs.len(),
            bv == blob_views(blobs@),
            worktree@ == written_files(start, es, bv, k as int),
        decreases pairs.len() - k,
    {
        assert(es[k as int] == (pairs@[k as int].0@, pairs@[k as int].1@));
        worktree.write(pairs[k].0.as_str(), blobs[k].clone());
        k += 1;
    }
    proof {
        assert forall|p: Seq<char>|
            worktree@.dom().contains(p) <==> directory@.dom().union(start.dom()).contains(p) by {
            lemma_written_files(start, es, bv, k as int, p);
            if first_paths(es, k as int).contains(p) {
                let j = choose|j: int| 0 <= j < k && j < es.len() && (#[trigger] es[j]).0 == p;
                assert(has_path(es, p));
            }
            if directory@.contains_key(p) {
                assert(has_path(es, p));
                let j = choose|j: int| 0 <= j < es.len() && (#[trigger] es[j]).0 == p;
                assert(0 <= j < k && es[j].0 == p);
            }
        }
        assert(worktree@.dom() =~= directory@.dom().union(start.dom()));
        assert forall|p: Seq<char>| !(#[trigger] directory@.contains_key(p)) implies worktree@[p]
            == start[p] by {
            lemma_written_files(start, es, bv, k as int, p);
            if first_paths(es, k as int).contains(p) {
                let j = choose|j: int| 0 <= j < k && j < es.len() && (#[trigger] es[j]).0 == p;
                assert(has_path(es, p));
            }
        }
        assert forall|j: int| 0 <= j < blobs.len() implies worktree@[(#[trigger] es[j]).0]
            == blobs@[j]@ by {
            lemma_written_files(start, es, bv, k as int, es[j].0);
            assert(0 <= j < k && es[j].0 == es[j].0);
            assert(bv[j] == blobs@[j]@);
        }
    }
}

/// Checks out a commit: reads the commit and its tree, sets the head to the
/// branch that was named, or to no branch where the commit was named by its
/// hash, takes the files of the current branch's tree out of the working
/// directory, and writes the files of the commit's tree.
pub fn checkout(
    file_system: &mut RepositoryInterface,
    worktree: &mut WorkTree,
    target: &CheckoutTarget,
) -> (r: Result<(), DvcsError>)
    requires
        old(file_system).wf(),
        old(worktree).wf(),
        target matches CheckoutTarget::Commit(h) ==> h.wf(),
    ensures
        final(file_system).wf(),
        final(worktree).wf(),
        final(file_system).object_pairs() == old(file_system).object_pairs(),
        checkout_result(
            old(file_system)@,
            old(worktree)@,
            target@,
            final(file_system)@,
            final(worktree)@,
            checkout_answer(r),
        ),
{
    let ghost objs = file_system@.objects;
    let ghost files = worktree@;
    let (directory, previous) = match load_trees(file_system, target) {
        Ok(trees) => trees,
        Err(e) => {
            return Err(e);
        },
    };
    let pairs = directory.get_key_value_pairs();
    let blobs = match read_blobs(file_system, &directory, &pairs) {
        Ok(b) => b,
        Err(e) => {
            return Err(e);
        },
    };
    let ghost es = directory.entries();
    proof {
        file_system.lemma_wf();
    }
    proof {
        reveal_strlit("");
        assert(target_hash(file_system@, target@) is Ok);
    }
    let moved = match target {
        CheckoutTarget::Branch(name) => file_system.update_current_head(name.as_str()),
        CheckoutTarget::Commit(_) => file_system.update_current_head(""),
    };
    assert(moved is Ok);
    assert(file_system@.head =~= target_head(target@));
    assert(file_system@ == (RepoView { head: target_head(target@), ..old(file_system)@ }));
    clear_directory(worktree, &previous);
    write_tree(worktree, &directory, &pairs, &blobs);
    proof {
        let want = checked_out_files(objs, files, previous@, directory@);
        assert(worktree@.dom() =~= want.dom());
        assert forall|p: Seq<char>| worktree@.contains_key(p) implies worktree@[p] == want[p] by {
            if directory@.contains_key(p) {
                assert(has_path(es, p));
                let j = choose|j: int| 0 <= j < es.len() && (#[trigger] es[j]).0 == p;
                lemma_pairs_lookup(es, j);
                assert(Ok::<Seq<u8>, ErrorView>(blobs@[j]@) == stored_blob(objs, es[j].1));
            }
        }
        assert(worktree@ =~= want);
    }
    Ok(())
}

/// The checkout command: checks out the commit that the branch
/// `branch_name` points to and makes that branch current.
pub fn checkout_cmd(
    file_system: &mut RepositoryInterface,
    worktree: &mut WorkTree,
    branch_name: &str,
) -> (r: Result<(), DvcsError>)
    requires
        old(file_system).wf(),
        old(worktree).wf(),
    ensures
        final(file_system).wf(),
        final(worktree).wf(),
        final(file_system).object_pairs() == old(file_system).object_pairs(),
        checkout_result(
            old(file_system)@,
            old(worktree)@,
            TargetView::Branch(branch_name@),
            final(file_system)@,
            final(worktree)@,
            checkout_answer(r),
        ),
{
    let target = CheckoutTarget::Branch(branch_name.to_owned());
    checkout(file_system, worktree, &target)
}


/// The files that a commit of the staged paths records: the staged files
/// with their content.
pub open spec fn committed_files(staged: Seq<Seq<char>>, files: Map<Seq<char>, Seq<u8>>) -> Map<
    Seq<char>,
    Seq<u8>,
> {
    Map::new(|p: Seq<char>| staged.contains(p), |p: Seq<char>| files[p])
}

/// No hash stands for two contents among the staged files and the blobs that
/// the store holds under their hashes.
pub open spec fn blobs_unambiguous(
    objs: Map<Seq<char>, Seq<u8>>,
    staged: Seq<Seq<char>>,
    files: Map<Seq<char>, Seq<u8>>,
) -> bool {
    &&& forall|i: int|
        0 <= i < staged.len() && objs.contains_key(hash_of_bytes(files[#[trigger] staged[i]]))
            ==> objs[hash_of_bytes(files[staged[i]])] == files[staged[i]]
    &&& forall|i: int, j: int|
        0 <= i < staged.len() && 0 <= j < staged.len() && hash_of_bytes(
            files[#[trigger] staged[i]],
        ) == hash_of_bytes(files[#[trigger] staged[j]]) ==> files[staged[i]] == files[staged[j]]
}

/// The key `h` is free in the store, or holds `data` already.
pub open spec fn free_or_same(objs: Map<Seq<char>, Seq<u8>>, h: Seq<char>, data: Seq<u8>) -> bool {
    objs.contains_key(h) ==> objs[h] == data
}

proof fn lemma_blobs_in_store(
    objs: Map<Seq<char>, Seq<u8>>,
    s: Seq<Seq<char>>,
    files: Map<Seq<char>, Seq<u8>>,
)
    ensures
        forall|key: Seq<char>| #[trigger]
            objs.contains_key(key) ==> store_with_blobs(objs, s, files).contains_key(key)
                && store_with_blobs(objs, s, files)[key] == objs[key],
        forall|j: int|
            0 <= j < s.len() ==> store_with_blobs(objs, s, files).contains_key(
                hash_of_bytes(files[#[trigger] s[j]]),
            ),
        forall|key: Seq<char>| #[trigger]
            store_with_blobs(objs, s, files).contains_key(key) && !objs.contains_key(key)
                ==> exists|j: int|
                0 <= j < s.len() && key == hash_of_bytes(files[s[j]]) && store_with_blobs(
                    objs,
                    s,
                    files,
                )[key] == files[s[j]],
    decreases s.len(),
{
    if s.len() > 0 {
        let front = s.drop_last();
        lemma_blobs_in_store(objs, front, files);
        let before = store_with_blobs(objs, front, files);
        let now = store_with_blobs(objs, s, files);
        let last = s.last();
        let h = hash_of_bytes(files[last]);
        assert forall|j: int| 0 <= j < s.len() implies now.contains_key(
            hash_of_bytes(files[#[trigger] s[j]]),
        ) by {
            if j < front.len() {
                assert(front[j] == s[j]);
            }
        }
        assert forall|key: Seq<char>| #[trigger]
            now.contains_key(key) && !objs.contains_key(key) implies exists|j: int|
            0 <= j < s.len() && key == hash_of_bytes(files[s[j]]) && now[key] == files[s[j]] by {
            if before.contains_key(key) {
                let j = choose|j: int|
                    0 <= j < front.len() && key == hash_of_bytes(files[front[j]]) && before[key]
                        == files[front[j]];
                assert(front[j] == s[j]);
                assert(0 <= j < s.len() && key == hash_of_bytes(files[s[j]]) && now[key]
                    == files[s[j]]);
            } else {
                assert(key == h);
                assert(0 <= s.len() - 1 < s.len() && key == hash_of_bytes(files[s[s.len() - 1]])
                    && now[key] == files[s[s.len() - 1]]);
            }
        }
    }
}

/// After the staged files were put as blobs, the store gives back the
/// content of each under its hash.
proof fn lemma_staged_blobs_readable(
    objs: Map<Seq<char>, Seq<u8>>,
    staged: Seq<Seq<char>>,
    files: Map<Seq<char>, Seq<u8>>,
    i: int,
)
    requires
        blobs_unambiguous(objs, staged, files),
        0 <= i < staged.len(),
    ensures
        store_with_blobs(objs, staged, files).contains_key(hash_of_bytes(files[staged[i]])),
        store_with_blobs(objs, staged, files)[hash_of_bytes(files[staged[i]])] == files[staged[i]],
{
    lemma_blobs_in_store(objs, staged, files);
    let store = store_with_blobs(objs, staged, files);
    let key = hash_of_bytes(files[staged[i]]);
    assert(store.contains_key(key));
    if objs.contains_key(key) {
        assert(store[key] == objs[key]);
    } else {
        let j = choose|j: int|
            0 <= j < staged.len() && key == hash_of_bytes(files[staged[j]]) && store[key]
                == files[staged[j]];
        assert(files[staged[i]] == files[staged[j]]);
    }
}

/// What the round trip laws ask of a commit that is about to be made: that
/// it can be made, that its hashes are well formed, that `es` are the
/// entries of its tree, and that no hash involved stands for two things:
/// neither a digest that two contents share, nor a key of the store under
/// which something else was put before.
pub open spec fn commit_unambiguous(
    repo: RepoView,
    staged: Seq<Seq<char>>,
    files: Map<Seq<char>, Seq<u8>>,
    message: Seq<char>,
    author: Seq<char>,
    now: Seq<char>,
    es: Seq<(Seq<char>, Seq<char>)>,
) -> bool {
    &&& keys_distinct(repo.branches)
    &&& (repo.head.len() == 0 || has_key(repo.branches, repo.head))
    &&& commit_cmd_spec(repo, staged, files, message, author, now) is Ok
    &&& next_commit(repo, staged, files, message, author, now).valid()
    &&& sorted_by_path(es)
    &&& hashes_valid(es)
    &&& pairs_map(es) == tree_of_files(staged, files)
    &&& blobs_unambiguous(repo.objects, staged, files)
    &&& free_or_same(
        store_with_blobs(repo.objects, staged, files),
        tree_hash(tree_of_files(staged, files)),
        directory_bytes(es),
    )
    &&& free_or_same(
        store_put(
            store_with_blobs(repo.objects, staged, files),
            tree_hash(tree_of_files(staged, files)),
            directory_bytes(es),
        ),
        next_commit(repo, staged, files, message, author, now).hash(),
        commit_bytes(next_commit(repo, staged, files, message, author, now)),
    )
}

/// A commit leaves the store closed: the current branch points to the new
/// commit, the commit is in the store, so is its tree, and so is the blob
/// of every path of the tree, with the content of the committed file. What
/// was in the store before is there as it was.
pub proof fn lemma_commit_is_stored(
    repo: RepoView,
    staged: Seq<Seq<char>>,
    files: Map<Seq<char>, Seq<u8>>,
    message: Seq<char>,
    author: Seq<char>,
    now: Seq<char>,
    es: Seq<(Seq<char>, Seq<char>)>,
)
    requires
        commit_unambiguous(repo, staged, files, message, author, now, es),
    ensures
        ({
            let c = next_commit(repo, staged, files, message, author, now);
            let after = (commit_cmd_spec(repo, staged, files, message, author, now)->Ok_0).1;
            let tree = tree_of_files(staged, files);
            &&& after.head.len() > 0
            &&& has_key(after.branches, after.head)
            &&& branch_hash(after.branches, after.head) == Some(c.hash())
            &&& stored_commit(after.objects, c.hash()) == Ok::<CommitView, ErrorView>(c)
            &&& stored_directory(after.objects, c.dir_hash) == Ok::<
                Map<Seq<char>, Seq<char>>,
                ErrorView,
            >(tree)
            &&& forall|p: Seq<char>| #[trigger]
                tree.contains_key(p) ==> stored_blob(after.objects, tree[p]) == Ok::<
                    Seq<u8>,
                    ErrorView,
                >(files[p])
            &&& forall|key: Seq<char>| #[trigger]
                repo.objects.contains_key(key) ==> after.objects.contains_key(key)
                    && after.objects[key] == repo.objects[key]
        }),
{
    let c = next_commit(repo, staged, files, message, author, now);
    let tree = tree_of_files(staged, files);
    let after = (commit_cmd_spec(repo, staged, files, message, author, now)->Ok_0).1;
    let s1 = store_with_blobs(repo.objects, staged, files);
    let s2 = store_put(s1, tree_hash(tree), directory_bytes(entries_of(tree)));
    let s3 = store_put(s2, c.hash(), commit_bytes(c));
    assert(after.objects == commit_written(s1, c, tree));
    assert(after.objects == s3);
    lemma_blobs_in_store(repo.objects, staged, files);
    lemma_pairs_unique(entries_of(tree), es);
    lemma_directory_round_trip(es);
    assert(s3[tree_hash(tree)] == directory_bytes(es));
    lemma_commit_round_trip(c);
    assert(s3[c.hash()] == commit_bytes(c));
    if repo.head.len() > 0 {
        let k = key_index(repo.branches, repo.head);
        lemma_table_update(repo.branches, k, c.hash());
        lemma_table_lookup(after.branches, k);
        assert(after.branches[k].0 == after.head);
    } else {
        lemma_table_push(repo.branches, master(), c.hash());
        lemma_table_lookup(after.branches, repo.branches.len() as int);
        assert(after.branches[repo.branches.len() as int].0 == after.head);
        crate::builder::lemma_master_is_a_branch_name();
    }
    assert forall|p: Seq<char>| #[trigger] tree.contains_key(p) implies stored_blob(s3, tree[p])
        == Ok::<Seq<u8>, ErrorView>(files[p]) by {
        let i = choose|i: int| 0 <= i < staged.len() && staged[i] == p;
        lemma_staged_blobs_readable(repo.objects, staged, files, i);
    }
}

/// The commit with hash `h` is in the store with all it names: its tree,
/// the blob of every path of the tree, and each of its parents.
pub open spec fn snapshot_present(objs: Map<Seq<char>, Seq<u8>>, h: Seq<char>) -> bool {
    &&& stored_commit(objs, h) is Ok
    &&& stored_directory(objs, (stored_commit(objs, h)->Ok_0).dir_hash) is Ok
    &&& all_readable(
        objs,
        stored_directory(objs, (stored_commit(objs, h)->Ok_0).dir_hash)->Ok_0,
    )
    &&& forall|i: int|
        0 <= i < (stored_commit(objs, h)->Ok_0).parent_hashes.len() ==> stored_commit(
            objs,
            #[trigger] (stored_commit(objs, h)->Ok_0).parent_hashes[i],
        ) is Ok
}

/// Every branch points to a commit that is in the store with all it names.
pub open spec fn refs_present(repo: RepoView) -> bool {
    forall|i: int|
        0 <= i < repo.branches.len() ==> snapshot_present(
            repo.objects,
            (#[trigger] repo.branches[i]).1,
        )
}

/// The store `after` holds everything that the store `before` holds, as it
/// was.
pub open spec fn store_grew(before: Map<Seq<char>, Seq<u8>>, after: Map<Seq<char>, Seq<u8>>) -> bool {
    forall|key: Seq<char>| #[trigger]
        before.contains_key(key) ==> after.contains_key(key) && after[key] == before[key]
}

/// Objects are never changed or deleted: a commit that is in the store with
/// all it names stays so whatever is added to the store.
pub proof fn lemma_growth_keeps_snapshot(
    before: Map<Seq<char>, Seq<u8>>,
    after: Map<Seq<char>, Seq<u8>>,
    h: Seq<char>,
)
    requires
        store_grew(before, after),
        snapshot_present(before, h),
    ensures
        snapshot_present(after, h),
        stored_commit(after, h) == stored_commit(before, h),
{
    let c = stored_commit(before, h)->Ok_0;
    assert(before.contains_key(h));
    assert(before.contains_key(c.dir_hash));
    let t = stored_directory(before, c.dir_hash)->Ok_0;
    assert forall|p: Seq<char>| #[trigger] t.contains_key(p) implies stored_blob(after, t[p])
        is Ok by {
        assert(stored_blob(before, t[p]) is Ok);
        assert(before.contains_key(t[p]));
    }
    assert forall|i: int| 0 <= i < c.parent_hashes.len() implies stored_commit(
        after,
        #[trigger] c.parent_hashes[i],
    ) is Ok by {
        assert(stored_commit(before, c.parent_hashes[i]) is Ok);
        assert(before.contains_key(c.parent_hashes[i]));
    }
}

/// A commit keeps the branches pointing to commits that are in the store
/// with all they name, the new commit among them.
pub proof fn lemma_commit_keeps_refs_present(
    repo: RepoView,
    staged: Seq<Seq<char>>,
    files: Map<Seq<char>, Seq<u8>>,
    message: Seq<char>,
    author: Seq<char>,
    now: Seq<char>,
    es: Seq<(Seq<char>, Seq<char>)>,
)
    requires
        commit_unambiguous(repo, staged, files, message, author, now, es),
        refs_present(repo),
    ensures
        refs_present((commit_cmd_spec(repo, staged, files, message, author, now)->Ok_0).1),
        snapshot_present(
            (commit_cmd_spec(repo, staged, files, message, author, now)->Ok_0).1.objects,
            next_commit(repo, staged, files, message, author, now).hash(),
        ),
{
    let c = next_commit(repo, staged, files, message, author, now);
    let tree = tree_of_files(staged, files);
    let after = (commit_cmd_spec(repo, staged, files, message, author, now)->Ok_0).1;
    lemma_commit_is_stored(repo, staged, files, message, author, now, es);
    assert(store_grew(repo.objects, after.objects));
    // the new commit
    assert(all_readable(after.objects, tree));
    assert forall|i: int| 0 <= i < c.parent_hashes.len() implies stored_commit(
        after.objects,
        #[trigger] c.parent_hashes[i],
    ) is Ok by {
        let k = key_index(repo.branches, repo.head);
        assert(c.parent_hashes[i] == repo.branches[k].1);
        assert(snapshot_present(repo.objects, repo.branches[k].1));
        lemma_growth_keeps_snapshot(repo.objects, after.objects, repo.branches[k].1);
    }
    assert(snapshot_present(after.objects, c.hash()));
    // the branches
    assert forall|i: int| 0 <= i < after.branches.len() implies snapshot_present(
        after.objects,
        (#[trigger] after.branches[i]).1,
    ) by {
        if repo.head.len() > 0 {
            let k = key_index(repo.branches, repo.head);
            if i != k {
                assert(after.branches[i] == repo.branches[i]);
                lemma_growth_keeps_snapshot(repo.objects, after.objects, repo.branches[i].1);
            }
        } else {
            if i < repo.branches.len() {
                assert(after.branches[i] == repo.branches[i]);
                lemma_growth_keeps_snapshot(repo.objects, after.objects, repo.branches[i].1);
            }
        }
    }
}

/// A commit of a working directory, checked out into an empty working
/// directory, gives back the committed files, byte for byte at the same
/// paths.
pub proof fn lemma_commit_then_checkout(
    repo: RepoView,
    staged: Seq<Seq<char>>,
    files: Map<Seq<char>, Seq<u8>>,
    message: Seq<char>,
    author: Seq<char>,
    now: Seq<char>,
    es: Seq<(Seq<char>, Seq<char>)>,
)
    requires
        commit_unambiguous(repo, staged, files, message, author, now, es),
    ensures
        checkout_result(
            (commit_cmd_spec(repo, staged, files, message, author, now)->Ok_0).1,
            Map::empty(),
            TargetView::Commit(next_commit(repo, staged, files, message, author, now).hash()),
            RepoView {
                head: Seq::empty(),
                ..(commit_cmd_spec(repo, staged, files, message, author, now)->Ok_0).1
            },
            committed_files(staged, files),
            Ok(()),
        ),
{
    let c = next_commit(repo, staged, files, message, author, now);
    let tree = tree_of_files(staged, files);
    let after = (commit_cmd_spec(repo, staged, files, message, author, now)->Ok_0).1;
    lemma_commit_is_stored(repo, staged, files, message, author, now, es);
    assert(previous_tree(after) == Ok::<Map<Seq<char>, Seq<char>>, ErrorView>(tree));
    let target = TargetView::Commit(c.hash());
    assert(checkout_inputs(after, target) == Ok::<
        (Map<Seq<char>, Seq<char>>, Map<Seq<char>, Seq<char>>),
        ErrorView,
    >((tree, tree)));
    let got = checked_out_files(after.objects, Map::empty(), tree, tree);
    assert(got =~= committed_files(staged, files));
}

} // verus!
