//! Building commits: the tree of the staged files, the commit record, and the
//! commit command.

use crate::commit::{all_hash_text, hash_texts, Commit, CommitView};
use crate::directory::{entries_of, tree_hash, BlobRef, Directory};
use crate::error::{not_found, not_found_cause, DvcsError, ErrorView};
use crate::hash::{hash_of_bytes, DVCSHash};
use crate::repository::{
    branch_hash, is_branch_name, put_pairs, store_put, RepoView, RepositoryInterface,
};
use crate::serializer::{commit_bytes, directory_bytes};
use crate::staging::{staged_texts, StagingArea};
use crate::table::{has_key, key_index};
use crate::worktree::WorkTree;
use vstd::prelude::*;
use vstd::string::*;

verus! {

/// Asks `chrono` for the present time in UTC and has it written with
/// milliseconds, as in `2024-01-31 23:59:58.123`. Nothing is claimed of the
/// text: it depends on the clock.
#[verifier::external_body]
pub(crate) fn utc_now_text() -> (s: String) {
    chrono::Utc::now().format("%Y-%m-%d %H:%M:%S%.3f").to_string()
}

/// The store after the tree and then the commit were put.
pub open spec fn commit_written(
    objs: Map<Seq<char>, Seq<u8>>,
    c: CommitView,
    tree: Map<Seq<char>, Seq<char>>,
) -> Map<Seq<char>, Seq<u8>> {
    store_put(
        store_put(objs, tree_hash(tree), directory_bytes(entries_of(tree))),
        c.hash(),
        commit_bytes(c),
    )
}

/// The objects of the store, in the order in which they were put, after the
/// tree and then the commit were put.
pub open spec fn commit_written_pairs(
    ps: Seq<(Seq<char>, Seq<u8>)>,
    c: CommitView,
    tree: Map<Seq<char>, Seq<char>>,
) -> Seq<(Seq<char>, Seq<u8>)> {
    put_pairs(
        put_pairs(ps, tree_hash(tree), directory_bytes(entries_of(tree))),
        c.hash(),
        commit_bytes(c),
    )
}

/// Builds the commit of the tree `new_dir` with the given parents, author,
/// message and timestamp, and stores the tree and then the commit.
pub fn build_commit(
    author: &str,
    parent_hashes: &Vec<crate::hash::Hash>,
    new_dir: &Directory,
    message: &str,
    now: &str,
    file_system: &mut RepositoryInterface,
) -> (c: Commit)
    requires
        old(file_system).wf(),
        new_dir.wf(),
        all_hash_text(hash_texts(parent_hashes@)),
    ensures
        final(file_system).wf(),
        c.wf(),
        c@ == (CommitView {
            parent_hashes: hash_texts(parent_hashes@),
            dir_hash: tree_hash(new_dir@),
            author: author@,
            message: message@,
            timestamp: now@,
        }),
        final(file_system)@ == (RepoView {
            objects: commit_written(old(file_system)@.objects, c@, new_dir@),
            ..old(file_system)@
        }),
        final(file_system).object_pairs() == commit_written_pairs(
            old(file_system).object_pairs(),
            c@,
            new_dir@,
        ),
{
    let dir_hash = file_system.add_directory(new_dir);
    let commit = Commit::new(
        crate::commit::copy_hashes(parent_hashes),
        dir_hash,
        author,
        message,
        now,
    );
    let _ = file_system.add_commit(&commit);
    commit
}

/// Builds and stores the commit of the tree `new_dir`, stamped with the
/// present time.
pub fn commit(
    author: &str,
    parent_hashes: &Vec<crate::hash::Hash>,
    new_dir: &Directory,
    message: &str,
    file_system: &mut RepositoryInterface,
) -> (c: Commit)
    requires
        old(file_system).wf(),
        new_dir.wf(),
        all_hash_text(hash_texts(parent_hashes@)),
    ensures
        final(file_system).wf(),
        c.wf(),
        c@ == (CommitView {
            parent_hashes: hash_texts(parent_hashes@),
            dir_hash: tree_hash(new_dir@),
            author: author@,
            message: message@,
            timestamp: c@.timestamp,
        }),
        final(file_system)@ == (RepoView {
            objects: commit_written(old(file_system)@.objects, c@, new_dir@),
            ..old(file_system)@
        }),
        final(file_system).object_pairs() == commit_written_pairs(
            old(file_system).object_pairs(),
            c@,
            new_dir@,
        ),
{
    let now = utc_now_text();
    build_commit(author, parent_hashes, new_dir, message, now.as_str(), file_system)
}

/// `k` is the place of the first path that names no file.
pub open spec fn first_missing(
    paths: Seq<Seq<char>>,
    files: Map<Seq<char>, Seq<u8>>,
    k: int,
) -> bool {
    &&& 0 <= k < paths.len()
    &&& !files.contains_key(paths[k])
    &&& forall|j: int| 0 <= j < k ==> files.contains_key(#[trigger] paths[j])
}

/// Every path names a file.
pub open spec fn all_present(paths: Seq<Seq<char>>, files: Map<Seq<char>, Seq<u8>>) -> bool {
    forall|j: int| 0 <= j < paths.len() ==> files.contains_key(#[trigger] paths[j])
}

/// The tree of the files at `paths`: each path with the hash of its content.
pub open spec fn tree_of_files(paths: Seq<Seq<char>>, files: Map<Seq<char>, Seq<u8>>) -> Map<
    Seq<char>,
    Seq<char>,
> {
    Map::new(|p: Seq<char>| paths.contains(p), |p: Seq<char>| hash_of_bytes(files[p]))
}

/// The store after the content of each file at `paths` was put as a blob, in
/// the order of the paths.
pub open spec fn store_with_blobs(
    objs: Map<Seq<char>, Seq<u8>>,
    paths: Seq<Seq<char>>,
    files: Map<Seq<char>, Seq<u8>>,
) -> Map<Seq<char>, Seq<u8>>
    decreases paths.len(),
{
    if paths.len() == 0 {
        objs
    } else {
        store_put(
            store_with_blobs(objs, paths.drop_last(), files),
            hash_of_bytes(files[paths.last()]),
            files[paths.last()],
        )
    }
}

/// The objects of the store, in the order in which they were put, after the
/// content of each file at `paths` was put as a blob, in the order of the
/// paths.
pub open spec fn pairs_with_blobs(
    ps: Seq<(Seq<char>, Seq<u8>)>,
    paths: Seq<Seq<char>>,
    files: Map<Seq<char>, Seq<u8>>,
) -> Seq<(Seq<char>, Seq<u8>)>
    decreases paths.len(),
{
    if paths.len() == 0 {
        ps
    } else {
        put_pairs(
            pairs_with_blobs(ps, paths.drop_last(), files),
            hash_of_bytes(files[paths.last()]),
            files[paths.last()],
        )
    }
}

/// What making a tree from files answers with: the tree, or the first path
/// that names no file.
pub open spec fn tree_from_files(paths: Seq<Seq<char>>, files: Map<Seq<char>, Seq<u8>>) -> Result<
    Map<Seq<char>, Seq<char>>,
    ErrorView,
> {
    if all_present(paths, files) {
        Ok(tree_of_files(paths, files))
    } else {
        Err(
            ErrorView::IOFailure {
                path: paths[choose|k: int| first_missing(paths, files, k)],
                cause: not_found_cause(),
            },
        )
    }
}

/// The place of the first path that names no file, if there is one.
fn find_missing(file_paths: &Vec<String>, worktree: &WorkTree) -> (r: Option<usize>)
    requires
        worktree.wf(),
    ensures
        r is None <==> all_present(staged_texts(file_paths@), worktree@),
        r matches Some(k) ==> first_missing(staged_texts(file_paths@), worktree@, k as int) && k
            == (choose|k: int| first_missing(staged_texts(file_paths@), worktree@, k)),
{
    let ghost paths = staged_texts(file_paths@);
    let mut k: usize = 0;
    while k < file_paths.len()
        invariant
            k <= file_paths.len(),
            worktree.wf(),
            paths == staged_texts(file_paths@),
            forall|j: int| 0 <= j < k ==> worktree@.contains_key(#[trigger] paths[j]),
        decreases file_paths.len() - k,
    {
        assert(paths[k as int] == file_paths@[k as int]@);
        if !worktree.contains(file_paths[k].as_str()) {
            proof {
                assert(first_missing(paths, worktree@, k as int));
                let c = choose|c: int| first_missing(paths, worktree@, c);
                if c < k {
                    assert(worktree@.contains_key(paths[c]));
                } else if c > k {
                    assert(worktree@.contains_key(paths[k as int]));
                }
            }
            return Some(k);
        }
        k += 1;
    }
    None
}

impl RepositoryInterface {
    /// Makes the tree of the files at `file_paths`: the content of each file
    /// is stored as a blob and the path is bound to it. If a path names no
    /// file of the working directory, nothing is stored and the first such
    /// path is reported.
    pub fn create_dir_from_files(&mut self, file_paths: &Vec<String>, worktree: &WorkTree) -> (r:
        Result<Directory, DvcsError>)
        requires
            old(self).wf(),
            worktree.wf(),
        ensures
            final(self).wf(),
            r matches Ok(d) ==> d.wf() && tree_from_files(staged_texts(file_paths@), worktree@)
                == Ok::<Map<Seq<char>, Seq<char>>, ErrorView>(d@) && final(self)@ == (RepoView {
                objects: store_with_blobs(
                    old(self)@.objects,
                    staged_texts(file_paths@),
                    worktree@,
                ),
                ..old(self)@
            }) && final(self).object_pairs() == pairs_with_blobs(
                old(self).object_pairs(),
                staged_texts(file_paths@),
                worktree@,
            ),
            r matches Err(e) ==> tree_from_files(staged_texts(file_paths@), worktree@) == Err::<
                Map<Seq<char>, Seq<char>>,
                ErrorView,
            >(e@) && final(self)@ == old(self)@ && final(self).object_pairs() == old(
                self,
            ).object_pairs(),
    {
        let ghost paths = staged_texts(file_paths@);
        let ghost files = worktree@;
        let ghost objs = self@.objects;
        let ghost pairs = self.object_pairs();
        match find_missing(file_paths, worktree) {
            Some(k) => {
                assert(paths[k as int] == file_paths@[k as int]@);
                return Err(not_found(file_paths[k].clone()));
            },
            None => {},
        }
        let mut dir = Directory::new();
        let mut k: usize = 0;
        proof {
            assert(paths.take(0) =~= Seq::<Seq<char>>::empty());
            assert(dir@ =~= tree_of_files(paths.take(0), files));
        }
        while k < file_paths.len()
            invariant
                k <= file_paths.len(),
                self.wf(),
                worktree.wf(),
                files == worktree@,
                paths == staged_texts(file_paths@),
                all_present(paths, files),
                dir.wf(),
                dir@ == tree_of_files(paths.take(k as int), files),
                self@ == (RepoView {
                    objects: store_with_blobs(objs, paths.take(k as int), files),
                    ..old(self)@
                }),
                self.object_pairs() == pairs_with_blobs(pairs, paths.take(k as int), files),
            decreases file_paths.len() - k,
        {
            let path = file_paths[k].as_str();
            let ghost p = paths[k as int];
            assert(p == path@);
            assert(files.contains_key(paths[k as int]));
            let ghost before = dir@;
            let ghost sofar = paths.take(k as int);
            let ghost next = paths.take(k + 1);
            match worktree.read(path) {
                Some(data) => {
                    let h = self.create_blob(data.as_slice());
                    dir.insert_file_ref(path, BlobRef::new(h));
                },
                None => {},
            }
            proof {
                assert(next.drop_last() =~= sofar);
                assert(next.last() == p);
                assert forall|q: Seq<char>| next.contains(q) <==> sofar.contains(q) || q == p by {
                    if sofar.contains(q) {
                        let j = choose|j: int| 0 <= j < sofar.len() && sofar[j] == q;
                        assert(next[j] == q);
                    }
                    if q == p {
                        assert(next[k as int] == q);
                    }
                    if next.contains(q) {
                        let j = choose|j: int| 0 <= j < next.len() && next[j] == q;
                        if j < k {
                            assert(sofar[j] == q);
                        }
                    }
                }
                assert(dir@ =~= tree_of_files(next, files));
            }
            k += 1;
        }
        assert(paths.take(k as int) =~= paths);
        Ok(dir)
    }
}

/// The name of the branch that the first commit of a repository makes.
pub open spec fn master() -> Seq<char> {
    "master"@
}

/// `master` can name a branch.
pub proof fn lemma_master_is_a_branch_name()
    ensures
        is_branch_name(master()),
{
    reveal_strlit("master");
    let m = master();
    assert(m.len() == 6);
    assert(m[0] == 'm');
    assert(m != seq!['.']);
    assert(m != seq!['.', '.']);
    assert forall|i: int| 0 <= i < m.len() implies m[i] != '/' && m[i] != '\\' by {
        if i == 0 {
        } else if i == 1 {
        } else if i == 2 {
        } else if i == 3 {
        } else if i == 4 {
        } else {
        }
    }
}

/// The parents of the next commit: the commit that the current branch points
/// to, or none where the head names no branch.
pub open spec fn next_parents(repo: RepoView) -> Seq<Seq<char>> {
    if repo.head.len() > 0 {
        seq![branch_hash(repo.branches, repo.head)->0]
    } else {
        Seq::empty()
    }
}

/// The commit that the commit command makes.
pub open spec fn next_commit(
    repo: RepoView,
    staged: Seq<Seq<char>>,
    files: Map<Seq<char>, Seq<u8>>,
    message: Seq<char>,
    author: Seq<char>,
    now: Seq<char>,
) -> CommitView {
    CommitView {
        parent_hashes: next_parents(repo),
        dir_hash: tree_hash(tree_of_files(staged, files)),
        author: author,
        message: message,
        timestamp: now,
    }
}

/// The branches and the head after the commit with hash `h` was made on the
/// current branch: that branch moves to the commit; where the head names no
/// branch, the branch `master` is made at the commit and becomes current.
pub open spec fn advanced(repo: RepoView, h: Seq<char>) -> RepoView {
    if repo.head.len() > 0 {
        RepoView {
            branches: repo.branches.update(key_index(repo.branches, repo.head), (repo.head, h)),
            ..repo
        }
    } else {
        RepoView { branches: repo.branches.push((master(), h)), head: master(), ..repo }
    }
}

/// What the commit command answers with and how it leaves the repository.
/// It fails, and changes nothing, if nothing is staged, else if a staged
/// path names no file, else if the head names no branch while `master`
/// exists.
pub open spec fn commit_cmd_spec(
    repo: RepoView,
    staged: Seq<Seq<char>>,
    files: Map<Seq<char>, Seq<u8>>,
    message: Seq<char>,
    author: Seq<char>,
    now: Seq<char>,
) -> Result<(CommitView, RepoView), ErrorView> {
    if staged.len() == 0 {
        Err(ErrorView::EmptyStaging)
    } else if tree_from_files(staged, files) is Err {
        Err(tree_from_files(staged, files)->Err_0)
    } else if repo.head.len() == 0 && has_key(repo.branches, master()) {
        Err(ErrorView::BranchExists { name: master() })
    } else {
        let c = next_commit(repo, staged, files, message, author, now);
        let stored = RepoView {
            objects: commit_written(
                store_with_blobs(repo.objects, staged, files),
                c,
                tree_of_files(staged, files),
            ),
            ..repo
        };
        Ok((c, advanced(stored, c.hash())))
    }
}

/// The value of what the commit command answers with.
pub open spec fn commit_answer(r: Result<Commit, DvcsError>, repo: RepoView) -> Result<
    (CommitView, RepoView),
    ErrorView,
> {
    match r {
        Ok(c) => Ok((c@, repo)),
        Err(e) => Err(e@),
    }
}

/// The commit command with the time given: commits the staged files of the
/// working directory on the current branch and clears the staging area.
pub fn commit_cmd_at(
    repo: &mut RepositoryInterface,
    staging: &mut StagingArea,
    worktree: &WorkTree,
    message: &str,
    author: &str,
    now: &str,
) -> (r: Result<Commit, DvcsError>)
    requires
        old(repo).wf(),
        old(staging).wf(),
        worktree.wf(),
    ensures
        final(repo).wf(),
        final(staging).wf(),
        commit_answer(r, final(repo)@) == commit_cmd_spec(
            old(repo)@,
            old(staging)@,
            worktree@,
            message@,
            author@,
            now@,
        ),
        r matches Ok(c) ==> c.wf() && final(staging)@ == Seq::<Seq<char>>::empty()
            && final(repo).object_pairs() == commit_written_pairs(
            pairs_with_blobs(old(repo).object_pairs(), old(staging)@, worktree@),
            c@,
            tree_of_files(old(staging)@, worktree@),
        ),
        r is Err ==> final(repo)@ == old(repo)@ && final(repo).object_pairs() == old(
            repo,
        ).object_pairs() && final(staging)@ == old(staging)@,
{
    let staged_files = staging.list();
    if staged_files.len() == 0 {
        return Err(DvcsError::EmptyStaging);
    }
    proof {
        repo.lemma_wf();
        lemma_master_is_a_branch_name();
    }
    match find_missing(&staged_files, worktree) {
        Some(k) => {
            assert(staged_texts(staged_files@)[k as int] == staged_files@[k as int]@);
            return Err(not_found(staged_files[k].clone()));
        },
        None => {},
    }
    let head = repo.get_current_head();
    let mut parent_hash: Vec<crate::hash::Hash> = Vec::new();
    match &head {
        Some(curr_branch) => {
            match repo.get_hash_from_branch(curr_branch.as_str()) {
                Ok(h) => {
                    parent_hash.push(h);
                },
                Err(e) => {
                    return Err(e);
                },
            }
        },
        None => {
            match repo.get_hash_from_branch("master") {
                Ok(_) => {
                    return Err(DvcsError::BranchExists { name: "master".to_owned() });
                },
                Err(_) => {},
            }
        },
    }
    assert(hash_texts(parent_hash@) =~= next_parents(repo@));
    let dir = match repo.create_dir_from_files(&staged_files, worktree) {
        Ok(d) => d,
        Err(e) => {
            return Err(e);
        },
    };
    let new_commit = build_commit(author, &parent_hash, &dir, message, now, repo);
    let new_commit_hash = new_commit.get_hash();
    let ghost stored = repo@;
    proof {
        repo.lemma_wf();
        assert(dir@ == tree_of_files(old(staging)@, worktree@));
        assert(new_commit@ == next_commit(
            old(repo)@,
            old(staging)@,
            worktree@,
            message@,
            author@,
            now@,
        ));
    }
    match &head {
        Some(curr_branch) => {
            let moved = repo.update_branch_head(curr_branch.as_str(), new_commit_hash);
            assert(moved is Ok);
        },
        None => {
            let made = repo.create_branch("master", new_commit_hash);
            assert(made is Ok);
            proof {
                let bs = repo@.branches;
                assert(bs[bs.len() - 1].0 == master());
                assert(has_key(bs, master()));
            }
            let set = repo.update_current_head("master");
            assert(set is Ok);
        },
    }
    assert(repo@ == advanced(stored, new_commit@.hash()));
    staging.clear();
    Ok(new_commit)
}

/// The commit command: commits the staged files of the working directory on
/// the current branch, stamped with the present time, and clears the staging
/// area.
pub fn commit_cmd(
    repo: &mut RepositoryInterface,
    staging: &mut StagingArea,
    worktree: &WorkTree,
    message: &str,
    author: &str,
) -> (r: Result<Commit, DvcsError>)
    requires
        old(repo).wf(),
        old(staging).wf(),
        worktree.wf(),
    ensures
        final(repo).wf(),
        final(staging).wf(),
        r matches Ok(c) ==> c.wf() && final(staging)@ == Seq::<Seq<char>>::empty()
            && final(repo).object_pairs() == commit_written_pairs(
            pairs_with_blobs(old(repo).object_pairs(), old(staging)@, worktree@),
            c@,
            tree_of_files(old(staging)@, worktree@),
        ) && commit_cmd_spec(
            old(repo)@,
            old(staging)@,
            worktree@,
            message@,
            author@,
            c@.timestamp,
        ) == Ok::<(CommitView, RepoView), ErrorView>((c@, final(repo)@)),
        r matches Err(e) ==> final(repo)@ == old(repo)@ && final(repo).object_pairs() == old(
            repo,
        ).object_pairs() && final(staging)@ == old(staging)@ && forall|now: Seq<char>|
            #[trigger] commit_cmd_spec(old(repo)@, old(staging)@, worktree@, message@, author@, now)
                == Err::<(CommitView, RepoView), ErrorView>(e@),
{
    let now = utc_now_text();
    commit_cmd_at(repo, staging, worktree, message, author, now.as_str())
}

} // verus!
