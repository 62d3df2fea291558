//! Read-only inspection: differences between trees and files, the content of
//! a file of a commit, the log and the list of branches.

use crate::commit::Commit;
use crate::directory::Directory;
use crate::error::{not_found, not_found_cause, DvcsError, ErrorView};
use crate::merge::{ascending, path_texts, union_paths};
use crate::repository::{
    branch_hash, stored_blob, stored_commit, stored_directory, RepoView, RepositoryInterface,
};
use crate::sync::{line_views, same_bytes, split_lines, split_lines_spec};
use crate::table::has_key;
use crate::text::text_lt;
use vstd::prelude::*;
use vstd::string::*;

verus! {

/// How a path differs between two trees.
#[derive(Debug, PartialEq, Eq)]
pub enum Change {
    /// The path is in the second tree only.
    Add { path: String },
    /// The path is in the first tree only.
    Remove { path: String },
    /// The path is in both trees, with different content.
    Modify { path: String },
}

/// The mathematical value of a change.
pub enum ChangeView {
    Add { path: Seq<char> },
    Remove { path: Seq<char> },
    Modify { path: Seq<char> },
}

impl View for Change {
    type V = ChangeView;

    open spec fn view(&self) -> ChangeView {
        match self {
            Change::Add { path } => ChangeView::Add { path: path@ },
            Change::Remove { path } => ChangeView::Remove { path: path@ },
            Change::Modify { path } => ChangeView::Modify { path: path@ },
        }
    }
}

impl ChangeView {
    /// The path that the change is about.
    pub open spec fn path(self) -> Seq<char> {
        match self {
            ChangeView::Add { path } => path,
            ChangeView::Remove { path } => path,
            ChangeView::Modify { path } => path,
        }
    }
}

/// How the path `p` differs between the trees `t1` and `t2`, if it does.
pub open spec fn change_at(
    t1: Map<Seq<char>, Seq<char>>,
    t2: Map<Seq<char>, Seq<char>>,
    p: Seq<char>,
) -> Option<ChangeView> {
    if t1.contains_key(p) && t2.contains_key(p) {
        if t1[p] != t2[p] {
            Some(ChangeView::Modify { path: p })
        } else {
            None
        }
    } else if t1.contains_key(p) {
        Some(ChangeView::Remove { path: p })
    } else if t2.contains_key(p) {
        Some(ChangeView::Add { path: p })
    } else {
        None
    }
}

/// The values of a vector of changes.
pub open spec fn change_views(v: Seq<Change>) -> Seq<ChangeView> {
    Seq::new(v.len(), |i: int| v[i]@)
}

/// `cs` lists the differences between two trees: every path that differs,
/// once, with how it differs, in ascending order of path.
pub open spec fn is_diff_of(
    cs: Seq<ChangeView>,
    t1: Map<Seq<char>, Seq<char>>,
    t2: Map<Seq<char>, Seq<char>>,
) -> bool {
    &&& forall|i: int, j: int|
        0 <= i < j < cs.len() ==> text_lt((#[trigger] cs[i]).path(), (#[trigger] cs[j]).path())
    &&& forall|i: int| 0 <= i < cs.len() ==> change_at(t1, t2, (#[trigger] cs[i]).path()) == Some(cs[i])
    &&& forall|p: Seq<char>| (#[trigger] change_at(t1, t2, p)) is Some ==> exists|i: int|
            0 <= i < cs.len() && cs[i].path() == p
}

/// The differences at the first `k` of the paths `ts`, in the order of the
/// paths.
pub open spec fn diff_upto(
    ts: Seq<Seq<char>>,
    t1: Map<Seq<char>, Seq<char>>,
    t2: Map<Seq<char>, Seq<char>>,
    k: int,
) -> Seq<ChangeView>
    decreases k,
{
    if k <= 0 {
        Seq::empty()
    } else if change_at(t1, t2, ts[k - 1]) is Some {
        diff_upto(ts, t1, t2, k - 1).push(change_at(t1, t2, ts[k - 1])->0)
    } else {
        diff_upto(ts, t1, t2, k - 1)
    }
}

proof fn lemma_diff_upto(
    ts: Seq<Seq<char>>,
    t1: Map<Seq<char>, Seq<char>>,
    t2: Map<Seq<char>, Seq<char>>,
    k: int,
)
    requires
        ascending(ts),
        0 <= k <= ts.len(),
    ensures
        forall|i: int|
            0 <= i < diff_upto(ts, t1, t2, k).len() ==> change_at(
                t1,
                t2,
                (#[trigger] diff_upto(ts, t1, t2, k)[i]).path(),
            ) == Some(diff_upto(ts, t1, t2, k)[i]),
        forall|i: int|
            0 <= i < diff_upto(ts, t1, t2, k).len() ==> exists|j: int|
                0 <= j < k && ts[j] == (#[trigger] diff_upto(ts, t1, t2, k)[i]).path(),
        forall|i: int, j: int|
            0 <= i < j < diff_upto(ts, t1, t2, k).len() ==> text_lt(
                (#[trigger] diff_upto(ts, t1, t2, k)[i]).path(),
                (#[trigger] diff_upto(ts, t1, t2, k)[j]).path(),
            ),
        forall|j: int|
            0 <= j < k && change_at(t1, t2, #[trigger] ts[j]) is Some ==> exists|i: int|
                0 <= i < diff_upto(ts, t1, t2, k).len() && diff_upto(ts, t1, t2, k)[i].path()
                    == ts[j],
    decreases k,
{
    if k > 0 {
        lemma_diff_upto(ts, t1, t2, k - 1);
        let before = diff_upto(ts, t1, t2, k - 1);
        let now = diff_upto(ts, t1, t2, k);
        let p = ts[k - 1];
        assert forall|i: int| 0 <= i < now.len() implies change_at(
            t1,
            t2,
            (#[trigger] now[i]).path(),
        ) == Some(now[i]) && exists|j: int| 0 <= j < k && ts[j] == now[i].path() by {
            if i < before.len() {
                assert(now[i] == before[i]);
                let j = choose|j: int| 0 <= j < k - 1 && ts[j] == before[i].path();
                assert(0 <= j < k && ts[j] == now[i].path());
            } else {
                assert(0 <= k - 1 < k && ts[k - 1] == now[i].path());
            }
        }
        assert forall|i: int, j: int| 0 <= i < j < now.len() implies text_lt(
            (#[trigger] now[i]).path(),
            (#[trigger] now[j]).path(),
        ) by {
            assert(now[i] == before[i]);
            if j < before.len() {
                assert(now[j] == before[j]);
            } else {
                let x = choose|x: int| 0 <= x < k - 1 && ts[x] == before[i].path();
                assert(text_lt(ts[x], ts[k - 1]));
            }
        }
        assert forall|j: int|
            0 <= j < k && change_at(t1, t2, #[trigger] ts[j]) is Some implies exists|i: int|
            0 <= i < now.len() && now[i].path() == ts[j] by {
            if j < k - 1 {
                let i = choose|i: int| 0 <= i < before.len() && before[i].path() == ts[j];
                assert(now[i] == before[i]);
            } else {
                assert(now[now.len() - 1].path() == ts[j]);
            }
        }
    }
}

/// Compares two trees by the content hashes of their paths.
pub fn show_diff(dir1: &Directory, dir2: &Directory) -> (r: Vec<Change>)
    requires
        dir1.wf(),
        dir2.wf(),
    ensures
        is_diff_of(change_views(r@), dir1@, dir2@),
{
    let none = Directory::new();
    let paths = union_paths(dir1, dir2, &none);
    let ghost ts = path_texts(paths@);
    let mut out: Vec<Change> = Vec::new();
    let mut k: usize = 0;
    assert(change_views(out@) =~= diff_upto(ts, dir1@, dir2@, 0));
    while k < paths.len()
        invariant
            k <= paths.len(),
            dir1.wf(),
            dir2.wf(),
            ts == path_texts(paths@),
            change_views(out@) == diff_upto(ts, dir1@, dir2@, k as int),
        decreases paths.len() - k,
    {
        let path = paths[k].as_str();
        assert(ts[k as int] == path@);
        let ghost before = change_views(out@);
        let change = match (dir1.get_file_ref(path), dir2.get_file_ref(path)) {
            (Some(a), Some(b)) => {
                if a.get_content_hash().same(b.get_content_hash()) {
                    None
                } else {
                    Some(Change::Modify { path: paths[k].clone() })
                }
            },
            (Some(_), None) => Some(Change::Remove { path: paths[k].clone() }),
            (None, Some(_)) => Some(Change::Add { path: paths[k].clone() }),
            (None, None) => None,
        };
        match change {
            Some(c) => {
                assert(change_at(dir1@, dir2@, ts[k as int]) == Some(c@));
                out.push(c);
                assert(change_views(out@) =~= before.push(c@));
            },
            None => {
                assert(change_at(dir1@, dir2@, ts[k as int]) is None);
            },
        }
        k += 1;
    }
    proof {
        let cs = change_views(out@);
        lemma_diff_upto(ts, dir1@, dir2@, k as int);
        assert forall|p: Seq<char>| (#[trigger] change_at(dir1@, dir2@, p)) is Some implies exists|
            i: int,
        | 0 <= i < cs.len() && cs[i].path() == p by {
            assert(ts.contains(p));
            let j = choose|j: int| 0 <= j < ts.len() && ts[j] == p;
            assert(change_at(dir1@, dir2@, ts[j]) is Some);
        }
    }
    out
}

/// A line without the carriage return that may end it.
pub open spec fn trim_cr(line: Seq<u8>) -> Seq<u8> {
    if line.len() > 0 && line.last() == 13u8 {
        line.drop_last()
    } else {
        line
    }
}

/// The lines of a text: the pieces between line feeds, each without the
/// carriage return that may end it; what follows the last line feed is a
/// line only if it is not empty.
pub open spec fn text_lines(data: Seq<u8>) -> Seq<Seq<u8>> {
    let pieces = split_lines_spec(data);
    let kept = if pieces.len() > 0 && pieces.last().len() == 0 {
        pieces.drop_last()
    } else {
        pieces
    };
    Seq::new(kept.len(), |i: int| trim_cr(kept[i]))
}

/// A line that differs between two versions of a file.
#[derive(Debug, PartialEq, Eq)]
pub struct LineChange {
    /// The number of the line, counted from one.
    pub line: usize,
    /// The line in the previous version.
    pub previous: Vec<u8>,
    /// The line in the current version.
    pub current: Vec<u8>,
}

/// The differing lines among the first `n` lines of two versions, as triples
/// of line number, previous line and current line.
pub open spec fn line_changes(current: Seq<Seq<u8>>, previous: Seq<Seq<u8>>, n: int) -> Seq<
    (int, Seq<u8>, Seq<u8>),
>
    decreases n,
{
    if n <= 0 {
        Seq::empty()
    } else if current[n - 1] != previous[n - 1] {
        line_changes(current, previous, n - 1).push((n, previous[n - 1], current[n - 1]))
    } else {
        line_changes(current, previous, n - 1)
    }
}

/// The values of a vector of line changes.
pub open spec fn line_change_views(v: Seq<LineChange>) -> Seq<(int, Seq<u8>, Seq<u8>)> {
    Seq::new(v.len(), |i: int| (v[i].line as int, v[i].previous@, v[i].current@))
}

/// The smaller of two lengths.
pub open spec fn shorter(a: int, b: int) -> int {
    if a <= b {
        a
    } else {
        b
    }
}

/// The lines of a text.
pub fn lines_of_text(data: &Vec<u8>) -> (r: Vec<Vec<u8>>)
    ensures
        line_views(r@) == text_lines(data@),
{
    let mut pieces = split_lines(data);
    let ghost all = line_views(pieces@);
    if pieces.len() > 0 && pieces[pieces.len() - 1].len() == 0 {
        let _ = pieces.pop();
    }
    let ghost kept = line_views(pieces@);
    assert(kept =~= if all.len() > 0 && all.last().len() == 0 {
        all.drop_last()
    } else {
        all
    });
    let mut out: Vec<Vec<u8>> = Vec::new();
    let mut i: usize = 0;
    while i < pieces.len()
        invariant
            i <= pieces.len(),
            kept == line_views(pieces@),
            out.len() == i,
            forall|j: int| 0 <= j < i ==> (#[trigger] out@[j])@ == trim_cr(kept[j]),
        decreases pieces.len() - i,
    {
        let mut line = pieces[i].clone();
        assert(line@ == kept[i as int]);
        if line.len() > 0 && line[line.len() - 1] == 13u8 {
            let _ = line.pop();
        }
        assert(line@ =~= trim_cr(kept[i as int]));
        out.push(line);
        i += 1;
    }
    assert(line_views(out@) =~= text_lines(data@));
    out
}

/// Compares two versions of a file line by line, as far as both have lines:
/// each line that differs is given with its number.
pub fn compare_file_contents(current: &Vec<u8>, previous: &Vec<u8>) -> (r: Vec<LineChange>)
    ensures
        line_change_views(r@) == line_changes(
            text_lines(current@),
            text_lines(previous@),
            shorter(text_lines(current@).len() as int, text_lines(previous@).len() as int),
        ),
{
    let cur = lines_of_text(current);
    let prev = lines_of_text(previous);
    let n = if cur.len() <= prev.len() {
        cur.len()
    } else {
        prev.len()
    };
    let ghost c = line_views(cur@);
    let ghost p = line_views(prev@);
    let mut out: Vec<LineChange> = Vec::new();
    let mut i: usize = 0;
    while i < n
        invariant
            i <= n,
            n <= cur.len(),
            n <= prev.len(),
            c == line_views(cur@),
            p == line_views(prev@),
            line_change_views(out@) == line_changes(c, p, i as int),
        decreases n - i,
    {
        let ghost before = line_change_views(out@);
        assert(c[i as int] == cur@[i as int]@);
        assert(p[i as int] == prev@[i as int]@);
        if !same_bytes(&cur[i], &prev[i]) {
            out.push(LineChange { line: i + 1, previous: prev[i].clone(), current: cur[i].clone() });
            assert(line_change_views(out@) =~= before.push((i + 1, p[i as int], c[i as int])));
        }
        i += 1;
    }
    out
}

/// What `cat` gives for a path of a commit: the commit is read, then its
/// tree, then the blob of the path.
pub open spec fn cat_spec(objs: Map<Seq<char>, Seq<u8>>, h: Seq<char>, path: Seq<char>) -> Result<
    Seq<u8>,
    ErrorView,
> {
    match stored_commit(objs, h) {
        Err(e) => Err(e),
        Ok(c) => match stored_directory(objs, c.dir_hash) {
            Err(e) => Err(e),
            Ok(tree) => if !tree.contains_key(path) {
                Err(ErrorView::IOFailure { path: path, cause: not_found_cause() })
            } else {
                stored_blob(objs, tree[path])
            },
        },
    }
}

/// The content of the file at `file_name` in the commit with the given hash.
pub fn cat_cmd(repo: &RepositoryInterface, hash: crate::hash::Hash, file_name: &str) -> (r: Result<
    Vec<u8>,
    DvcsError,
>)
    requires
        repo.wf(),
        hash.wf(),
    ensures
        r matches Ok(d) ==> cat_spec(repo.objects(), hash@, file_name@) == Ok::<
            Seq<u8>,
            ErrorView,
        >(d@),
        r matches Err(e) ==> cat_spec(repo.objects(), hash@, file_name@) == Err::<
            Seq<u8>,
            ErrorView,
        >(e@),
{
    let commit = match repo.get_commit(&hash) {
        Ok(c) => c,
        Err(e) => {
            return Err(e);
        },
    };
    let dir = match repo.get_directory(&commit.get_dir_hash()) {
        Ok(d) => d,
        Err(e) => {
            return Err(e);
        },
    };
    let blobref = match dir.get_file_ref(file_name) {
        Some(b) => b,
        None => {
            return Err(not_found(file_name.to_owned()));
        },
    };
    repo.get_blob(blobref.get_content_hash())
}

/// The log with the record of `commit` put before what was logged so far.
pub fn dvcs_log(existing: &str, commit: &Commit) -> (r: String)
    requires
        commit.wf(),
    ensures
        r@ == Commit::log_record(commit@) + "\n"@ + existing@,
{
    let mut out = commit.to_log_record();
    out.append("\n");
    out.append(existing);
    out
}

/// The names joined with a line feed between each two.
pub open spec fn joined_lines(names: Seq<Seq<char>>) -> Seq<char>
    decreases names.len(),
{
    if names.len() == 0 {
        Seq::empty()
    } else if names.len() == 1 {
        names[0]
    } else {
        joined_lines(names.drop_last()) + "\n"@ + names.last()
    }
}

/// The names of the branches.
pub open spec fn branch_names(bs: Seq<(Seq<char>, Seq<char>)>) -> Seq<Seq<char>> {
    Seq::new(bs.len(), |i: int| bs[i].0)
}

/// What `heads` shows: the branches, one on each line, and then the current
/// branch.
pub open spec fn heads_text(repo: RepoView) -> Seq<char> {
    joined_lines(branch_names(repo.branches)) + "\n*curr: "@ + repo.head
}

/// Lists the branches and the current branch. Fails if the head names no
/// branch.
pub fn get_branches_cmd(repo: &RepositoryInterface) -> (r: Result<String, DvcsError>)
    requires
        repo.wf(),
    ensures
        r is Ok <==> repo@.head.len() > 0,
        r matches Ok(s) ==> s@ == heads_text(repo@),
        r matches Err(e) ==> e@ == ErrorView::DetachedHead,
{
    let head = match repo.get_current_head() {
        Some(h) => h,
        None => {
            return Err(DvcsError::DetachedHead);
        },
    };
    let names = repo.get_branches();
    let ghost ns = branch_names(repo@.branches);
    let mut out = String::new();
    let mut i: usize = 0;
    assert(ns.take(0) =~= Seq::<Seq<char>>::empty());
    while i < names.len()
        invariant
            i <= names.len(),
            names.len() == ns.len(),
            forall|j: int| 0 <= j < names.len() ==> (#[trigger] names@[j])@ == ns[j],
            out@ == joined_lines(ns.take(i as int)),
        decreases names.len() - i,
    {
        let ghost s = ns.take(i + 1);
        assert(s.drop_last() =~= ns.take(i as int));
        assert(s.last() == names@[i as int]@);
        if i > 0 {
            out.append("\n");
        } else {
            assert(out@ + names@[i as int]@ =~= names@[i as int]@);
        }
        out.append(names[i].as_str());
        i += 1;
    }
    assert(ns.take(i as int) =~= ns);
    out.append("\n*curr: ");
    out.append(head.as_str());
    Ok(out)
}

/// What making a branch at the current commit answers with: the branches
/// after it, or why it fails.
pub open spec fn create_branch_spec(repo: RepoView, name: Seq<char>) -> Result<RepoView, ErrorView> {
    if repo.head.len() == 0 {
        Err(ErrorView::DetachedHead)
    } else if !crate::repository::is_branch_name(name) {
        Err(ErrorView::InvalidPath)
    } else if has_key(repo.branches, name) {
        Err(ErrorView::BranchExists { name: name })
    } else {
        Ok(
            RepoView {
                branches: repo.branches.push((name, branch_hash(repo.branches, repo.head)->0)),
                ..repo
            },
        )
    }
}

/// Makes the branch `branch_name` at the commit of the current branch.
pub fn create_branch_cmd(repo: &mut RepositoryInterface, branch_name: &str) -> (r: Result<
    (),
    DvcsError,
>)
    requires
        old(repo).wf(),
    ensures
        final(repo).wf(),
        final(repo).object_pairs() == old(repo).object_pairs(),
        r is Ok ==> create_branch_spec(old(repo)@, branch_name@) == Ok::<RepoView, ErrorView>(
            final(repo)@,
        ),
        r matches Err(e) ==> create_branch_spec(old(repo)@, branch_name@) == Err::<
            RepoView,
            ErrorView,
        >(e@) && final(repo)@ == old(repo)@,
{
    let curr_branch = match repo.get_current_head() {
        Some(b) => b,
        None => {
            return Err(DvcsError::DetachedHead);
        },
    };
    let curr_hash = match repo.get_hash_from_branch(curr_branch.as_str()) {
        Ok(h) => h,
        Err(e) => {
            return Err(e);
        },
    };
    repo.create_branch(branch_name, curr_hash)
}

} // verus!
