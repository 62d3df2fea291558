//! The status of a working directory against the staging area.

use crate::staging::{inside_metadata, staged_texts, StagingArea};
use crate::text::{chars_of, same_text};
use vstd::prelude::*;
use vstd::string::*;

verus! {

/// The needle stands in the text at position `i`.
pub open spec fn occurs_at(hay: Seq<char>, needle: Seq<char>, i: int) -> bool {
    &&& 0 <= i
    &&& i + needle.len() <= hay.len()
    &&& hay.subrange(i, i + needle.len()) == needle
}

/// The needle stands somewhere in the text.
pub open spec fn contains_text(hay: Seq<char>, needle: Seq<char>) -> bool {
    exists|i: int| occurs_at(hay, needle, i)
}

/// Decides whether `needle` stands in `hay` at position `i`.
fn occurs(hay: &Vec<char>, needle: &Vec<char>, i: usize) -> (r: bool)
    requires
        i + needle.len() <= hay.len(),
    ensures
        r == occurs_at(hay@, needle@, i as int),
{
    let mut j: usize = 0;
    while j < needle.len()
        invariant
            j <= needle.len(),
            i + needle.len() <= hay.len(),
            forall|x: int| 0 <= x < j ==> hay@[i + x] == needle@[x],
        decreases needle.len() - j,
    {
        if hay[i + j] != needle[j] {
            proof {
                if occurs_at(hay@, needle@, i as int) {
                    assert(hay@.subrange(i as int, i + needle.len())[j as int] == needle@[j as int]);
                }
            }
            return false;
        }
        j += 1;
    }
    assert(hay@.subrange(i as int, i + needle.len()) =~= needle@);
    true
}

/// Decides whether the text `hay` contains the text `needle`.
pub fn text_contains(hay: &str, needle: &str) -> (r: bool)
    ensures
        r == contains_text(hay@, needle@),
{
    let h = chars_of(hay);
    let n = chars_of(needle);
    if n.len() > h.len() {
        return false;
    }
    let last = h.len() - n.len();
    let mut i: usize = 0;
    loop
        invariant
            h@ == hay@,
            n@ == needle@,
            n.len() <= h.len(),
            last == h.len() - n.len(),
            i <= last,
            forall|x: int| 0 <= x < i ==> !occurs_at(h@, n@, x),
        decreases last - i,
    {
        if occurs(&h, &n, i) {
            return true;
        }
        if i == last {
            return false;
        }
        i += 1;
    }
}

/// Collects the paths of a walk, but for those that lie in a hidden place.
pub struct FileTraverser {
    dvcs_hidden: String,
}

/// The paths collected after the first `k` entries of a walk were looked at:
/// an entry whose path contains the hidden name is passed over, and so is
/// one that was collected before.
pub open spec fn traversed(
    hidden: Seq<char>,
    entries: Seq<Seq<char>>,
    start: Seq<Seq<char>>,
    k: int,
) -> Seq<Seq<char>>
    decreases k,
{
    if k <= 0 {
        start
    } else {
        let sofar = traversed(hidden, entries, start, k - 1);
        if contains_text(entries[k - 1], hidden) || sofar.contains(entries[k - 1]) {
            sofar
        } else {
            sofar.push(entries[k - 1])
        }
    }
}

/// Decides whether `path` is among `paths`.
pub fn has_text(paths: &Vec<String>, path: &str) -> (r: bool)
    ensures
        r == staged_texts(paths@).contains(path@),
{
    let mut i: usize = 0;
    while i < paths.len()
        invariant
            i <= paths.len(),
            forall|j: int| 0 <= j < i ==> staged_texts(paths@)[j] != path@,
        decreases paths.len() - i,
    {
        if same_text(paths[i].as_str(), path) {
            assert(staged_texts(paths@)[i as int] == path@);
            return true;
        }
        i += 1;
    }
    false
}

impl FileTraverser {
    /// The name of the place that is passed over.
    pub closed spec fn hidden(&self) -> Seq<char> {
        self.dvcs_hidden@
    }

    /// A traverser that passes over every path that contains `dvcs_hidden`.
    pub fn new(dvcs_hidden: String) -> (t: FileTraverser)
        ensures
            t.hidden() == dvcs_hidden@,
    {
        FileTraverser { dvcs_hidden }
    }

    /// Adds the paths of the files that a walk found to `all_files`.
    pub fn recursive_file_traversal(&self, entries: &Vec<String>, all_files: &mut Vec<String>)
        ensures
            staged_texts(final(all_files)@) == traversed(
                self.hidden(),
                staged_texts(entries@),
                staged_texts(old(all_files)@),
                entries.len() as int,
            ),
    {
        let ghost es = staged_texts(entries@);
        let ghost start = staged_texts(all_files@);
        let mut k: usize = 0;
        while k < entries.len()
            invariant
                k <= entries.len(),
                es == staged_texts(entries@),
                staged_texts(all_files@) == traversed(self.hidden(), es, start, k as int),
            decreases entries.len() - k,
        {
            assert(es[k as int] == entries@[k as int]@);
            let ghost before = staged_texts(all_files@);
            if !text_contains(entries[k].as_str(), self.dvcs_hidden.as_str()) && !has_text(
                all_files,
                entries[k].as_str(),
            ) {
                all_files.push(entries[k].clone());
                assert(staged_texts(all_files@) =~= before.push(es[k as int]));
            }
            k += 1;
        }
    }
}

/// The files among the first `k` of `files` that are neither staged nor in
/// the metadata directory, in the order of `files`.
pub open spec fn untracked_upto(staged: Seq<Seq<char>>, files: Seq<Seq<char>>, k: int) -> Seq<
    Seq<char>,
>
    decreases k,
{
    if k <= 0 {
        Seq::empty()
    } else if !staged.contains(files[k - 1]) && !inside_metadata(files[k - 1]) {
        untracked_upto(staged, files, k - 1).push(files[k - 1])
    } else {
        untracked_upto(staged, files, k - 1)
    }
}

/// Decides whether the path is the metadata directory or lies in it.
pub fn in_metadata(path: &str) -> (r: bool)
    ensures
        r == inside_metadata(path@),
{
    let p = chars_of(path);
    let m = chars_of(".my-dvcs");
    if p.len() < m.len() {
        return false;
    }
    let mut j: usize = 0;
    while j < m.len()
        invariant
            p@ == path@,
            m@ == crate::repository::metadata_dir(),
            j <= m.len() <= p.len(),
            forall|x: int| 0 <= x < j ==> p@[x] == m@[x],
        decreases m.len() - j,
    {
        if p[j] != m[j] {
            proof {
                if p@.subrange(0, m.len() as int) == m@ {
                    assert(p@.subrange(0, m.len() as int)[j as int] == m@[j as int]);
                }
            }
            return false;
        }
        j += 1;
    }
    assert(p@.subrange(0, m.len() as int) =~= m@);
    p.len() == m.len() || p[m.len()] == '/'
}

/// The status of a repository: the staged paths, and every file of the
/// working directory that is neither staged nor in the metadata directory.
pub fn track_status(staging: &StagingArea, all_files: &Vec<String>) -> (r: (Vec<String>, Vec<String>))
    requires
        staging.wf(),
    ensures
        staged_texts(r.0@) == staging@,
        staged_texts(r.1@) == untracked_upto(
            staging@,
            staged_texts(all_files@),
            all_files.len() as int,
        ),
{
    let staged_now = staging.list();
    let ghost files = staged_texts(all_files@);
    let mut untracked: Vec<String> = Vec::new();
    let mut k: usize = 0;
    assert(staged_texts(untracked@) =~= untracked_upto(staging@, files, 0));
    while k < all_files.len()
        invariant
            k <= all_files.len(),
            staging.wf(),
            files == staged_texts(all_files@),
            staged_texts(untracked@) == untracked_upto(staging@, files, k as int),
        decreases all_files.len() - k,
    {
        assert(files[k as int] == all_files@[k as int]@);
        let ghost before = staged_texts(untracked@);
        if !staging.contains(all_files[k].as_str()) && !in_metadata(all_files[k].as_str()) {
            untracked.push(all_files[k].clone());
            assert(staged_texts(untracked@) =~= before.push(files[k as int]));
        }
        k += 1;
    }
    (staged_now, untracked)
}

/// The files of a working directory by their state.
#[derive(Debug, PartialEq, Eq)]
pub struct StatusReport {
    /// Staged and unchanged since.
    pub staged: Vec<String>,
    /// Staged and changed since.
    pub modified: Vec<String>,
    /// Not staged.
    pub untracked: Vec<String>,
}

/// The files among the first `k` that are staged and for which `modified`
/// is as given.
pub open spec fn tracked_upto(
    staged: Seq<Seq<char>>,
    files: Seq<(Seq<char>, bool)>,
    modified: bool,
    k: int,
) -> Seq<Seq<char>>
    decreases k,
{
    if k <= 0 {
        Seq::empty()
    } else if staged.contains(files[k - 1].0) && files[k - 1].1 == modified {
        tracked_upto(staged, files, modified, k - 1).push(files[k - 1].0)
    } else {
        tracked_upto(staged, files, modified, k - 1)
    }
}

/// The files among the first `k` that are not staged.
pub open spec fn unstaged_upto(staged: Seq<Seq<char>>, files: Seq<(Seq<char>, bool)>, k: int) -> Seq<
    Seq<char>,
>
    decreases k,
{
    if k <= 0 {
        Seq::empty()
    } else if !staged.contains(files[k - 1].0) {
        unstaged_upto(staged, files, k - 1).push(files[k - 1].0)
    } else {
        unstaged_upto(staged, files, k - 1)
    }
}

/// The paths of files with the flag that says whether each was changed.
pub open spec fn flagged(v: Seq<(String, bool)>) -> Seq<(Seq<char>, bool)> {
    Seq::new(v.len(), |i: int| (v[i].0@, v[i].1))
}

/// Sorts the files of a working directory by their state. `all_files` gives
/// each file with whether it was changed since it was staged.
pub fn check_status(staging: &StagingArea, all_files: &Vec<(String, bool)>) -> (r: StatusReport)
    requires
        staging.wf(),
    ensures
        staged_texts(r.staged@) == tracked_upto(
            staging@,
            flagged(all_files@),
            false,
            all_files.len() as int,
        ),
        staged_texts(r.modified@) == tracked_upto(
            staging@,
            flagged(all_files@),
            true,
            all_files.len() as int,
        ),
        staged_texts(r.untracked@) == unstaged_upto(
            staging@,
            flagged(all_files@),
            all_files.len() as int,
        ),
{
    let ghost files = flagged(all_files@);
    let mut staged_files: Vec<String> = Vec::new();
    let mut modified_files: Vec<String> = Vec::new();
    let mut untracked_files: Vec<String> = Vec::new();
    let mut k: usize = 0;
    proof {
        assert(staged_texts(staged_files@) =~= tracked_upto(staging@, files, false, 0));
        assert(staged_texts(modified_files@) =~= tracked_upto(staging@, files, true, 0));
        assert(staged_texts(untracked_files@) =~= unstaged_upto(staging@, files, 0));
    }
    while k < all_files.len()
        invariant
            k <= all_files.len(),
            staging.wf(),
            files == flagged(all_files@),
            staged_texts(staged_files@) == tracked_upto(staging@, files, false, k as int),
            staged_texts(modified_files@) == tracked_upto(staging@, files, true, k as int),
            staged_texts(untracked_files@) == unstaged_upto(staging@, files, k as int),
        decreases all_files.len() - k,
    {
        assert(files[k as int] == (all_files@[k as int].0@, all_files@[k as int].1));
        let ghost s = staged_texts(staged_files@);
        let ghost m = staged_texts(modified_files@);
        let ghost u = staged_texts(untracked_files@);
        if staging.contains(all_files[k].0.as_str()) {
            if all_files[k].1 {
                modified_files.push(all_files[k].0.clone());
                assert(staged_texts(modified_files@) =~= m.push(files[k as int].0));
            } else {
                staged_files.push(all_files[k].0.clone());
                assert(staged_texts(staged_files@) =~= s.push(files[k as int].0));
            }
        } else {
            untracked_files.push(all_files[k].0.clone());
            assert(staged_texts(untracked_files@) =~= u.push(files[k as int].0));
        }
        k += 1;
    }
    StatusReport { staged: staged_files, modified: modified_files, untracked: untracked_files }
}

} // verus!
