//! Bringing files from one side to another, with detection of conflicts by
//! lines.

use crate::table::lemma_table_lookup;
use crate::worktree::WorkTree;
use vstd::prelude::*;
use vstd::string::*;

verus! {

/// The contents of a vector of byte vectors.
pub open spec fn line_views(v: Seq<Vec<u8>>) -> Seq<Seq<u8>> {
    Seq::new(v.len(), |i: int| v[i]@)
}

/// Every line of `lines` occurs among `among`.
pub open spec fn all_lines_in(lines: Seq<Seq<u8>>, among: Seq<Seq<u8>>) -> bool {
    forall|i: int| 0 <= i < lines.len() ==> among.contains(#[trigger] lines[i])
}

/// Whether copying would lose something. In a pull the destination must hold
/// no line that the source lacks; in a push the source must hold no line
/// that the destination lacks.
pub open spec fn changes_detected(
    source_lines: Seq<Seq<u8>>,
    dest_lines: Seq<Seq<u8>>,
    is_pull_operation: bool,
) -> bool {
    if is_pull_operation {
        !all_lines_in(dest_lines, source_lines)
    } else {
        !all_lines_in(source_lines, dest_lines)
    }
}

/// The pieces of `data` between line feeds: one more piece than there are
/// line feeds, the last one being what follows the last line feed.
pub open spec fn split_lines_spec(data: Seq<u8>) -> Seq<Seq<u8>>
    decreases data.len(),
{
    if data.len() == 0 {
        seq![Seq::<u8>::empty()]
    } else {
        let front = split_lines_spec(data.drop_last());
        if data.last() == 10u8 {
            front.push(Seq::<u8>::empty())
        } else {
            front.drop_last().push(front.last().push(data.last()))
        }
    }
}

/// Decides whether two byte vectors hold the same bytes.
pub fn same_bytes(a: &Vec<u8>, b: &Vec<u8>) -> (r: bool)
    ensures
        r == (a@ == b@),
{
    if a.len() != b.len() {
        return false;
    }
    let mut i: usize = 0;
    while i < a.len()
        invariant
            a.len() == b.len(),
            i <= a.len(),
            forall|j: int| 0 <= j < i ==> a@[j] == b@[j],
        decreases a.len() - i,
    {
        if a[i] != b[i] {
            return false;
        }
        i += 1;
    }
    assert(a@ =~= b@);
    true
}

/// Decides whether `line` occurs among `lines`.
pub fn has_line(lines: &Vec<Vec<u8>>, line: &Vec<u8>) -> (r: bool)
    ensures
        r == line_views(lines@).contains(line@),
{
    let mut i: usize = 0;
    while i < lines.len()
        invariant
            i <= lines.len(),
            forall|j: int| 0 <= j < i ==> line_views(lines@)[j] != line@,
        decreases lines.len() - i,
    {
        if same_bytes(&lines[i], line) {
            assert(line_views(lines@)[i as int] == line@);
            return true;
        }
        i += 1;
    }
    false
}

/// Decides whether every line of `lines` occurs among `among`.
fn lines_all_in(lines: &Vec<Vec<u8>>, among: &Vec<Vec<u8>>) -> (r: bool)
    ensures
        r == all_lines_in(line_views(lines@), line_views(among@)),
{
    let mut i: usize = 0;
    while i < lines.len()
        invariant
            i <= lines.len(),
            forall|j: int|
                0 <= j < i ==> line_views(among@).contains(#[trigger] line_views(lines@)[j]),
        decreases lines.len() - i,
    {
        if !has_line(among, &lines[i]) {
            assert(line_views(lines@)[i as int] == lines@[i as int]@);
            return false;
        }
        i += 1;
    }
    true
}

/// Decides whether a copy from source to destination would lose lines.
pub fn detect_changes(
    source_lines: &Vec<Vec<u8>>,
    dest_lines: &Vec<Vec<u8>>,
    is_pull_operation: bool,
) -> (r: bool)
    ensures
        r == changes_detected(line_views(source_lines@), line_views(dest_lines@), is_pull_operation),
{
    if is_pull_operation {
        !lines_all_in(dest_lines, source_lines)
    } else {
        !lines_all_in(source_lines, dest_lines)
    }
}

/// Splits `data` at every line feed.
pub fn split_lines(data: &Vec<u8>) -> (r: Vec<Vec<u8>>)
    ensures
        line_views(r@) == split_lines_spec(data@),
{
    let mut out: Vec<Vec<u8>> = Vec::new();
    let mut current: Vec<u8> = Vec::new();
    let mut i: usize = 0;
    assert(data@.take(0) =~= Seq::<u8>::empty());
    while i < data.len()
        invariant
            i <= data.len(),
            line_views(out@).push(current@) == split_lines_spec(data@.take(i as int)),
        decreases data.len() - i,
    {
        let ghost prefix = data@.take(i + 1);
        let ghost before = line_views(out@);
        assert(prefix.drop_last() =~= data@.take(i as int));
        assert(prefix.last() == data@[i as int]);
        let b = data[i];
        if b == 10u8 {
            out.push(current);
            current = Vec::new();
            assert(line_views(out@) =~= before.push(out@[out.len() - 1]@));
        } else {
            let ghost old_current = current@;
            current.push(b);
            assert(before.push(old_current).drop_last() =~= before);
        }
        i += 1;
    }
    assert(data@.take(i as int) =~= data@);
    let ghost before = line_views(out@);
    out.push(current);
    assert(line_views(out@) =~= before.push(out@[out.len() - 1]@));
    out
}

/// What a synchronization of one file decides.
#[derive(Debug, PartialEq, Eq)]
pub struct SyncOutcome {
    /// The copy would lose lines.
    pub conflict: bool,
    /// What to write to the destination, if anything.
    pub write: Option<Vec<u8>>,
}

/// The decision for one file that exists on both sides. Without a conflict
/// the destination gets the source's content in a pull and keeps its own in
/// a push. With a conflict nothing is written, unless `force` is set.
pub open spec fn sync_decision(
    source: Seq<u8>,
    dest: Seq<u8>,
    is_pull_operation: bool,
    force: bool,
) -> (bool, Option<Seq<u8>>) {
    let conflict = changes_detected(
        split_lines_spec(source),
        split_lines_spec(dest),
        is_pull_operation,
    );
    let data = if is_pull_operation {
        source
    } else {
        dest
    };
    if conflict && !force {
        (true, None)
    } else {
        (conflict, Some(data))
    }
}

/// Decides what to do with one file that exists on both sides.
pub fn synchronize_changes(
    source_contents: &Vec<u8>,
    dest_contents: &Vec<u8>,
    is_pull_operation: bool,
    force: bool,
) -> (r: SyncOutcome)
    ensures
        r.conflict == sync_decision(source_contents@, dest_contents@, is_pull_operation, force).0,
        r.write is Some == sync_decision(
            source_contents@,
            dest_contents@,
            is_pull_operation,
            force,
        ).1 is Some,
        r.write matches Some(w) ==> Some(w@) == sync_decision(
            source_contents@,
            dest_contents@,
            is_pull_operation,
            force,
        ).1,
{
    let source_lines = split_lines(source_contents);
    let dest_lines = split_lines(dest_contents);
    let conflict = detect_changes(&source_lines, &dest_lines, is_pull_operation);
    if conflict && !force {
        SyncOutcome { conflict: true, write: None }
    } else {
        let data = if is_pull_operation {
            source_contents.clone()
        } else {
            dest_contents.clone()
        };
        SyncOutcome { conflict, write: Some(data) }
    }
}


/// The destination after the first `k` files of the source were brought
/// over, and whether a conflict stopped the transfer. A file that the
/// destination lacks is copied; one that it has is synchronized; the first
/// conflict ends the transfer.
pub open spec fn transfer_upto(
    source: Seq<(Seq<char>, Seq<u8>)>,
    dest: Map<Seq<char>, Seq<u8>>,
    force: bool,
    k: int,
) -> (Map<Seq<char>, Seq<u8>>, bool)
    decreases k,
{
    if k <= 0 {
        (dest, false)
    } else {
        let before = transfer_upto(source, dest, force, k - 1);
        if before.1 {
            before
        } else {
            let path = source[k - 1].0;
            let data = source[k - 1].1;
            if before.0.contains_key(path) {
                let decision = sync_decision(data, before.0[path], true, force);
                (
                    if decision.1 is Some {
                        before.0.insert(path, decision.1->0)
                    } else {
                        before.0
                    },
                    decision.0,
                )
            } else {
                (before.0.insert(path, data), false)
            }
        }
    }
}

/// Brings the files of `source` over to `dest`, one after the other. Says
/// whether a conflict stopped the transfer.
fn transfer(source: &WorkTree, dest: &mut WorkTree, force: bool) -> (conflict: bool)
    requires
        source.wf(),
        old(dest).wf(),
    ensures
        final(dest).wf(),
        (final(dest)@, conflict) == transfer_upto(
            source.pairs(),
            old(dest)@,
            force,
            source.pairs().len() as int,
        ),
{
    let paths = source.paths();
    let ghost src = source.pairs();
    let ghost start = dest@;
    let mut k: usize = 0;
    while k < paths.len()
        invariant
            k <= paths.len(),
            source.wf(),
            dest.wf(),
            src == source.pairs(),
            start == old(dest)@,
            paths.len() == src.len(),
            forall|i: int| 0 <= i < paths.len() ==> (#[trigger] paths@[i])@ == src[i].0,
            (dest@, false) == transfer_upto(src, start, force, k as int),
        decreases paths.len() - k,
    {
        let path = paths[k].as_str();
        proof {
            lemma_table_lookup(src, k as int);
        }
        let data = match source.read(path) {
            Some(d) => d,
            None => vstd::pervasive::unreached(),
        };
        assert(data@ == src[k as int].1);
        let ghost before = dest@;
        match dest.read(path) {
            Some(existing) => {
                let ghost decision = sync_decision(data@, existing@, true, force);
                let outcome = synchronize_changes(data, existing, true, force);
                let conflict = outcome.conflict;
                match outcome.write {
                    Some(w) => {
                        dest.write(path, w);
                    },
                    None => {},
                }
                assert(dest@ == if decision.1 is Some {
                    before.insert(path@, decision.1->0)
                } else {
                    before
                });
                assert((dest@, conflict) == transfer_upto(src, start, force, k + 1));
                if conflict {
                    proof {
                        lemma_transfer_stopped(src, start, force, k + 1, src.len() as int);
                    }
                    return true;
                }
            },
            None => {
                dest.write(path, data.clone());
            },
        }
        k += 1;
    }
    false
}

/// Once a conflict stopped the transfer, the remaining files change nothing.
proof fn lemma_transfer_stopped(
    source: Seq<(Seq<char>, Seq<u8>)>,
    dest: Map<Seq<char>, Seq<u8>>,
    force: bool,
    k: int,
    n: int,
)
    requires
        0 <= k <= n,
        transfer_upto(source, dest, force, k).1,
    ensures
        transfer_upto(source, dest, force, n) == transfer_upto(source, dest, force, k),
    decreases n - k,
{
    if k < n {
        lemma_transfer_stopped(source, dest, force, k, n - 1);
    }
}

/// Brings the files of the remote side over to the local side. Says
/// whether a conflict stopped it.
pub fn pull(remote: &WorkTree, local: &mut WorkTree, force: bool) -> (conflict: bool)
    requires
        remote.wf(),
        old(local).wf(),
    ensures
        final(local).wf(),
        (final(local)@, conflict) == transfer_upto(
            remote.pairs(),
            old(local)@,
            force,
            remote.pairs().len() as int,
        ),
{
    transfer(remote, local, force)
}

/// Brings the files of the local side over to the remote side. Says
/// whether a conflict stopped it.
pub fn push(local: &WorkTree, remote: &mut WorkTree, force: bool) -> (conflict: bool)
    requires
        local.wf(),
        old(remote).wf(),
    ensures
        final(remote).wf(),
        (final(remote)@, conflict) == transfer_upto(
            local.pairs(),
            old(remote)@,
            force,
            local.pairs().len() as int,
        ),
{
    transfer(local, remote, force)
}

} // verus!
