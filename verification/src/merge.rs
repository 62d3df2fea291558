//! Ancestry and merge: the search for a common ancestor, the decision for
//! each path of three trees, and the merge command.

use crate::commit::{hash_texts, Commit, CommitView};
use crate::directory::{has_path, pairs_of, BlobRef, Directory};
use crate::text::{lemma_text_lt_irreflexive, lemma_text_lt_transitive, text_lt};
use crate::error::{ConflictKind, DvcsError, ErrorView};
use crate::hash::{hash_of_bytes, is_hash_text, DVCSHash};
use crate::builder::{build_commit, commit_written, utc_now_text};
use crate::directory::tree_hash;
use crate::repository::{
    branch_hash, stored_blob, stored_commit, stored_directory, RepoView, RepositoryInterface,
};
use crate::table::{has_key, key_index};
use vstd::prelude::*;
use vstd::slice::slice_to_vec;
use vstd::string::*;
use vstd::utf8::*;

verus! {

/// What the ancestor search finds from the hashes in `queue`, having seen the
/// hashes in `seen`: the queue is served in order; a hash that was seen
/// before is the common ancestor; another hash is marked as seen and its
/// parents join the queue at the end.
pub open spec fn lca_search(
    objs: Map<Seq<char>, Seq<u8>>,
    queue: Seq<Seq<char>>,
    seen: Set<Seq<char>>,
) -> Result<CommitView, ErrorView>
    decreases objs.dom().difference(seen).len(),
    when objs.dom().finite()
{
    if queue.len() == 0 {
        Err(ErrorView::NoCommonAncestor)
    } else {
        let h = queue[0];
        match stored_commit(objs, h) {
            Err(e) => Err(e),
            Ok(c) => if seen.contains(h) {
                Ok(c)
            } else {
                proof {
                    lemma_unseen_shrinks(objs.dom(), seen, h);
                }
                lca_search(objs, queue.drop_first() + c.parent_hashes, seen.insert(h))
            },
        }
    }
}

/// Marking one more stored hash as seen leaves fewer unseen.
pub proof fn lemma_unseen_shrinks(dom: Set<Seq<char>>, seen: Set<Seq<char>>, h: Seq<char>)
    requires
        dom.finite(),
        dom.contains(h),
        !seen.contains(h),
    ensures
        dom.difference(seen.insert(h)).len() < dom.difference(seen).len(),
{
    let a = dom.difference(seen);
    assert(dom.difference(seen.insert(h)) =~= a.remove(h));
    assert(a.contains(h));
    vstd::set_lib::lemma_len_subset(a, dom);
}

/// The common ancestor of the commits with hashes `a` and `b`, as the search
/// over both histories at once finds it.
pub open spec fn lca_spec(objs: Map<Seq<char>, Seq<u8>>, a: Seq<char>, b: Seq<char>) -> Result<
    CommitView,
    ErrorView,
> {
    lca_search(objs, seq![a, b], Set::empty())
}

/// The set of the texts of a sequence of hashes.
pub open spec fn text_set(v: Seq<crate::hash::Hash>) -> Set<Seq<char>> {
    Set::new(|t: Seq<char>| exists|i: int| 0 <= i < v.len() && (#[trigger] v[i])@ == t)
}

/// Decides whether `h` is among `v`.
fn among(v: &Vec<crate::hash::Hash>, h: &crate::hash::Hash) -> (r: bool)
    ensures
        r == text_set(v@).contains(h@),
{
    let mut i: usize = 0;
    while i < v.len()
        invariant
            i <= v.len(),
            forall|j: int| 0 <= j < i ==> (#[trigger] v@[j])@ != h@,
        decreases v.len() - i,
    {
        if v[i].same(h) {
            return true;
        }
        i += 1;
    }
    false
}

/// Finds a common ancestor of two commits: the first commit that the search
/// over both histories reaches a second time.
pub fn get_common_ancestor(file_system: &RepositoryInterface, commit1: &Commit, commit2: &Commit) -> (r:
    Result<Commit, DvcsError>)
    requires
        file_system.wf(),
        commit1.wf(),
        commit2.wf(),
    ensures
        r matches Ok(c) ==> c.wf() && Ok::<CommitView, ErrorView>(c@) == lca_spec(
            file_system.objects(),
            commit1@.hash(),
            commit2@.hash(),
        ),
        r matches Err(e) ==> Err::<CommitView, ErrorView>(e@) == lca_spec(
            file_system.objects(),
            commit1@.hash(),
            commit2@.hash(),
        ),
{
    let ghost objs = file_system.objects();
    let ghost goal = lca_spec(objs, commit1@.hash(), commit2@.hash());
    let mut queue: Vec<crate::hash::Hash> = Vec::new();
    queue.push(commit1.get_hash());
    queue.push(commit2.get_hash());
    let mut seen: Vec<crate::hash::Hash> = Vec::new();
    let mut front: usize = 0;
    proof {
        file_system.lemma_wf();
        assert(hash_texts(queue@).skip(0) =~= seq![commit1@.hash(), commit2@.hash()]);
        assert(text_set(seen@) =~= Set::<Seq<char>>::empty());
    }
    while front < queue.len()
        invariant
            file_system.wf(),
            objs == file_system.objects(),
            objs.dom().finite(),
            front <= queue.len(),
            forall|i: int| 0 <= i < queue.len() ==> is_hash_text(#[trigger] queue@[i]@),
            goal == lca_spec(objs, commit1@.hash(), commit2@.hash()),
            goal == lca_search(objs, hash_texts(queue@).skip(front as int), text_set(seen@)),
        decreases objs.dom().difference(text_set(seen@)).len(),
    {
        let ghost rest = hash_texts(queue@).skip(front as int);
        let ghost seen_before = text_set(seen@);
        assert(rest[0] == queue@[front as int]@);
        let hash = queue[front].clone();
        let commit = match file_system.get_commit(&hash) {
            Ok(c) => c,
            Err(e) => {
                return Err(e);
            },
        };
        if among(&seen, &hash) {
            return Ok(commit);
        }
        let ghost seen_vec = seen@;
        let parents = commit.get_parent_hashes();
        let ghost queue_before = queue@;
        let mut i: usize = 0;
        while i < parents.len()
            invariant
                i <= parents.len(),
                hash_texts(parents@) == commit@.parent_hashes,
                commit.wf(),
                queue@.len() == queue_before.len() + i,
                forall|j: int| 0 <= j < queue_before.len() ==> queue@[j] == queue_before[j],
                forall|j: int| 0 <= j < i ==> (#[trigger] queue@[queue_before.len() + j])@ == parents@[j]@,
                forall|j: int| 0 <= j < queue.len() ==> is_hash_text(#[trigger] queue@[j]@),
            decreases parents.len() - i,
        {
            assert(commit@.parent_hashes[i as int] == parents@[i as int]@);
            queue.push(parents[i].clone());
            i += 1;
        }
        seen.push(hash);
        front += 1;
        proof {
            assert(text_set(seen@) =~= seen_before.insert(rest[0])) by {
                assert forall|t: Seq<char>| text_set(seen@).contains(t) <==> seen_before.insert(
                    rest[0],
                ).contains(t) by {
                    assert(seen@ == seen_vec.push(seen@[seen_vec.len() as int]));
                    if text_set(seen@).contains(t) {
                        let k = choose|k: int| 0 <= k < seen@.len() && (#[trigger] seen@[k])@ == t;
                        if k < seen_vec.len() {
                            assert(seen@[k] == seen_vec[k]);
                        }
                    }
                    if seen_before.contains(t) {
                        let k = choose|k: int|
                            0 <= k < seen_vec.len() && (#[trigger] seen_vec[k])@ == t;
                        assert(seen@[k]@ == t);
                    }
                    if t == rest[0] {
                        assert(seen@[seen_vec.len() as int]@ == t);
                    }
                }
            }
            let now = hash_texts(queue@).skip(front as int);
            let want = rest.drop_first() + commit@.parent_hashes;
            assert(now.len() == want.len());
            assert forall|k: int| 0 <= k < now.len() implies now[k] == want[k] by {
                if front + k < queue_before.len() {
                    assert(queue@[front + k] == queue_before[front + k]);
                    assert(want[k] == rest[k + 1]);
                } else {
                    let j = front + k - queue_before.len();
                    assert(queue@[queue_before.len() + j]@ == parents@[j]@);
                    assert(commit@.parent_hashes[j] == parents@[j]@);
                }
            }
            assert(now =~= want);
            lemma_unseen_shrinks(objs.dom(), seen_before, rest[0]);
        }
    }
    proof {
        assert(hash_texts(queue@).skip(front as int).len() == 0);
    }
    Err(DvcsError::NoCommonAncestor)
}


/// What a merge decides for one path from the three content hashes alone.
pub enum MergeChoice {
    /// The path is not in the merged tree.
    Absent,
    /// The path is in the merged tree with this content hash.
    Take(Seq<char>),
    /// The two sides cannot be reconciled.
    Conflict(ConflictKind),
    /// Both sides changed the content: the blobs have to be merged line by
    /// line.
    TextMerge { base: Option<Seq<char>>, ours: Seq<char>, theirs: Seq<char> },
}

/// The decision for a path that the common ancestor holds with content `b`,
/// the receiving side with `i` and the other side with `f`; `None` where a
/// tree does not hold the path.
pub open spec fn entry_choice(
    b: Option<Seq<char>>,
    i: Option<Seq<char>>,
    f: Option<Seq<char>>,
) -> MergeChoice {
    match (b, i, f) {
        (Some(b), Some(i), Some(f)) => if i == b {
            MergeChoice::Take(f)
        } else if f == b {
            MergeChoice::Take(i)
        } else if i == f {
            MergeChoice::Take(i)
        } else {
            MergeChoice::TextMerge { base: Some(b), ours: i, theirs: f }
        },
        (Some(b), None, Some(f)) => if f == b {
            MergeChoice::Absent
        } else {
            MergeChoice::Conflict(ConflictKind::DeleteModify)
        },
        (Some(b), Some(i), None) => if i == b {
            MergeChoice::Absent
        } else {
            MergeChoice::Conflict(ConflictKind::ModifyDelete)
        },
        (Some(_), None, None) => MergeChoice::Absent,
        (None, Some(i), None) => MergeChoice::Take(i),
        (None, None, Some(f)) => MergeChoice::Take(f),
        (None, Some(i), Some(f)) => if i == f {
            MergeChoice::Take(i)
        } else {
            MergeChoice::TextMerge { base: None, ours: i, theirs: f }
        },
        (None, None, None) => MergeChoice::Absent,
    }
}

/// What a merge decides for one path from the three blob references alone.
#[derive(Debug, PartialEq, Eq)]
pub enum MergeDecision {
    Absent,
    Take(crate::hash::Hash),
    Conflict(ConflictKind),
    TextMerge { base: Option<crate::hash::Hash>, ours: crate::hash::Hash, theirs: crate::hash::Hash },
}

impl View for MergeDecision {
    type V = MergeChoice;

    open spec fn view(&self) -> MergeChoice {
        match self {
            MergeDecision::Absent => MergeChoice::Absent,
            MergeDecision::Take(h) => MergeChoice::Take(h@),
            MergeDecision::Conflict(k) => MergeChoice::Conflict(*k),
            MergeDecision::TextMerge { base, ours, theirs } => MergeChoice::TextMerge {
                base: match base {
                    Some(b) => Some(b@),
                    None => None,
                },
                ours: ours@,
                theirs: theirs@,
            },
        }
    }
}

/// The content hash that an optional blob reference names.
pub open spec fn ref_text(r: Option<&BlobRef>) -> Option<Seq<char>> {
    match r {
        Some(b) => Some(b@),
        None => None,
    }
}

/// Decides what becomes of one path, given what the common ancestor, the
/// receiving side and the other side hold for it.
pub fn merge_entry(base: Option<&BlobRef>, into: Option<&BlobRef>, from: Option<&BlobRef>) -> (r:
    MergeDecision)
    ensures
        r@ == entry_choice(ref_text(base), ref_text(into), ref_text(from)),
{
    match (base, into, from) {
        (Some(b), Some(i), Some(f)) => {
            let bh = b.get_content_hash();
            let ih = i.get_content_hash();
            let fh = f.get_content_hash();
            if ih.same(bh) {
                MergeDecision::Take(fh.clone())
            } else if fh.same(bh) {
                MergeDecision::Take(ih.clone())
            } else if ih.same(fh) {
                MergeDecision::Take(ih.clone())
            } else {
                MergeDecision::TextMerge {
                    base: Some(bh.clone()),
                    ours: ih.clone(),
                    theirs: fh.clone(),
                }
            }
        },
        (Some(b), None, Some(f)) => {
            if f.get_content_hash().same(b.get_content_hash()) {
                MergeDecision::Absent
            } else {
                MergeDecision::Conflict(ConflictKind::DeleteModify)
            }
        },
        (Some(b), Some(i), None) => {
            if i.get_content_hash().same(b.get_content_hash()) {
                MergeDecision::Absent
            } else {
                MergeDecision::Conflict(ConflictKind::ModifyDelete)
            }
        },
        (Some(_), None, None) => MergeDecision::Absent,
        (None, Some(i), None) => MergeDecision::Take(i.get_content_hash().clone()),
        (None, None, Some(f)) => MergeDecision::Take(f.get_content_hash().clone()),
        (None, Some(i), Some(f)) => {
            let ih = i.get_content_hash();
            let fh = f.get_content_hash();
            if ih.same(fh) {
                MergeDecision::Take(ih.clone())
            } else {
                MergeDecision::TextMerge { base: None, ours: ih.clone(), theirs: fh.clone() }
            }
        },
        (None, None, None) => MergeDecision::Absent,
    }
}

/// The text that `String::from_utf8_lossy` reads from bytes.
pub uninterp spec fn utf8_lossy(bytes: Seq<u8>) -> Seq<char>;

/// What `diffy::merge` makes of an ancestor text and two texts that were
/// derived from it: the merged text, or the text with the conflicts marked.
pub uninterp spec fn diffy_merge(ancestor: Seq<char>, ours: Seq<char>, theirs: Seq<char>) -> Result<
    Seq<char>,
    Seq<char>,
>;

/// The texts of the result of a line merge.
pub open spec fn merge_view(r: Result<String, String>) -> Result<Seq<char>, Seq<char>> {
    match r {
        Ok(s) => Ok(s@),
        Err(s) => Err(s@),
    }
}

/// Calls `String::from_utf8_lossy`. The contract names the result and
/// claims nothing else of it.
#[verifier::external_body]
fn lossy_text(bytes: &[u8]) -> (s: String)
    ensures
        s@ == utf8_lossy(bytes@),
{
    String::from_utf8_lossy(bytes).into_owned()
}

/// Calls `diffy::merge`, the line-based three-way merge. The contract names
/// the result and claims nothing else of it.
#[verifier::external_body]
fn three_way_merge(ancestor: &str, ours: &str, theirs: &str) -> (r: Result<String, String>)
    ensures
        merge_view(r) == diffy_merge(ancestor@, ours@, theirs@),
{
    diffy::merge(ancestor, ours, theirs)
}

/// The line merge of three blobs: each is read as text, an absent ancestor
/// as the empty text.
pub open spec fn merged_text(base: Option<Seq<u8>>, ours: Seq<u8>, theirs: Seq<u8>) -> Result<
    Seq<char>,
    Seq<char>,
> {
    diffy_merge(
        match base {
            Some(b) => utf8_lossy(b),
            None => ""@,
        },
        utf8_lossy(ours),
        utf8_lossy(theirs),
    )
}

/// What a finished line merge means for the path: the bytes of the new blob,
/// or a conflict in the content.
pub open spec fn text_merge_blob(outcome: Result<Seq<char>, Seq<char>>) -> Option<Seq<u8>> {
    match outcome {
        Ok(t) => Some(encode_utf8(t)),
        Err(_) => None,
    }
}

/// Turns the result of a line merge into the bytes of the merged blob; `None`
/// where the line merge found a conflict.
pub fn text_merge_result(outcome: Result<String, String>) -> (r: Option<Vec<u8>>)
    ensures
        r is Some <==> outcome is Ok,
        r matches Some(bytes) ==> outcome matches Ok(t) && bytes@ == encode_utf8(t@),
{
    match outcome {
        Ok(t) => Some(slice_to_vec(t.as_str().as_bytes())),
        Err(_) => None,
    }
}

/// Merges three blobs line by line.
pub fn merge_blobs(base: Option<&Vec<u8>>, ours: &Vec<u8>, theirs: &Vec<u8>) -> (r: Option<Vec<u8>>)
    ensures
        match r {
            Some(bytes) => text_merge_blob(
                merged_text(
                    match base {
                        Some(b) => Some(b@),
                        None => None,
                    },
                    ours@,
                    theirs@,
                ),
            ) == Some(bytes@),
            None => text_merge_blob(
                merged_text(
                    match base {
                        Some(b) => Some(b@),
                        None => None,
                    },
                    ours@,
                    theirs@,
                ),
            ) is None,
        },
{
    let ours_text = lossy_text(ours.as_slice());
    let theirs_text = lossy_text(theirs.as_slice());
    let outcome = match base {
        Some(b) => {
            let base_text = lossy_text(b.as_slice());
            three_way_merge(base_text.as_str(), ours_text.as_str(), theirs_text.as_str())
        },
        None => three_way_merge("", ours_text.as_str(), theirs_text.as_str()),
    };
    text_merge_result(outcome)
}

/// What a merge makes of one path.
pub enum PathOutcome {
    /// The path is not in the merged tree.
    Absent,
    /// The path keeps a blob that is in the store already.
    Keep(Seq<char>),
    /// The path gets a new blob with these bytes.
    Merged(Seq<u8>),
    /// The two sides cannot be reconciled.
    Conflict(ConflictKind),
    /// A blob that the line merge needs cannot be read.
    Failure(ErrorView),
}

/// What a merge makes of a path for which the three trees hold `b`, `i` and
/// `f`, given the objects in the store. Where a line merge is needed the
/// blobs are read in the order ancestor, receiving side, other side.
pub open spec fn path_outcome(
    objs: Map<Seq<char>, Seq<u8>>,
    b: Option<Seq<char>>,
    i: Option<Seq<char>>,
    f: Option<Seq<char>>,
) -> PathOutcome {
    match entry_choice(b, i, f) {
        MergeChoice::Absent => PathOutcome::Absent,
        MergeChoice::Take(h) => PathOutcome::Keep(h),
        MergeChoice::Conflict(k) => PathOutcome::Conflict(k),
        MergeChoice::TextMerge { base, ours, theirs } => {
            if base is Some && stored_blob(objs, base->0) is Err {
                PathOutcome::Failure(stored_blob(objs, base->0)->Err_0)
            } else if stored_blob(objs, ours) is Err {
                PathOutcome::Failure(stored_blob(objs, ours)->Err_0)
            } else if stored_blob(objs, theirs) is Err {
                PathOutcome::Failure(stored_blob(objs, theirs)->Err_0)
            } else {
                let base_bytes = if base is Some {
                    Some(stored_blob(objs, base->0)->Ok_0)
                } else {
                    None
                };
                match text_merge_blob(
                    merged_text(
                        base_bytes,
                        stored_blob(objs, ours)->Ok_0,
                        stored_blob(objs, theirs)->Ok_0,
                    ),
                ) {
                    Some(bytes) => PathOutcome::Merged(bytes),
                    None => PathOutcome::Conflict(ConflictKind::Content),
                }
            }
        },
    }
}

/// What a merge makes of one path, as a value.
#[derive(Debug, PartialEq, Eq)]
pub enum PathResult {
    Absent,
    Keep(crate::hash::Hash),
    Merged(Vec<u8>),
    Conflict(ConflictKind),
    Failure(DvcsError),
}

impl View for PathResult {
    type V = PathOutcome;

    open spec fn view(&self) -> PathOutcome {
        match self {
            PathResult::Absent => PathOutcome::Absent,
            PathResult::Keep(h) => PathOutcome::Keep(h@),
            PathResult::Merged(bytes) => PathOutcome::Merged(bytes@),
            PathResult::Conflict(k) => PathOutcome::Conflict(*k),
            PathResult::Failure(e) => PathOutcome::Failure(e@),
        }
    }
}

/// Decides what becomes of one path and, where both sides changed its
/// content, merges the blobs.
pub fn merge_path(
    file_system: &RepositoryInterface,
    base: Option<&BlobRef>,
    into: Option<&BlobRef>,
    from: Option<&BlobRef>,
) -> (r: PathResult)
    requires
        file_system.wf(),
        base matches Some(b) ==> b.wf(),
        into matches Some(b) ==> b.wf(),
        from matches Some(b) ==> b.wf(),
    ensures
        r@ == path_outcome(file_system.objects(), ref_text(base), ref_text(into), ref_text(from)),
        r matches PathResult::Keep(h) ==> h.wf(),
{
    match merge_entry(base, into, from) {
        MergeDecision::Absent => PathResult::Absent,
        MergeDecision::Take(h) => PathResult::Keep(h),
        MergeDecision::Conflict(k) => PathResult::Conflict(k),
        MergeDecision::TextMerge { base: b, ours, theirs } => {
            let base_bytes = match &b {
                Some(h) => match file_system.get_blob(h) {
                    Ok(d) => Some(d),
                    Err(e) => {
                        return PathResult::Failure(e);
                    },
                },
                None => None,
            };
            let ours_bytes = match file_system.get_blob(&ours) {
                Ok(d) => d,
                Err(e) => {
                    return PathResult::Failure(e);
                },
            };
            let theirs_bytes = match file_system.get_blob(&theirs) {
                Ok(d) => d,
                Err(e) => {
                    return PathResult::Failure(e);
                },
            };
            match merge_blobs(base_bytes.as_ref(), &ours_bytes, &theirs_bytes) {
                Some(bytes) => PathResult::Merged(bytes),
                None => PathResult::Conflict(ConflictKind::Content),
            }
        },
    }
}


/// The content hash that the tree `m` holds for the path `p`, if any.
pub open spec fn entry_at_path(m: Map<Seq<char>, Seq<char>>, p: Seq<char>) -> Option<Seq<char>> {
    if m.contains_key(p) {
        Some(m[p])
    } else {
        None
    }
}

/// What the merge of the trees `into` and `from` with the common ancestor
/// `base` makes of the path `p`.
pub open spec fn outcome_at(
    objs: Map<Seq<char>, Seq<u8>>,
    base: Map<Seq<char>, Seq<char>>,
    into: Map<Seq<char>, Seq<char>>,
    from: Map<Seq<char>, Seq<char>>,
    p: Seq<char>,
) -> PathOutcome {
    path_outcome(objs, entry_at_path(base, p), entry_at_path(into, p), entry_at_path(from, p))
}

/// The content hash that an outcome puts into the merged tree, if any.
pub open spec fn entry_of(o: PathOutcome) -> Option<Seq<char>> {
    match o {
        PathOutcome::Keep(h) => Some(h),
        PathOutcome::Merged(bytes) => Some(hash_of_bytes(bytes)),
        _ => None,
    }
}

/// The outcome stops the merge.
pub open spec fn is_problem(o: PathOutcome) -> bool {
    o is Conflict || o is Failure
}

/// The texts ascend strictly.
pub open spec fn ascending(s: Seq<Seq<char>>) -> bool {
    forall|i: int, j: int| 0 <= i < j < s.len() ==> text_lt(#[trigger] s[i], #[trigger] s[j])
}

/// `ps` lists the paths about which the two sides disagree in the way
/// `kind`: each of them, once, in ascending order.
pub open spec fn conflicts_listed(
    ps: Seq<Seq<char>>,
    objs: Map<Seq<char>, Seq<u8>>,
    base: Map<Seq<char>, Seq<char>>,
    into: Map<Seq<char>, Seq<char>>,
    from: Map<Seq<char>, Seq<char>>,
    kind: ConflictKind,
) -> bool {
    &&& ascending(ps)
    &&& forall|q: Seq<char>|
        ps.contains(q) <==> #[trigger] outcome_at(objs, base, into, from, q)
            == PathOutcome::Conflict(kind)
}

/// The error `e` is what a merge reports when the outcome `o` is the first
/// to stop it: a failure is passed on; a conflict is reported with its kind
/// and with every path that conflicts in that way.
pub open spec fn reports(
    e: ErrorView,
    o: PathOutcome,
    objs: Map<Seq<char>, Seq<u8>>,
    base: Map<Seq<char>, Seq<char>>,
    into: Map<Seq<char>, Seq<char>>,
    from: Map<Seq<char>, Seq<char>>,
) -> bool {
    match o {
        PathOutcome::Failure(failure) => e == failure,
        PathOutcome::Conflict(k) => e matches ErrorView::MergeConflict { paths, kind } && kind == k
            && conflicts_listed(paths, objs, base, into, from, k),
        _ => false,
    }
}

/// No path stops the merge.
pub open spec fn no_problem(
    objs: Map<Seq<char>, Seq<u8>>,
    base: Map<Seq<char>, Seq<char>>,
    into: Map<Seq<char>, Seq<char>>,
    from: Map<Seq<char>, Seq<char>>,
) -> bool {
    forall|p: Seq<char>| !is_problem(#[trigger] outcome_at(objs, base, into, from, p))
}

/// `p` is the first path, in ascending order, that stops the merge.
pub open spec fn first_problem(
    objs: Map<Seq<char>, Seq<u8>>,
    base: Map<Seq<char>, Seq<char>>,
    into: Map<Seq<char>, Seq<char>>,
    from: Map<Seq<char>, Seq<char>>,
    p: Seq<char>,
) -> bool {
    &&& is_problem(outcome_at(objs, base, into, from, p))
    &&& forall|q: Seq<char>|
        text_lt(q, p) ==> !is_problem(#[trigger] outcome_at(objs, base, into, from, q))
}

/// The merged tree: every path with the content hash that its outcome gives
/// it.
pub open spec fn merged_map(
    objs: Map<Seq<char>, Seq<u8>>,
    base: Map<Seq<char>, Seq<char>>,
    into: Map<Seq<char>, Seq<char>>,
    from: Map<Seq<char>, Seq<char>>,
) -> Map<Seq<char>, Seq<char>> {
    Map::new(
        |p: Seq<char>| entry_of(outcome_at(objs, base, into, from, p)) is Some,
        |p: Seq<char>| entry_of(outcome_at(objs, base, into, from, p))->0,
    )
}

/// How a successful merge leaves the store: what was there stays as it was,
/// the blob of every line merge is there, and nothing else was added.
pub open spec fn store_extended(
    objs: Map<Seq<char>, Seq<u8>>,
    new_objs: Map<Seq<char>, Seq<u8>>,
    base: Map<Seq<char>, Seq<char>>,
    into: Map<Seq<char>, Seq<char>>,
    from: Map<Seq<char>, Seq<char>>,
) -> bool {
    &&& forall|k: Seq<char>| #[trigger]
        objs.contains_key(k) ==> new_objs.contains_key(k) && new_objs[k] == objs[k]
    &&& forall|p: Seq<char>|
        (#[trigger] outcome_at(objs, base, into, from, p)) matches PathOutcome::Merged(bytes)
            ==> new_objs.contains_key(hash_of_bytes(bytes))
    &&& forall|k: Seq<char>| #[trigger]
        new_objs.contains_key(k) && !objs.contains_key(k) ==> k == hash_of_bytes(new_objs[k])
            && exists|p: Seq<char>|
            outcome_at(objs, base, into, from, p) == PathOutcome::Merged(new_objs[k])
}

/// What the merge of three trees answers with, and how it leaves the store.
/// It succeeds exactly where no path stops it, with the merged tree; else it
/// reports what the first path that stops it calls for, and leaves the store
/// as it was.
pub open spec fn tree_merge_result(
    objs: Map<Seq<char>, Seq<u8>>,
    new_objs: Map<Seq<char>, Seq<u8>>,
    base: Map<Seq<char>, Seq<char>>,
    into: Map<Seq<char>, Seq<char>>,
    from: Map<Seq<char>, Seq<char>>,
    r: Result<Map<Seq<char>, Seq<char>>, ErrorView>,
) -> bool {
    match r {
        Ok(m) => no_problem(objs, base, into, from) && m == merged_map(objs, base, into, from)
            && store_extended(objs, new_objs, base, into, from),
        Err(e) => new_objs == objs && exists|p: Seq<char>|
            first_problem(objs, base, into, from, p) && reports(
                e,
                outcome_at(objs, base, into, from, p),
                objs,
                base,
                into,
                from,
            ),
    }
}

/// The value of what a merge answers with.
pub open spec fn merge_answer(r: Result<Directory, DvcsError>) -> Result<
    Map<Seq<char>, Seq<char>>,
    ErrorView,
> {
    match r {
        Ok(d) => Ok(d@),
        Err(e) => Err(e@),
    }
}

/// The texts of a vector of strings.
pub open spec fn path_texts(v: Seq<String>) -> Seq<Seq<char>> {
    Seq::new(v.len(), |i: int| v[i]@)
}

/// The paths of the first `n` pairs of `es`.
pub open spec fn first_paths(es: Seq<(Seq<char>, Seq<char>)>, n: int) -> Set<Seq<char>> {
    Set::new(|p: Seq<char>| exists|j: int| 0 <= j < n && j < es.len() && (#[trigger] es[j]).0 == p)
}

fn add_paths(all: &mut Directory, d: &Directory)
    requires
        old(all).wf(),
        d.wf(),
    ensures
        final(all).wf(),
        final(all)@.dom() == old(all)@.dom().union(d@.dom()),
{
    let pairs = d.get_key_value_pairs();
    let ghost start = all@.dom();
    let ghost es = d.entries();
    let mut i: usize = 0;
    assert(all@.dom() =~= start.union(first_paths(es, 0)));
    while i < pairs.len()
        invariant
            i <= pairs.len(),
            all.wf(),
            d.wf(),
            es == d.entries(),
            pairs_of(pairs@) == es,
            all@.dom() == start.union(first_paths(es, i as int)),
        decreases pairs.len() - i,
    {
        let ghost before = all@;
        assert(es[i as int] == (pairs@[i as int].0@, pairs@[i as int].1@));
        assert(crate::hash::is_hash_text(es[i as int].1));
        all.insert_file_ref(pairs[i].0.as_str(), pairs[i].1.clone());
        proof {
            let path = es[i as int].0;
            assert(all@.dom() =~= before.dom().insert(path));
            assert(first_paths(es, i + 1) =~= first_paths(es, i as int).insert(path)) by {
                assert forall|p: Seq<char>| first_paths(es, i + 1).contains(p) <==> first_paths(
                    es,
                    i as int,
                ).insert(path).contains(p) by {
                    if first_paths(es, i as int).contains(p) {
                        let j = choose|j: int|
                            0 <= j < i && j < es.len() && (#[trigger] es[j]).0 == p;
                        assert(0 <= j < i + 1 && es[j].0 == p);
                    }
                    if p == path {
                        assert(0 <= i < i + 1 && es[i as int].0 == p);
                    }
                    if first_paths(es, i + 1).contains(p) {
                        let j = choose|j: int|
                            0 <= j < i + 1 && j < es.len() && (#[trigger] es[j]).0 == p;
                        if j < i {
                            assert(0 <= j < i && es[j].0 == p);
                        }
                    }
                }
            }
            assert(all@.dom() =~= start.union(first_paths(es, i + 1)));
        }
        i += 1;
    }
    proof {
        assert(first_paths(es, i as int) =~= d@.dom()) by {
            assert forall|p: Seq<char>| first_paths(es, i as int).contains(p) <==> d@.dom().contains(
                p,
            ) by {
                if d@.contains_key(p) {
                    assert(has_path(es, p));
                    let j = choose|j: int| 0 <= j < es.len() && (#[trigger] es[j]).0 == p;
                    assert(0 <= j < i && es[j].0 == p);
                }
                if first_paths(es, i as int).contains(p) {
                    let j = choose|j: int| 0 <= j < i && j < es.len() && (#[trigger] es[j]).0 == p;
                    assert(has_path(es, p));
                }
            }
        }
    }
}

/// Every path of the three trees, once, in ascending order.
pub fn union_paths(a: &Directory, b: &Directory, c: &Directory) -> (r: Vec<String>)
    requires
        a.wf(),
        b.wf(),
        c.wf(),
    ensures
        ascending(path_texts(r@)),
        forall|p: Seq<char>|
            path_texts(r@).contains(p) <==> a@.contains_key(p) || b@.contains_key(p)
                || c@.contains_key(p),
{
    let mut all = Directory::new();
    add_paths(&mut all, a);
    add_paths(&mut all, b);
    add_paths(&mut all, c);
    assert(all@.dom() =~= a@.dom().union(b@.dom()).union(c@.dom()));
    let pairs = all.get_key_value_pairs();
    let mut out: Vec<String> = Vec::new();
    let mut i: usize = 0;
    while i < pairs.len()
        invariant
            i <= pairs.len(),
            out.len() == i,
            forall|j: int| 0 <= j < i ==> (#[trigger] out@[j])@ == pairs@[j].0@,
        decreases pairs.len() - i,
    {
        out.push(pairs[i].0.clone());
        i += 1;
    }
    proof {
        let ts = path_texts(out@);
        let es = all.entries();
        assert(ts.len() == es.len());
        assert forall|j: int| 0 <= j < ts.len() implies #[trigger] ts[j] == es[j].0 by {
            assert(es[j] == (pairs@[j].0@, pairs@[j].1@));
        }
        assert forall|x: int, y: int| 0 <= x < y < ts.len() implies text_lt(
            #[trigger] ts[x],
            #[trigger] ts[y],
        ) by {
            assert(text_lt(es[x].0, es[y].0));
        }
        assert forall|p: Seq<char>| ts.contains(p) <==> a@.contains_key(p) || b@.contains_key(p)
            || c@.contains_key(p) by {
            assert(all@.dom().contains(p) <==> a@.dom().contains(p) || b@.dom().contains(p)
                || c@.dom().contains(p));
            assert(all@.contains_key(p) <==> has_path(es, p));
            if ts.contains(p) {
                let j = choose|j: int| 0 <= j < ts.len() && ts[j] == p;
                assert(es[j].0 == p);
                assert(has_path(es, p));
            }
            if has_path(es, p) {
                let j = choose|j: int| 0 <= j < es.len() && (#[trigger] es[j]).0 == p;
                assert(ts[j] == p);
                assert(ts.contains(p));
            }
        }
    }
    out
}

/// A path below one that is in an ascending sequence, and in the sequence
/// itself, stands before it.
proof fn lemma_ascending_before(s: Seq<Seq<char>>, k: int, q: Seq<char>)
    requires
        ascending(s),
        0 <= k < s.len(),
        text_lt(q, s[k]),
        s.contains(q),
    ensures
        exists|j: int| 0 <= j < k && s[j] == q,
{
    let j = choose|j: int| 0 <= j < s.len() && s[j] == q;
    lemma_text_lt_irreflexive(q);
    if j > k {
        assert(text_lt(s[k], s[j]));
        lemma_text_lt_transitive(q, s[k], q);
    }
    assert(0 <= j < k && s[j] == q);
}

/// The paths among the first `n` of `ts` about which the two sides disagree
/// in the way `kind`, in the order of `ts`.
pub open spec fn conflicts_upto(
    objs: Map<Seq<char>, Seq<u8>>,
    base: Map<Seq<char>, Seq<char>>,
    into: Map<Seq<char>, Seq<char>>,
    from: Map<Seq<char>, Seq<char>>,
    ts: Seq<Seq<char>>,
    kind: ConflictKind,
    n: int,
) -> Seq<Seq<char>>
    decreases n,
{
    if n <= 0 {
        Seq::empty()
    } else if outcome_at(objs, base, into, from, ts[n - 1]) == PathOutcome::Conflict(kind) {
        conflicts_upto(objs, base, into, from, ts, kind, n - 1).push(ts[n - 1])
    } else {
        conflicts_upto(objs, base, into, from, ts, kind, n - 1)
    }
}

proof fn lemma_conflicts_upto(
    objs: Map<Seq<char>, Seq<u8>>,
    base: Map<Seq<char>, Seq<char>>,
    into: Map<Seq<char>, Seq<char>>,
    from: Map<Seq<char>, Seq<char>>,
    ts: Seq<Seq<char>>,
    kind: ConflictKind,
    n: int,
)
    requires
        ascending(ts),
        0 <= n <= ts.len(),
    ensures
        ascending(conflicts_upto(objs, base, into, from, ts, kind, n)),
        forall|i: int|
            0 <= i < conflicts_upto(objs, base, into, from, ts, kind, n).len() ==> exists|j: int|
                0 <= j < n && ts[j] == #[trigger] conflicts_upto(
                    objs,
                    base,
                    into,
                    from,
                    ts,
                    kind,
                    n,
                )[i] && outcome_at(objs, base, into, from, ts[j]) == PathOutcome::Conflict(kind),
        forall|j: int|
            0 <= j < n && outcome_at(objs, base, into, from, #[trigger] ts[j])
                == PathOutcome::Conflict(kind) ==> conflicts_upto(
                objs,
                base,
                into,
                from,
                ts,
                kind,
                n,
            ).contains(ts[j]),
    decreases n,
{
    if n > 0 {
        lemma_conflicts_upto(objs, base, into, from, ts, kind, n - 1);
        let before = conflicts_upto(objs, base, into, from, ts, kind, n - 1);
        let now = conflicts_upto(objs, base, into, from, ts, kind, n);
        let hit = outcome_at(objs, base, into, from, ts[n - 1]) == PathOutcome::Conflict(kind);
        assert forall|i: int| 0 <= i < now.len() implies exists|j: int|
            0 <= j < n && ts[j] == #[trigger] now[i] && outcome_at(objs, base, into, from, ts[j])
                == PathOutcome::Conflict(kind) by {
            if i < before.len() {
                assert(now[i] == before[i]);
                let j = choose|j: int|
                    0 <= j < n - 1 && ts[j] == before[i] && outcome_at(
                        objs,
                        base,
                        into,
                        from,
                        ts[j],
                    ) == PathOutcome::Conflict(kind);
                assert(0 <= j < n && ts[j] == now[i]);
            } else {
                assert(0 <= n - 1 < n && ts[n - 1] == now[i]);
            }
        }
        assert forall|a: int, b: int| 0 <= a < b < now.len() implies text_lt(
            #[trigger] now[a],
            #[trigger] now[b],
        ) by {
            assert(now[a] == before[a]);
            if b < before.len() {
                assert(now[b] == before[b]);
            } else {
                let j = choose|j: int|
                    0 <= j < n - 1 && ts[j] == before[a] && outcome_at(
                        objs,
                        base,
                        into,
                        from,
                        ts[j],
                    ) == PathOutcome::Conflict(kind);
                assert(text_lt(ts[j], ts[n - 1]));
            }
        }
        assert forall|j: int|
            0 <= j < n && outcome_at(objs, base, into, from, #[trigger] ts[j])
                == PathOutcome::Conflict(kind) implies now.contains(ts[j]) by {
            if j < n - 1 {
                assert(before.contains(ts[j]));
                let i = choose|i: int| 0 <= i < before.len() && before[i] == ts[j];
                assert(now[i] == ts[j]);
            } else {
                assert(now[now.len() - 1] == ts[j]);
            }
        }
    }
}

/// Lists the paths about which the two sides disagree in the way `kind`.
fn list_conflicts(
    file_system: &RepositoryInterface,
    base: &Directory,
    into: &Directory,
    from: &Directory,
    paths: &Vec<String>,
    kind: ConflictKind,
) -> (r: Vec<String>)
    requires
        file_system.wf(),
        base.wf(),
        into.wf(),
        from.wf(),
        ascending(path_texts(paths@)),
        forall|p: Seq<char>|
            path_texts(paths@).contains(p) <==> base@.contains_key(p) || into@.contains_key(p)
                || from@.contains_key(p),
    ensures
        conflicts_listed(
            crate::error::texts_of(r@),
            file_system.objects(),
            base@,
            into@,
            from@,
            kind,
        ),
{
    let ghost objs = file_system.objects();
    let ghost ts = path_texts(paths@);
    let mut out: Vec<String> = Vec::new();
    let mut k: usize = 0;
    assert(crate::error::texts_of(out@) =~= conflicts_upto(objs, base@, into@, from@, ts, kind, 0));
    while k < paths.len()
        invariant
            k <= paths.len(),
            file_system.wf(),
            objs == file_system.objects(),
            base.wf(),
            into.wf(),
            from.wf(),
            ts == path_texts(paths@),
            crate::error::texts_of(out@) == conflicts_upto(
                objs,
                base@,
                into@,
                from@,
                ts,
                kind,
                k as int,
            ),
        decreases paths.len() - k,
    {
        let path = paths[k].as_str();
        assert(ts[k as int] == path@);
        let ghost before = crate::error::texts_of(out@);
        let b = base.get_file_ref(path);
        let i = into.get_file_ref(path);
        let f = from.get_file_ref(path);
        let outcome = merge_path(file_system, b, i, f);
        assert(outcome@ == outcome_at(objs, base@, into@, from@, ts[k as int]));
        let hit = match outcome {
            PathResult::Conflict(found) => found == kind,
            _ => false,
        };
        if hit {
            out.push(paths[k].clone());
            assert(crate::error::texts_of(out@) =~= before.push(ts[k as int]));
        }
        k += 1;
    }
    proof {
        let ps = crate::error::texts_of(out@);
        lemma_conflicts_upto(objs, base@, into@, from@, ts, kind, k as int);
        assert forall|q: Seq<char>|
            ps.contains(q) <==> #[trigger] outcome_at(objs, base@, into@, from@, q)
                == PathOutcome::Conflict(kind) by {
            if ps.contains(q) {
                let i = choose|i: int| 0 <= i < ps.len() && ps[i] == q;
                let j = choose|j: int|
                    0 <= j < k && ts[j] == ps[i] && outcome_at(objs, base@, into@, from@, ts[j])
                        == PathOutcome::Conflict(kind);
            }
            if outcome_at(objs, base@, into@, from@, q) == PathOutcome::Conflict(kind) {
                assert(ts.contains(q));
                let j = choose|j: int| 0 <= j < ts.len() && ts[j] == q;
                assert(ps.contains(ts[j]));
            }
        }
    }
    out
}

/// Merges the trees `into` and `from` with respect to their common ancestor
/// `base`. The paths are decided in ascending order. The blobs of the line
/// merges are put into the store once every path is decided; where a path
/// stops the merge, nothing is written. A conflict is reported with every
/// path that conflicts in the same way as the first.
pub fn merge_trees(
    file_system: &mut RepositoryInterface,
    base: &Directory,
    into: &Directory,
    from: &Directory,
) -> (r: Result<Directory, DvcsError>)
    requires
        old(file_system).wf(),
        base.wf(),
        into.wf(),
        from.wf(),
    ensures
        final(file_system).wf(),
        final(file_system).branches() == old(file_system).branches(),
        final(file_system).head() == old(file_system).head(),
        final(file_system).path() == old(file_system).path(),
        r matches Ok(d) ==> d.wf(),
        r is Err ==> final(file_system).object_pairs() == old(file_system).object_pairs(),
        tree_merge_result(
            old(file_system).objects(),
            final(file_system).objects(),
            base@,
            into@,
            from@,
            merge_answer(r),
        ),
{
    let ghost objs = file_system.objects();
    let paths = union_paths(base, into, from);
    let ghost ts = path_texts(paths@);
    let mut merged = Directory::new();
    let mut pending: Vec<Vec<u8>> = Vec::new();
    let mut k: usize = 0;
    while k < paths.len()
        invariant
            k <= paths.len(),
            file_system.wf(),
            *file_system == *old(file_system),
            objs == file_system.objects(),
            base.wf(),
            into.wf(),
            from.wf(),
            ts == path_texts(paths@),
            ascending(ts),
            forall|p: Seq<char>|
                ts.contains(p) <==> base@.contains_key(p) || into@.contains_key(p)
                    || from@.contains_key(p),
            merged.wf(),
            forall|j: int|
                0 <= j < k ==> !is_problem(outcome_at(objs, base@, into@, from@, #[trigger] ts[j])),
            forall|p: Seq<char>|
                merged@.contains_key(p) <==> (exists|j: int| 0 <= j < k && ts[j] == p) && entry_of(
                    outcome_at(objs, base@, into@, from@, p),
                ) is Some,
            forall|p: Seq<char>|
                merged@.contains_key(p) ==> merged@[p] == entry_of(
                    outcome_at(objs, base@, into@, from@, p),
                )->0,
            forall|n: int|
                0 <= n < pending.len() ==> exists|p: Seq<char>|
                    outcome_at(objs, base@, into@, from@, p) == PathOutcome::Merged(
                        (#[trigger] pending@[n])@,
                    ),
            forall|j: int|
                0 <= j < k ==> ((#[trigger] outcome_at(objs, base@, into@, from@, ts[j])) matches PathOutcome::Merged(
                    bytes,
                ) ==> exists|n: int| 0 <= n < pending.len() && pending@[n]@ == bytes),
        decreases paths.len() - k,
    {
        let path = paths[k].as_str();
        let ghost p = ts[k as int];
        assert(path@ == p);
        let b = base.get_file_ref(path);
        let i = into.get_file_ref(path);
        let f = from.get_file_ref(path);
        let outcome = merge_path(file_system, b, i, f);
        assert(outcome@ == outcome_at(objs, base@, into@, from@, p));
        let ghost merged_before = merged@;
        let ghost pending_before = pending@;
        proof {
            lemma_text_lt_irreflexive(p);
            if merged_before.contains_key(p) {
                let j = choose|j: int| 0 <= j < k && ts[j] == p;
                assert(text_lt(ts[j], ts[k as int]));
            }
        }
        match outcome {
            PathResult::Absent => {},
            PathResult::Keep(h) => {
                merged.insert_file_ref(path, BlobRef::new(h));
            },
            PathResult::Merged(bytes) => {
                let h = crate::hash::Hash::from(bytes.as_slice());
                merged.insert_file_ref(path, BlobRef::new(h));
                pending.push(bytes);
            },
            PathResult::Conflict(kind) => {
                let conflicting = list_conflicts(file_system, base, into, from, &paths, kind);
                let e = DvcsError::MergeConflict { paths: conflicting, kind };
                proof {
                    assert forall|q: Seq<char>| text_lt(q, p) implies !is_problem(
                        #[trigger] outcome_at(objs, base@, into@, from@, q),
                    ) by {
                        if ts.contains(q) {
                            lemma_ascending_before(ts, k as int, q);
                        }
                    }
                    assert(first_problem(objs, base@, into@, from@, p));
                    assert(reports(
                        e@,
                        outcome_at(objs, base@, into@, from@, p),
                        objs,
                        base@,
                        into@,
                        from@,
                    ));
                }
                return Err(e);
            },
            PathResult::Failure(e) => {
                proof {
                    assert forall|q: Seq<char>| text_lt(q, p) implies !is_problem(
                        #[trigger] outcome_at(objs, base@, into@, from@, q),
                    ) by {
                        if ts.contains(q) {
                            lemma_ascending_before(ts, k as int, q);
                        }
                    }
                    assert(first_problem(objs, base@, into@, from@, p));
                    assert(reports(
                        e@,
                        outcome_at(objs, base@, into@, from@, p),
                        objs,
                        base@,
                        into@,
                        from@,
                    ));
                }
                return Err(e);
            },
        }
        proof {
            assert forall|q: Seq<char>| merged@.contains_key(q) <==> (exists|j: int|
                0 <= j < k + 1 && ts[j] == q) && entry_of(outcome_at(objs, base@, into@, from@, q))
                is Some by {
                if merged_before.contains_key(q) {
                    let j = choose|j: int| 0 <= j < k && ts[j] == q;
                    assert(0 <= j < k + 1 && ts[j] == q);
                }
                if q == p {
                    assert(0 <= k < k + 1 && ts[k as int] == q);
                }
                if (exists|j: int| 0 <= j < k + 1 && ts[j] == q) && q != p {
                    let j = choose|j: int| 0 <= j < k + 1 && ts[j] == q;
                    assert(0 <= j < k && ts[j] == q);
                }
            }
            assert forall|n: int| 0 <= n < pending.len() implies exists|q: Seq<char>|
                outcome_at(objs, base@, into@, from@, q) == PathOutcome::Merged(
                    (#[trigger] pending@[n])@,
                ) by {
                if n < pending_before.len() {
                    assert(pending@[n] == pending_before[n]);
                } else {
                    assert(outcome_at(objs, base@, into@, from@, p) == PathOutcome::Merged(
                        pending@[n]@,
                    ));
                }
            }
            assert forall|j: int| 0 <= j < k + 1 implies ((#[trigger] outcome_at(
                objs,
                base@,
                into@,
                from@,
                ts[j],
            )) matches PathOutcome::Merged(bytes) ==> exists|n: int|
                0 <= n < pending.len() && pending@[n]@ == bytes) by {
                if let PathOutcome::Merged(bytes) = outcome_at(objs, base@, into@, from@, ts[j]) {
                    if j < k {
                        let n = choose|n: int|
                            0 <= n < pending_before.len() && pending_before[n]@ == bytes;
                        assert(pending@[n] == pending_before[n]);
                    } else {
                        assert(pending@[pending.len() - 1]@ == bytes);
                    }
                }
            }
        }
        k += 1;
    }
    proof {
        assert forall|p: Seq<char>| !is_problem(
            #[trigger] outcome_at(objs, base@, into@, from@, p),
        ) by {
            if ts.contains(p) {
                let j = choose|j: int| 0 <= j < ts.len() && ts[j] == p;
                assert(!is_problem(outcome_at(objs, base@, into@, from@, ts[j])));
            }
        }
        assert forall|p: Seq<char>| merged@.contains_key(p) <==> merged_map(
            objs,
            base@,
            into@,
            from@,
        ).contains_key(p) by {
            if entry_of(outcome_at(objs, base@, into@, from@, p)) is Some {
                assert(ts.contains(p));
                let j = choose|j: int| 0 <= j < ts.len() && ts[j] == p;
                assert(0 <= j < k && ts[j] == p);
            }
        }
        assert(merged@ =~= merged_map(objs, base@, into@, from@));
    }
    let mut n: usize = 0;
    while n < pending.len()
        invariant
            n <= pending.len(),
            file_system.wf(),
            file_system.branches() == old(file_system).branches(),
            file_system.head() == old(file_system).head(),
            file_system.path() == old(file_system).path(),
            objs == old(file_system).objects(),
            forall|x: int|
                0 <= x < pending.len() ==> exists|p: Seq<char>|
                    outcome_at(objs, base@, into@, from@, p) == PathOutcome::Merged(
                        (#[trigger] pending@[x])@,
                    ),
            forall|key: Seq<char>| #[trigger]
                objs.contains_key(key) ==> file_system.objects().contains_key(key)
                    && file_system.objects()[key] == objs[key],
            forall|x: int|
                0 <= x < n ==> file_system.objects().contains_key(
                    hash_of_bytes((#[trigger] pending@[x])@),
                ),
            forall|key: Seq<char>| #[trigger]
                file_system.objects().contains_key(key) && !objs.contains_key(key) ==> key
                    == hash_of_bytes(file_system.objects()[key]) && exists|p: Seq<char>|
                    outcome_at(objs, base@, into@, from@, p) == PathOutcome::Merged(
                        file_system.objects()[key],
                    ),
        decreases pending.len() - n,
    {
        let ghost before = file_system.objects();
        let h = file_system.create_blob(pending[n].as_slice());
        proof {
            assert forall|x: int| 0 <= x < n + 1 implies file_system.objects().contains_key(
                hash_of_bytes((#[trigger] pending@[x])@),
            ) by {
                if x < n {
                    assert(before.contains_key(hash_of_bytes(pending@[x]@)));
                }
            }
            assert forall|key: Seq<char>| #[trigger]
                file_system.objects().contains_key(key) && !objs.contains_key(key) implies key
                == hash_of_bytes(file_system.objects()[key]) && exists|p: Seq<char>|
                outcome_at(objs, base@, into@, from@, p) == PathOutcome::Merged(
                    file_system.objects()[key],
                ) by {
                if !before.contains_key(key) {
                    assert(file_system.objects()[key] == pending@[n as int]@);
                }
            }
        }
        n += 1;
    }
    proof {
        assert forall|p: Seq<char>| (#[trigger] outcome_at(
            objs,
            base@,
            into@,
            from@,
            p,
        )) matches PathOutcome::Merged(bytes) ==> file_system.objects().contains_key(
            hash_of_bytes(bytes),
        ) by {
            if let PathOutcome::Merged(bytes) = outcome_at(objs, base@, into@, from@, p) {
                assert(ts.contains(p));
                let j = choose|j: int| 0 <= j < ts.len() && ts[j] == p;
                assert(outcome_at(objs, base@, into@, from@, ts[j]) == PathOutcome::Merged(bytes));
                let x = choose|x: int| 0 <= x < pending.len() && pending@[x]@ == bytes;
                assert(file_system.objects().contains_key(hash_of_bytes(pending@[x]@)));
            }
        }
    }
    Ok(merged)
}


/// The three trees that the merge of two commits works on: that of their
/// common ancestor, that of the receiving commit and that of the other. The
/// ancestor is searched first; then the trees are read in this order.
pub open spec fn merge_inputs(objs: Map<Seq<char>, Seq<u8>>, c1: CommitView, c2: CommitView) -> Result<
    (Map<Seq<char>, Seq<char>>, Map<Seq<char>, Seq<char>>, Map<Seq<char>, Seq<char>>),
    ErrorView,
> {
    match lca_spec(objs, c1.hash(), c2.hash()) {
        Err(e) => Err(e),
        Ok(ancestor) => match stored_directory(objs, ancestor.dir_hash) {
            Err(e) => Err(e),
            Ok(b) => match stored_directory(objs, c1.dir_hash) {
                Err(e) => Err(e),
                Ok(i) => match stored_directory(objs, c2.dir_hash) {
                    Err(e) => Err(e),
                    Ok(f) => Ok((b, i, f)),
                },
            },
        },
    }
}

/// What the merge of two commits answers with, and how it leaves the store.
#[verifier::opaque]
pub open spec fn merge_result(
    objs: Map<Seq<char>, Seq<u8>>,
    new_objs: Map<Seq<char>, Seq<u8>>,
    c1: CommitView,
    c2: CommitView,
    r: Result<Map<Seq<char>, Seq<char>>, ErrorView>,
) -> bool {
    match merge_inputs(objs, c1, c2) {
        Err(e) => r == Err::<Map<Seq<char>, Seq<char>>, ErrorView>(e) && new_objs == objs,
        Ok(trees) => tree_merge_result(objs, new_objs, trees.0, trees.1, trees.2, r),
    }
}

/// A merge that fails leaves the store as it was.
pub proof fn lemma_failed_merge_keeps_store(
    objs: Map<Seq<char>, Seq<u8>>,
    new_objs: Map<Seq<char>, Seq<u8>>,
    c1: CommitView,
    c2: CommitView,
    e: ErrorView,
)
    requires
        merge_result(objs, new_objs, c1, c2, Err(e)),
    ensures
        new_objs == objs,
{
    reveal(merge_result);
}

/// Merges the commit `commit2` into the commit `commit1`: finds their common
/// ancestor, reads the three trees and merges them. Gives the merged tree;
/// nothing but the blobs of line merges is written, and nothing at all
/// where the merge fails.
pub fn merge(file_system: &mut RepositoryInterface, commit1: &Commit, commit2: &Commit) -> (r: Result<
    Directory,
    DvcsError,
>)
    requires
        old(file_system).wf(),
        commit1.wf(),
        commit2.wf(),
    ensures
        final(file_system).wf(),
        final(file_system).branches() == old(file_system).branches(),
        final(file_system).head() == old(file_system).head(),
        final(file_system).path() == old(file_system).path(),
        r matches Ok(d) ==> d.wf(),
        r is Err ==> final(file_system).object_pairs() == old(file_system).object_pairs(),
        merge_result(
            old(file_system).objects(),
            final(file_system).objects(),
            commit1@,
            commit2@,
            merge_answer(r),
        ),
{
    reveal(merge_result);
    let parent_commit = match get_common_ancestor(file_system, commit1, commit2) {
        Ok(c) => c,
        Err(e) => {
            return Err(e);
        },
    };
    let parent_dir = match file_system.get_directory(&parent_commit.get_dir_hash()) {
        Ok(d) => d,
        Err(e) => {
            return Err(e);
        },
    };
    let commit1_dir = match file_system.get_directory(&commit1.get_dir_hash()) {
        Ok(d) => d,
        Err(e) => {
            return Err(e);
        },
    };
    let commit2_dir = match file_system.get_directory(&commit2.get_dir_hash()) {
        Ok(d) => d,
        Err(e) => {
            return Err(e);
        },
    };
    merge_trees(file_system, &parent_dir, &commit1_dir, &commit2_dir)
}

/// The author that merge commits are made under.
pub open spec fn merge_author() -> Seq<char> {
    "DVCS MERGE"@
}

/// The message that merge commits carry.
pub open spec fn merge_message() -> Seq<char> {
    "Merge Commit"@
}

/// The commit that records the merge of the commit with hash `from` into the
/// commit with hash `into`: both are its parents, in this order.
pub open spec fn merge_commit(
    into: Seq<char>,
    from: Seq<char>,
    tree: Map<Seq<char>, Seq<char>>,
    now: Seq<char>,
) -> CommitView {
    CommitView {
        parent_hashes: seq![into, from],
        dir_hash: tree_hash(tree),
        author: merge_author(),
        message: merge_message(),
        timestamp: now,
    }
}

/// How the merge command ends once the trees were merged with the answer
/// `answer`, which left the store as `merged_objs`: a failure is passed on
/// and nothing changes; a merged tree is stored with the merge commit, and
/// the current branch moves to that commit.
pub open spec fn merge_cmd_finish(
    repo: RepoView,
    into: Seq<char>,
    from: Seq<char>,
    now: Seq<char>,
    merged_objs: Map<Seq<char>, Seq<u8>>,
    answer: Result<Map<Seq<char>, Seq<char>>, ErrorView>,
    new_repo: RepoView,
    r: Result<CommitView, ErrorView>,
) -> bool {
    match answer {
        Err(e) => r == Err::<CommitView, ErrorView>(e) && new_repo == repo,
        Ok(tree) => r == Ok::<CommitView, ErrorView>(merge_commit(into, from, tree, now))
            && new_repo == (RepoView {
            objects: commit_written(merged_objs, merge_commit(into, from, tree, now), tree),
            branches: repo.branches.update(
                key_index(repo.branches, repo.head),
                (repo.head, merge_commit(into, from, tree, now).hash()),
            ),
            ..repo
        }),
    }
}

/// The merge command got as far as merging the commits `into_commit` and
/// `from_commit`, and ended as that merge allows.
pub open spec fn merge_cmd_merged(
    repo: RepoView,
    into_commit: CommitView,
    from_commit: CommitView,
    now: Seq<char>,
    new_repo: RepoView,
    r: Result<CommitView, ErrorView>,
) -> bool {
    exists|merged_objs: Map<Seq<char>, Seq<u8>>, answer: Result<Map<Seq<char>, Seq<char>>, ErrorView>|
        #![trigger merge_result(repo.objects, merged_objs, into_commit, from_commit, answer)]
        merge_result(repo.objects, merged_objs, into_commit, from_commit, answer)
            && merge_cmd_finish(
            repo,
            into_commit.hash(),
            from_commit.hash(),
            now,
            merged_objs,
            answer,
            new_repo,
            r,
        )
}

/// What the merge command answers with and how it leaves the repository.
/// It needs the head to name a branch and `other` to be a branch; it reads
/// the commits of both, merges the other into the current one, stores the
/// merged tree and the merge commit, and moves the current branch to it.
/// Where it fails, nothing changes.
pub open spec fn merge_cmd_result(
    repo: RepoView,
    other: Seq<char>,
    now: Seq<char>,
    new_repo: RepoView,
    r: Result<CommitView, ErrorView>,
) -> bool {
    if repo.head.len() == 0 {
        r == Err::<CommitView, ErrorView>(ErrorView::DetachedHead) && new_repo == repo
    } else {
        match stored_commit(repo.objects, branch_hash(repo.branches, repo.head)->0) {
            Err(e) => r == Err::<CommitView, ErrorView>(e) && new_repo == repo,
            Ok(into_commit) => if !has_key(repo.branches, other) {
                r == Err::<CommitView, ErrorView>(ErrorView::BranchMissing { name: other })
                    && new_repo == repo
            } else {
                match stored_commit(repo.objects, branch_hash(repo.branches, other)->0) {
                    Err(e) => r == Err::<CommitView, ErrorView>(e) && new_repo == repo,
                    Ok(from_commit) => merge_cmd_merged(
                        repo,
                        into_commit,
                        from_commit,
                        now,
                        new_repo,
                        r,
                    ),
                }
            }
        }
    }
}

/// The value of what a command that makes a commit answers with.
pub open spec fn made_commit(r: Result<Commit, DvcsError>) -> Result<CommitView, ErrorView> {
    match r {
        Ok(c) => Ok(c@),
        Err(e) => Err(e@),
    }
}

/// The merge command with the time given: merges the branch `other_branch`
/// into the current branch.
pub fn merge_cmd_at(repo: &mut RepositoryInterface, other_branch: &str, now: &str) -> (r: Result<
    Commit,
    DvcsError,
>)
    requires
        old(repo).wf(),
    ensures
        final(repo).wf(),
        r matches Ok(c) ==> c.wf(),
        r is Err ==> final(repo).object_pairs() == old(repo).object_pairs(),
        merge_cmd_result(old(repo)@, other_branch@, now@, final(repo)@, made_commit(r)),
{
    proof {
        repo.lemma_wf();
    }
    let merge_into_branch = match repo.get_current_head() {
        Some(b) => b,
        None => {
            return Err(DvcsError::DetachedHead);
        },
    };
    let merge_into_hash = match repo.get_hash_from_branch(merge_into_branch.as_str()) {
        Ok(h) => h,
        Err(e) => {
            return Err(e);
        },
    };
    let merge_into = match repo.get_commit(&merge_into_hash) {
        Ok(c) => c,
        Err(e) => {
            return Err(e);
        },
    };
    let merge_from_hash = match repo.get_hash_from_branch(other_branch) {
        Ok(h) => h,
        Err(e) => {
            return Err(e);
        },
    };
    let merge_from = match repo.get_commit(&merge_from_hash) {
        Ok(c) => c,
        Err(e) => {
            return Err(e);
        },
    };
    let ghost objs = repo@.objects;
    let merged = merge(repo, &merge_into, &merge_from);
    let ghost merged_objs = repo@.objects;
    let ghost answer = merge_answer(merged);
    assert(merge_result(objs, merged_objs, merge_into@, merge_from@, answer));
    let merged_dir = match merged {
        Ok(d) => d,
        Err(e) => {
            proof {
                lemma_failed_merge_keeps_store(objs, merged_objs, merge_into@, merge_from@, e@);
                assert(repo@ == old(repo)@);
                assert(merge_cmd_finish(
                    old(repo)@,
                    merge_into@.hash(),
                    merge_from@.hash(),
                    now@,
                    merged_objs,
                    answer,
                    repo@,
                    Err(e@),
                ));
                assert(merge_cmd_merged(
                    old(repo)@,
                    merge_into@,
                    merge_from@,
                    now@,
                    repo@,
                    Err(e@),
                ));
            }
            return Err(e);
        },
    };
    let ghost tree = merged_dir@;
    let mut parents: Vec<crate::hash::Hash> = Vec::new();
    parents.push(merge_into_hash);
    parents.push(merge_from_hash);
    assert(hash_texts(parents@) =~= seq![merge_into_hash@, merge_from_hash@]);
    let commit = build_commit("DVCS MERGE", &parents, &merged_dir, "Merge Commit", now, repo);
    proof {
        repo.lemma_wf();
    }
    let moved = repo.update_branch_head(merge_into_branch.as_str(), commit.get_hash());
    assert(moved is Ok);
    proof {
        let c = merge_commit(merge_into_hash@, merge_from_hash@, tree, now@);
        assert(commit@ == c);
        assert(answer == Ok::<Map<Seq<char>, Seq<char>>, ErrorView>(tree));
        assert(repo@.objects == commit_written(merged_objs, c, tree));
        assert(repo@.branches == old(repo)@.branches.update(
            key_index(old(repo)@.branches, old(repo)@.head),
            (old(repo)@.head, c.hash()),
        ));
        assert(repo@.head == old(repo)@.head);
        assert(repo@.path == old(repo)@.path);
        assert(merge_cmd_finish(
            old(repo)@,
            merge_into@.hash(),
            merge_from@.hash(),
            now@,
            merged_objs,
            answer,
            repo@,
            Ok(commit@),
        ));
        assert(merge_cmd_merged(
            old(repo)@,
            merge_into@,
            merge_from@,
            now@,
            repo@,
            Ok(commit@),
        ));
    }
    Ok(commit)
}


/// The merge command: merges the branch `other_branch` into the current
/// branch, with a merge commit stamped with the present time.
pub fn merge_cmd(repo: &mut RepositoryInterface, other_branch: &str) -> (r: Result<Commit, DvcsError>)
    requires
        old(repo).wf(),
    ensures
        final(repo).wf(),
        r matches Ok(c) ==> c.wf() && merge_cmd_result(
            old(repo)@,
            other_branch@,
            c@.timestamp,
            final(repo)@,
            made_commit(r),
        ),
        r is Err ==> final(repo).object_pairs() == old(repo).object_pairs() && exists|
            now: Seq<char>,
        | merge_cmd_result(old(repo)@, other_branch@, now, final(repo)@, made_commit(r)),
{
    let now = utc_now_text();
    let r = merge_cmd_at(repo, other_branch, now.as_str());
    proof {
        if r is Ok {
            reveal(merge_result);
        }
    }
    r
}


/// The common ancestor of a commit and itself is that commit.
pub proof fn lemma_lca_self(objs: Map<Seq<char>, Seq<u8>>, h: Seq<char>, c: CommitView)
    requires
        objs.dom().finite(),
        stored_commit(objs, h) == Ok::<CommitView, ErrorView>(c),
    ensures
        lca_spec(objs, h, h) == Ok::<CommitView, ErrorView>(c),
        c.hash() == h,
{
    let q0 = seq![h, h];
    let s0 = Set::<Seq<char>>::empty();
    let q1 = q0.drop_first() + c.parent_hashes;
    let s1 = s0.insert(h);
    assert(q0[0] == h);
    assert(lca_search(objs, q0, s0) == lca_search(objs, q1, s1));
    assert(q1[0] == h);
    assert(lca_search(objs, q1, s1) == Ok::<CommitView, ErrorView>(c));
}

/// A search that has seen the hash at place `k` of `parents`, and whose
/// queue starts with the hashes from place `j` on, finds the commit at place
/// `k`, if the hashes in between name stored commits that were not seen and
/// differ from one another.
proof fn lemma_search_reaches(
    objs: Map<Seq<char>, Seq<u8>>,
    parents: Seq<Seq<char>>,
    j: int,
    k: int,
    tail: Seq<Seq<char>>,
    seen: Set<Seq<char>>,
    parent: CommitView,
)
    requires
        objs.dom().finite(),
        0 <= j <= k < parents.len(),
        stored_commit(objs, parents[k]) == Ok::<CommitView, ErrorView>(parent),
        seen.contains(parents[k]),
        forall|i: int|
            j <= i < k ==> stored_commit(objs, #[trigger] parents[i]) is Ok && !seen.contains(
                parents[i],
            ),
        forall|a: int, b: int| j <= a < b < k ==> #[trigger] parents[a] != #[trigger] parents[b],
    ensures
        lca_search(objs, parents.skip(j) + tail, seen) == Ok::<CommitView, ErrorView>(parent),
    decreases k - j,
{
    let q = parents.skip(j) + tail;
    assert(q[0] == parents[j]);
    if j < k {
        let x = parents[j];
        let cx = stored_commit(objs, x)->Ok_0;
        assert(stored_commit(objs, parents[j]) is Ok);
        let next_tail = tail + cx.parent_hashes;
        let next_seen = seen.insert(x);
        assert(q.drop_first() + cx.parent_hashes =~= parents.skip(j + 1) + next_tail);
        assert forall|i: int| j + 1 <= i < k implies stored_commit(objs, #[trigger] parents[i])
            is Ok && !next_seen.contains(parents[i]) by {
            assert(parents[j] != parents[i]);
        }
        lemma_search_reaches(objs, parents, j + 1, k, next_tail, next_seen, parent);
        assert(lca_search(objs, q, seen) == lca_search(
            objs,
            q.drop_first() + cx.parent_hashes,
            next_seen,
        ));
    }
}

/// The common ancestor of a commit and one of its parents is that parent.
/// The parents that come before it in the commit have to be stored commits
/// that differ from one another, from the commit and from the parent: the
/// search would stop at a hash that it meets twice before it reaches the
/// parent.
pub proof fn lemma_lca_child_parent(
    objs: Map<Seq<char>, Seq<u8>>,
    child: CommitView,
    parent: CommitView,
    k: int,
)
    requires
        objs.dom().finite(),
        stored_commit(objs, child.hash()) == Ok::<CommitView, ErrorView>(child),
        stored_commit(objs, parent.hash()) == Ok::<CommitView, ErrorView>(parent),
        0 <= k < child.parent_hashes.len(),
        child.parent_hashes[k] == parent.hash(),
        forall|i: int|
            0 <= i < k ==> stored_commit(objs, #[trigger] child.parent_hashes[i]) is Ok
                && child.parent_hashes[i] != child.hash() && child.parent_hashes[i]
                != parent.hash(),
        forall|a: int, b: int|
            0 <= a < b < k ==> #[trigger] child.parent_hashes[a] != #[trigger] child.parent_hashes[b],
    ensures
        lca_spec(objs, child.hash(), parent.hash()) == Ok::<CommitView, ErrorView>(parent),
{
    let ch = child.hash();
    let ph = parent.hash();
    if ch == ph {
        lemma_lca_self(objs, ch, child);
    } else {
        let q0 = seq![ch, ph];
        let s0 = Set::<Seq<char>>::empty();
        let q1 = q0.drop_first() + child.parent_hashes;
        let s1 = s0.insert(ch);
        let q2 = q1.drop_first() + parent.parent_hashes;
        let s2 = s1.insert(ph);
        assert(q0[0] == ch);
        assert(lca_search(objs, q0, s0) == lca_search(objs, q1, s1));
        assert(q1[0] == ph);
        assert(!s1.contains(ph));
        assert(lca_search(objs, q1, s1) == lca_search(objs, q2, s2));
        assert(q2 =~= child.parent_hashes.skip(0) + parent.parent_hashes);
        lemma_search_reaches(objs, child.parent_hashes, 0, k, parent.parent_hashes, s2, parent);
    }
}

/// The common ancestor of a commit and its first parent is that parent.
pub proof fn lemma_lca_first_parent(
    objs: Map<Seq<char>, Seq<u8>>,
    child: CommitView,
    parent: CommitView,
)
    requires
        objs.dom().finite(),
        stored_commit(objs, child.hash()) == Ok::<CommitView, ErrorView>(child),
        stored_commit(objs, parent.hash()) == Ok::<CommitView, ErrorView>(parent),
        child.parent_hashes.len() > 0,
        child.parent_hashes[0] == parent.hash(),
    ensures
        lca_spec(objs, child.hash(), parent.hash()) == Ok::<CommitView, ErrorView>(parent),
{
    lemma_lca_child_parent(objs, child, parent, 0);
}

/// Merging a tree with itself, itself being the ancestor, gives the tree and
/// stops nowhere.
pub proof fn lemma_merge_trees_identity(objs: Map<Seq<char>, Seq<u8>>, t: Map<Seq<char>, Seq<char>>)
    ensures
        no_problem(objs, t, t, t),
        merged_map(objs, t, t, t) == t,
        forall|p: Seq<char>| !((#[trigger] outcome_at(objs, t, t, t, p)) is Merged),
{
    assert forall|p: Seq<char>| !is_problem(#[trigger] outcome_at(objs, t, t, t, p)) && !(
    outcome_at(objs, t, t, t, p) is Merged) by {}
    assert(merged_map(objs, t, t, t) =~= t);
}

/// Merging a commit into itself gives its tree and changes nothing: whatever
/// a merge of the commit with itself answers with is the tree of the commit.
pub proof fn lemma_merge_identity(
    objs: Map<Seq<char>, Seq<u8>>,
    new_objs: Map<Seq<char>, Seq<u8>>,
    c: CommitView,
    tree: Map<Seq<char>, Seq<char>>,
    r: Result<Map<Seq<char>, Seq<char>>, ErrorView>,
)
    requires
        objs.dom().finite(),
        stored_commit(objs, c.hash()) == Ok::<CommitView, ErrorView>(c),
        stored_directory(objs, c.dir_hash) == Ok::<Map<Seq<char>, Seq<char>>, ErrorView>(tree),
        merge_result(objs, new_objs, c, c, r),
    ensures
        r == Ok::<Map<Seq<char>, Seq<char>>, ErrorView>(tree),
        new_objs == objs,
{
    reveal(merge_result);
    lemma_lca_self(objs, c.hash(), c);
    lemma_merge_trees_identity(objs, tree);
    assert(merge_inputs(objs, c, c) == Ok::<
        (Map<Seq<char>, Seq<char>>, Map<Seq<char>, Seq<char>>, Map<Seq<char>, Seq<char>>),
        ErrorView,
    >((tree, tree, tree)));
    match r {
        Ok(m) => {
            assert forall|k: Seq<char>| new_objs.contains_key(k) implies objs.contains_key(k) by {
                if !objs.contains_key(k) {
                    let p = choose|p: Seq<char>|
                        outcome_at(objs, tree, tree, tree, p) == PathOutcome::Merged(new_objs[k]);
                    assert(outcome_at(objs, tree, tree, tree, p) is Merged);
                }
            }
            assert(new_objs =~= objs);
        },
        Err(e) => {
            let p = choose|p: Seq<char>|
                first_problem(objs, tree, tree, tree, p) && reports(
                    e,
                    outcome_at(objs, tree, tree, tree, p),
                    objs,
                    tree,
                    tree,
                    tree,
                );
            assert(is_problem(outcome_at(objs, tree, tree, tree, p)));
        },
    }
}

/// No path of the three trees needs a line merge.
pub open spec fn no_text_merge(
    base: Map<Seq<char>, Seq<char>>,
    a: Map<Seq<char>, Seq<char>>,
    b: Map<Seq<char>, Seq<char>>,
) -> bool {
    forall|p: Seq<char>|
        !((#[trigger] entry_choice(
            entry_at_path(base, p),
            entry_at_path(a, p),
            entry_at_path(b, p),
        )) is TextMerge)
}

/// Where no line merge is needed, it does not matter which of two trees is
/// merged into the other: with the same ancestor, both merges succeed or
/// both are stopped, and where they succeed they give the same tree, and so
/// the same tree hash.
pub proof fn lemma_merge_commutes(
    objs: Map<Seq<char>, Seq<u8>>,
    base: Map<Seq<char>, Seq<char>>,
    a: Map<Seq<char>, Seq<char>>,
    b: Map<Seq<char>, Seq<char>>,
)
    requires
        no_text_merge(base, a, b),
    ensures
        no_problem(objs, base, a, b) <==> no_problem(objs, base, b, a),
        no_problem(objs, base, a, b) ==> merged_map(objs, base, a, b) == merged_map(
            objs,
            base,
            b,
            a,
        ),
        no_problem(objs, base, a, b) ==> tree_hash(merged_map(objs, base, a, b)) == tree_hash(
            merged_map(objs, base, b, a),
        ),
{
    assert forall|p: Seq<char>|
        is_problem(#[trigger] outcome_at(objs, base, a, b, p)) == is_problem(
            outcome_at(objs, base, b, a, p),
        ) && (!is_problem(outcome_at(objs, base, a, b, p)) ==> entry_of(
            outcome_at(objs, base, a, b, p),
        ) == entry_of(outcome_at(objs, base, b, a, p))) by {
        let c = entry_choice(entry_at_path(base, p), entry_at_path(a, p), entry_at_path(b, p));
        assert(!(c is TextMerge));
    }
    if no_problem(objs, base, a, b) {
        assert forall|p: Seq<char>| !is_problem(#[trigger] outcome_at(objs, base, b, a, p)) by {
            assert(!is_problem(outcome_at(objs, base, a, b, p)));
        }
        assert(merged_map(objs, base, a, b) =~= merged_map(objs, base, b, a)) by {
            assert forall|p: Seq<char>|
                merged_map(objs, base, a, b).contains_key(p) == merged_map(
                    objs,
                    base,
                    b,
                    a,
                ).contains_key(p) && (merged_map(objs, base, a, b).contains_key(p) ==> merged_map(
                    objs,
                    base,
                    a,
                    b,
                )[p] == merged_map(objs, base, b, a)[p]) by {
                assert(!is_problem(outcome_at(objs, base, a, b, p)));
            }
        }
    }
    if no_problem(objs, base, b, a) {
        assert forall|p: Seq<char>| !is_problem(#[trigger] outcome_at(objs, base, a, b, p)) by {
            assert(!is_problem(outcome_at(objs, base, b, a, p)));
        }
    }
}


/// The same for commits: if the merges of two commits in both directions
/// start from the same ancestor tree and need no line merge, they succeed or
/// fail together, and where they succeed they give trees with the same
/// hash.
pub proof fn lemma_commit_merge_commutes(
    objs: Map<Seq<char>, Seq<u8>>,
    c1: CommitView,
    c2: CommitView,
    base: Map<Seq<char>, Seq<char>>,
    t1: Map<Seq<char>, Seq<char>>,
    t2: Map<Seq<char>, Seq<char>>,
    objs12: Map<Seq<char>, Seq<u8>>,
    objs21: Map<Seq<char>, Seq<u8>>,
    r12: Result<Map<Seq<char>, Seq<char>>, ErrorView>,
    r21: Result<Map<Seq<char>, Seq<char>>, ErrorView>,
)
    requires
        merge_inputs(objs, c1, c2) == Ok::<
            (Map<Seq<char>, Seq<char>>, Map<Seq<char>, Seq<char>>, Map<Seq<char>, Seq<char>>),
            ErrorView,
        >((base, t1, t2)),
        merge_inputs(objs, c2, c1) == Ok::<
            (Map<Seq<char>, Seq<char>>, Map<Seq<char>, Seq<char>>, Map<Seq<char>, Seq<char>>),
            ErrorView,
        >((base, t2, t1)),
        no_text_merge(base, t1, t2),
        merge_result(objs, objs12, c1, c2, r12),
        merge_result(objs, objs21, c2, c1, r21),
    ensures
        r12 is Ok <==> r21 is Ok,
        r12 is Ok ==> r12->Ok_0 == r21->Ok_0 && tree_hash(r12->Ok_0) == tree_hash(r21->Ok_0),
{
    reveal(merge_result);
    lemma_merge_commutes(objs, base, t1, t2);
    if r12 is Err {
        let p = choose|p: Seq<char>|
            first_problem(objs, base, t1, t2, p) && reports(
                r12->Err_0,
                outcome_at(objs, base, t1, t2, p),
                objs,
                base,
                t1,
                t2,
            );
        assert(is_problem(outcome_at(objs, base, t1, t2, p)));
    }
    if r21 is Err {
        let p = choose|p: Seq<char>|
            first_problem(objs, base, t2, t1, p) && reports(
                r21->Err_0,
                outcome_at(objs, base, t2, t1, p),
                objs,
                base,
                t2,
                t1,
            );
        assert(is_problem(outcome_at(objs, base, t2, t1, p)));
    }
}

} // verus!
