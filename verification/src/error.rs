//! The failures of the repository core.

use vstd::prelude::*;
use vstd::string::*;

verus! {

/// How two sides of a merge disagree about one path.
#[derive(Clone, Copy, Debug, PartialEq, Eq, Structural)]
pub enum ConflictKind {
    /// Both sides changed the content and the line merge found a conflict.
    Content,
    /// The receiving side deleted the path and the other side changed it.
    DeleteModify,
    /// The receiving side changed the path and the other side deleted it.
    ModifyDelete,
}

/// What an operation of the repository core can fail with.
#[derive(Debug, PartialEq, Eq)]
pub enum DvcsError {
    /// The directory holds no repository metadata.
    NotARepository,
    /// A file or stored object could not be read or written.
    IOFailure { path: String, cause: String },
    /// A stored object does not parse as what it was asked to be.
    DecodeFailure { object: crate::hash::Hash },
    /// A stored object does not hash to the key it is stored under.
    HashMismatch { expected: crate::hash::Hash, actual: crate::hash::Hash },
    /// A commit was asked for with nothing staged.
    EmptyStaging,
    /// The branch name is already bound.
    BranchExists { name: String },
    /// The branch name is not bound.
    BranchMissing { name: String },
    /// The operation needs HEAD to name a branch and it names none.
    DetachedHead,
    /// The two histories share no commit.
    NoCommonAncestor,
    /// The merge cannot be made without a decision by the user.
    MergeConflict { paths: Vec<String>, kind: ConflictKind },
    /// The path leaves the working tree or enters the metadata directory.
    InvalidPath,
}

/// The mathematical value of an error.
pub enum ErrorView {
    NotARepository,
    IOFailure { path: Seq<char>, cause: Seq<char> },
    DecodeFailure { object: Seq<char> },
    HashMismatch { expected: Seq<char>, actual: Seq<char> },
    EmptyStaging,
    BranchExists { name: Seq<char> },
    BranchMissing { name: Seq<char> },
    DetachedHead,
    NoCommonAncestor,
    MergeConflict { paths: Seq<Seq<char>>, kind: ConflictKind },
    InvalidPath,
}

/// The texts of a vector of strings.
pub open spec fn texts_of(v: Seq<String>) -> Seq<Seq<char>> {
    Seq::new(v.len(), |i: int| v[i]@)
}

impl View for DvcsError {
    type V = ErrorView;

    open spec fn view(&self) -> ErrorView {
        match self {
            DvcsError::NotARepository => ErrorView::NotARepository,
            DvcsError::IOFailure { path, cause } => ErrorView::IOFailure {
                path: path@,
                cause: cause@,
            },
            DvcsError::DecodeFailure { object } => ErrorView::DecodeFailure { object: object@ },
            DvcsError::HashMismatch { expected, actual } => ErrorView::HashMismatch {
                expected: expected@,
                actual: actual@,
            },
            DvcsError::EmptyStaging => ErrorView::EmptyStaging,
            DvcsError::BranchExists { name } => ErrorView::BranchExists { name: name@ },
            DvcsError::BranchMissing { name } => ErrorView::BranchMissing { name: name@ },
            DvcsError::DetachedHead => ErrorView::DetachedHead,
            DvcsError::NoCommonAncestor => ErrorView::NoCommonAncestor,
            DvcsError::MergeConflict { paths, kind } => ErrorView::MergeConflict {
                paths: texts_of(paths@),
                kind: *kind,
            },
            DvcsError::InvalidPath => ErrorView::InvalidPath,
        }
    }
}

/// The cause that is reported when a stored object or a file is absent.
pub open spec fn not_found_cause() -> Seq<char> {
    "not found"@
}

/// The error for an absent file or object at `path`.
pub fn not_found(path: String) -> (e: DvcsError)
    ensures
        e@ == (ErrorView::IOFailure { path: path@, cause: not_found_cause() }),
{
    DvcsError::IOFailure { path, cause: "not found".to_owned() }
}

impl DvcsError {
    /// A one-line message for the user: what failed, and the path, name or
    /// hash that it failed on.
    pub fn message(&self) -> (s: String)
        ensures
            s@ == message_text(self@),
    {
        match self {
            DvcsError::NotARepository => "not a repository".to_owned(),
            DvcsError::IOFailure { path, cause } => {
                let mut s = "i/o failure at ".to_owned();
                s.append(path.as_str());
                s.append(": ");
                s.append(cause.as_str());
                s
            },
            DvcsError::DecodeFailure { object } => {
                let mut s = "stored object does not decode: ".to_owned();
                s.append(object.as_str());
                s
            },
            DvcsError::HashMismatch { expected, actual } => {
                let mut s = "hash mismatch: expected ".to_owned();
                s.append(expected.as_str());
                s.append(", found ");
                s.append(actual.as_str());
                s
            },
            DvcsError::EmptyStaging => "nothing in staged files".to_owned(),
            DvcsError::BranchExists { name } => {
                let mut s = "branch already exists: ".to_owned();
                s.append(name.as_str());
                s
            },
            DvcsError::BranchMissing { name } => {
                let mut s = "branch does not exist: ".to_owned();
                s.append(name.as_str());
                s
            },
            DvcsError::DetachedHead => "HEAD names no branch".to_owned(),
            DvcsError::NoCommonAncestor => "no common ancestor found".to_owned(),
            DvcsError::MergeConflict { paths, kind } => {
                let mut s = match kind {
                    ConflictKind::Content => "merge conflict in the content of".to_owned(),
                    ConflictKind::DeleteModify => "merge conflict, deleted here and modified there:".to_owned(),
                    ConflictKind::ModifyDelete => "merge conflict, modified here and deleted there:".to_owned(),
                };
                let ghost all = texts_of(paths@);
                let mut i: usize = 0;
                assert(all.take(0) =~= Seq::<Seq<char>>::empty());
                assert(s@ + listed_paths(all.take(0)) =~= s@);
                while i < paths.len()
                    invariant
                        i <= paths.len(),
                        all == texts_of(paths@),
                        s@ == conflict_heading(*kind) + listed_paths(all.take(i as int)),
                    decreases paths.len() - i,
                {
                    let ghost sofar = all.take(i + 1);
                    assert(sofar.drop_last() =~= all.take(i as int));
                    assert(sofar.last() == paths@[i as int]@);
                    s.append(" ");
                    s.append(paths[i].as_str());
                    assert(s@ =~= conflict_heading(*kind) + listed_paths(sofar));
                    i += 1;
                }
                assert(all.take(i as int) =~= all);
                s
            },
            DvcsError::InvalidPath => "invalid path".to_owned(),
        }
    }
}

/// The paths one after the other, a blank before each.
pub open spec fn listed_paths(paths: Seq<Seq<char>>) -> Seq<char>
    decreases paths.len(),
{
    if paths.len() == 0 {
        Seq::empty()
    } else {
        listed_paths(paths.drop_last()) + " "@ + paths.last()
    }
}

/// How the message of a merge conflict of the given kind begins.
pub open spec fn conflict_heading(kind: ConflictKind) -> Seq<char> {
    match kind {
        ConflictKind::Content => "merge conflict in the content of"@,
        ConflictKind::DeleteModify => "merge conflict, deleted here and modified there:"@,
        ConflictKind::ModifyDelete => "merge conflict, modified here and deleted there:"@,
    }
}

/// The message that a failure is shown with: what failed, followed by the
/// path, the name or the hashes that it failed on; for a merge conflict, by
/// every path that conflicts.
pub open spec fn message_text(e: ErrorView) -> Seq<char> {
    match e {
        ErrorView::NotARepository => "not a repository"@,
        ErrorView::IOFailure { path, cause } => "i/o failure at "@ + path + ": "@ + cause,
        ErrorView::DecodeFailure { object } => "stored object does not decode: "@ + object,
        ErrorView::HashMismatch { expected, actual } => "hash mismatch: expected "@ + expected
            + ", found "@ + actual,
        ErrorView::EmptyStaging => "nothing in staged files"@,
        ErrorView::BranchExists { name } => "branch already exists: "@ + name,
        ErrorView::BranchMissing { name } => "branch does not exist: "@ + name,
        ErrorView::DetachedHead => "HEAD names no branch"@,
        ErrorView::NoCommonAncestor => "no common ancestor found"@,
        ErrorView::MergeConflict { paths, kind } => conflict_heading(kind) + listed_paths(paths),
        ErrorView::InvalidPath => "invalid path"@,
    }
}

} // verus!
