//! The layout of a repository on disk and the state of a new repository.

use crate::repository::RepositoryInterface;
use vstd::prelude::*;
use vstd::string::*;

verus! {

/// Where a repository keeps its metadata, relative to its root.
#[derive(Debug, PartialEq, Eq)]
pub struct Layout {
    /// The directories that `init` makes, each after the one that holds it.
    pub directories: Vec<String>,
    /// The file that holds the name of the current branch. It starts empty.
    pub head_file: String,
    /// The file that holds the staged paths. It need not exist.
    pub staging_file: String,
    /// The file that holds the log, the newest commit on top.
    pub log_file: String,
}

/// The texts of a vector of paths.
pub open spec fn layout_texts(v: Seq<String>) -> Seq<Seq<char>> {
    Seq::new(v.len(), |i: int| v[i]@)
}

/// The directories of a new repository.
pub open spec fn layout_directories() -> Seq<Seq<char>> {
    seq![".my-dvcs"@, ".my-dvcs/obj"@, ".my-dvcs/branches"@]
}

/// The place of the file that names the current branch.
pub open spec fn head_rel_path() -> Seq<char> {
    ".my-dvcs/head"@
}

/// The place of the file that holds the staged paths.
pub open spec fn staging_rel_path() -> Seq<char> {
    ".my-dvcs/.tracked_files"@
}

/// The place of the log.
pub open spec fn log_rel_path() -> Seq<char> {
    ".my-dvcs/logs/log.txt"@
}

/// Where the metadata of a repository is kept.
pub fn layout() -> (r: Layout)
    ensures
        layout_texts(r.directories@) == layout_directories(),
        r.head_file@ == head_rel_path(),
        r.staging_file@ == staging_rel_path(),
        r.log_file@ == log_rel_path(),
{
    let mut directories: Vec<String> = Vec::new();
    directories.push(".my-dvcs".to_owned());
    directories.push(".my-dvcs/obj".to_owned());
    directories.push(".my-dvcs/branches".to_owned());
    assert(layout_texts(directories@) =~= layout_directories());
    Layout {
        directories,
        head_file: ".my-dvcs/head".to_owned(),
        staging_file: ".my-dvcs/.tracked_files".to_owned(),
        log_file: ".my-dvcs/logs/log.txt".to_owned(),
    }
}

/// Makes a new repository at `path`: without objects and branches, with an
/// empty head. Says what is to be made on disk for it.
pub fn init_repo(path: &str) -> (r: (RepositoryInterface, Layout))
    ensures
        r.0.wf(),
        r.0.path() == path@,
        r.0.objects() == Map::<Seq<char>, Seq<u8>>::empty(),
        r.0.branches() == Seq::<(Seq<char>, Seq<char>)>::empty(),
        r.0.head() == Seq::<char>::empty(),
        layout_texts(r.1.directories@) == layout_directories(),
        r.1.head_file@ == head_rel_path(),
        r.1.staging_file@ == staging_rel_path(),
        r.1.log_file@ == log_rel_path(),
{
    (RepositoryInterface::init(path), layout())
}

} // verus!
