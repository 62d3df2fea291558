//! The files of a working directory.

use crate::table::{keys_distinct, table_map, ByteMap};
use vstd::prelude::*;
use vstd::string::*;

verus! {

/// The files of a working directory as the core sees them: a mapping from
/// relative path to content.
#[derive(Debug, PartialEq, Eq)]
pub struct WorkTree {
    files: ByteMap,
}

impl View for WorkTree {
    type V = Map<Seq<char>, Seq<u8>>;

    open spec fn view(&self) -> Map<Seq<char>, Seq<u8>> {
        table_map(self.pairs())
    }
}

impl Clone for WorkTree {
    fn clone(&self) -> (r: WorkTree)
        ensures
            r.pairs() == self.pairs(),
    {
        WorkTree { files: self.files.clone() }
    }
}

impl WorkTree {
    /// The files with their paths, in the order in which they are kept.
    pub closed spec fn pairs(&self) -> Seq<(Seq<char>, Seq<u8>)> {
        self.files.pairs()
    }

    /// No path occurs twice.
    pub open spec fn wf(&self) -> bool {
        keys_distinct(self.pairs())
    }

    /// A working directory without files.
    pub fn new() -> (t: WorkTree)
        ensures
            t.wf(),
            t@ == Map::<Seq<char>, Seq<u8>>::empty(),
            t.pairs() == Seq::<(Seq<char>, Seq<u8>)>::empty(),
    {
        WorkTree { files: ByteMap::new() }
    }

    /// Number of files.
    pub fn len(&self) -> (n: usize)
        ensures
            n == self.pairs().len(),
    {
        self.files.len()
    }

    /// Whether there is a file at `path`.
    pub fn contains(&self, path: &str) -> (r: bool)
        requires
            self.wf(),
        ensures
            r == self@.contains_key(path@),
    {
        self.files.contains(path)
    }

    /// The content of the file at `path`, if there is one.
    pub fn read(&self, path: &str) -> (r: Option<&Vec<u8>>)
        requires
            self.wf(),
        ensures
            r is Some <==> self@.contains_key(path@),
            r matches Some(d) ==> d@ == self@[path@],
    {
        self.files.get(path)
    }

    /// Writes `data` to the file at `path`, making the file if there is none.
    pub fn write(&mut self, path: &str, data: Vec<u8>)
        requires
            old(self).wf(),
        ensures
            final(self).wf(),
            final(self)@ == old(self)@.insert(path@, data@),
    {
        self.files.set(path, data);
    }

    /// Removes the file at `path`, if there is one.
    pub fn remove(&mut self, path: &str) -> (r: bool)
        requires
            old(self).wf(),
        ensures
            final(self).wf(),
            final(self)@ == old(self)@.remove(path@),
            r == old(self)@.contains_key(path@),
    {
        self.files.remove(path).is_some()
    }

    /// The paths of the files, in the order in which they are kept.
    pub fn paths(&self) -> (r: Vec<String>)
        ensures
            r.len() == self.pairs().len(),
            forall|i: int| 0 <= i < r.len() ==> (#[trigger] r@[i])@ == self.pairs()[i].0,
    {
        self.files.keys()
    }
}

} // verus!
