//! Commits: their fields, their hash and their record in the log.

use crate::hash::{hash_of_text, is_hash_text, DVCSHash};
use vstd::prelude::*;
use vstd::string::*;

verus! {

/// The mathematical value of a commit.
pub struct CommitView {
    pub parent_hashes: Seq<Seq<char>>,
    pub dir_hash: Seq<char>,
    pub author: Seq<char>,
    pub message: Seq<char>,
    pub timestamp: Seq<char>,
}

/// The texts of a sequence of hashes.
pub open spec fn hash_texts(v: Seq<crate::hash::Hash>) -> Seq<Seq<char>> {
    Seq::new(v.len(), |i: int| v[i]@)
}

/// Every text of `hs` is canonical hash text.
pub open spec fn all_hash_text(hs: Seq<Seq<char>>) -> bool {
    forall|i: int| 0 <= i < hs.len() ==> is_hash_text(#[trigger] hs[i])
}

/// The texts of `hs` joined in order.
pub open spec fn joined(hs: Seq<Seq<char>>) -> Seq<char>
    decreases hs.len(),
{
    if hs.len() == 0 {
        Seq::empty()
    } else {
        joined(hs.drop_last()) + hs.last()
    }
}

impl CommitView {
    /// Every hash the commit names is canonical hash text.
    pub open spec fn valid(self) -> bool {
        &&& all_hash_text(self.parent_hashes)
        &&& is_hash_text(self.dir_hash)
    }

    /// The text that is hashed to address the commit: the parent hashes in
    /// order, the tree hash, the author, the message and the timestamp.
    pub open spec fn hashed_text(self) -> Seq<char> {
        joined(self.parent_hashes) + self.dir_hash + self.author + self.message + self.timestamp
    }

    /// The hash that addresses the commit.
    pub open spec fn hash(self) -> Seq<char> {
        hash_of_text(self.hashed_text())
    }
}

/// A snapshot: the tree it records, the commits it follows, and who made it,
/// why and when.
#[derive(Debug, PartialEq, Eq)]
pub struct Commit {
    parent_hashes: Vec<crate::hash::Hash>,
    dir_hash: crate::hash::Hash,
    author: String,
    message: String,
    timestamp: String,
}

impl View for Commit {
    type V = CommitView;

    closed spec fn view(&self) -> CommitView {
        CommitView {
            parent_hashes: hash_texts(self.parent_hashes@),
            dir_hash: self.dir_hash@,
            author: self.author@,
            message: self.message@,
            timestamp: self.timestamp@,
        }
    }
}

/// A copy of a vector of hashes.
pub fn copy_hashes(v: &Vec<crate::hash::Hash>) -> (r: Vec<crate::hash::Hash>)
    ensures
        hash_texts(r@) == hash_texts(v@),
{
    let mut out: Vec<crate::hash::Hash> = Vec::new();
    let mut i: usize = 0;
    while i < v.len()
        invariant
            i <= v.len(),
            out.len() == i,
            forall|j: int| 0 <= j < i ==> (#[trigger] out@[j])@ == v@[j]@,
        decreases v.len() - i,
    {
        out.push(v[i].clone());
        i += 1;
    }
    assert(hash_texts(out@) =~= hash_texts(v@));
    out
}

impl Clone for Commit {
    fn clone(&self) -> (r: Commit)
        ensures
            r@ == self@,
    {
        Commit {
            parent_hashes: copy_hashes(&self.parent_hashes),
            dir_hash: self.dir_hash.clone(),
            author: self.author.clone(),
            message: self.message.clone(),
            timestamp: self.timestamp.clone(),
        }
    }
}

impl Commit {
    /// Every hash the commit names is canonical hash text.
    pub open spec fn wf(&self) -> bool {
        self@.valid()
    }

    /// A commit of the given fields; the parents keep their order.
    pub fn new(
        parent_hashes: Vec<crate::hash::Hash>,
        dir_hash: crate::hash::Hash,
        author: &str,
        message: &str,
        timestamp: &str,
    ) -> (c: Commit)
        ensures
            c@ == (CommitView {
                parent_hashes: hash_texts(parent_hashes@),
                dir_hash: dir_hash@,
                author: author@,
                message: message@,
                timestamp: timestamp@,
            }),
    {
        Commit {
            parent_hashes,
            dir_hash,
            author: author.to_owned(),
            message: message.to_owned(),
            timestamp: timestamp.to_owned(),
        }
    }

    /// The hashes of the commits that this one follows, in order: none for a
    /// root, one for an ordinary commit, two or more for a merge.
    pub fn get_parent_hashes(&self) -> (r: Vec<crate::hash::Hash>)
        ensures
            hash_texts(r@) == self@.parent_hashes,
    {
        copy_hashes(&self.parent_hashes)
    }

    /// The hash of the tree that the commit records.
    pub fn get_dir_hash(&self) -> (r: crate::hash::Hash)
        ensures
            r@ == self@.dir_hash,
    {
        self.dir_hash.clone()
    }

    /// Who made the commit.
    pub fn get_author(&self) -> (r: &str)
        ensures
            r@ == self@.author,
    {
        self.author.as_str()
    }

    /// Why the commit was made.
    pub fn get_message(&self) -> (r: &str)
        ensures
            r@ == self@.message,
    {
        self.message.as_str()
    }

    /// When the commit was made, as text.
    pub fn get_time_stamp(&self) -> (r: &str)
        ensures
            r@ == self@.timestamp,
    {
        self.timestamp.as_str()
    }

    /// The record of the commit in the human-readable log.
    pub open spec fn log_record(v: CommitView) -> Seq<char> {
        "Commit:\nhash: "@ + v.hash() + "\nauthor: "@ + v.author + "\nmessage: "@ + v.message
            + "\ntime: "@ + v.timestamp
    }

    /// Renders the commit for the human-readable log.
    pub fn to_log_record(&self) -> (s: String)
        requires
            self.wf(),
        ensures
            s@ == Commit::log_record(self@),
    {
        let h = self.get_hash();
        let mut s = "Commit:\nhash: ".to_owned();
        s.append(h.as_str());
        s.append("\nauthor: ");
        s.append(self.author.as_str());
        s.append("\nmessage: ");
        s.append(self.message.as_str());
        s.append("\ntime: ");
        s.append(self.timestamp.as_str());
        s
    }
}

impl DVCSHash for Commit {
    open spec fn hashable(&self) -> bool {
        self.wf()
    }

    open spec fn hash_spec(&self) -> Seq<char> {
        self@.hash()
    }

    /// The hash of the parent hashes, the tree hash, the author, the message
    /// and the timestamp, joined in this order.
    fn get_hash(&self) -> (h: crate::hash::Hash) {
        let mut text = String::new();
        let mut i: usize = 0;
        while i < self.parent_hashes.len()
            invariant
                i <= self.parent_hashes.len(),
                self@.parent_hashes.len() == self.parent_hashes.len(),
                forall|j: int|
                    0 <= j < self.parent_hashes.len() ==> #[trigger] self@.parent_hashes[j]
                        == self.parent_hashes@[j]@,
                text@ == joined(self@.parent_hashes.take(i as int)),
            decreases self.parent_hashes.len() - i,
        {
            let ghost s = self@.parent_hashes.take(i + 1);
            assert(s.drop_last() =~= self@.parent_hashes.take(i as int));
            assert(s.last() == self@.parent_hashes[i as int]);
            text.append(self.parent_hashes[i].as_str());
            i += 1;
        }
        assert(self@.parent_hashes.take(i as int) =~= self@.parent_hashes);
        text.append(self.dir_hash.as_str());
        text.append(self.author.as_str());
        text.append(self.message.as_str());
        text.append(self.timestamp.as_str());
        crate::hash::Hash::new(text.as_str())
    }
}

/// Commits with the same fields, parent order and timestamp included, have the
/// same hash.
pub proof fn lemma_commit_hash_deterministic(c1: Commit, c2: Commit)
    requires
        c1@ == c2@,
    ensures
        c1.hash_spec() == c2.hash_spec(),
{
}

} // verus!
