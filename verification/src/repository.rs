//! The repository: the content-addressed object store, the branches and the
//! head.

use crate::commit::{Commit, CommitView};
use crate::directory::{entries_of, lemma_entries_of, tree_hash, Directory};
use crate::error::{not_found, not_found_cause, DvcsError, ErrorView};
use crate::hash::{hash_of_bytes, is_hash_text, DVCSHash};
use crate::serializer::{
    commit_bytes, commit_of_bytes, decode_commit, decode_directory, directory_bytes,
    directory_of_bytes, encode_commit, encode_directory,
};
use crate::table::{
    has_key, key_index, keys_distinct, lemma_table_lookup, lemma_table_push, lemma_table_update,
    table_map, ByteMap,
};
use crate::text::{chars_of, same_text, text_of_chars};
use vstd::prelude::*;
use vstd::slice::slice_to_vec;
use vstd::string::*;

verus! {

/// The name of the directory that holds the repository's metadata.
pub open spec fn metadata_dir() -> Seq<char> {
    ".my-dvcs"@
}

/// Where the object with hash text `h` is kept, relative to the root of the
/// repository: under the first two digits of the hash, in a file named by
/// the other sixty-two.
pub open spec fn obj_path(h: Seq<char>) -> Seq<char> {
    ".my-dvcs/obj/"@ + h.subrange(0, 2) + "/"@ + h.subrange(2, h.len() as int) + ".obj"@
}

/// The path `rel` below the directory `base`, with one separator between
/// them unless `base` is empty or ends in one.
pub open spec fn join_path(base: Seq<char>, rel: Seq<char>) -> Seq<char> {
    if base.len() == 0 {
        rel
    } else if base.last() == '/' {
        base + rel
    } else {
        base + "/"@ + rel
    }
}

/// Where branch `name` is kept, relative to the root of the repository.
pub open spec fn branch_rel_path(name: Seq<char>) -> Seq<char> {
    ".my-dvcs/branches/"@ + name
}

/// `s` can name a branch: it is not empty, holds no path separator and is
/// not one of the two names that every directory has.
pub open spec fn is_branch_name(s: Seq<char>) -> bool {
    &&& s.len() > 0
    &&& !s.contains('/')
    &&& !s.contains('\\')
    &&& s != seq!['.']
    &&& s != seq!['.', '.']
}

/// The store after an object was put under `h`: an object that is there
/// already is not written again.
pub open spec fn store_put(
    m: Map<Seq<char>, Seq<u8>>,
    h: Seq<char>,
    data: Seq<u8>,
) -> Map<Seq<char>, Seq<u8>> {
    if m.contains_key(h) {
        m
    } else {
        m.insert(h, data)
    }
}

/// The objects of the store, in the order in which they were put, after an
/// object was put under `h`.
pub open spec fn put_pairs(
    ps: Seq<(Seq<char>, Seq<u8>)>,
    h: Seq<char>,
    data: Seq<u8>,
) -> Seq<(Seq<char>, Seq<u8>)> {
    if has_key(ps, h) {
        ps
    } else {
        ps.push((h, data))
    }
}

/// The error for an object that is not in the store.
pub open spec fn missing_object(h: Seq<char>) -> ErrorView {
    ErrorView::IOFailure { path: obj_path(h), cause: not_found_cause() }
}

/// What reading the blob under `h` gives: its bytes, if it is there and the
/// bytes hash to `h`.
pub open spec fn stored_blob(objs: Map<Seq<char>, Seq<u8>>, h: Seq<char>) -> Result<
    Seq<u8>,
    ErrorView,
> {
    if !objs.contains_key(h) {
        Err(missing_object(h))
    } else if hash_of_bytes(objs[h]) != h {
        Err(ErrorView::HashMismatch { expected: h, actual: hash_of_bytes(objs[h]) })
    } else {
        Ok(objs[h])
    }
}

/// What reading the commit under `h` gives: the commit, if the object is
/// there, is the stored form of a commit, and that commit hashes to `h`.
pub open spec fn stored_commit(objs: Map<Seq<char>, Seq<u8>>, h: Seq<char>) -> Result<
    CommitView,
    ErrorView,
> {
    if !objs.contains_key(h) {
        Err(missing_object(h))
    } else {
        match commit_of_bytes(objs[h]) {
            None => Err(ErrorView::DecodeFailure { object: h }),
            Some(c) => if c.hash() != h {
                Err(ErrorView::HashMismatch { expected: h, actual: c.hash() })
            } else {
                Ok(c)
            },
        }
    }
}

/// What reading the directory under `h` gives: its mapping, if the object is
/// there, is a stored form of a directory, and that directory hashes to `h`.
pub open spec fn stored_directory(objs: Map<Seq<char>, Seq<u8>>, h: Seq<char>) -> Result<
    Map<Seq<char>, Seq<char>>,
    ErrorView,
> {
    if !objs.contains_key(h) {
        Err(missing_object(h))
    } else {
        match directory_of_bytes(objs[h]) {
            None => Err(ErrorView::DecodeFailure { object: h }),
            Some(m) => if tree_hash(m) != h {
                Err(ErrorView::HashMismatch { expected: h, actual: tree_hash(m) })
            } else {
                Ok(m)
            },
        }
    }
}

/// After `put` of the bytes `data` under their own hash, `get` of that hash
/// gives `data`, unless the store held other bytes under that hash already.
pub proof fn lemma_put_then_get(m: Map<Seq<char>, Seq<u8>>, data: Seq<u8>)
    requires
        m.contains_key(hash_of_bytes(data)) ==> m[hash_of_bytes(data)] == data,
    ensures
        store_put(m, hash_of_bytes(data), data).contains_key(hash_of_bytes(data)),
        store_put(m, hash_of_bytes(data), data)[hash_of_bytes(data)] == data,
{
}

/// A second `put` of the same object leaves the store as the first left it,
/// object by object and in the same order.
pub proof fn lemma_put_idempotent(ps: Seq<(Seq<char>, Seq<u8>)>, h: Seq<char>, data: Seq<u8>)
    ensures
        put_pairs(put_pairs(ps, h, data), h, data) == put_pairs(ps, h, data),
{
    if !has_key(ps, h) {
        let t = ps.push((h, data));
        assert(t[ps.len() as int].0 == h);
    }
}

/// The content-addressed store of immutable objects.
#[derive(Debug, PartialEq, Eq)]
pub struct ObjectStore {
    items: ByteMap,
}

impl View for ObjectStore {
    type V = Map<Seq<char>, Seq<u8>>;

    open spec fn view(&self) -> Map<Seq<char>, Seq<u8>> {
        table_map(self.pairs())
    }
}

impl Clone for ObjectStore {
    fn clone(&self) -> (r: ObjectStore)
        ensures
            r.pairs() == self.pairs(),
    {
        ObjectStore { items: self.items.clone() }
    }
}

impl ObjectStore {
    /// The objects with their hashes, in the order in which they were put.
    pub closed spec fn pairs(&self) -> Seq<(Seq<char>, Seq<u8>)> {
        self.items.pairs()
    }

    /// No hash is bound twice, and every key is canonical hash text.
    pub open spec fn wf(&self) -> bool {
        &&& keys_distinct(self.pairs())
        &&& forall|i: int| 0 <= i < self.pairs().len() ==> is_hash_text((#[trigger] self.pairs()[i]).0)
    }

    /// The empty store.
    pub fn new() -> (s: ObjectStore)
        ensures
            s.wf(),
            s.pairs() == Seq::<(Seq<char>, Seq<u8>)>::empty(),
            s@ == Map::<Seq<char>, Seq<u8>>::empty(),
    {
        ObjectStore { items: ByteMap::new() }
    }

    /// Number of objects.
    pub fn len(&self) -> (n: usize)
        ensures
            n == self.pairs().len(),
    {
        self.items.len()
    }

    /// Whether an object is stored under `hash`.
    pub fn contains(&self, hash: &crate::hash::Hash) -> (r: bool)
        requires
            self.wf(),
        ensures
            r == self@.contains_key(hash@),
    {
        self.items.contains(hash.as_str())
    }

    /// The bytes stored under `hash`, if any.
    pub fn get(&self, hash: &crate::hash::Hash) -> (r: Option<&Vec<u8>>)
        requires
            self.wf(),
        ensures
            r is Some <==> self@.contains_key(hash@),
            r matches Some(d) ==> d@ == self@[hash@],
    {
        self.items.get(hash.as_str())
    }

    /// Stores `data` under `hash` unless an object is there already, in which
    /// case nothing is written. Says nothing of how `hash` was made: trees and
    /// commits are stored under the hash of their fields.
    pub fn add(&mut self, hash: &crate::hash::Hash, data: &[u8])
        requires
            old(self).wf(),
            hash.wf(),
        ensures
            final(self).wf(),
            final(self).pairs() == put_pairs(old(self).pairs(), hash@, data@),
            final(self)@ == store_put(old(self)@, hash@, data@),
    {
        let ghost before = self.pairs();
        let added = self.items.insert_absent(hash.as_str(), slice_to_vec(data));
        proof {
            if added {
                assert forall|i: int| 0 <= i < self.pairs().len() implies is_hash_text(
                    (#[trigger] self.pairs()[i]).0,
                ) by {
                    if i < before.len() {
                        assert(self.pairs()[i] == before[i]);
                    }
                }
            }
        }
    }

    /// Stores the blob `data` under `hash`, which must be the hash of `data`:
    /// otherwise nothing is stored and the mismatch is reported. An object
    /// that is there already is not written again.
    pub fn put(&mut self, hash: &crate::hash::Hash, data: &[u8]) -> (r: Result<(), DvcsError>)
        requires
            old(self).wf(),
            hash.wf(),
        ensures
            final(self).wf(),
            r is Ok <==> hash@ == hash_of_bytes(data@),
            r is Ok ==> final(self).pairs() == put_pairs(old(self).pairs(), hash@, data@)
                && final(self)@ == store_put(old(self)@, hash@, data@),
            r matches Err(e) ==> final(self).pairs() == old(self).pairs() && e@ == (
            ErrorView::HashMismatch { expected: hash@, actual: hash_of_bytes(data@) }),
    {
        let actual = crate::hash::Hash::from(data);
        if actual.same(hash) {
            self.add(hash, data);
            Ok(())
        } else {
            Err(DvcsError::HashMismatch { expected: hash.clone(), actual })
        }
    }

    /// The hashes under which objects are stored, in the order in which they
    /// were put.
    pub fn hashes(&self) -> (r: Vec<crate::hash::Hash>)
        requires
            self.wf(),
        ensures
            r.len() == self.pairs().len(),
            forall|i: int| 0 <= i < r.len() ==> (#[trigger] r@[i])@ == self.pairs()[i].0,
    {
        let keys = self.items.keys();
        let mut out: Vec<crate::hash::Hash> = Vec::new();
        let mut i: usize = 0;
        while i < keys.len()
            invariant
                self.wf(),
                i <= keys.len(),
                out.len() == i,
                keys.len() == self.pairs().len(),
                forall|j: int| 0 <= j < keys.len() ==> (#[trigger] keys@[j])@ == self.pairs()[j].0,
                forall|j: int| 0 <= j < i ==> (#[trigger] out@[j])@ == self.pairs()[j].0,
            decreases keys.len() - i,
        {
            assert(is_hash_text(self.pairs()[i as int].0));
            proof {
                crate::hash::lemma_canonical_hash_text(keys@[i as int]@);
                assert forall|k: int| 0 <= k < 64 implies crate::hash::is_hex(
                    #[trigger] keys@[i as int]@[k],
                ) by {}
            }
            out.push(crate::hash::Hash::from_literal(keys[i].as_str()));
            i += 1;
        }
        out
    }
}

/// The names and hashes that a vector of branch refs holds.
pub open spec fn branch_pairs(v: Seq<(String, crate::hash::Hash)>) -> Seq<(Seq<char>, Seq<char>)> {
    Seq::new(v.len(), |i: int| (v[i].0@, v[i].1@))
}

/// The hash that branch `name` points to, if the name is bound.
pub open spec fn branch_hash(bs: Seq<(Seq<char>, Seq<char>)>, name: Seq<char>) -> Option<
    Seq<char>,
> {
    if has_key(bs, name) {
        Some(bs[key_index(bs, name)].1)
    } else {
        None
    }
}

/// `i` is the place of the first branch that points to `h`.
pub open spec fn first_branch_at(bs: Seq<(Seq<char>, Seq<char>)>, h: Seq<char>, i: int) -> bool {
    &&& 0 <= i < bs.len()
    &&& bs[i].1 == h
    &&& forall|j: int| 0 <= j < i ==> (#[trigger] bs[j]).1 != h
}

/// No branch points to `h`.
pub open spec fn no_branch_at(bs: Seq<(Seq<char>, Seq<char>)>, h: Seq<char>) -> bool {
    forall|j: int| 0 <= j < bs.len() ==> (#[trigger] bs[j]).1 != h
}

/// A repository as the core sees it: where it is, its objects, its branches
/// and its head.
#[derive(Debug, PartialEq, Eq)]
pub struct RepositoryInterface {
    dir_path: String,
    objects: ObjectStore,
    branches: Vec<(String, crate::hash::Hash)>,
    head: String,
}

/// The mathematical value of a repository.
pub struct RepoView {
    /// The path of the working directory.
    pub path: Seq<char>,
    /// The object store, from hash to bytes.
    pub objects: Map<Seq<char>, Seq<u8>>,
    /// The branches with the hashes they point to, in the order in which
    /// they were made.
    pub branches: Seq<(Seq<char>, Seq<char>)>,
    /// The name of the current branch, or the empty text.
    pub head: Seq<char>,
}

impl View for RepositoryInterface {
    type V = RepoView;

    open spec fn view(&self) -> RepoView {
        RepoView {
            path: self.path(),
            objects: self.objects(),
            branches: self.branches(),
            head: self.head(),
        }
    }
}

impl RepositoryInterface {
    /// The path of the working directory that holds the repository.
    pub closed spec fn path(&self) -> Seq<char> {
        self.dir_path@
    }

    /// The object store, as a mapping from hash to bytes.
    pub closed spec fn objects(&self) -> Map<Seq<char>, Seq<u8>> {
        self.objects@
    }

    /// The objects with their hashes, in the order in which they were put.
    pub closed spec fn object_pairs(&self) -> Seq<(Seq<char>, Seq<u8>)> {
        self.objects.pairs()
    }

    /// The branches with the hashes they point to, in the order in which
    /// they were made.
    pub closed spec fn branches(&self) -> Seq<(Seq<char>, Seq<char>)> {
        branch_pairs(self.branches@)
    }

    /// The name of the current branch, or the empty text.
    pub closed spec fn head(&self) -> Seq<char> {
        self.head@
    }

    /// The store is well formed, no branch name is bound twice, every branch
    /// has a fit name and points to hash text, and the head is empty or
    /// names a branch.
    pub closed spec fn wf(&self) -> bool {
        &&& self.objects.wf()
        &&& self.branches_ok()
        &&& (self.head().len() == 0 || has_key(self.branches(), self.head()))
    }

    /// What holds of the branches of a well-formed repository.
    pub open spec fn branches_ok(&self) -> bool {
        &&& keys_distinct(self.branches())
        &&& forall|i: int|
            0 <= i < self.branches().len() ==> is_hash_text((#[trigger] self.branches()[i]).1)
                && is_branch_name(self.branches()[i].0)
    }

    /// What a well-formed repository is known to satisfy.
    pub proof fn lemma_wf(&self)
        requires
            self.wf(),
        ensures
            self.branches_ok(),
            self.head().len() == 0 || has_key(self.branches(), self.head()),
            self.objects() == table_map(self.object_pairs()),
            keys_distinct(self.object_pairs()),
            self.objects().dom().finite(),
    {
        crate::table::lemma_table_finite(self.object_pairs());
    }

    /// Whether a directory holds a repository: one of its entries is a
    /// directory named `.my-dvcs`. `entries` gives each entry's name and
    /// whether it is a directory; `is_dir` says whether the place itself is
    /// one.
    pub fn is_repo(is_dir: bool, entries: &Vec<(String, bool)>) -> (r: bool)
        ensures
            r == (is_dir && exists|i: int|
                0 <= i < entries.len() && (#[trigger] entries@[i]).1 && entries@[i].0@
                    == metadata_dir()),
    {
        if !is_dir {
            return false;
        }
        let mut i: usize = 0;
        while i < entries.len()
            invariant
                is_dir,
                i <= entries.len(),
                forall|j: int|
                    0 <= j < i ==> !((#[trigger] entries@[j]).1 && entries@[j].0@ == metadata_dir()),
            decreases entries.len() - i,
        {
            if entries[i].1 && same_text(entries[i].0.as_str(), ".my-dvcs") {
                assert(entries@[i as int].1 && entries@[i as int].0@ == metadata_dir());
                return true;
            }
            i += 1;
        }
        false
    }

    /// The repository at `dir_path` with no object, no branch and an empty
    /// head, as `init` leaves it and as a caller starts from before it puts
    /// in what is on disk. `None` unless the place holds a repository.
    pub fn new(dir_path: &str, is_dir: bool, entries: &Vec<(String, bool)>) -> (r: Option<
        RepositoryInterface,
    >)
        ensures
            r is Some <==> (is_dir && exists|i: int|
                0 <= i < entries.len() && (#[trigger] entries@[i]).1 && entries@[i].0@
                    == metadata_dir()),
            r matches Some(repo) ==> repo.wf() && repo.path() == dir_path@ && repo.objects()
                == Map::<Seq<char>, Seq<u8>>::empty() && repo.object_pairs() == Seq::<
                (Seq<char>, Seq<u8>),
            >::empty() && repo.branches() == Seq::<(Seq<char>, Seq<char>)>::empty()
                && repo.head() == Seq::<char>::empty(),
    {
        if Self::is_repo(is_dir, entries) {
            Some(Self::init(dir_path))
        } else {
            None
        }
    }

    /// The repository at `dir_path`, as `new` gives it, or the failure that
    /// the place holds no repository.
    pub fn open(dir_path: &str, is_dir: bool, entries: &Vec<(String, bool)>) -> (r: Result<
        RepositoryInterface,
        DvcsError,
    >)
        ensures
            r is Ok <==> (is_dir && exists|i: int|
                0 <= i < entries.len() && (#[trigger] entries@[i]).1 && entries@[i].0@
                    == metadata_dir()),
            r matches Ok(repo) ==> repo.wf() && repo@ == (RepoView {
                path: dir_path@,
                objects: Map::empty(),
                branches: Seq::empty(),
                head: Seq::empty(),
            }),
            r matches Err(e) ==> e@ == ErrorView::NotARepository,
    {
        match Self::new(dir_path, is_dir, entries) {
            Some(repo) => Ok(repo),
            None => Err(DvcsError::NotARepository),
        }
    }

    /// A new repository at `dir_path`: no object, no branch, an empty head.
    pub fn init(dir_path: &str) -> (repo: RepositoryInterface)
        ensures
            repo.wf(),
            repo.path() == dir_path@,
            repo.objects() == Map::<Seq<char>, Seq<u8>>::empty(),
            repo.object_pairs() == Seq::<(Seq<char>, Seq<u8>)>::empty(),
            repo.branches() == Seq::<(Seq<char>, Seq<char>)>::empty(),
            repo.head() == Seq::<char>::empty(),
    {
        let repo = RepositoryInterface {
            dir_path: dir_path.to_owned(),
            objects: ObjectStore::new(),
            branches: Vec::new(),
            head: String::new(),
        };
        assert(repo.branches() =~= Seq::<(Seq<char>, Seq<char>)>::empty());
        repo
    }

    /// The path of the working directory that holds the repository.
    pub fn get_repo_path(&self) -> (r: String)
        ensures
            r@ == self.path(),
    {
        self.dir_path.clone()
    }

    /// Where the object with the given hash is kept, relative to the root of
    /// the repository.
    pub fn get_relative_obj_path(hash: crate::hash::Hash) -> (r: String)
        requires
            hash.wf(),
        ensures
            r@ == obj_path(hash@),
    {
        let h = chars_of(hash.as_str());
        let mut out = chars_of(".my-dvcs/obj/");
        out.push(h[0]);
        out.push(h[1]);
        out.push('/');
        let ghost head = out@;
        let mut i: usize = 2;
        while i < h.len()
            invariant
                2 <= i <= h.len(),
                out@ == head + h@.subrange(2, i as int),
            decreases h.len() - i,
        {
            out.push(h[i]);
            assert(out@ =~= head + h@.subrange(2, i + 1));
            i += 1;
        }
        let tail = chars_of(".obj");
        let mut j: usize = 0;
        let ghost body = out@;
        while j < tail.len()
            invariant
                j <= tail.len(),
                out@ == body + tail@.subrange(0, j as int),
            decreases tail.len() - j,
        {
            out.push(tail[j]);
            assert(out@ =~= body + tail@.subrange(0, j + 1));
            j += 1;
        }
        proof {
            reveal_strlit("/");
            assert(tail@.subrange(0, tail.len() as int) =~= tail@);
            assert(head =~= ".my-dvcs/obj/"@ + h@.subrange(0, 2) + "/"@);
            assert(out@ =~= obj_path(hash@));
        }
        text_of_chars(&out)
    }

    /// Where the branch `branch_name` is kept, below the path of the
    /// repository.
    pub fn get_branch_path(&self, branch_name: &str) -> (r: String)
        ensures
            r@ == join_path(self.path(), branch_rel_path(branch_name@)),
    {
        let mut rel = ".my-dvcs/branches/".to_owned();
        rel.append(branch_name);
        let base = chars_of(self.dir_path.as_str());
        if base.len() == 0 {
            rel
        } else if base[base.len() - 1] == '/' {
            let mut out = self.dir_path.clone();
            out.append(rel.as_str());
            out
        } else {
            let mut out = self.dir_path.clone();
            out.append("/");
            out.append(rel.as_str());
            out
        }
    }

    /// Stores `data` under `hash` unless an object is there already, in which
    /// case nothing is written.
    pub fn add_object(&mut self, hash: crate::hash::Hash, data: &[u8])
        requires
            old(self).wf(),
            hash.wf(),
        ensures
            final(self).wf(),
            final(self).objects() == store_put(old(self).objects(), hash@, data@),
            final(self).object_pairs() == put_pairs(old(self).object_pairs(), hash@, data@),
            final(self).branches() == old(self).branches(),
            final(self).head() == old(self).head(),
            final(self).path() == old(self).path(),
    {
        self.objects.add(&hash, data);
    }

    /// The bytes stored under `hash`, as they are.
    pub fn get_object(&self, hash: crate::hash::Hash) -> (r: Result<Vec<u8>, DvcsError>)
        requires
            self.wf(),
            hash.wf(),
        ensures
            r is Ok <==> self.objects().contains_key(hash@),
            r matches Ok(d) ==> d@ == self.objects()[hash@],
            r matches Err(e) ==> e@ == missing_object(hash@),
    {
        match self.objects.get(&hash) {
            Some(d) => Ok(d.clone()),
            None => Err(not_found(Self::get_relative_obj_path(hash))),
        }
    }

    /// Whether an object is stored under `hash`.
    pub fn has_object(&self, hash: &crate::hash::Hash) -> (r: bool)
        requires
            self.wf(),
        ensures
            r == self.objects().contains_key(hash@),
    {
        self.objects.contains(hash)
    }

    /// The hashes under which objects are stored, in the order in which they
    /// were put.
    pub fn get_object_hashes(&self) -> (r: Vec<crate::hash::Hash>)
        requires
            self.wf(),
        ensures
            r.len() == self.object_pairs().len(),
            forall|i: int| 0 <= i < r.len() ==> (#[trigger] r@[i])@ == self.object_pairs()[i].0,
    {
        self.objects.hashes()
    }

    /// Stores `data` as a blob and gives the hash that addresses it.
    pub fn create_blob(&mut self, data: &[u8]) -> (h: crate::hash::Hash)
        requires
            old(self).wf(),
        ensures
            final(self).wf(),
            h@ == hash_of_bytes(data@),
            h.wf(),
            final(self).objects() == store_put(old(self).objects(), h@, data@),
            final(self).object_pairs() == put_pairs(old(self).object_pairs(), h@, data@),
            final(self).branches() == old(self).branches(),
            final(self).head() == old(self).head(),
            final(self).path() == old(self).path(),
    {
        let hash = crate::hash::Hash::from(data);
        self.objects.add(&hash, data);
        hash
    }

    /// The blob stored under `hash`, checked against its hash.
    pub fn get_blob(&self, hash: &crate::hash::Hash) -> (r: Result<Vec<u8>, DvcsError>)
        requires
            self.wf(),
            hash.wf(),
        ensures
            r is Ok <==> stored_blob(self.objects(), hash@) is Ok,
            r matches Ok(d) ==> Ok::<Seq<u8>, ErrorView>(d@) == stored_blob(self.objects(), hash@),
            r matches Err(e) ==> Err::<Seq<u8>, ErrorView>(e@) == stored_blob(
                self.objects(),
                hash@,
            ),
    {
        match self.objects.get(hash) {
            None => Err(not_found(Self::get_relative_obj_path(hash.clone()))),
            Some(d) => {
                let actual = crate::hash::Hash::from(d.as_slice());
                if actual.same(hash) {
                    Ok(d.clone())
                } else {
                    Err(DvcsError::HashMismatch { expected: hash.clone(), actual })
                }
            },
        }
    }

    /// Stores the canonical form of a directory under the directory's hash,
    /// and gives that hash.
    pub fn add_directory(&mut self, dir: &Directory) -> (h: crate::hash::Hash)
        requires
            old(self).wf(),
            dir.wf(),
        ensures
            final(self).wf(),
            h@ == tree_hash(dir@),
            h.wf(),
            final(self).objects() == store_put(
                old(self).objects(),
                h@,
                directory_bytes(entries_of(dir@)),
            ),
            final(self).object_pairs() == put_pairs(
                old(self).object_pairs(),
                h@,
                directory_bytes(entries_of(dir@)),
            ),
            final(self).branches() == old(self).branches(),
            final(self).head() == old(self).head(),
            final(self).path() == old(self).path(),
    {
        proof {
            lemma_entries_of(*dir);
        }
        let hash = dir.get_hash();
        let bytes = encode_directory(dir);
        self.objects.add(&hash, bytes.as_slice());
        hash
    }

    /// Stores the canonical form of a commit under the commit's hash, and
    /// gives that hash.
    pub fn add_commit(&mut self, commit: &Commit) -> (h: crate::hash::Hash)
        requires
            old(self).wf(),
            commit.wf(),
        ensures
            final(self).wf(),
            h@ == commit@.hash(),
            h.wf(),
            final(self).objects() == store_put(old(self).objects(), h@, commit_bytes(commit@)),
            final(self).object_pairs() == put_pairs(
                old(self).object_pairs(),
                h@,
                commit_bytes(commit@),
            ),
            final(self).branches() == old(self).branches(),
            final(self).head() == old(self).head(),
            final(self).path() == old(self).path(),
    {
        let hash = commit.get_hash();
        let bytes = encode_commit(commit);
        self.objects.add(&hash, bytes.as_slice());
        hash
    }

    /// The commit stored under `hash`, checked against its hash.
    pub fn get_commit(&self, hash: &crate::hash::Hash) -> (r: Result<Commit, DvcsError>)
        requires
            self.wf(),
            hash.wf(),
        ensures
            r is Ok <==> stored_commit(self.objects(), hash@) is Ok,
            r matches Ok(c) ==> c.wf() && Ok::<CommitView, ErrorView>(c@) == stored_commit(
                self.objects(),
                hash@,
            ),
            r matches Err(e) ==> Err::<CommitView, ErrorView>(e@) == stored_commit(
                self.objects(),
                hash@,
            ),
    {
        match self.objects.get(hash) {
            None => Err(not_found(Self::get_relative_obj_path(hash.clone()))),
            Some(d) => match decode_commit(d.as_slice()) {
                None => Err(DvcsError::DecodeFailure { object: hash.clone() }),
                Some(c) => {
                    let actual = c.get_hash();
                    if actual.same(hash) {
                        Ok(c)
                    } else {
                        Err(DvcsError::HashMismatch { expected: hash.clone(), actual })
                    }
                },
            },
        }
    }

    /// The directory stored under `hash`, checked against its hash.
    pub fn get_directory(&self, hash: &crate::hash::Hash) -> (r: Result<Directory, DvcsError>)
        requires
            self.wf(),
            hash.wf(),
        ensures
            r is Ok <==> stored_directory(self.objects(), hash@) is Ok,
            r matches Ok(d) ==> d.wf() && Ok::<Map<Seq<char>, Seq<char>>, ErrorView>(d@)
                == stored_directory(self.objects(), hash@),
            r matches Err(e) ==> Err::<Map<Seq<char>, Seq<char>>, ErrorView>(e@)
                == stored_directory(self.objects(), hash@),
    {
        match self.objects.get(hash) {
            None => Err(not_found(Self::get_relative_obj_path(hash.clone()))),
            Some(d) => match decode_directory(d.as_slice()) {
                None => Err(DvcsError::DecodeFailure { object: hash.clone() }),
                Some(dir) => {
                    proof {
                        lemma_entries_of(dir);
                    }
                    let actual = dir.get_hash();
                    if actual.same(hash) {
                        Ok(dir)
                    } else {
                        Err(DvcsError::HashMismatch { expected: hash.clone(), actual })
                    }
                },
            },
        }
    }

    /// Where branch `name` is in the list of branches, if it is bound.
    fn find_branch(&self, name: &str) -> (r: Option<usize>)
        requires
            self.wf(),
        ensures
            r is Some <==> has_key(self.branches(), name@),
            r matches Some(i) ==> i < self.branches().len() && self.branches()[i as int].0 == name@
                && key_index(self.branches(), name@) == i,
    {
        let mut i: usize = 0;
        while i < self.branches.len()
            invariant
                self.wf(),
                i <= self.branches.len(),
                self.branches().len() == self.branches.len(),
                forall|j: int| 0 <= j < i ==> (#[trigger] self.branches()[j]).0 != name@,
            decreases self.branches.len() - i,
        {
            assert(self.branches()[i as int].0 == self.branches@[i as int].0@);
            if same_text(self.branches[i].0.as_str(), name) {
                proof {
                    lemma_table_lookup(self.branches(), i as int);
                }
                return Some(i);
            }
            i += 1;
        }
        None
    }

    /// Decides whether `name` can name a branch.
    pub fn valid_branch_name(name: &str) -> (r: bool)
        ensures
            r == is_branch_name(name@),
    {
        let v = chars_of(name);
        if v.len() == 0 {
            return false;
        }
        let mut i: usize = 0;
        while i < v.len()
            invariant
                v@ == name@,
                i <= v.len(),
                forall|j: int| 0 <= j < i ==> v@[j] != '/' && v@[j] != '\\',
            decreases v.len() - i,
        {
            if v[i] == '/' || v[i] == '\\' {
                assert(v@.contains(v@[i as int]));
                return false;
            }
            i += 1;
        }
        if v.len() == 1 && v[0] == '.' {
            assert(v@ =~= seq!['.']);
            return false;
        }
        if v.len() == 2 && v[0] == '.' && v[1] == '.' {
            assert(v@ =~= seq!['.', '.']);
            return false;
        }
        proof {
            if v@ == seq!['.'] {
                assert(v@[0] == seq!['.'][0]);
            }
            if v@ == seq!['.', '.'] {
                assert(v@[0] == seq!['.', '.'][0]);
                assert(v@[1] == seq!['.', '.'][1]);
            }
        }
        true
    }

    /// Binds the new branch `branch_name` to `current_hash`. A name that
    /// cannot name a branch is refused as an invalid path, a name that is
    /// bound already as an existing branch; nothing changes then.
    pub fn create_branch(&mut self, branch_name: &str, current_hash: crate::hash::Hash) -> (r:
        Result<(), DvcsError>)
        requires
            old(self).wf(),
            current_hash.wf(),
        ensures
            final(self).wf(),
            final(self).objects() == old(self).objects(),
            final(self).object_pairs() == old(self).object_pairs(),
            final(self).head() == old(self).head(),
            final(self).path() == old(self).path(),
            r is Ok <==> is_branch_name(branch_name@) && !has_key(
                old(self).branches(),
                branch_name@,
            ),
            r is Ok ==> final(self).branches() == old(self).branches().push(
                (branch_name@, current_hash@),
            ) && has_key(final(self).branches(), branch_name@) && branch_hash(
                final(self).branches(),
                branch_name@,
            ) == Some(current_hash@),
            r matches Err(e) ==> final(self).branches() == old(self).branches() && e@ == (
            if !is_branch_name(branch_name@) {
                ErrorView::InvalidPath
            } else {
                ErrorView::BranchExists { name: branch_name@ }
            }),
    {
        if !Self::valid_branch_name(branch_name) {
            return Err(DvcsError::InvalidPath);
        }
        if self.find_branch(branch_name).is_some() {
            return Err(DvcsError::BranchExists { name: branch_name.to_owned() });
        }
        let ghost before = self.branches();
        self.branches.push((branch_name.to_owned(), current_hash));
        proof {
            assert(self.branches() =~= before.push((branch_name@, current_hash@)));
            lemma_table_push(before, branch_name@, current_hash@);
            assert forall|i: int| 0 <= i < self.branches().len() implies is_hash_text(
                (#[trigger] self.branches()[i]).1,
            ) && is_branch_name(self.branches()[i].0) by {
                if i < before.len() {
                    assert(self.branches()[i] == before[i]);
                }
            }
            if self.head().len() > 0 {
                let k = key_index(before, self.head());
                assert(self.branches()[k] == before[k]);
            }
            lemma_table_lookup(self.branches(), before.len() as int);
        }
        Ok(())
    }

    /// Points the branch `branch_name` to `new_hash`. Fails, and changes
    /// nothing, if the name is not bound.
    pub fn update_branch_head(&mut self, branch_name: &str, new_hash: crate::hash::Hash) -> (r:
        Result<(), DvcsError>)
        requires
            old(self).wf(),
            new_hash.wf(),
        ensures
            final(self).wf(),
            final(self).objects() == old(self).objects(),
            final(self).object_pairs() == old(self).object_pairs(),
            final(self).head() == old(self).head(),
            final(self).path() == old(self).path(),
            r is Ok <==> has_key(old(self).branches(), branch_name@),
            r is Ok ==> final(self).branches() == old(self).branches().update(
                key_index(old(self).branches(), branch_name@),
                (branch_name@, new_hash@),
            ) && has_key(final(self).branches(), branch_name@) && branch_hash(
                final(self).branches(),
                branch_name@,
            ) == Some(new_hash@),
            r matches Err(e) ==> final(self).branches() == old(self).branches() && e@ == (
            ErrorView::BranchMissing { name: branch_name@ }),
    {
        match self.find_branch(branch_name) {
            None => Err(DvcsError::BranchMissing { name: branch_name.to_owned() }),
            Some(i) => {
                let ghost before = self.branches();
                let gone = self.branches.remove(i);
                self.branches.insert(i, (gone.0, new_hash));
                proof {
                    assert(self.branches() =~= before.update(i as int, (branch_name@, new_hash@)));
                    lemma_table_update(before, i as int, new_hash@);
                    assert forall|j: int| 0 <= j < self.branches().len() implies is_hash_text(
                        (#[trigger] self.branches()[j]).1,
                    ) && is_branch_name(self.branches()[j].0) by {
                        if j != i {
                            assert(self.branches()[j] == before[j]);
                        } else {
                            assert(self.branches()[j].0 == before[j].0);
                        }
                    }
                    if self.head().len() > 0 {
                        let k = key_index(before, self.head());
                        assert(self.branches()[k].0 == before[k].0);
                    }
                    lemma_table_lookup(self.branches(), i as int);
                }
                Ok(())
            },
        }
    }

    /// The name of the first branch, in the order in which the branches were
    /// made, that points to `hash`.
    pub fn get_branch_from_hash(&self, hash: crate::hash::Hash) -> (r: Option<String>)
        requires
            self.wf(),
        ensures
            r is None <==> no_branch_at(self.branches(), hash@),
            r matches Some(name) ==> exists|i: int|
                first_branch_at(self.branches(), hash@, i) && name@ == self.branches()[i].0,
    {
        let mut i: usize = 0;
        while i < self.branches.len()
            invariant
                i <= self.branches.len(),
                self.branches().len() == self.branches.len(),
                forall|j: int| 0 <= j < i ==> (#[trigger] self.branches()[j]).1 != hash@,
            decreases self.branches.len() - i,
        {
            assert(self.branches()[i as int].1 == self.branches@[i as int].1@);
            if self.branches[i].1.same(&hash) {
                assert(first_branch_at(self.branches(), hash@, i as int));
                return Some(self.branches[i].0.clone());
            }
            i += 1;
        }
        None
    }

    /// The names of the branches, in the order in which they were made.
    pub fn get_branches(&self) -> (r: Vec<String>)
        ensures
            r.len() == self.branches().len(),
            forall|i: int| 0 <= i < r.len() ==> (#[trigger] r@[i])@ == self.branches()[i].0,
    {
        let mut out: Vec<String> = Vec::new();
        let mut i: usize = 0;
        while i < self.branches.len()
            invariant
                i <= self.branches.len(),
                out.len() == i,
                self.branches().len() == self.branches.len(),
                forall|j: int| 0 <= j < i ==> (#[trigger] out@[j])@ == self.branches()[j].0,
            decreases self.branches.len() - i,
        {
            assert(self.branches()[i as int].0 == self.branches@[i as int].0@);
            out.push(self.branches[i].0.clone());
            i += 1;
        }
        out
    }

    /// The hash that the branch `branch_name` points to.
    pub fn get_hash_from_branch(&self, branch_name: &str) -> (r: Result<
        crate::hash::Hash,
        DvcsError,
    >)
        requires
            self.wf(),
        ensures
            r is Ok <==> has_key(self.branches(), branch_name@),
            r matches Ok(h) ==> h.wf() && Some(h@) == branch_hash(self.branches(), branch_name@),
            r matches Err(e) ==> e@ == (ErrorView::BranchMissing { name: branch_name@ }),
    {
        match self.find_branch(branch_name) {
            None => Err(DvcsError::BranchMissing { name: branch_name.to_owned() }),
            Some(i) => {
                assert(self.branches()[i as int].1 == self.branches@[i as int].1@);
                Ok(self.branches[i].1.clone())
            },
        }
    }

    /// The name of the current branch; `None` where the head names none.
    pub fn get_current_head(&self) -> (r: Option<String>)
        requires
            self.wf(),
        ensures
            r is None <==> self.head().len() == 0,
            r matches Some(name) ==> name@ == self.head() && has_key(self.branches(), name@),
    {
        if self.head.as_str().is_empty() {
            None
        } else {
            Some(self.head.clone())
        }
    }

    /// Makes `new_head` the current branch. The empty text makes the head
    /// name no branch. Fails, and changes nothing, if a name is given that
    /// is not bound.
    pub fn update_current_head(&mut self, new_head: &str) -> (r: Result<(), DvcsError>)
        requires
            old(self).wf(),
        ensures
            final(self).wf(),
            final(self).objects() == old(self).objects(),
            final(self).object_pairs() == old(self).object_pairs(),
            final(self).branches() == old(self).branches(),
            final(self).path() == old(self).path(),
            r is Ok <==> new_head@.len() == 0 || has_key(old(self).branches(), new_head@),
            r is Ok ==> final(self).head() == new_head@,
            r matches Err(e) ==> final(self).head() == old(self).head() && e@ == (
            ErrorView::BranchMissing { name: new_head@ }),
    {
        if !new_head.is_empty() && self.find_branch(new_head).is_none() {
            return Err(DvcsError::BranchMissing { name: new_head.to_owned() });
        }
        self.head = new_head.to_owned();
        Ok(())
    }
}

impl Clone for RepositoryInterface {
    fn clone(&self) -> (r: RepositoryInterface)
        ensures
            r.path() == self.path(),
            r.object_pairs() == self.object_pairs(),
            r.objects() == self.objects(),
            r.branches() == self.branches(),
            r.head() == self.head(),
            r.wf() == self.wf(),
    {
        let mut branches: Vec<(String, crate::hash::Hash)> = Vec::new();
        let mut i: usize = 0;
        while i < self.branches.len()
            invariant
                i <= self.branches.len(),
                branches.len() == i,
                forall|j: int| 0 <= j < i ==> (#[trigger] branches@[j]).0@ == self.branches@[j].0@,
                forall|j: int| 0 <= j < i ==> (#[trigger] branches@[j]).1@ == self.branches@[j].1@,
            decreases self.branches.len() - i,
        {
            branches.push((self.branches[i].0.clone(), self.branches[i].1.clone()));
            i += 1;
        }
        let r = RepositoryInterface {
            dir_path: self.dir_path.clone(),
            objects: self.objects.clone(),
            branches,
            head: self.head.clone(),
        };
        assert(r.branches() =~= self.branches());
        r
    }
}

} // verus!
