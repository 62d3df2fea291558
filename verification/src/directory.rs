//! Trees: the mapping from path to blob reference, kept in ascending order of
//! path, and its hash.

use crate::hash::{hash_of_text, is_hash_text, DVCSHash};
use crate::text::{
    lemma_text_lt_irreflexive, lemma_text_lt_total, lemma_text_lt_transitive, same_text, text_lt,
    text_precedes,
};
use vstd::prelude::*;
use vstd::string::*;

verus! {

/// Paths come in strictly ascending order, so no path occurs twice.
pub open spec fn sorted_by_path(s: Seq<(Seq<char>, Seq<char>)>) -> bool {
    forall|i: int, j: int| 0 <= i < j < s.len() ==> text_lt(#[trigger] s[i].0, #[trigger] s[j].0)
}

/// Some pair of `s` has the path `p`.
pub open spec fn has_path(s: Seq<(Seq<char>, Seq<char>)>, p: Seq<char>) -> bool {
    exists|i: int| 0 <= i < s.len() && (#[trigger] s[i]).0 == p
}

/// The mapping from path to content hash that a sequence of pairs stands for.
pub open spec fn pairs_map(s: Seq<(Seq<char>, Seq<char>)>) -> Map<Seq<char>, Seq<char>> {
    Map::new(
        |p: Seq<char>| has_path(s, p),
        |p: Seq<char>| s[choose|i: int| 0 <= i < s.len() && (#[trigger] s[i]).0 == p].1,
    )
}

/// Every pair of path and content hash, each path followed by its hash, joined
/// into one text in the order of the sequence.
pub open spec fn pairs_text(s: Seq<(Seq<char>, Seq<char>)>) -> Seq<char>
    decreases s.len(),
{
    if s.len() == 0 {
        Seq::empty()
    } else {
        pairs_text(s.drop_last()) + s.last().0 + s.last().1
    }
}

/// Every content hash in `s` is canonical hash text.
pub open spec fn hashes_valid(s: Seq<(Seq<char>, Seq<char>)>) -> bool {
    forall|i: int| 0 <= i < s.len() ==> is_hash_text((#[trigger] s[i]).1)
}

/// In a sorted sequence each path leads to the hash it is paired with.
pub proof fn lemma_pairs_lookup(s: Seq<(Seq<char>, Seq<char>)>, i: int)
    requires
        sorted_by_path(s),
        0 <= i < s.len(),
    ensures
        pairs_map(s).contains_key(s[i].0),
        pairs_map(s)[s[i].0] == s[i].1,
{
    let p = s[i].0;
    assert(has_path(s, p));
    let j = choose|j: int| 0 <= j < s.len() && (#[trigger] s[j]).0 == p;
    lemma_text_lt_irreflexive(p);
    if j < i {
        assert(text_lt(s[j].0, s[i].0));
    } else if i < j {
        assert(text_lt(s[i].0, s[j].0));
    }
}

/// A path that falls strictly between two neighbours of a sorted sequence, or
/// after its last pair, is not in it.
pub proof fn lemma_pairs_absent(s: Seq<(Seq<char>, Seq<char>)>, p: Seq<char>, k: int)
    requires
        sorted_by_path(s),
        0 <= k <= s.len(),
        forall|i: int| 0 <= i < k ==> text_lt((#[trigger] s[i]).0, p),
        k == s.len() || text_lt(p, s[k].0),
    ensures
        !has_path(s, p),
{
    lemma_text_lt_irreflexive(p);
    if has_path(s, p) {
        let i = choose|i: int| 0 <= i < s.len() && (#[trigger] s[i]).0 == p;
        if i < k {
            assert(text_lt(s[i].0, p));
        } else if i > k {
            assert(text_lt(s[k].0, s[i].0));
            lemma_text_lt_transitive(p, s[k].0, s[i].0);
        }
    }
}

/// Inserting a new path at its place keeps the order and adds one binding.
pub proof fn lemma_pairs_insert(
    s: Seq<(Seq<char>, Seq<char>)>,
    k: int,
    p: Seq<char>,
    b: Seq<char>,
)
    requires
        sorted_by_path(s),
        0 <= k <= s.len(),
        forall|i: int| 0 <= i < k ==> text_lt((#[trigger] s[i]).0, p),
        k == s.len() || text_lt(p, s[k].0),
    ensures
        sorted_by_path(s.insert(k, (p, b))),
        pairs_map(s.insert(k, (p, b))) == pairs_map(s).insert(p, b),
{
    let t = s.insert(k, (p, b));
    assert forall|i: int, j: int| 0 <= i < j < t.len() implies text_lt(
        #[trigger] t[i].0,
        #[trigger] t[j].0,
    ) by {
        if j < k {
            assert(t[i] == s[i] && t[j] == s[j]);
        } else if j == k {
            assert(t[i] == s[i]);
        } else if i < k {
            assert(t[i] == s[i] && t[j] == s[j - 1]);
            if i < j - 1 {
            } else {
            }
        } else if i == k {
            assert(t[j] == s[j - 1]);
            if j - 1 > k {
                assert(text_lt(s[k].0, s[j - 1].0));
                lemma_text_lt_transitive(p, s[k].0, s[j - 1].0);
            }
        } else {
            assert(t[i] == s[i - 1] && t[j] == s[j - 1]);
        }
    }
    let m1 = pairs_map(t);
    let m2 = pairs_map(s).insert(p, b);
    assert forall|q: Seq<char>| m1.contains_key(q) <==> m2.contains_key(q) by {
        if has_path(t, q) {
            let i = choose|i: int| 0 <= i < t.len() && (#[trigger] t[i]).0 == q;
            if i < k {
                assert(s[i].0 == q);
            } else if i > k {
                assert(s[i - 1].0 == q);
            }
        }
        if has_path(s, q) {
            let i = choose|i: int| 0 <= i < s.len() && (#[trigger] s[i]).0 == q;
            if i < k {
                assert(t[i].0 == q);
            } else {
                assert(t[i + 1].0 == q);
            }
        }
        if q == p {
            assert(t[k].0 == q);
        }
    }
    assert forall|q: Seq<char>| m1.contains_key(q) implies m1[q] == m2[q] by {
        let i = choose|i: int| 0 <= i < t.len() && (#[trigger] t[i]).0 == q;
        lemma_pairs_lookup(t, i);
        if i < k {
            assert(t[i] == s[i]);
            lemma_pairs_lookup(s, i);
            lemma_text_lt_irreflexive(p);
        } else if i > k {
            assert(t[i] == s[i - 1]);
            lemma_pairs_lookup(s, i - 1);
            lemma_text_lt_irreflexive(p);
            if i - 1 > k {
                assert(text_lt(s[k].0, s[i - 1].0));
                lemma_text_lt_transitive(p, s[k].0, s[i - 1].0);
            }
        } else {
            assert(t[k] == (p, b));
        }
    }
    assert(m1 =~= m2);
}

/// Removing a pair keeps the order and removes its binding.
pub proof fn lemma_pairs_remove(s: Seq<(Seq<char>, Seq<char>)>, k: int)
    requires
        sorted_by_path(s),
        0 <= k < s.len(),
    ensures
        sorted_by_path(s.remove(k)),
        pairs_map(s.remove(k)) == pairs_map(s).remove(s[k].0),
{
    let t = s.remove(k);
    let p = s[k].0;
    assert forall|i: int, j: int| 0 <= i < j < t.len() implies text_lt(
        #[trigger] t[i].0,
        #[trigger] t[j].0,
    ) by {
        let a = if i < k { i } else { i + 1 };
        let c = if j < k { j } else { j + 1 };
        assert(t[i] == s[a] && t[j] == s[c]);
    }
    let m1 = pairs_map(t);
    let m2 = pairs_map(s).remove(p);
    lemma_text_lt_irreflexive(p);
    assert forall|q: Seq<char>| m1.contains_key(q) <==> m2.contains_key(q) by {
        if has_path(t, q) {
            let i = choose|i: int| 0 <= i < t.len() && (#[trigger] t[i]).0 == q;
            let a = if i < k { i } else { i + 1 };
            assert(t[i] == s[a]);
            assert(s[a].0 == q);
            if a < k {
                assert(text_lt(s[a].0, s[k].0));
            } else {
                assert(text_lt(s[k].0, s[a].0));
            }
        }
        if has_path(s, q) && q != p {
            let i = choose|i: int| 0 <= i < s.len() && (#[trigger] s[i]).0 == q;
            let a = if i < k { i } else { i - 1 };
            assert(t[a] == s[i]);
            assert(t[a].0 == q);
        }
    }
    assert forall|q: Seq<char>| m1.contains_key(q) implies m1[q] == m2[q] by {
        let i = choose|i: int| 0 <= i < t.len() && (#[trigger] t[i]).0 == q;
        lemma_pairs_lookup(t, i);
        let a = if i < k { i } else { i + 1 };
        assert(t[i] == s[a]);
        lemma_pairs_lookup(s, a);
    }
    assert(m1 =~= m2);
}

/// A mapping has one sorted sequence of pairs only: two sorted sequences that
/// stand for the same mapping are the same sequence.
pub proof fn lemma_pairs_unique(s1: Seq<(Seq<char>, Seq<char>)>, s2: Seq<(Seq<char>, Seq<char>)>)
    requires
        sorted_by_path(s1),
        sorted_by_path(s2),
        pairs_map(s1) == pairs_map(s2),
    ensures
        s1 == s2,
    decreases s1.len(),
{
    if s1.len() == 0 {
        if s2.len() > 0 {
            lemma_pairs_lookup(s2, 0);
            assert(has_path(s1, s2[0].0));
        }
        assert(s1 =~= s2);
    } else {
        let n1 = s1.len() - 1;
        lemma_pairs_lookup(s1, n1);
        let pa = s1[n1].0;
        assert(has_path(s2, pa));
        let j = choose|j: int| 0 <= j < s2.len() && (#[trigger] s2[j]).0 == pa;
        let n2 = s2.len() - 1;
        lemma_pairs_lookup(s2, n2);
        let pb = s2[n2].0;
        assert(has_path(s1, pb));
        let i = choose|i: int| 0 <= i < s1.len() && (#[trigger] s1[i]).0 == pb;
        lemma_text_lt_irreflexive(pa);
        if j < n2 {
            assert(text_lt(s2[j].0, s2[n2].0));
            if i < n1 {
                assert(text_lt(s1[i].0, s1[n1].0));
                lemma_text_lt_transitive(pa, pb, pa);
            }
        }
        lemma_pairs_lookup(s2, j);
        assert(s1[n1] == s2[n2]);
        lemma_pairs_remove(s1, n1);
        lemma_pairs_remove(s2, n2);
        assert(s1.remove(n1) =~= s1.drop_last());
        assert(s2.remove(n2) =~= s2.drop_last());
        lemma_pairs_unique(s1.drop_last(), s2.drop_last());
        assert(s1 =~= s1.drop_last().push(s1[n1]));
        assert(s2 =~= s2.drop_last().push(s2[n2]));
    }
}

/// The reference by which a directory names the blob that holds a file's
/// content: the content hash alone.
#[derive(Debug, PartialEq, Eq)]
pub struct BlobRef {
    content_hash: crate::hash::Hash,
}

impl View for BlobRef {
    type V = Seq<char>;

    closed spec fn view(&self) -> Seq<char> {
        self.content_hash@
    }
}

impl Clone for BlobRef {
    fn clone(&self) -> (r: BlobRef)
        ensures
            r@ == self@,
    {
        BlobRef { content_hash: self.content_hash.clone() }
    }
}

impl BlobRef {
    /// The referenced hash is canonical hash text.
    pub open spec fn wf(&self) -> bool {
        is_hash_text(self@)
    }

    /// A reference to the blob with the given content hash.
    pub fn new(content_hash: crate::hash::Hash) -> (r: BlobRef)
        ensures
            r@ == content_hash@,
    {
        BlobRef { content_hash }
    }

    /// The hash of the blob that is referred to.
    pub fn get_content_hash(&self) -> (h: &crate::hash::Hash)
        ensures
            h@ == self@,
    {
        &self.content_hash
    }

    /// Points the reference at another blob.
    pub fn update_content_hash(&mut self, hash: crate::hash::Hash)
        ensures
            final(self)@ == hash@,
    {
        self.content_hash = hash;
    }
}

/// The pairs of texts that a vector of directory entries holds.
pub open spec fn pairs_of(v: Seq<(String, BlobRef)>) -> Seq<(Seq<char>, Seq<char>)> {
    Seq::new(v.len(), |i: int| (v[i].0@, v[i].1@))
}

/// A tree: a mapping from relative path to blob reference, kept in ascending
/// order of path.
#[derive(Debug, PartialEq, Eq)]
pub struct Directory {
    files: Vec<(String, BlobRef)>,
}

impl View for Directory {
    type V = Map<Seq<char>, Seq<char>>;

    open spec fn view(&self) -> Map<Seq<char>, Seq<char>> {
        pairs_map(self.entries())
    }
}

impl Directory {
    /// The pairs of path and content hash, in the order in which they are
    /// kept and hashed.
    pub closed spec fn entries(&self) -> Seq<(Seq<char>, Seq<char>)> {
        pairs_of(self.files@)
    }

    /// Paths ascend strictly and every hash is canonical.
    pub open spec fn wf(&self) -> bool {
        &&& sorted_by_path(self.entries())
        &&& hashes_valid(self.entries())
    }

    /// The empty directory.
    pub fn new() -> (d: Directory)
        ensures
            d.wf(),
            d.entries() == Seq::<(Seq<char>, Seq<char>)>::empty(),
            d@ == Map::<Seq<char>, Seq<char>>::empty(),
    {
        let d = Directory { files: Vec::new() };
        assert(d.entries() =~= Seq::<(Seq<char>, Seq<char>)>::empty());
        assert(d@ =~= Map::<Seq<char>, Seq<char>>::empty());
        d
    }

    /// Number of paths in the directory.
    pub fn len(&self) -> (n: usize)
        ensures
            n == self.entries().len(),
    {
        self.files.len()
    }

    /// Where `path` is, or where it would have to be put.
    fn position(&self, path: &str) -> (r: (usize, bool))
        requires
            self.wf(),
        ensures
            r.0 <= self.entries().len(),
            forall|i: int| 0 <= i < r.0 ==> text_lt((#[trigger] self.entries()[i]).0, path@),
            r.1 ==> r.0 < self.entries().len() && self.entries()[r.0 as int].0 == path@,
            !r.1 ==> r.0 == self.entries().len() || text_lt(path@, self.entries()[r.0 as int].0),
            r.1 == self@.contains_key(path@),
    {
        let mut i: usize = 0;
        while i < self.files.len()
            invariant
                self.wf(),
                i <= self.files.len(),
                self.entries().len() == self.files.len(),
                forall|j: int| 0 <= j < i ==> text_lt((#[trigger] self.entries()[j]).0, path@),
            decreases self.files.len() - i,
        {
            let here = self.files[i].0.as_str();
            assert(here@ == self.entries()[i as int].0);
            if same_text(here, path) {
                proof {
                    lemma_pairs_lookup(self.entries(), i as int);
                }
                return (i, true);
            }
            if text_precedes(path, here) {
                proof {
                    lemma_pairs_absent(self.entries(), path@, i as int);
                }
                return (i, false);
            }
            proof {
                lemma_text_lt_total(here@, path@);
            }
            i += 1;
        }
        proof {
            lemma_pairs_absent(self.entries(), path@, i as int);
        }
        (i, false)
    }

    /// Whether the directory has an entry for `path`.
    pub fn contains_file_ref(&self, path: &str) -> (r: bool)
        requires
            self.wf(),
        ensures
            r == self@.contains_key(path@),
    {
        self.position(path).1
    }

    /// The blob reference of `path`, if the directory has one.
    pub fn get_file_ref(&self, path: &str) -> (r: Option<&BlobRef>)
        requires
            self.wf(),
        ensures
            r is Some <==> self@.contains_key(path@),
            r matches Some(b) ==> b@ == self@[path@] && b.wf(),
    {
        let (i, found) = self.position(path);
        if found {
            proof {
                lemma_pairs_lookup(self.entries(), i as int);
            }
            Some(&self.files[i].1)
        } else {
            None
        }
    }

    /// Adds an entry for `path` unless the directory has one: an existing
    /// entry is kept as it is.
    pub fn insert_file_ref(&mut self, path: &str, file_ref: BlobRef)
        requires
            old(self).wf(),
            file_ref.wf(),
        ensures
            final(self).wf(),
            final(self)@ == if old(self)@.contains_key(path@) {
                old(self)@
            } else {
                old(self)@.insert(path@, file_ref@)
            },
    {
        let (i, found) = self.position(path);
        if !found {
            let ghost before = self.entries();
            self.files.insert(i, (path.to_owned(), file_ref));
            proof {
                assert(self.entries() =~= before.insert(i as int, (path@, file_ref@)));
                lemma_pairs_insert(before, i as int, path@, file_ref@);
                assert forall|j: int| 0 <= j < self.entries().len() implies is_hash_text(
                    (#[trigger] self.entries()[j]).1,
                ) by {
                    if j < i {
                        assert(self.entries()[j] == before[j]);
                    } else if j > i {
                        assert(self.entries()[j] == before[j - 1]);
                    }
                }
            }
        }
    }

    /// Binds `path` to `file_ref`, replacing the entry if there is one.
    pub fn upsert_file_ref(&mut self, path: &str, file_ref: BlobRef)
        requires
            old(self).wf(),
            file_ref.wf(),
        ensures
            final(self).wf(),
            final(self)@ == old(self)@.insert(path@, file_ref@),
    {
        let _ = self.remove_file_ref(path);
        self.insert_file_ref(path, file_ref);
        assert(self@ =~= old(self)@.insert(path@, file_ref@));
    }

    /// Removes the entry for `path` and hands it back, if there is one.
    pub fn remove_file_ref(&mut self, path: &str) -> (r: Option<(String, BlobRef)>)
        requires
            old(self).wf(),
        ensures
            final(self).wf(),
            final(self)@ == old(self)@.remove(path@),
            r is Some <==> old(self)@.contains_key(path@),
            r matches Some(e) ==> e.0@ == path@ && e.1@ == old(self)@[path@],
    {
        let (i, found) = self.position(path);
        if found {
            let ghost before = self.entries();
            proof {
                lemma_pairs_lookup(before, i as int);
            }
            let gone = self.files.remove(i);
            proof {
                assert(self.entries() =~= before.remove(i as int));
                lemma_pairs_remove(before, i as int);
                assert forall|j: int| 0 <= j < self.entries().len() implies is_hash_text(
                    (#[trigger] self.entries()[j]).1,
                ) by {
                    if j < i {
                        assert(self.entries()[j] == before[j]);
                    } else {
                        assert(self.entries()[j] == before[j + 1]);
                    }
                }
            }
            Some(gone)
        } else {
            assert(self@.remove(path@) =~= self@);
            None
        }
    }

    /// Points the entry for `path` at the blob with hash `hash`. `None`, and
    /// no change, if the directory has no entry for `path`.
    pub fn modify_file_ref(&mut self, path: &str, hash: crate::hash::Hash) -> (r: Option<()>)
        requires
            old(self).wf(),
            hash.wf(),
        ensures
            final(self).wf(),
            r is Some <==> old(self)@.contains_key(path@),
            final(self)@ == if old(self)@.contains_key(path@) {
                old(self)@.insert(path@, hash@)
            } else {
                old(self)@
            },
    {
        if self.contains_file_ref(path) {
            self.upsert_file_ref(path, BlobRef::new(hash));
            Some(())
        } else {
            None
        }
    }

    /// Every entry, as a pair of path and blob reference, in ascending order
    /// of path.
    pub fn get_key_value_pairs(&self) -> (r: Vec<(String, BlobRef)>)
        ensures
            pairs_of(r@) == self.entries(),
    {
        let mut out: Vec<(String, BlobRef)> = Vec::new();
        let mut i: usize = 0;
        while i < self.files.len()
            invariant
                i <= self.files.len(),
                out.len() == i,
                forall|j: int| 0 <= j < i ==> (#[trigger] out@[j]).0@ == self.files@[j].0@,
                forall|j: int| 0 <= j < i ==> (#[trigger] out@[j]).1@ == self.files@[j].1@,
            decreases self.files.len() - i,
        {
            out.push((self.files[i].0.clone(), self.files[i].1.clone()));
            i += 1;
        }
        assert(pairs_of(out@) =~= self.entries());
        out
    }

    /// The text that is hashed to address the directory.
    pub open spec fn hashed_text(&self) -> Seq<char> {
        pairs_text(self.entries())
    }
}

impl Clone for Directory {
    fn clone(&self) -> (r: Directory)
        ensures
            r.entries() == self.entries(),
    {
        Directory { files: self.get_key_value_pairs() }
    }
}

impl DVCSHash for Directory {
    open spec fn hashable(&self) -> bool {
        self.wf()
    }

    open spec fn hash_spec(&self) -> Seq<char> {
        hash_of_text(self.hashed_text())
    }

    /// The hash of every path and content hash, joined in ascending order of
    /// path.
    fn get_hash(&self) -> (h: crate::hash::Hash) {
        let mut text = String::new();
        let mut i: usize = 0;
        while i < self.files.len()
            invariant
                i <= self.files.len(),
                self.entries().len() == self.files.len(),
                text@ == pairs_text(self.entries().take(i as int)),
            decreases self.files.len() - i,
        {
            let ghost s = self.entries().take(i + 1);
            assert(s.drop_last() =~= self.entries().take(i as int));
            assert(s.last() == self.entries()[i as int]);
            text.append(self.files[i].0.as_str());
            text.append(self.files[i].1.get_content_hash().as_str());
            i += 1;
        }
        assert(self.entries().take(i as int) =~= self.entries());
        crate::hash::Hash::new(text.as_str())
    }
}

/// Two directories that hold the same pairs of path and content hash have the
/// same hash, in whatever order the pairs were put in.
pub proof fn lemma_directory_hash_stable(d1: Directory, d2: Directory)
    requires
        d1.wf(),
        d2.wf(),
        d1@ == d2@,
    ensures
        d1.entries() == d2.entries(),
        d1.hash_spec() == d2.hash_spec(),
{
    lemma_pairs_unique(d1.entries(), d2.entries());
}


/// The entries of the directory that the mapping `m` stands for: its pairs
/// in ascending order of path.
pub open spec fn entries_of(m: Map<Seq<char>, Seq<char>>) -> Seq<(Seq<char>, Seq<char>)> {
    choose|s: Seq<(Seq<char>, Seq<char>)>| sorted_by_path(s) && pairs_map(s) == m
}

/// The hash that addresses the directory with the mapping `m`.
pub open spec fn tree_hash(m: Map<Seq<char>, Seq<char>>) -> Seq<char> {
    hash_of_text(pairs_text(entries_of(m)))
}

/// The entries and the hash of a directory are those of its mapping.
pub proof fn lemma_entries_of(d: Directory)
    requires
        d.wf(),
    ensures
        entries_of(d@) == d.entries(),
        tree_hash(d@) == d.hash_spec(),
{
    let s = entries_of(d@);
    assert(sorted_by_path(d.entries()) && pairs_map(d.entries()) == d@);
    lemma_pairs_unique(s, d.entries());
}

} // verus!
