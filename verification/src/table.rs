//! Mappings from text keys that are kept as sequences of pairs.

use crate::text::same_text;
use vstd::prelude::*;
use vstd::string::*;

verus! {

/// Some pair of `ps` has the key `k`.
pub open spec fn has_key<V>(ps: Seq<(Seq<char>, V)>, k: Seq<char>) -> bool {
    exists|i: int| 0 <= i < ps.len() && (#[trigger] ps[i]).0 == k
}

/// No key occurs twice.
pub open spec fn keys_distinct<V>(ps: Seq<(Seq<char>, V)>) -> bool {
    forall|i: int, j: int| 0 <= i < j < ps.len() ==> (#[trigger] ps[i]).0 != (#[trigger] ps[j]).0
}

/// The place of the key `k` in `ps`.
pub open spec fn key_index<V>(ps: Seq<(Seq<char>, V)>, k: Seq<char>) -> int {
    choose|i: int| 0 <= i < ps.len() && (#[trigger] ps[i]).0 == k
}

/// The mapping that a sequence of pairs with distinct keys stands for.
pub open spec fn table_map<V>(ps: Seq<(Seq<char>, V)>) -> Map<Seq<char>, V> {
    Map::new(|k: Seq<char>| has_key(ps, k), |k: Seq<char>| ps[key_index(ps, k)].1)
}

/// Each key leads to the value it is paired with.
pub proof fn lemma_table_lookup<V>(ps: Seq<(Seq<char>, V)>, i: int)
    requires
        keys_distinct(ps),
        0 <= i < ps.len(),
    ensures
        table_map(ps).contains_key(ps[i].0),
        table_map(ps)[ps[i].0] == ps[i].1,
        key_index(ps, ps[i].0) == i,
{
    assert(has_key(ps, ps[i].0));
    let j = key_index(ps, ps[i].0);
    if j < i {
        assert(ps[j].0 != ps[i].0);
    } else if i < j {
        assert(ps[i].0 != ps[j].0);
    }
}

/// The mapping of a sequence has finitely many keys.
pub proof fn lemma_table_finite<V>(ps: Seq<(Seq<char>, V)>)
    ensures
        table_map(ps).dom().finite(),
        table_map(ps).dom().len() <= ps.len(),
    decreases ps.len(),
{
    if ps.len() == 0 {
        assert(table_map(ps).dom() =~= Set::<Seq<char>>::empty());
    } else {
        let front = ps.drop_last();
        lemma_table_finite(front);
        let d = table_map(front).dom().insert(ps.last().0);
        assert forall|k: Seq<char>| table_map(ps).dom().contains(k) <==> d.contains(k) by {
            if has_key(ps, k) {
                let i = key_index(ps, k);
                if i < ps.len() - 1 {
                    assert(front[i] == ps[i]);
                }
            }
            if has_key(front, k) {
                let i = key_index(front, k);
                assert(ps[i] == front[i]);
            }
            if k == ps.last().0 {
                assert(ps[ps.len() - 1].0 == k);
            }
        }
        assert(table_map(ps).dom() =~= d);
    }
}

/// Adding a pair with a new key adds one binding.
pub proof fn lemma_table_push<V>(ps: Seq<(Seq<char>, V)>, k: Seq<char>, v: V)
    requires
        keys_distinct(ps),
        !has_key(ps, k),
    ensures
        keys_distinct(ps.push((k, v))),
        table_map(ps.push((k, v))) == table_map(ps).insert(k, v),
{
    let t = ps.push((k, v));
    assert forall|i: int, j: int| 0 <= i < j < t.len() implies (#[trigger] t[i]).0 != (
    #[trigger] t[j]).0 by {
        if j < ps.len() {
            assert(t[i] == ps[i] && t[j] == ps[j]);
        } else {
            assert(t[i] == ps[i]);
        }
    }
    assert forall|q: Seq<char>| table_map(t).contains_key(q) <==> table_map(ps).insert(
        k,
        v,
    ).contains_key(q) by {
        if has_key(t, q) {
            let i = key_index(t, q);
            if i < ps.len() {
                assert(ps[i] == t[i]);
            }
        }
        if has_key(ps, q) {
            let i = key_index(ps, q);
            assert(t[i] == ps[i]);
        }
        if q == k {
            assert(t[ps.len() as int].0 == k);
        }
    }
    assert forall|q: Seq<char>| table_map(t).contains_key(q) implies table_map(t)[q]
        == table_map(ps).insert(k, v)[q] by {
        let i = key_index(t, q);
        lemma_table_lookup(t, i);
        if i < ps.len() {
            assert(t[i] == ps[i]);
            lemma_table_lookup(ps, i);
        }
    }
    assert(table_map(t) =~= table_map(ps).insert(k, v));
}

/// Replacing the value of one pair rebinds its key.
pub proof fn lemma_table_update<V>(ps: Seq<(Seq<char>, V)>, n: int, v: V)
    requires
        keys_distinct(ps),
        0 <= n < ps.len(),
    ensures
        keys_distinct(ps.update(n, (ps[n].0, v))),
        table_map(ps.update(n, (ps[n].0, v))) == table_map(ps).insert(ps[n].0, v),
{
    let k = ps[n].0;
    let t = ps.update(n, (k, v));
    assert forall|i: int, j: int| 0 <= i < j < t.len() implies (#[trigger] t[i]).0 != (
    #[trigger] t[j]).0 by {
        assert(t[i].0 == ps[i].0 && t[j].0 == ps[j].0);
    }
    assert forall|q: Seq<char>| table_map(t).contains_key(q) <==> table_map(ps).insert(
        k,
        v,
    ).contains_key(q) by {
        if has_key(t, q) {
            let i = key_index(t, q);
            assert(ps[i].0 == q);
        }
        if has_key(ps, q) {
            let i = key_index(ps, q);
            assert(t[i].0 == q);
        }
        if q == k {
            assert(t[n].0 == k);
        }
    }
    assert forall|q: Seq<char>| table_map(t).contains_key(q) implies table_map(t)[q]
        == table_map(ps).insert(k, v)[q] by {
        let i = key_index(t, q);
        lemma_table_lookup(t, i);
        if i != n {
            assert(t[i] == ps[i]);
            lemma_table_lookup(ps, i);
            lemma_table_lookup(ps, n);
        }
    }
    assert(table_map(t) =~= table_map(ps).insert(k, v));
}

/// Removing a pair removes its binding.
pub proof fn lemma_table_remove<V>(ps: Seq<(Seq<char>, V)>, n: int)
    requires
        keys_distinct(ps),
        0 <= n < ps.len(),
    ensures
        keys_distinct(ps.remove(n)),
        table_map(ps.remove(n)) == table_map(ps).remove(ps[n].0),
{
    let k = ps[n].0;
    let t = ps.remove(n);
    assert forall|i: int, j: int| 0 <= i < j < t.len() implies (#[trigger] t[i]).0 != (
    #[trigger] t[j]).0 by {
        let a = if i < n { i } else { i + 1 };
        let b = if j < n { j } else { j + 1 };
        assert(t[i] == ps[a] && t[j] == ps[b]);
    }
    assert forall|q: Seq<char>| table_map(t).contains_key(q) <==> table_map(ps).remove(
        k,
    ).contains_key(q) by {
        if has_key(t, q) {
            let i = key_index(t, q);
            let a = if i < n { i } else { i + 1 };
            assert(t[i] == ps[a]);
            assert(ps[a].0 == q);
            if a < n {
                assert(ps[a].0 != ps[n].0);
            } else {
                assert(ps[n].0 != ps[a].0);
            }
        }
        if has_key(ps, q) && q != k {
            let i = key_index(ps, q);
            let a = if i < n { i } else { i - 1 };
            assert(t[a] == ps[i]);
            assert(t[a].0 == q);
        }
    }
    assert forall|q: Seq<char>| table_map(t).contains_key(q) implies table_map(t)[q]
        == table_map(ps).remove(k)[q] by {
        let i = key_index(t, q);
        lemma_table_lookup(t, i);
        let a = if i < n { i } else { i + 1 };
        assert(t[i] == ps[a]);
        lemma_table_lookup(ps, a);
    }
    assert(table_map(t) =~= table_map(ps).remove(k));
}

/// The pairs of texts and byte sequences that a vector of entries holds.
pub open spec fn byte_pairs(v: Seq<(String, Vec<u8>)>) -> Seq<(Seq<char>, Seq<u8>)> {
    Seq::new(v.len(), |i: int| (v[i].0@, v[i].1@))
}

/// A mapping from text keys to byte sequences, kept in the order in which the
/// keys were first bound.
#[derive(Debug, PartialEq, Eq)]
pub struct ByteMap {
    entries: Vec<(String, Vec<u8>)>,
}

impl View for ByteMap {
    type V = Map<Seq<char>, Seq<u8>>;

    open spec fn view(&self) -> Map<Seq<char>, Seq<u8>> {
        table_map(self.pairs())
    }
}

impl ByteMap {
    /// The bindings in the order in which they are kept.
    pub closed spec fn pairs(&self) -> Seq<(Seq<char>, Seq<u8>)> {
        byte_pairs(self.entries@)
    }

    /// No key is bound twice.
    pub open spec fn wf(&self) -> bool {
        keys_distinct(self.pairs())
    }

    /// The empty mapping.
    pub fn new() -> (m: ByteMap)
        ensures
            m.wf(),
            m.pairs() == Seq::<(Seq<char>, Seq<u8>)>::empty(),
            m@ == Map::<Seq<char>, Seq<u8>>::empty(),
    {
        let m = ByteMap { entries: Vec::new() };
        assert(m.pairs() =~= Seq::<(Seq<char>, Seq<u8>)>::empty());
        assert(m@ =~= Map::<Seq<char>, Seq<u8>>::empty());
        m
    }

    /// Number of bindings.
    pub fn len(&self) -> (n: usize)
        ensures
            n == self.pairs().len(),
    {
        self.entries.len()
    }

    /// Where `key` is bound, if it is.
    fn find(&self, key: &str) -> (r: Option<usize>)
        requires
            self.wf(),
        ensures
            r is Some <==> self@.contains_key(key@),
            r matches Some(i) ==> i < self.pairs().len() && self.pairs()[i as int].0 == key@
                && self@[key@] == self.pairs()[i as int].1,
    {
        let mut i: usize = 0;
        while i < self.entries.len()
            invariant
                self.wf(),
                i <= self.entries.len(),
                self.pairs().len() == self.entries.len(),
                forall|j: int| 0 <= j < i ==> (#[trigger] self.pairs()[j]).0 != key@,
            decreases self.entries.len() - i,
        {
            assert(self.pairs()[i as int].0 == self.entries@[i as int].0@);
            if same_text(self.entries[i].0.as_str(), key) {
                proof {
                    lemma_table_lookup(self.pairs(), i as int);
                }
                return Some(i);
            }
            i += 1;
        }
        None
    }

    /// Whether `key` is bound.
    pub fn contains(&self, key: &str) -> (r: bool)
        requires
            self.wf(),
        ensures
            r == self@.contains_key(key@),
    {
        self.find(key).is_some()
    }

    /// The bytes that `key` is bound to, if it is bound.
    pub fn get(&self, key: &str) -> (r: Option<&Vec<u8>>)
        requires
            self.wf(),
        ensures
            r is Some <==> self@.contains_key(key@),
            r matches Some(d) ==> d@ == self@[key@],
    {
        match self.find(key) {
            Some(i) => {
                assert(self.pairs()[i as int].1 == self.entries@[i as int].1@);
                Some(&self.entries[i].1)
            },
            None => None,
        }
    }

    /// Binds `key` to `data` unless it is bound already: an existing binding
    /// is left as it is. Says whether the binding was added.
    pub fn insert_absent(&mut self, key: &str, data: Vec<u8>) -> (added: bool)
        requires
            old(self).wf(),
        ensures
            final(self).wf(),
            added == !old(self)@.contains_key(key@),
            final(self).pairs() == if added {
                old(self).pairs().push((key@, data@))
            } else {
                old(self).pairs()
            },
            final(self)@ == if added {
                old(self)@.insert(key@, data@)
            } else {
                old(self)@
            },
    {
        if self.contains(key) {
            false
        } else {
            let ghost before = self.pairs();
            self.entries.push((key.to_owned(), data));
            proof {
                assert(self.pairs() =~= before.push((key@, data@)));
                lemma_table_push(before, key@, data@);
            }
            true
        }
    }

    /// Binds `key` to `data`, whether or not it was bound.
    pub fn set(&mut self, key: &str, data: Vec<u8>)
        requires
            old(self).wf(),
        ensures
            final(self).wf(),
            final(self)@ == old(self)@.insert(key@, data@),
    {
        let ghost before = self.pairs();
        match self.find(key) {
            Some(i) => {
                let gone = self.entries.remove(i);
                let ghost mid = self.pairs();
                proof {
                    assert(mid =~= before.remove(i as int));
                    lemma_table_remove(before, i as int);
                }
                self.entries.push((key.to_owned(), data));
                proof {
                    assert(self.pairs() =~= mid.push((key@, data@)));
                    lemma_table_push(mid, key@, data@);
                    assert(self@ =~= table_map(before).insert(key@, data@));
                }
            },
            None => {
                self.entries.push((key.to_owned(), data));
                proof {
                    assert(self.pairs() =~= before.push((key@, data@)));
                    lemma_table_push(before, key@, data@);
                }
            },
        }
    }

    /// Unbinds `key` and hands back its bytes, if it was bound.
    pub fn remove(&mut self, key: &str) -> (r: Option<Vec<u8>>)
        requires
            old(self).wf(),
        ensures
            final(self).wf(),
            final(self)@ == old(self)@.remove(key@),
            r is Some <==> old(self)@.contains_key(key@),
            r matches Some(d) ==> d@ == old(self)@[key@],
    {
        let ghost before = self.pairs();
        match self.find(key) {
            Some(i) => {
                let gone = self.entries.remove(i);
                proof {
                    assert(self.pairs() =~= before.remove(i as int));
                    lemma_table_remove(before, i as int);
                    assert(gone.1@ == before[i as int].1);
                }
                Some(gone.1)
            },
            None => {
                assert(self@.remove(key@) =~= self@);
                None
            },
        }
    }

    /// The keys, in the order in which they were first bound.
    pub fn keys(&self) -> (r: Vec<String>)
        ensures
            r.len() == self.pairs().len(),
            forall|i: int| 0 <= i < r.len() ==> (#[trigger] r@[i])@ == self.pairs()[i].0,
    {
        let mut out: Vec<String> = Vec::new();
        let mut i: usize = 0;
        while i < self.entries.len()
            invariant
                i <= self.entries.len(),
                out.len() == i,
                self.pairs().len() == self.entries.len(),
                forall|j: int| 0 <= j < i ==> (#[trigger] out@[j])@ == self.pairs()[j].0,
            decreases self.entries.len() - i,
        {
            assert(self.pairs()[i as int].0 == self.entries@[i as int].0@);
            out.push(self.entries[i].0.clone());
            i += 1;
        }
        out
    }
}

impl Clone for ByteMap {
    fn clone(&self) -> (r: ByteMap)
        ensures
            r.pairs() == self.pairs(),
    {
        let mut out: Vec<(String, Vec<u8>)> = Vec::new();
        let mut i: usize = 0;
        while i < self.entries.len()
            invariant
                i <= self.entries.len(),
                out.len() == i,
                forall|j: int| 0 <= j < i ==> (#[trigger] out@[j]).0@ == self.entries@[j].0@,
                forall|j: int| 0 <= j < i ==> (#[trigger] out@[j]).1@ == self.entries@[j].1@,
            decreases self.entries.len() - i,
        {
            out.push((self.entries[i].0.clone(), self.entries[i].1.clone()));
            i += 1;
        }
        let r = ByteMap { entries: out };
        assert(r.pairs() =~= self.pairs());
        r
    }
}

} // verus!
