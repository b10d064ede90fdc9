//! Association containers keyed by strings.
//!
//! The actors keep their topology (users, workspaces, fan-out indexes) in
//! maps keyed by names. Here those maps are association vectors with unique
//! keys, so that every lookup, insertion and removal carries a contract over
//! a mathematical `Map` or over membership.

use vstd::prelude::*;

verus! {

/// No two entries share a key.
pub open spec fn keys_unique<V>(s: Seq<(String, V)>) -> bool {
    forall|i: int, j: int| 0 <= i < j < s.len() ==> s[i].0@ != s[j].0@
}

/// The mathematical map an entry sequence denotes: later entries win.
pub open spec fn entries_map<V>(s: Seq<(String, V)>) -> Map<Seq<char>, V>
    decreases s.len(),
{
    if s.len() == 0 {
        Map::empty()
    } else {
        entries_map(s.drop_last()).insert(s.last().0@, s.last().1)
    }
}

pub proof fn lemma_entries_map_domain<V>(s: Seq<(String, V)>, k: Seq<char>)
    ensures
        entries_map(s).contains_key(k) <==> exists|i: int| 0 <= i < s.len() && s[i].0@ == k,
    decreases s.len(),
{
    if s.len() > 0 {
        lemma_entries_map_domain(s.drop_last(), k);
        if s.last().0@ == k {
            assert(s[s.len() - 1].0@ == k);
        } else if entries_map(s).contains_key(k) {
            let i = choose|i: int| 0 <= i < s.drop_last().len() && s.drop_last()[i].0@ == k;
            assert(s[i].0@ == k);
        } else if exists|i: int| 0 <= i < s.len() && s[i].0@ == k {
            let i = choose|i: int| 0 <= i < s.len() && s[i].0@ == k;
            assert(s.drop_last()[i].0@ == k);
        }
    }
}

pub proof fn lemma_entries_map_index<V>(s: Seq<(String, V)>, i: int)
    requires
        keys_unique(s),
        0 <= i < s.len(),
    ensures
        entries_map(s).contains_key(s[i].0@),
        entries_map(s)[s[i].0@] == s[i].1,
    decreases s.len(),
{
    if i < s.len() - 1 {
        assert(keys_unique(s.drop_last()));
        lemma_entries_map_index(s.drop_last(), i);
        assert(s[i].0@ != s.last().0@);
    }
}

pub proof fn lemma_entries_map_update<V>(s: Seq<(String, V)>, i: int, v: V)
    requires
        keys_unique(s),
        0 <= i < s.len(),
    ensures
        keys_unique(s.update(i, (s[i].0, v))),
        entries_map(s.update(i, (s[i].0, v))) =~= entries_map(s).insert(s[i].0@, v),
    decreases s.len(),
{
    let t = s.update(i, (s[i].0, v));
    assert(forall|j: int| 0 <= j < s.len() ==> t[j].0@ == s[j].0@);
    if i == s.len() - 1 {
        assert(t.drop_last() =~= s.drop_last());
    } else {
        assert(keys_unique(s.drop_last()));
        lemma_entries_map_update(s.drop_last(), i, v);
        assert(t.drop_last() =~= s.drop_last().update(i, (s[i].0, v)));
        assert(t.last() == s.last());
        assert(s[i].0@ != s.last().0@);
    }
}

pub proof fn lemma_entries_map_remove<V>(s: Seq<(String, V)>, i: int)
    requires
        keys_unique(s),
        0 <= i < s.len(),
    ensures
        keys_unique(s.remove(i)),
        entries_map(s.remove(i)) =~= entries_map(s).remove(s[i].0@),
    decreases s.len(),
{
    let t = s.remove(i);
    assert(forall|j: int| 0 <= j < i ==> t[j] == s[j]);
    assert(forall|j: int| i <= j < t.len() ==> t[j] == s[j + 1]);
    if i == s.len() - 1 {
        assert(t =~= s.drop_last());
        lemma_entries_map_domain(s.drop_last(), s[i].0@);
        assert(forall|j: int| 0 <= j < s.len() - 1 ==> s[j].0@ != s[i].0@);
        assert(!entries_map(s.drop_last()).contains_key(s[i].0@));
        assert(entries_map(s).remove(s[i].0@) =~= entries_map(s.drop_last()));
    } else {
        assert(keys_unique(s.drop_last()));
        lemma_entries_map_remove(s.drop_last(), i);
        assert(t.drop_last() =~= s.drop_last().remove(i));
        assert(t.last() == s.last());
        assert(s[i].0@ != s.last().0@);
    }
}

/// An association map from `String` keys to values with unique keys; the
/// verified stand-in for a hash map keyed by names.
pub struct StrMap<V> {
    entries: Vec<(String, V)>,
}

impl<V> StrMap<V> {
    /// The entry sequence, for iteration contracts.
    pub closed spec fn kv(&self) -> Seq<(String, V)> {
        self.entries@
    }

    /// Well-formed: keys are unique.
    pub open spec fn wf(&self) -> bool {
        keys_unique(self.kv())
    }

    /// The map the entries denote.
    pub open spec fn m(&self) -> Map<Seq<char>, V> {
        entries_map(self.kv())
    }

    pub open spec fn contains(&self, k: Seq<char>) -> bool {
        self.m().contains_key(k)
    }

    pub proof fn lemma_kv_index(&self, i: int)
        requires
            self.wf(),
            0 <= i < self.kv().len(),
        ensures
            self.contains(self.kv()[i].0@),
            self.m()[self.kv()[i].0@] == self.kv()[i].1,
    {
        lemma_entries_map_index(self.kv(), i);
    }

    pub proof fn lemma_contains_index(&self, k: Seq<char>)
        requires
            self.contains(k),
        ensures
            exists|i: int| 0 <= i < self.kv().len() && self.kv()[i].0@ == k,
    {
        lemma_entries_map_domain(self.kv(), k);
    }

    pub fn new() -> (r: Self)
        ensures
            r.wf(),
            r.m() =~= Map::<Seq<char>, V>::empty(),
            r.kv().len() == 0,
    {
        StrMap { entries: Vec::new() }
    }

    pub fn len(&self) -> (n: usize)
        ensures
            n == self.kv().len(),
    {
        self.entries.len()
    }

    pub fn is_empty(&self) -> (b: bool)
        ensures
            b == (self.kv().len() == 0),
            b == self.m().is_empty(),
    {
        proof {
            if self.kv().len() > 0 {
                lemma_entries_map_domain(self.kv(), self.kv()[0].0@);
            } else {
                assert(self.m() =~= Map::<Seq<char>, V>::empty());
            }
        }
        self.entries.len() == 0
    }

    /// The position of the entry with key `k`, if present.
    pub fn index_of(&self, k: &String) -> (r: Option<usize>)
        requires
            self.wf(),
        ensures
            match r {
                Some(i) => i < self.kv().len() && self.kv()[i as int].0@ == k@
                    && self.contains(k@) && self.m()[k@] == self.kv()[i as int].1,
                None => !self.contains(k@),
            },
    {
        let n = self.entries.len();
        for i in 0..n
            invariant
                n == self.kv().len(),
                self.wf(),
                forall|j: int| 0 <= j < i ==> self.kv()[j].0@ != k@,
        {
            if self.entries[i].0 == *k {
                proof {
                    self.lemma_kv_index(i as int);
                }
                return Some(i);
            }
        }
        proof {
            lemma_entries_map_domain(self.kv(), k@);
        }
        None
    }

    pub fn contains_key(&self, k: &String) -> (b: bool)
        requires
            self.wf(),
        ensures
            b == self.contains(k@),
    {
        self.index_of(k).is_some()
    }

    pub fn key_at(&self, i: usize) -> (r: &String)
        requires
            i < self.kv().len(),
        ensures
            *r == self.kv()[i as int].0,
    {
        &self.entries[i].0
    }

    pub fn val_at(&self, i: usize) -> (r: &V)
        requires
            i < self.kv().len(),
        ensures
            *r == self.kv()[i as int].1,
    {
        &self.entries[i].1
    }

    pub fn get(&self, k: &String) -> (r: Option<&V>)
        requires
            self.wf(),
        ensures
            match r {
                Some(v) => self.contains(k@) && *v == self.m()[k@],
                None => !self.contains(k@),
            },
    {
        match self.index_of(k) {
            Some(i) => Some(&self.entries[i].1),
            None => None,
        }
    }

    /// Borrow the value at position `i` for mutation; the key stays.
    pub fn val_mut(&mut self, i: usize) -> (v: &mut V)
        requires
            old(self).wf(),
            i < old(self).kv().len(),
        ensures
            *v == old(self).kv()[i as int].1,
            final(self).kv() == old(self).kv().update(
                i as int,
                (old(self).kv()[i as int].0, *final(v)),
            ),
            final(self).wf(),
    {
        proof {
            assert forall|w: V|
                keys_unique(
                    self.kv().update(i as int, (self.kv()[i as int].0, w)),
                ) by {
                    let t = self.kv().update(i as int, (self.kv()[i as int].0, w));
                    assert(forall|j: int| 0 <= j < self.kv().len() ==> t[j].0@ == self.kv()[j].0@);
                };
        }
        let e = &mut self.entries[i];
        &mut e.1
    }

    /// Replace the value at position `i`, keeping its key.
    pub fn set_val_at(&mut self, i: usize, v: V)
        requires
            old(self).wf(),
            i < old(self).kv().len(),
        ensures
            final(self).wf(),
            final(self).kv() == old(self).kv().update(i as int, (old(self).kv()[i as int].0, v)),
            final(self).m() =~= old(self).m().insert(old(self).kv()[i as int].0@, v),
            final(self).kv().len() == old(self).kv().len(),
    {
        proof {
            lemma_entries_map_update(self.kv(), i as int, v);
        }
        let ghost k = self.kv()[i as int].0;
        let e = &mut self.entries[i];
        e.1 = v;
        assert(self.kv() =~= old(self).kv().update(i as int, (k, v)));
    }

    /// Add an entry whose key is not yet present.
    pub fn push_new(&mut self, k: String, v: V)
        requires
            old(self).wf(),
            !old(self).contains(k@),
        ensures
            final(self).wf(),
            final(self).kv() == old(self).kv().push((k, v)),
            final(self).m() =~= old(self).m().insert(k@, v),
    {
        proof {
            lemma_entries_map_domain(self.kv(), k@);
        }
        self.entries.push((k, v));
        proof {
            assert(self.kv().drop_last() =~= old(self).kv());
        }
    }

    /// Remove the entry at position `i` and hand it back.
    pub fn remove_at(&mut self, i: usize) -> (r: (String, V))
        requires
            old(self).wf(),
            i < old(self).kv().len(),
        ensures
            final(self).wf(),
            r == old(self).kv()[i as int],
            final(self).kv() == old(self).kv().remove(i as int),
            final(self).m() =~= old(self).m().remove(r.0@),
    {
        proof {
            lemma_entries_map_remove(self.kv(), i as int);
        }
        self.entries.remove(i)
    }

    /// Remove the entry with key `k`, if present.
    pub fn remove(&mut self, k: &String) -> (r: Option<V>)
        requires
            old(self).wf(),
        ensures
            final(self).wf(),
            final(self).m() =~= old(self).m().remove(k@),
            r.is_some() == old(self).contains(k@),
            r matches Some(v) ==> v == old(self).m()[k@],
            final(self).kv().len() <= old(self).kv().len(),
    {
        match self.index_of(k) {
            Some(i) => {
                let (_, v) = self.remove_at(i);
                Some(v)
            },
            None => {
                assert(self.m() =~= self.m().remove(k@));
                None
            },
        }
    }

    /// Insert `v` under `k`, replacing any previous value.
    pub fn insert(&mut self, k: String, v: V)
        requires
            old(self).wf(),
        ensures
            final(self).wf(),
            final(self).m() =~= old(self).m().insert(k@, v),
            final(self).kv().len() <= old(self).kv().len() + 1,
    {
        match self.index_of(&k) {
            Some(i) => {
                self.set_val_at(i, v);
            },
            None => {
                self.push_new(k, v);
            },
        }
    }
}

/// A set of strings with no repeats; the verified stand-in for a hash set
/// of names. The order of its items is the insertion order.
pub struct StrSet {
    items: Vec<String>,
}

impl StrSet {
    pub closed spec fn seq(&self) -> Seq<String> {
        self.items@
    }

    pub open spec fn wf(&self) -> bool {
        forall|i: int, j: int| 0 <= i < j < self.seq().len() ==> self.seq()[i]@ != self.seq()[j]@
    }

    pub open spec fn has(&self, k: Seq<char>) -> bool {
        exists|i: int| 0 <= i < self.seq().len() && self.seq()[i]@ == k
    }

    pub fn new() -> (r: Self)
        ensures
            r.wf(),
            r.seq().len() == 0,
            forall|k: Seq<char>| !r.has(k),
    {
        StrSet { items: Vec::new() }
    }

    pub fn len(&self) -> (n: usize)
        ensures
            n == self.seq().len(),
    {
        self.items.len()
    }

    pub fn is_empty(&self) -> (b: bool)
        ensures
            b == (self.seq().len() == 0),
    {
        self.items.len() == 0
    }

    pub fn at(&self, i: usize) -> (r: &String)
        requires
            i < self.seq().len(),
        ensures
            *r == self.seq()[i as int],
            self.has(r@),
    {
        &self.items[i]
    }

    pub fn index_of(&self, k: &String) -> (r: Option<usize>)
        ensures
            match r {
                Some(i) => i < self.seq().len() && self.seq()[i as int]@ == k@ && self.has(k@),
                None => !self.has(k@),
            },
    {
        let n = self.items.len();
        for i in 0..n
            invariant
                n == self.seq().len(),
                forall|j: int| 0 <= j < i ==> self.seq()[j]@ != k@,
        {
            if self.items[i] == *k {
                return Some(i);
            }
        }
        None
    }

    pub fn contains(&self, k: &String) -> (b: bool)
        ensures
            b == self.has(k@),
    {
        self.index_of(k).is_some()
    }

    /// Add `k` if it is not yet present.
    pub fn insert(&mut self, k: String)
        requires
            old(self).wf(),
        ensures
            final(self).wf(),
            final(self).has(k@),
            forall|x: Seq<char>| final(self).has(x) <==> old(self).has(x) || x == k@,
            old(self).has(k@) ==> final(self).seq() == old(self).seq(),
            !old(self).has(k@) ==> final(self).seq() == old(self).seq().push(k),
            final(self).seq().len() <= old(self).seq().len() + 1,
    {
        match self.index_of(&k) {
            Some(_) => {
                assert(forall|x: Seq<char>| self.has(x) <==> old(self).has(x) || x == k@);
            },
            None => {
                self.items.push(k);
                proof {
                    assert(forall|j: int| 0 <= j < old(self).seq().len()
                        ==> self.seq()[j] == old(self).seq()[j]);
                    assert(self.seq()[self.seq().len() - 1]@ == k@);
                    assert(forall|x: Seq<char>| old(self).has(x) ==> self.has(x));
                }
            },
        }
    }

    /// Remove `k` if present.
    pub fn remove(&mut self, k: &String)
        requires
            old(self).wf(),
        ensures
            final(self).wf(),
            forall|x: Seq<char>| final(self).has(x) <==> old(self).has(x) && x != k@,
            old(self).has(k@) ==> final(self).seq().len() == old(self).seq().len() - 1,
            !old(self).has(k@) ==> final(self).seq() == old(self).seq(),
            final(self).seq().len() <= old(self).seq().len(),
    {
        match self.index_of(k) {
            Some(i) => {
                let ghost s = self.seq();
                self.items.remove(i);
                proof {
                    assert(forall|j: int| 0 <= j < i ==> self.seq()[j] == s[j]);
                    assert(forall|j: int| i <= j < self.seq().len() ==> self.seq()[j] == s[j + 1]);
                    assert forall|x: Seq<char>| old(self).has(x) && x != k@ implies self.has(x) by {
                        let j = choose|j: int| 0 <= j < s.len() && s[j]@ == x;
                        if j < i {
                            assert(self.seq()[j]@ == x);
                        } else {
                            assert(j != i);
                            assert(self.seq()[j - 1]@ == x);
                        }
                    }
                }
            },
            None => {
                assert(forall|x: Seq<char>| self.has(x) <==> old(self).has(x) && x != k@);
            },
        }
    }
}

} // verus!
