//! An association map keyed by numeric unit ids, with unique keys: the
//! in-memory mirror the ingest actor keeps per stored unit.

use vstd::prelude::*;

verus! {

/// No two entries share a key.
pub open spec fn ids_unique<V>(s: Seq<(u32, V)>) -> bool {
    forall|i: int, j: int| 0 <= i < j < s.len() ==> s[i].0 != s[j].0
}

/// The mathematical map an entry sequence denotes: later entries win.
pub open spec fn id_entries_map<V>(s: Seq<(u32, V)>) -> Map<u32, V>
    decreases s.len(),
{
    if s.len() == 0 {
        Map::empty()
    } else {
        id_entries_map(s.drop_last()).insert(s.last().0, s.last().1)
    }
}

pub proof fn lemma_id_entries_map_domain<V>(s: Seq<(u32, V)>, k: u32)
    ensures
        id_entries_map(s).contains_key(k) <==> exists|i: int| 0 <= i < s.len() && s[i].0 == k,
    decreases s.len(),
{
    if s.len() > 0 {
        lemma_id_entries_map_domain(s.drop_last(), k);
        if s.last().0 == k {
            assert(s[s.len() - 1].0 == k);
        } else if id_entries_map(s).contains_key(k) {
            let i = choose|i: int| 0 <= i < s.drop_last().len() && s.drop_last()[i].0 == k;
            assert(s[i].0 == k);
        } else if exists|i: int| 0 <= i < s.len() && s[i].0 == k {
            let i = choose|i: int| 0 <= i < s.len() && s[i].0 == k;
            assert(s.drop_last()[i].0 == k);
        }
    }
}

pub proof fn lemma_id_entries_map_index<V>(s: Seq<(u32, V)>, i: int)
    requires
        ids_unique(s),
        0 <= i < s.len(),
    ensures
        id_entries_map(s).contains_key(s[i].0),
        id_entries_map(s)[s[i].0] == s[i].1,
    decreases s.len(),
{
    if i < s.len() - 1 {
        assert(ids_unique(s.drop_last()));
        lemma_id_entries_map_index(s.drop_last(), i);
        assert(s[i].0 != s.last().0);
    }
}

pub proof fn lemma_id_entries_map_update<V>(s: Seq<(u32, V)>, i: int, v: V)
    requires
        ids_unique(s),
        0 <= i < s.len(),
    ensures
        ids_unique(s.update(i, (s[i].0, v))),
        id_entries_map(s.update(i, (s[i].0, v))) =~= id_entries_map(s).insert(s[i].0, v),
    decreases s.len(),
{
    let t = s.update(i, (s[i].0, v));
    assert(forall|j: int| 0 <= j < s.len() ==> t[j].0 == s[j].0);
    if i == s.len() - 1 {
        assert(t.drop_last() =~= s.drop_last());
    } else {
        assert(ids_unique(s.drop_last()));
        lemma_id_entries_map_update(s.drop_last(), i, v);
        assert(t.drop_last() =~= s.drop_last().update(i, (s[i].0, v)));
        assert(t.last() == s.last());
        assert(s[i].0 != s.last().0);
    }
}

/// An association map from `u32` ids to values with unique keys.
pub struct IdMap<V> {
    entries: Vec<(u32, V)>,
}

impl<V> IdMap<V> {
    pub closed spec fn kv(&self) -> Seq<(u32, V)> {
        self.entries@
    }

    pub open spec fn wf(&self) -> bool {
        ids_unique(self.kv())
    }

    pub open spec fn m(&self) -> Map<u32, V> {
        id_entries_map(self.kv())
    }

    pub open spec fn contains(&self, k: u32) -> bool {
        self.m().contains_key(k)
    }

    pub proof fn lemma_kv_index(&self, i: int)
        requires
            self.wf(),
            0 <= i < self.kv().len(),
        ensures
            self.contains(self.kv()[i].0),
            self.m()[self.kv()[i].0] == self.kv()[i].1,
    {
        lemma_id_entries_map_index(self.kv(), i);
    }

    pub proof fn lemma_contains_index(&self, k: u32)
        requires
            self.contains(k),
        ensures
            exists|i: int| 0 <= i < self.kv().len() && self.kv()[i].0 == k,
    {
        lemma_id_entries_map_domain(self.kv(), k);
    }

    pub fn new() -> (r: Self)
        ensures
            r.wf(),
            r.m() =~= Map::<u32, V>::empty(),
            r.kv().len() == 0,
    {
        IdMap { entries: Vec::new() }
    }

    pub fn len(&self) -> (n: usize)
        ensures
            n == self.kv().len(),
    {
        self.entries.len()
    }

    pub fn index_of(&self, k: u32) -> (r: Option<usize>)
        requires
            self.wf(),
        ensures
            match r {
                Some(i) => i < self.kv().len() && self.kv()[i as int].0 == k && self.contains(k)
                    && self.m()[k] == self.kv()[i as int].1,
                None => !self.contains(k),
            },
    {
        let n = self.entries.len();
        for i in 0..n
            invariant
                n == self.kv().len(),
                self.wf(),
                forall|j: int| 0 <= j < i ==> (#[trigger] self.kv()[j]).0 != k,
        {
            if self.entries[i].0 == k {
                proof {
                    self.lemma_kv_index(i as int);
                }
                return Some(i);
            }
        }
        proof {
            lemma_id_entries_map_domain(self.kv(), k);
        }
        None
    }

    pub fn key_at(&self, i: usize) -> (r: u32)
        requires
            i < self.kv().len(),
        ensures
            r == self.kv()[i as int].0,
    {
        self.entries[i].0
    }

    pub fn val_at(&self, i: usize) -> (r: &V)
        requires
            i < self.kv().len(),
        ensures
            *r == self.kv()[i as int].1,
    {
        &self.entries[i].1
    }

    pub fn get(&self, k: u32) -> (r: Option<&V>)
        requires
            self.wf(),
        ensures
            match r {
                Some(v) => self.contains(k) && *v == self.m()[k],
                None => !self.contains(k),
            },
    {
        match self.index_of(k) {
            Some(i) => Some(&self.entries[i].1),
            None => None,
        }
    }

    /// Borrow the value at position `i` for mutation; the key stays.
    pub fn val_mut(&mut self, i: usize) -> (v: &mut V)
        requires
            old(self).wf(),
            i < old(self).kv().len(),
        ensures
            *v == old(self).kv()[i as int].1,
            final(self).kv() == old(self).kv().update(
                i as int,
                (old(self).kv()[i as int].0, *final(v)),
            ),
            final(self).wf(),
    {
        proof {
            assert forall|w: V|
                ids_unique(
                    self.kv().update(i as int, (self.kv()[i as int].0, w)),
                ) by {
                    let t = self.kv().update(i as int, (self.kv()[i as int].0, w));
                    assert(forall|j: int| 0 <= j < self.kv().len() ==> t[j].0 == self.kv()[j].0);
                };
        }
        let e = &mut self.entries[i];
        &mut e.1
    }

    /// Replace the value at position `i`, keeping its key.
    pub fn set_val_at(&mut self, i: usize, v: V)
        requires
            old(self).wf(),
            i < old(self).kv().len(),
        ensures
            final(self).wf(),
            final(self).kv() == old(self).kv().update(i as int, (old(self).kv()[i as int].0, v)),
            final(self).m() =~= old(self).m().insert(old(self).kv()[i as int].0, v),
            final(self).kv().len() == old(self).kv().len(),
    {
        proof {
            lemma_id_entries_map_update(self.kv(), i as int, v);
        }
        let ghost k = self.kv()[i as int].0;
        let e = &mut self.entries[i];
        e.1 = v;
        assert(self.kv() =~= old(self).kv().update(i as int, (k, v)));
    }

    /// Add an entry whose key is not yet present.
    pub fn push_new(&mut self, k: u32, v: V)
        requires
            old(self).wf(),
            !old(self).contains(k),
        ensures
            final(self).wf(),
            final(self).kv() == old(self).kv().push((k, v)),
            final(self).m() =~= old(self).m().insert(k, v),
    {
        proof {
            lemma_id_entries_map_domain(self.kv(), k);
        }
        self.entries.push((k, v));
        proof {
            assert(self.kv().drop_last() =~= old(self).kv());
        }
    }
}

} // verus!
