//! A map from `(group, unit)` keys to records, with unique keys: the buffer
//! the coalescing mailbox keeps between deliveries.

use vstd::prelude::*;

use crate::dataflow::{Group, Record, RecordView, Unit, Update, UpdateView};

verus! {

/// The key a buffered entry is filed under.
pub open spec fn entry_key(e: (Group, Unit, Record<Update>)) -> (Seq<char>, Seq<char>) {
    (e.0@, e.1@)
}

/// No two entries share a `(group, unit)` key.
pub open spec fn rec_keys_unique(s: Seq<(Group, Unit, Record<Update>)>) -> bool {
    forall|i: int, j: int| 0 <= i < j < s.len() ==> entry_key(s[i]) != entry_key(s[j])
}

/// The mathematical map an entry sequence denotes: later entries win.
pub open spec fn rec_entries_map(s: Seq<(Group, Unit, Record<Update>)>) -> Map<
    (Seq<char>, Seq<char>),
    RecordView<UpdateView>,
>
    decreases s.len(),
{
    if s.len() == 0 {
        Map::empty()
    } else {
        rec_entries_map(s.drop_last()).insert(entry_key(s.last()), s.last().2@)
    }
}

pub proof fn lemma_rec_entries_map_domain(s: Seq<(Group, Unit, Record<Update>)>, k: (
    Seq<char>,
    Seq<char>,
))
    ensures
        rec_entries_map(s).contains_key(k) <==> exists|i: int|
            0 <= i < s.len() && entry_key(s[i]) == k,
    decreases s.len(),
{
    if s.len() > 0 {
        lemma_rec_entries_map_domain(s.drop_last(), k);
        if entry_key(s.last()) == k {
            assert(entry_key(s[s.len() - 1]) == k);
        } else if rec_entries_map(s).contains_key(k) {
            let i = choose|i: int|
                0 <= i < s.drop_last().len() && entry_key(s.drop_last()[i]) == k;
            assert(entry_key(s[i]) == k);
        } else if exists|i: int| 0 <= i < s.len() && entry_key(s[i]) == k {
            let i = choose|i: int| 0 <= i < s.len() && entry_key(s[i]) == k;
            assert(entry_key(s.drop_last()[i]) == k);
        }
    }
}

pub proof fn lemma_rec_entries_map_index(s: Seq<(Group, Unit, Record<Update>)>, i: int)
    requires
        rec_keys_unique(s),
        0 <= i < s.len(),
    ensures
        rec_entries_map(s).contains_key(entry_key(s[i])),
        rec_entries_map(s)[entry_key(s[i])] == s[i].2@,
    decreases s.len(),
{
    if i < s.len() - 1 {
        assert(rec_keys_unique(s.drop_last()));
        lemma_rec_entries_map_index(s.drop_last(), i);
        assert(entry_key(s[i]) != entry_key(s.last()));
    }
}

pub proof fn lemma_rec_entries_map_update(
    s: Seq<(Group, Unit, Record<Update>)>,
    i: int,
    r: Record<Update>,
)
    requires
        rec_keys_unique(s),
        0 <= i < s.len(),
    ensures
        rec_keys_unique(s.update(i, (s[i].0, s[i].1, r))),
        rec_entries_map(s.update(i, (s[i].0, s[i].1, r))) =~= rec_entries_map(s).insert(
            entry_key(s[i]),
            r@,
        ),
    decreases s.len(),
{
    let t = s.update(i, (s[i].0, s[i].1, r));
    assert(forall|j: int| 0 <= j < s.len() ==> entry_key(t[j]) == entry_key(s[j]));
    if i == s.len() - 1 {
        assert(t.drop_last() =~= s.drop_last());
    } else {
        assert(rec_keys_unique(s.drop_last()));
        lemma_rec_entries_map_update(s.drop_last(), i, r);
        assert(t.drop_last() =~= s.drop_last().update(i, (s[i].0, s[i].1, r)));
        assert(t.last() == s.last());
        assert(entry_key(s[i]) != entry_key(s.last()));
    }
}

/// The coalescing buffer: at most one record per `(group, unit)` key.
pub struct KeyedRecords {
    entries: Vec<(Group, Unit, Record<Update>)>,
}

impl KeyedRecords {
    pub closed spec fn kv(&self) -> Seq<(Group, Unit, Record<Update>)> {
        self.entries@
    }

    pub open spec fn wf(&self) -> bool {
        rec_keys_unique(self.kv())
    }

    /// The per-key contents, over views.
    pub open spec fn m(&self) -> Map<(Seq<char>, Seq<char>), RecordView<UpdateView>> {
        rec_entries_map(self.kv())
    }

    pub proof fn lemma_kv_index(&self, i: int)
        requires
            self.wf(),
            0 <= i < self.kv().len(),
        ensures
            self.m().contains_key(entry_key(self.kv()[i])),
            self.m()[entry_key(self.kv()[i])] == self.kv()[i].2@,
    {
        lemma_rec_entries_map_index(self.kv(), i);
    }

    pub fn new() -> (r: Self)
        ensures
            r.wf(),
            r.m() =~= Map::<(Seq<char>, Seq<char>), RecordView<UpdateView>>::empty(),
            r.kv().len() == 0,
    {
        KeyedRecords { entries: Vec::new() }
    }

    pub fn len(&self) -> (n: usize)
        ensures
            n == self.kv().len(),
    {
        self.entries.len()
    }

    pub fn at(&self, i: usize) -> (r: &(Group, Unit, Record<Update>))
        requires
            i < self.kv().len(),
        ensures
            *r == self.kv()[i as int],
    {
        &self.entries[i]
    }

    fn index_of(&self, group: &Group, unit: &Unit) -> (r: Option<usize>)
        requires
            self.wf(),
        ensures
            match r {
                Some(i) => i < self.kv().len() && entry_key(self.kv()[i as int]) == (group@, unit@),
                None => !self.m().contains_key((group@, unit@)),
            },
    {
        let n = self.entries.len();
        for i in 0..n
            invariant
                n == self.kv().len(),
                self.wf(),
                forall|j: int| 0 <= j < i ==> entry_key(#[trigger] self.kv()[j]) != (group@, unit@),
        {
            let e = &self.entries[i];
            if e.0 == *group && e.1 == *unit {
                return Some(i);
            }
        }
        proof {
            lemma_rec_entries_map_domain(self.kv(), (group@, unit@));
        }
        None
    }

    /// File `rec` under `(group, unit)`: a later write wins over an earlier
    /// one for the same key.
    pub fn put(&mut self, group: Group, unit: Unit, rec: Record<Update>)
        requires
            old(self).wf(),
        ensures
            final(self).wf(),
            final(self).m() =~= old(self).m().insert((group@, unit@), rec@),
            final(self).kv().len() <= old(self).kv().len() + 1,
            final(self).kv().len() >= old(self).kv().len(),
            final(self).kv().len() >= 1,
    {
        match self.index_of(&group, &unit) {
            Some(i) => {
                proof {
                    lemma_rec_entries_map_update(self.kv(), i as int, rec);
                }
                let e = &mut self.entries[i];
                e.2 = rec;
                assert(self.kv() =~= old(self).kv().update(
                    i as int,
                    (old(self).kv()[i as int].0, old(self).kv()[i as int].1, rec),
                ));
                assert(entry_key(old(self).kv()[i as int]) == (group@, unit@));
            },
            None => {
                self.entries.push((group, unit, rec));
                proof {
                    assert(self.kv().drop_last() =~= old(self).kv());
                    assert(forall|j: int| 0 <= j < old(self).kv().len()
                        ==> entry_key(#[trigger] self.kv()[j]) == entry_key(old(self).kv()[j]));
                    lemma_rec_entries_map_domain(old(self).kv(), (group@, unit@));
                }
            },
        }
    }

    /// Hand the buffered entries out, oldest key first.
    pub fn into_entries(self) -> (r: Vec<(Group, Unit, Record<Update>)>)
        ensures
            r@ == self.kv(),
    {
        self.entries
    }
}

} // verus!
