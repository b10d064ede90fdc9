//! The ingest and retention core of the store actor.
//!
//! One writer owns the store. It assigns each unit's record ids in a
//! gap-free ascending sequence, mirrors the newest record and the stored
//! count per unit in memory, flags units that reached their retention
//! ceiling, and trims the oldest records when the flags are resolved.
//! Every SQLite call goes through the trusted wrappers in `sql`; all
//! bookkeeping here is verified against the in-memory mirror.

use vstd::prelude::*;

use crate::config::ConfigServeGroup;
use crate::dataflow::{Data, DataView, Group, Record, RecordView, Unit, Update, UpdateView};
use crate::idmap::IdMap;
use crate::smap::StrMap;
use crate::sql;

verus! {

/// The in-memory mirror of one unit: stored count, retention window and
/// the newest record.
pub struct StateUnit {
    pub count: u64,
    pub count_min: u64,
    pub count_max: u64,
    pub record_last: Option<Record<Update>>,
}

impl StateUnit {
    /// The newest record, as a view.
    pub open spec fn last(&self) -> Option<RecordView<UpdateView>> {
        match self.record_last {
            Some(r) => Some(r@),
            None => None,
        }
    }
}

/// The id the next ingested record of a unit gets: one past the newest,
/// or zero for a unit with no records.
pub open spec fn spec_next_id(last: Option<RecordView<UpdateView>>) -> int {
    match last {
        Some(r) => r.id as int + 1,
        None => 0,
    }
}

/// A count incremented, saturating at the type's ceiling.
pub open spec fn inc_sat(c: u64) -> u64 {
    if c < u64::MAX {
        (c + 1) as u64
    } else {
        c
    }
}

/// How many times `id` occurs in a flag queue.
pub open spec fn count_occ(s: Seq<u32>, id: u32) -> nat
    decreases s.len(),
{
    if s.len() == 0 {
        0
    } else {
        count_occ(s.drop_last(), id) + if s.last() == id {
            1nat
        } else {
            0nat
        }
    }
}

pub proof fn lemma_count_occ_concat(a: Seq<u32>, b: Seq<u32>, id: u32)
    ensures
        count_occ(a + b, id) == count_occ(a, id) + count_occ(b, id),
    decreases b.len(),
{
    if b.len() == 0 {
        assert(a + b =~= a);
    } else {
        lemma_count_occ_concat(a, b.drop_last(), id);
        assert((a + b).drop_last() =~= a + b.drop_last());
        assert((a + b).last() == b.last());
    }
}

pub proof fn lemma_count_occ_skip_step(s: Seq<u32>, i: int, id: u32)
    requires
        0 <= i < s.len(),
    ensures
        count_occ(s.skip(i), id) == count_occ(s.skip(i + 1), id) + if s[i] == id {
            1nat
        } else {
            0nat
        },
{
    assert(s.skip(i) =~= seq![s[i]] + s.skip(i + 1));
    lemma_count_occ_concat(seq![s[i]], s.skip(i + 1), id);
    assert(count_occ(seq![s[i]], id) == if s[i] == id {
        1nat
    } else {
        0nat
    }) by {
        assert(seq![s[i]].len() == 1);
        assert(seq![s[i]].last() == s[i]);
        assert(seq![s[i]].drop_last() =~= Seq::<u32>::empty());
        assert(count_occ(Seq::<u32>::empty(), id) == 0);
    }
}

pub proof fn lemma_count_occ_absent(s: Seq<u32>, id: u32)
    requires
        forall|k: int| 0 <= k < s.len() ==> s[k] != id,
    ensures
        count_occ(s, id) == 0,
    decreases s.len(),
{
    if s.len() > 0 {
        lemma_count_occ_absent(s.drop_last(), id);
    }
}

/// The retention debt rule: as long as trims are positive, a unit's count
/// stays within `count_max - 1` plus what the pending flags will trim.
pub open spec fn retention_ok(st: StateUnit, flags: nat) -> bool {
    st.count_min >= 1 ==> st.count as int <= st.count_max - 1 + flags * st.count_min
}

/// The debt rule holds for every mirrored unit.
pub open spec fn debt_ok(states: Map<u32, StateUnit>, flags: Seq<u32>) -> bool {
    forall|id: u32| states.contains_key(id) ==> retention_ok(
        #[trigger] states[id],
        count_occ(flags, id),
    )
}

/// The ingest and retention state: the name-to-id topology, the per-unit
/// mirror and the queue of retention flags.
pub struct Repo {
    map_group: StrMap<StrMap<u32>>,
    map_state: IdMap<StateUnit>,
    overflowed: Vec<u32>,
}

impl Repo {
    /// The id a `(group, unit)` name pair maps to, if configured.
    pub open spec fn unit_id(&self, g: Seq<char>, u: Seq<char>) -> Option<u32> {
        if self.groups().contains_key(g) && self.groups()[g].m().contains_key(u) {
            Some(self.groups()[g].m()[u])
        } else {
            None
        }
    }

    pub closed spec fn groups(&self) -> Map<Seq<char>, StrMap<u32>> {
        self.map_group.m()
    }

    /// The per-unit mirror.
    pub closed spec fn states(&self) -> Map<u32, StateUnit> {
        self.map_state.m()
    }

    /// The pending retention flags, oldest first.
    pub closed spec fn flags(&self) -> Seq<u32> {
        self.overflowed@
    }

    /// The newest record of a named unit, as a view.
    pub open spec fn last_record(&self, g: Seq<char>, u: Seq<char>) -> Option<
        RecordView<UpdateView>,
    > {
        match self.unit_id(g, u) {
            Some(id) => if self.states().contains_key(id) {
                self.states()[id].last()
            } else {
                None
            },
            None => None,
        }
    }

    pub closed spec fn wf(&self) -> bool {
        &&& self.map_group.wf()
        &&& forall|g: Seq<char>| self.groups().contains_key(g) ==> (#[trigger] self.groups()[g]).wf()
        &&& self.map_state.wf()
        &&& forall|g: Seq<char>, u: Seq<char>|
            self.groups().contains_key(g) && self.groups()[g].m().contains_key(u)
                ==> self.states().contains_key(#[trigger] self.groups()[g].m()[u])
        &&& forall|id: u32| self.states().contains_key(id) ==> (#[trigger] self.states()[id]).count_min
            < self.states()[id].count_max
        &&& debt_ok(self.states(), self.flags())
        &&& forall|i: int| 0 <= i < self.flags().len() ==> self.states().contains_key(
            #[trigger] self.flags()[i],
        )
    }

    /// The name-to-id topology is the same in both states.
    pub open spec fn topo_same(a: &Repo, b: &Repo) -> bool {
        b.groups() == a.groups()
    }
}

/// What a successful single-record ingest does: the record gets the unit's
/// next id and carries the update; the unit's mirror advances to it, the
/// count grows by one, and the unit is flagged when the count reaches its
/// ceiling.
pub open spec fn single_push_ok(
    pre: Repo,
    post: Repo,
    id: u32,
    upd: UpdateView,
    rec: RecordView<UpdateView>,
) -> bool {
    let st = pre.states()[id];
    let st2 = post.states()[id];
    &&& rec.id as int == spec_next_id(st.last())
    &&& rec.val == upd
    &&& post.states().dom() =~= pre.states().dom()
    &&& pre.states().contains_key(id)
    &&& st2.count == inc_sat(st.count)
    &&& st2.count_min == st.count_min
    &&& st2.count_max == st.count_max
    &&& match st2.last() {
        Some(l) => l.id == rec.id && l.val == upd && l.time == rec.time,
        None => false,
    }
    &&& forall|x: u32| x != id && pre.states().contains_key(x) ==> post.states()[x]
        == pre.states()[x]
    &&& post.flags() == if inc_sat(st.count) >= st.count_max {
        pre.flags().push(id)
    } else {
        pre.flags()
    }
}

/// A grouped reply delivers a record for `(g, u)` carrying `upd`.
pub open spec fn bundles_deliver(
    out: Seq<(Group, Vec<(Unit, Record<Update>)>)>,
    g: Seq<char>,
    u: Seq<char>,
    upd: UpdateView,
) -> bool {
    exists|k: int, j: int|
        0 <= k < out.len() && 0 <= j < (#[trigger] out[k]).1@.len() && out[k].0@ == g && (
        #[trigger] out[k].1@[j]).0@ == u && out[k].1@[j].1.val@ == upd
}

/// The grouped ingest's reply delivers a record for `(g, u)` carrying
/// `upd`.
pub open spec fn multi_out_delivers(
    r: Option<(usize, Data<Record<Update>>)>,
    g: Seq<char>,
    u: Seq<char>,
    upd: UpdateView,
) -> bool {
    match r {
        Some(p) => match p.1 {
            Data::Multi { vec } => bundles_deliver(vec@, g, u, upd),
            _ => false,
        },
        None => false,
    }
}

/// The unit's id space ran out: its newest record holds the largest id,
/// so no further record can be ingested for it.
pub open spec fn id_space_exhausted(repo: Repo, g: Seq<char>, u: Seq<char>) -> bool {
    match repo.unit_id(g, u) {
        Some(id) => repo.states().contains_key(id) && spec_next_id(repo.states()[id].last())
            > u64::MAX,
        None => false,
    }
}

/// Everything one ingest signal does, relative to the states around it:
/// the exact single-record postcondition, the grouped shape and its
/// delivery completeness, and an unchanged topology.
pub open spec fn push_rel(
    pre: Repo,
    post: Repo,
    data: Data<Update>,
    r: Option<(usize, Data<Record<Update>>)>,
) -> bool {
    &&& post.wf()
    &&& Repo::topo_same(&pre, &post)
    &&& match data@ {
        DataView::Single { group, unit, update } => match pre.unit_id(group, unit) {
            None => r is None && post.states() == pre.states() && post.flags() == pre.flags(),
            Some(id) => if spec_next_id(pre.states()[id].last()) > u64::MAX {
                r is None && post.states() == pre.states() && post.flags() == pre.flags()
            } else {
                match r {
                    Some(p) => p.0 == 1 && match p.1@ {
                        DataView::Single { group: g2, unit: u2, update: rv } => g2 == group && u2
                            == unit && single_push_ok(pre, post, id, update, rv),
                        _ => false,
                    },
                    None => false,
                }
            },
        },
        DataView::Multi { .. } => match r {
            Some(p) => p.1@ is Multi,
            None => true,
        },
    }
    &&& (data matches Data::Multi { vec } ==> forall|k: int, j: int|
        #![trigger vec@[k].1@[j]]
        0 <= k < vec@.len() && 0 <= j < vec@[k].1@.len() && pre.unit_id(
            vec@[k].0@,
            vec@[k].1@[j].0@,
        ) is Some ==> multi_out_delivers(r, vec@[k].0@, vec@[k].1@[j].0@, vec@[k].1@[j].1@)
            || id_space_exhausted(post, vec@[k].0@, vec@[k].1@[j].0@))
}

/// Monotone ids: two ingests on one unit, one after the other, assign
/// consecutive record ids. (Holds short of the id type's ceiling, where
/// the ingest refuses instead of wrapping.)
pub proof fn lemma_ids_monotone(
    pre: Repo,
    mid: Repo,
    post: Repo,
    id: u32,
    u1: UpdateView,
    u2: UpdateView,
    r1: RecordView<UpdateView>,
    r2: RecordView<UpdateView>,
)
    requires
        pre.states().contains_key(id),
        single_push_ok(pre, mid, id, u1, r1),
        single_push_ok(mid, post, id, u2, r2),
    ensures
        r2.id as int == r1.id as int + 1,
{
    assert(mid.states().contains_key(id));
    assert(spec_next_id(mid.states()[id].last()) == r1.id as int + 1);
}

/// Retention bound: once every retention flag is resolved, every unit with
/// a positive trim size holds fewer than `count_max` records.
pub proof fn lemma_retention_bound(r: &Repo, id: u32)
    requires
        r.wf(),
        r.flags().len() == 0,
        r.states().contains_key(id),
        r.states()[id].count_min >= 1,
    ensures
        (r.states()[id].count as int) < r.states()[id].count_max,
{
    assert(count_occ(r.flags(), id) == 0);
    assert(retention_ok(r.states()[id], 0));
    assert(r.states()[id].count as int <= r.states()[id].count_max - 1 + 0
        * r.states()[id].count_min);
}

/// Retention trim: a flagged unit at or above its ceiling loses exactly
/// `count_min` records in one successful trim.
pub proof fn lemma_retention_trim_exact(count: u64, count_min: u64, count_max: u64)
    requires
        count_min < count_max,
        count >= count_max,
    ensures
        trimmed_count(count, count_min) == count - count_min,
{
}

/// The count after one trim: `count_min` fewer records, never below zero.
pub open spec fn trimmed_count(count: u64, count_min: u64) -> u64 {
    if count >= count_min {
        (count - count_min) as u64
    } else {
        0
    }
}

/// One resolved flag: a successful trim lowers the flagged unit's count by
/// its `count_min`; a failed one changes nothing.
pub open spec fn trim_step(states: Map<u32, StateUnit>, id: u32, ok: bool) -> Map<u32, StateUnit> {
    if ok && states.contains_key(id) {
        states.insert(
            id,
            StateUnit {
                count: trimmed_count(states[id].count, states[id].count_min),
                count_min: states[id].count_min,
                count_max: states[id].count_max,
                record_last: states[id].record_last,
            },
        )
    } else {
        states
    }
}

/// The mirror after a run of flags resolves with the given per-flag
/// outcomes, oldest flag first.
pub open spec fn trim_fold(states: Map<u32, StateUnit>, flags: Seq<u32>, oks: Seq<bool>) -> Map<
    u32,
    StateUnit,
>
    decreases flags.len(),
{
    if flags.len() == 0 {
        states
    } else {
        trim_step(trim_fold(states, flags.drop_last(), oks.drop_last()), flags.last(), oks.last())
    }
}

/// The flags whose trim failed, in order: they stay queued for the next
/// cycle.
pub open spec fn trim_failures(flags: Seq<u32>, oks: Seq<bool>) -> Seq<u32>
    decreases flags.len(),
{
    if flags.len() == 0 {
        Seq::empty()
    } else {
        trim_failures(flags.drop_last(), oks.drop_last()) + if 0 < oks.len() && oks.last() {
            Seq::empty()
        } else {
            seq![flags.last()]
        }
    }
}

pub proof fn lemma_count_occ_push(s: Seq<u32>, x: u32, id: u32)
    ensures
        count_occ(s.push(x), id) == count_occ(s, id) + if x == id {
            1nat
        } else {
            0nat
        },
{
    assert(s.push(x).drop_last() =~= s);
    assert(s.push(x).last() == x);
}

/// Persist one record row: the record's saved mark becomes exactly the
/// insert's outcome; its id, time and update are untouched either way.
fn push_row(conn: &rusqlite::Connection, id_unit: u32, record: &mut Record<Update>) -> (saved:
    bool)
    ensures
        final(record).id == old(record).id,
        final(record).time == old(record).time,
        final(record).val == old(record).val,
        final(record).is_saved == saved,
{
    let ok = {
        let (upd_type, upd_val) = record.val.to_ser();
        sql::sql_push_record(conn, id_unit, record.id, record.time, upd_type, upd_val)
    };
    match ok {
        Ok(()) => {
            record.is_saved = true;
            true
        },
        Err(()) => {
            record.is_saved = false;
            false
        },
    }
}

impl Repo {
    /// Ingest one update for a known unit id: assign the next record id,
    /// persist the row, advance the mirror, and flag the unit when the
    /// count reaches its ceiling. Refuses when the id space is exhausted.
    fn push_for_id(&mut self, conn: &rusqlite::Connection, id: u32, update: Update) -> (r: Option<
        Record<Update>,
    >)
        requires
            old(self).wf(),
            old(self).states().contains_key(id),
        ensures
            final(self).wf(),
            Repo::topo_same(old(self), final(self)),
            spec_next_id(old(self).states()[id].last()) <= u64::MAX ==> match r {
                Some(rec) => single_push_ok(*old(self), *final(self), id, update@, rec@),
                None => false,
            },
            spec_next_id(old(self).states()[id].last()) > u64::MAX ==> r is None && final(self).states() == old(self).states() && final(self).flags() == old(self).flags(),
    {
        let si = match self.map_state.index_of(id) {
            Some(si) => si,
            None => {
                assert(false);
                return None;
            },
        };
        let ghost st0 = self.states()[id];
        let id_record: u64;
        let cm: u64;
        let cx: u64;
        let c0: u64;
        {
            let st = self.map_state.val_at(si);
            cm = st.count_min;
            cx = st.count_max;
            c0 = st.count;
            id_record = match &st.record_last {
                Some(rl) => {
                    if rl.id == u64::MAX {
                        return None;
                    }
                    rl.id + 1
                },
                None => 0,
            };
        }
        let mut record = Record::establish_now(id_record, update);
        let rec_stored = record.clone();
        let newc = if c0 < u64::MAX {
            c0 + 1
        } else {
            c0
        };
        let st2 = StateUnit { count: newc, count_min: cm, count_max: cx, record_last: Some(
            rec_stored,
        ) };
        self.map_state.set_val_at(si, st2);
        proof {
            assert(self.states().dom() =~= old(self).states().dom());
        }
        let ghost flags0 = self.overflowed@;
        if newc >= cx {
            self.overflowed.push(id);
            proof {
                assert forall|x: u32| self.states().contains_key(x) implies retention_ok(
                    self.states()[x],
                    count_occ(self.overflowed@, x),
                ) by {
                    lemma_count_occ_push(flags0, id, x);
                    if x == id {
                        let f = count_occ(flags0, id);
                        if cm >= 1 {
                            assert(st0.count as int <= cx - 1 + f * cm);
                            assert((f + 1) * cm == f * cm + cm) by (nonlinear_arith);
                        }
                    }
                }
            }
        } else {
            proof {
                assert forall|x: u32| self.states().contains_key(x) implies retention_ok(
                    self.states()[x],
                    count_occ(self.overflowed@, x),
                ) by {
                    if x == id {
                        let f = count_occ(flags0, id);
                        if cm >= 1 {
                            assert(st0.count as int <= cx - 1 + f * cm);
                        }
                    }
                }
            }
        }
        let _ = push_row(conn, id, &mut record);
        proof {
            assert(self.groups() == old(self).groups());
            assert forall|g: Seq<char>, u: Seq<char>|
                self.groups().contains_key(g) && self.groups()[g].m().contains_key(u)
                    implies self.states().contains_key(#[trigger] self.groups()[g].m()[u]) by {
                assert(old(self).states().contains_key(old(self).groups()[g].m()[u]));
            };
            assert forall|x: u32| self.states().contains_key(x) implies (
                #[trigger] self.states()[x]).count_min < self.states()[x].count_max by {
                if x != id {
                    assert(old(self).states().contains_key(x));
                }
            };
            assert forall|k: int| 0 <= k < self.flags().len() implies self.states().contains_key(
                #[trigger] self.flags()[k],
            ) by {
                if k < old(self).flags().len() {
                    assert(self.flags()[k] == old(self).flags()[k]);
                    assert(old(self).states().contains_key(old(self).flags()[k]));
                } else {
                    assert(self.flags()[k] == id);
                }
            };
        }
        Some(record)
    }

    /// Ingest a data signal: assign ids, persist, and hand back the
    /// enriched records for broadcast, with how many records were
    /// produced. A signal for unknown units yields nothing.
    pub fn data_push(&mut self, conn: &rusqlite::Connection, data: Data<Update>) -> (r: Option<
        (usize, Data<Record<Update>>),
    >)
        requires
            old(self).wf(),
        ensures
            final(self).wf(),
            Repo::topo_same(old(self), final(self)),
            push_rel(*old(self), *final(self), data, r),
            match data@ {
                DataView::Single { group, unit, update } => match old(self).unit_id(group, unit) {
                    None => r is None && final(self).states() == old(self).states() && final(self).flags() == old(self).flags(),
                    Some(id) => if spec_next_id(old(self).states()[id].last()) > u64::MAX {
                        r is None && final(self).states() == old(self).states() && final(self).flags() == old(self).flags()
                    } else {
                        match r {
                            Some(p) => p.0 == 1 && match p.1@ {
                                DataView::Single { group: g2, unit: u2, update: rv } => g2 == group
                                    && u2 == unit && single_push_ok(
                                    *old(self),
                                    *final(self),
                                    id,
                                    update,
                                    rv,
                                ),
                                _ => false,
                            },
                            None => false,
                        }
                    },
                },
                DataView::Multi { .. } => match r {
                    Some(p) => p.1@ is Multi,
                    None => true,
                },
            },
            data matches Data::Multi { vec } ==> forall|k: int, j: int|
                #![trigger vec@[k].1@[j]]
                0 <= k < vec@.len() && 0 <= j < vec@[k].1@.len() && old(self).unit_id(
                    vec@[k].0@,
                    vec@[k].1@[j].0@,
                ) is Some ==> multi_out_delivers(
                    r,
                    vec@[k].0@,
                    vec@[k].1@[j].0@,
                    vec@[k].1@[j].1@,
                ) || id_space_exhausted(*final(self), vec@[k].0@, vec@[k].1@[j].0@),
    {
        match data {
            Data::Single { group, unit, update } => {
                let id_opt = match self.map_group.get(group.as_name()) {
                    Some(inner) => match inner.get(unit.as_name()) {
                        Some(id) => Some(*id),
                        None => None,
                    },
                    None => None,
                };
                match id_opt {
                    Some(id) => {
                        match self.push_for_id(conn, id, update) {
                            Some(rec) => Some((1, Data::Single { group, unit, update: rec })),
                            None => None,
                        }
                    },
                    None => None,
                }
            },
            Data::Multi { vec } => self.push_multi(conn, vec),
        }
    }

    /// Ingest a grouped batch, unit by unit; units the topology does not
    /// know are dropped. Nothing comes back when no unit was known.
    fn push_multi(&mut self, conn: &rusqlite::Connection, vec: Vec<(Group, Vec<(Unit, Update)>)>)
        -> (r: Option<(usize, Data<Record<Update>>)>)
        requires
            old(self).wf(),
        ensures
            final(self).wf(),
            Repo::topo_same(old(self), final(self)),
            match r {
                Some(p) => p.1@ is Multi,
                None => true,
            },
            forall|k: int, j: int|
                #![trigger vec@[k].1@[j]]
                0 <= k < vec@.len() && 0 <= j < vec@[k].1@.len() && old(self).unit_id(
                    vec@[k].0@,
                    vec@[k].1@[j].0@,
                ) is Some ==> multi_out_delivers(
                    r,
                    vec@[k].0@,
                    vec@[k].1@[j].0@,
                    vec@[k].1@[j].1@,
                ) || id_space_exhausted(*final(self), vec@[k].0@, vec@[k].1@[j].0@),
    {
        let mut out: Vec<(Group, Vec<(Unit, Record<Update>)>)> = Vec::new();
        let mut total: usize = 0;
        let n = vec.len();
        for i in 0..n
            invariant
                n == vec@.len(),
                self.wf(),
                Repo::topo_same(old(self), self),
                forall|k: int, j: int|
                    #![trigger vec@[k].1@[j]]
                    0 <= k < i && 0 <= j < vec@[k].1@.len() && old(self).unit_id(
                        vec@[k].0@,
                        vec@[k].1@[j].0@,
                    ) is Some ==> bundles_deliver(
                        out@,
                        vec@[k].0@,
                        vec@[k].1@[j].0@,
                        vec@[k].1@[j].1@,
                    ) || id_space_exhausted(*self, vec@[k].0@, vec@[k].1@[j].0@),
        {
            let group = &vec[i].0;
            let units = &vec[i].1;
            let mut out_units: Vec<(Unit, Record<Update>)> = Vec::new();
            let m = units.len();
            for kk in 0..m
                invariant
                    n == vec@.len(),
                    i < n,
                    m == units@.len(),
                    *group == vec@[i as int].0,
                    *units == vec@[i as int].1,
                    self.wf(),
                    Repo::topo_same(old(self), self),
                    forall|k: int, j: int|
                        #![trigger vec@[k].1@[j]]
                        0 <= k < i && 0 <= j < vec@[k].1@.len() && old(self).unit_id(
                            vec@[k].0@,
                            vec@[k].1@[j].0@,
                        ) is Some ==> bundles_deliver(
                            out@,
                            vec@[k].0@,
                            vec@[k].1@[j].0@,
                            vec@[k].1@[j].1@,
                        ) || id_space_exhausted(*self, vec@[k].0@, vec@[k].1@[j].0@),
                    forall|j: int|
                        #![trigger units@[j]]
                        0 <= j < kk && old(self).unit_id(vec@[i as int].0@, units@[j].0@) is Some
                            ==> bundles_deliver(
                            out@.push((*group, out_units)),
                            vec@[i as int].0@,
                            units@[j].0@,
                            units@[j].1@,
                        ) || id_space_exhausted(*self, vec@[i as int].0@, units@[j].0@),
            {
                let ghost pre = *self;
                let ghost outu0 = out_units;
                let unit = units[kk].0.clone();
                let update = units[kk].1.clone();
                let id_opt = match self.map_group.get(group.as_name()) {
                    Some(inner) => match inner.get(unit.as_name()) {
                        Some(id) => Some(*id),
                        None => None,
                    },
                    None => None,
                };
                if let Some(id) = id_opt {
                    match self.push_for_id(conn, id, update) {
                        Some(rec) => {
                            out_units.push((unit, rec));
                            total = if total < usize::MAX {
                                total + 1
                            } else {
                                total
                            };
                            proof {
                                assert(out_units@[out_units@.len() - 1].1.val@ == units@[
                                    kk as int].1@);
                                assert(out_units@[out_units@.len() - 1].0@ == units@[
                                    kk as int].0@);
                                let pseudo = out@.push((*group, out_units));
                                assert(pseudo.last() == (*group, out_units));
                                assert(pseudo[pseudo.len() - 1] == (*group, out_units));
                                assert(pseudo[pseudo.len() - 1].1@[out_units@.len() - 1]
                                    == out_units@[out_units@.len() - 1]);
                                assert(bundles_deliver(
                                    pseudo,
                                    vec@[i as int].0@,
                                    units@[kk as int].0@,
                                    units@[kk as int].1@,
                                ));
                            }
                        },
                        None => {
                            proof {
                                assert(id_space_exhausted(*self, vec@[i as int].0@, unit@));
                                assert(id_space_exhausted(
                                    *self,
                                    vec@[i as int].0@,
                                    units@[kk as int].0@,
                                ));
                            }
                        },
                    }
                } else {
                    proof {
                        assert(old(self).unit_id(vec@[i as int].0@, units@[kk as int].0@)
                            is None);
                    }
                }
                proof {
                    let g0 = vec@[i as int].0@;
                    // Settled pairs stay settled: the mirror of an
                    // exhausted unit is untouched by later pushes, and
                    // buffered bundles only grow.
                    assert forall|g2: Seq<char>, u2: Seq<char>|
                        id_space_exhausted(pre, g2, u2) implies id_space_exhausted(
                        *self,
                        g2,
                        u2,
                    ) by {
                        match pre.unit_id(g2, u2) {
                            Some(uid2) => {
                                assert(self.unit_id(g2, u2) == Some(uid2));
                                if self.states()[uid2] != pre.states()[uid2] {
                                    assert(false);
                                }
                            },
                            None => {},
                        }
                    };
                    assert forall|g2: Seq<char>, u2: Seq<char>, upd2: UpdateView|
                        bundles_deliver(out@.push((*group, outu0)), g2, u2, upd2)
                            implies bundles_deliver(out@.push((*group, out_units)), g2, u2, upd2)
                        by {
                        let (k2, j2) = choose|k2: int, j2: int|
                            0 <= k2 < out@.push((*group, outu0)).len() && 0 <= j2 < (
                            #[trigger] out@.push((*group, outu0))[k2]).1@.len() && out@.push(
                                (*group, outu0),
                            )[k2].0@ == g2 && (#[trigger] out@.push((*group, outu0))[k2].1@[j2]).0@
                                == u2 && out@.push((*group, outu0))[k2].1@[j2].1.val@ == upd2;
                        if k2 < out@.len() {
                            assert(out@.push((*group, out_units))[k2] == out@[k2]);
                        } else {
                            assert(out@.push((*group, outu0))[k2].1@ == outu0@);
                            assert(out_units@.len() >= outu0@.len());
                            assert(forall|a: int| 0 <= a < outu0@.len() ==> out_units@[a]
                                == outu0@[a]);
                            assert(out@.push((*group, out_units))[k2].1@[j2] == outu0@[j2]);
                        }
                    };
                    assert forall|k: int, j: int|
                        #![trigger vec@[k].1@[j]]
                        0 <= k < i && 0 <= j < vec@[k].1@.len() && old(self).unit_id(
                            vec@[k].0@,
                            vec@[k].1@[j].0@,
                        ) is Some implies bundles_deliver(
                        out@,
                        vec@[k].0@,
                        vec@[k].1@[j].0@,
                        vec@[k].1@[j].1@,
                    ) || id_space_exhausted(*self, vec@[k].0@, vec@[k].1@[j].0@) by {
                        if id_space_exhausted(pre, vec@[k].0@, vec@[k].1@[j].0@) {
                            assert(id_space_exhausted(*self, vec@[k].0@, vec@[k].1@[j].0@));
                        }
                    };
                    assert forall|j: int|
                        #![trigger units@[j]]
                        0 <= j < kk + 1 && old(self).unit_id(vec@[i as int].0@, units@[j].0@)
                            is Some implies bundles_deliver(
                        out@.push((*group, out_units)),
                        vec@[i as int].0@,
                        units@[j].0@,
                        units@[j].1@,
                    ) || id_space_exhausted(*self, vec@[i as int].0@, units@[j].0@) by {
                        if j < kk {
                            if id_space_exhausted(pre, vec@[i as int].0@, units@[j].0@) {
                                assert(id_space_exhausted(*self, vec@[i as int].0@, units@[
                                    j].0@));
                            }
                        }
                    };
                }
            }
            let ghost out0 = out@;
            if out_units.len() > 0 {
                out.push((group.clone(), out_units));
                proof {
                    assert(out@ =~= out0.push((*group, out_units)));
                }
            }
            proof {
                assert(units@ =~= vec@[i as int].1@);
                assert forall|k: int, j: int|
                    #![trigger vec@[k].1@[j]]
                    0 <= k < i + 1 && 0 <= j < vec@[k].1@.len() && old(self).unit_id(
                        vec@[k].0@,
                        vec@[k].1@[j].0@,
                    ) is Some implies bundles_deliver(
                    out@,
                    vec@[k].0@,
                    vec@[k].1@[j].0@,
                    vec@[k].1@[j].1@,
                ) || id_space_exhausted(*self, vec@[k].0@, vec@[k].1@[j].0@) by {
                    if k < i {
                        if bundles_deliver(out0, vec@[k].0@, vec@[k].1@[j].0@, vec@[k].1@[j].1@) {
                            let (k2, j2) = choose|k2: int, j2: int|
                                0 <= k2 < out0.len() && 0 <= j2 < (#[trigger] out0[k2]).1@.len()
                                    && out0[k2].0@ == vec@[k].0@ && (
                                #[trigger] out0[k2].1@[j2]).0@ == vec@[k].1@[j].0@ && out0[
                                    k2].1@[j2].1.val@ == vec@[k].1@[j].1@;
                            assert(out@[k2] == out0[k2]);
                        }
                    } else {
                        if bundles_deliver(
                            out0.push((*group, out_units)),
                            vec@[k].0@,
                            vec@[k].1@[j].0@,
                            vec@[k].1@[j].1@,
                        ) {
                            let (k2, j2) = choose|k2: int, j2: int|
                                0 <= k2 < out0.push((*group, out_units)).len() && 0 <= j2 < (
                                #[trigger] out0.push((*group, out_units))[k2]).1@.len()
                                    && out0.push((*group, out_units))[k2].0@ == vec@[k].0@ && (
                                #[trigger] out0.push((*group, out_units))[k2].1@[j2]).0@ == vec@[
                                    k].1@[j].0@ && out0.push((*group, out_units))[k2].1@[
                                    j2].1.val@ == vec@[k].1@[j].1@;
                            if k2 < out0.len() {
                                assert(out@[k2] == out0[k2]);
                            } else {
                                assert(out_units@.len() > 0);
                                assert(out@[out@.len() - 1] == (*group, out_units));
                            }
                        }
                    }
                };
            }
        }
        if out.len() == 0 {
            None
        } else {
            Some((total, Data::Multi { vec: out }))
        }
    }

    /// Resolve the pending retention flags: for each, trim the unit's
    /// oldest `count_min` records and lower the mirrored count; a trim the
    /// store refused is queued again for the next cycle.
    pub fn overflow_resolve(&mut self, conn: &rusqlite::Connection)
        requires
            old(self).wf(),
        ensures
            final(self).wf(),
            Repo::topo_same(old(self), final(self)),
            final(self).states().dom() == old(self).states().dom(),
            final(self).flags().len() <= old(self).flags().len(),
            exists|oks: Seq<bool>|
                oks.len() == old(self).flags().len() && final(self).states() == trim_fold(
                    old(self).states(),
                    old(self).flags(),
                    oks,
                ) && final(self).flags() == trim_failures(old(self).flags(), oks),
    {
        let mut drained: Vec<u32> = Vec::new();
        core::mem::swap(&mut drained, &mut self.overflowed);
        let n = drained.len();
        proof {
            assert(self.overflowed@ + drained@.skip(0) =~= drained@);
            assert(self.groups() == old(self).groups());
            assert(self.states() == old(self).states());
            assert forall|g: Seq<char>| self.groups().contains_key(g) implies (
                #[trigger] self.groups()[g]).wf() by {
                assert(old(self).groups()[g].wf());
            };
            assert forall|g: Seq<char>, u: Seq<char>|
                self.groups().contains_key(g) && self.groups()[g].m().contains_key(u)
                    implies self.states().contains_key(#[trigger] self.groups()[g].m()[u]) by {
                assert(old(self).states().contains_key(old(self).groups()[g].m()[u]));
            };
        }
        let ghost mut oks: Seq<bool> = Seq::empty();
        proof {
            assert(drained@ == old(self).flags());
            assert(self.states() =~= trim_fold(old(self).states(), drained@.take(0), oks));
            assert(self.overflowed@ =~= trim_failures(drained@.take(0), oks));
        }
        let mut i: usize = 0;
        while i < n
            invariant
                0 <= i <= n,
                n == drained@.len(),
                drained@ == old(self).flags(),
                oks.len() == i,
                self.states() == trim_fold(old(self).states(), drained@.take(i as int), oks),
                self.overflowed@ == trim_failures(drained@.take(i as int), oks),
                self.map_group.wf(),
                forall|g: Seq<char>| self.groups().contains_key(g) ==> (
                #[trigger] self.groups()[g]).wf(),
                self.map_state.wf(),
                forall|g: Seq<char>, u: Seq<char>|
                    self.groups().contains_key(g) && self.groups()[g].m().contains_key(u)
                        ==> self.states().contains_key(#[trigger] self.groups()[g].m()[u]),
                forall|id: u32| self.states().contains_key(id) ==> (
                #[trigger] self.states()[id]).count_min < self.states()[id].count_max,
                debt_ok(self.states(), self.overflowed@ + drained@.skip(i as int)),
                forall|k: int| 0 <= k < self.overflowed@.len() ==> self.states().contains_key(
                    #[trigger] self.overflowed@[k],
                ),
                forall|k: int| i <= k < n ==> self.states().contains_key(#[trigger] drained@[k]),
                Repo::topo_same(old(self), self),
                self.states().dom() == old(self).states().dom(),
                self.overflowed@.len() <= i,
            decreases n - i,
        {
            let ghost comb0 = self.overflowed@ + drained@.skip(i as int);
            let id = drained[i];
            let si = match self.map_state.index_of(id) {
                Some(si) => si,
                None => {
                    assert(false);
                    return ;
                },
            };
            let ghost st0 = self.states()[id];
            let cm = {
                let st = self.map_state.val_at(si);
                st.count_min
            };
            match sql::sql_trim_oldest(conn, id, cm) {
                Ok(()) => {
                    let ghost kv0 = self.map_state.kv();
                    let st = self.map_state.val_mut(si);
                    let newc = if st.count >= st.count_min {
                        st.count - st.count_min
                    } else {
                        0
                    };
                    st.count = newc;
                    proof {
                        crate::idmap::lemma_id_entries_map_update(
                            kv0,
                            si as int,
                            self.map_state.kv()[si as int].1,
                        );
                        assert(self.states().dom() =~= old(self).states().dom());
                        let ghost pre_states = trim_fold(
                            old(self).states(),
                            drained@.take(i as int),
                            oks,
                        );
                        assert(drained@.take(i as int + 1).drop_last() =~= drained@.take(
                            i as int,
                        ));
                        assert(drained@.take(i as int + 1).last() == drained@[i as int]);
                        assert(oks.push(true).drop_last() =~= oks);
                        assert(self.states() =~= trim_step(pre_states, id, true));
                        assert(self.states() =~= trim_fold(
                            old(self).states(),
                            drained@.take(i as int + 1),
                            oks.push(true),
                        ));
                        assert(self.overflowed@ =~= trim_failures(
                            drained@.take(i as int + 1),
                            oks.push(true),
                        ));
                        oks = oks.push(true);
                        let comb1 = self.overflowed@ + drained@.skip(i as int + 1);
                        assert forall|x: u32| self.states().contains_key(x) implies retention_ok(
                            self.states()[x],
                            count_occ(comb1, x),
                        ) by {
                            lemma_count_occ_concat(self.overflowed@, drained@.skip(i as int), x);
                            lemma_count_occ_concat(
                                self.overflowed@,
                                drained@.skip(i as int + 1),
                                x,
                            );
                            lemma_count_occ_skip_step(drained@, i as int, x);
                            if x == id {
                                let f0 = count_occ(comb0, id);
                                if st0.count_min >= 1 {
                                    assert(st0.count as int <= st0.count_max - 1 + f0
                                        * st0.count_min);
                                    assert(f0 >= 1);
                                    assert(f0 * st0.count_min == (f0 - 1) * st0.count_min
                                        + st0.count_min) by (nonlinear_arith)
                                        requires f0 >= 1,
                                    ;
                                }
                            }
                        }
                    }
                },
                Err(()) => {
                    let ghost q0 = self.overflowed@;
                    self.overflowed.push(id);
                    proof {
                        assert(drained@.take(i as int + 1).drop_last() =~= drained@.take(
                            i as int,
                        ));
                        assert(drained@.take(i as int + 1).last() == drained@[i as int]);
                        assert(oks.push(false).drop_last() =~= oks);
                        assert(self.states() =~= trim_fold(
                            old(self).states(),
                            drained@.take(i as int + 1),
                            oks.push(false),
                        ));
                        assert(self.overflowed@ =~= q0 + seq![id]);
                        assert(self.overflowed@ =~= trim_failures(
                            drained@.take(i as int + 1),
                            oks.push(false),
                        ));
                        oks = oks.push(false);
                        let comb1 = self.overflowed@ + drained@.skip(i as int + 1);
                        assert forall|x: u32| self.states().contains_key(x) implies retention_ok(
                            self.states()[x],
                            count_occ(comb1, x),
                        ) by {
                            lemma_count_occ_concat(q0, drained@.skip(i as int), x);
                            lemma_count_occ_concat(self.overflowed@, drained@.skip(i as int + 1), x);
                            lemma_count_occ_push(q0, id, x);
                            lemma_count_occ_skip_step(drained@, i as int, x);
                        }
                    }
                },
            }
            i = i + 1;
        }
        proof {
            assert(drained@.skip(n as int) =~= Seq::<u32>::empty());
            assert(self.overflowed@ + drained@.skip(n as int) =~= self.overflowed@);
            assert(drained@.take(n as int) =~= drained@);
            assert(oks.len() == old(self).flags().len() && self.states() == trim_fold(
                old(self).states(),
                old(self).flags(),
                oks,
            ) && self.flags() == trim_failures(old(self).flags(), oks));
        }
    }

    /// The newest known record per requested unit, `None` for units the
    /// topology does not know.
    pub fn data_last(&self, map: &Vec<(Group, Vec<Unit>)>) -> (r: Vec<
        (Group, Vec<(Unit, Option<Record<Update>>)>),
    >)
        requires
            self.wf(),
        ensures
            r@.len() == map@.len(),
            forall|i: int| 0 <= i < map@.len() ==> (#[trigger] r@[i]).0@ == map@[i].0@
                && r@[i].1@.len() == map@[i].1@.len() && (forall|j: int|
                0 <= j < map@[i].1@.len() ==> (#[trigger] r@[i].1@[j]).0@ == map@[i].1@[j]@
                    && match (self.last_record(map@[i].0@, map@[i].1@[j]@), r@[i].1@[j].1) {
                    (Some(rv), Some(rec)) => rec@ == rv,
                    (None, None) => true,
                    _ => false,
                }),
    {
        let mut out: Vec<(Group, Vec<(Unit, Option<Record<Update>>)>)> = Vec::new();
        let n = map.len();
        for i in 0..n
            invariant
                n == map@.len(),
                self.wf(),
                out@.len() == i,
                forall|ii: int| 0 <= ii < i ==> (#[trigger] out@[ii]).0@ == map@[ii].0@
                    && out@[ii].1@.len() == map@[ii].1@.len() && (forall|j: int|
                    0 <= j < map@[ii].1@.len() ==> (#[trigger] out@[ii].1@[j]).0@ == map@[ii].1@[j]@
                        && match (self.last_record(map@[ii].0@, map@[ii].1@[j]@), out@[ii].1@[j].1) {
                        (Some(rv), Some(rec)) => rec@ == rv,
                        (None, None) => true,
                        _ => false,
                    }),
        {
            let group = &map[i].0;
            let units = &map[i].1;
            let inner_opt = self.map_group.get(group.as_name());
            let mut row: Vec<(Unit, Option<Record<Update>>)> = Vec::new();
            let m = units.len();
            for j in 0..m
                invariant
                    n == map@.len(),
                    i < n,
                    m == units@.len(),
                    *group == map@[i as int].0,
                    *units == map@[i as int].1,
                    self.wf(),
                    match inner_opt {
                        Some(inner) => self.groups().contains_key(group@) && *inner
                            == self.groups()[group@],
                        None => !self.groups().contains_key(group@),
                    },
                    row@.len() == j,
                    forall|jj: int| 0 <= jj < j ==> (#[trigger] row@[jj]).0@ == units@[jj]@
                        && match (self.last_record(map@[i as int].0@, units@[jj]@), row@[jj].1) {
                        (Some(rv), Some(rec)) => rec@ == rv,
                        (None, None) => true,
                        _ => false,
                    },
            {
                let unit = &units[j];
                let rec_opt: Option<Record<Update>> = match inner_opt {
                    Some(inner) => match inner.get(unit.as_name()) {
                        Some(id) => match self.map_state.get(*id) {
                            Some(st) => match &st.record_last {
                                Some(rl) => Some(rl.clone()),
                                None => None,
                            },
                            None => None,
                        },
                        None => None,
                    },
                    None => None,
                };
                row.push((unit.clone(), rec_opt));
            }
            out.push((group.clone(), row));
        }
        out
    }

    /// The stored records of a unit whose ids lie in `[idx_min, idx_max]`:
    /// every returned record is saved and its id is in the range. A unit
    /// the topology does not know is a bad request.
    pub fn data_get(&self, conn: &rusqlite::Connection, group: &Group, unit: &Unit, idx_min: u64, idx_max: u64) -> (r:
        Result<Vec<Record<Update>>, ()>)
        requires
            self.wf(),
        ensures
            self.unit_id(group@, unit@) is None ==> r is Err,
            match r {
                Ok(v) => self.unit_id(group@, unit@) is Some && forall|i: int|
                    0 <= i < v@.len() ==> (#[trigger] v@[i]).is_saved && idx_min <= v@[i].id
                        <= idx_max,
                Err(()) => true,
            },
    {
        let id_opt = match self.map_group.get(group.as_name()) {
            Some(inner) => match inner.get(unit.as_name()) {
                Some(id) => Some(*id),
                None => None,
            },
            None => None,
        };
        match id_opt {
            Some(id) => match sql::sql_rows_range(conn, id, idx_min, idx_max) {
                Ok(rows) => Ok(records_from_rows(rows)),
                Err(()) => Err(()),
            },
            None => Err(()),
        }
    }
}

impl Repo {
    /// Open the store: ensure the schema, insert the configured groups and
    /// units where absent (a duplicate means the row was already there),
    /// and load each unit's newest record and stored count into the
    /// mirror. A unit loaded above its retention ceiling is flagged until
    /// its debt is covered. Any refusal of the store is fatal.
    pub fn new(conn: &rusqlite::Connection, cfg_groups: &Vec<(String, ConfigServeGroup)>) -> (r:
        Result<Repo, ()>)
        requires
            forall|i: int, j: int| 0 <= i < j < cfg_groups@.len() ==> (#[trigger] cfg_groups@[i]).0@
                != (#[trigger] cfg_groups@[j]).0@,
            forall|i: int| 0 <= i < cfg_groups@.len() ==> crate::config::units_retention_valid(
                (#[trigger] cfg_groups@[i]).1.units@,
            ),
        ensures
            match r {
                Ok(repo) => repo.wf() && forall|i: int, j: int|
                    0 <= i < cfg_groups@.len() && 0 <= j < (#[trigger] cfg_groups@[i]).1.units@.len()
                        ==> repo.unit_id(
                        cfg_groups@[i].0@,
                        (#[trigger] cfg_groups@[i].1.units@[j]).0@,
                    ) is Some,
                Err(()) => true,
            },
    {
        if sql::sql_exec(
            conn,
            "CREATE TABLE IF NOT EXISTS groups(id INTEGER PRIMARY KEY, name TEXT NOT NULL UNIQUE)",
        ).is_err() {
            return Err(());
        }
        if sql::sql_exec(
            conn,
            "CREATE TABLE IF NOT EXISTS units(id INTEGER PRIMARY KEY, name TEXT NOT NULL, fk_unit_group INTEGER NOT NULL, FOREIGN KEY (fk_unit_group) REFERENCES groups(id), UNIQUE(name, fk_unit_group))",
        ).is_err() {
            return Err(());
        }
        if sql::sql_exec(
            conn,
            "CREATE TABLE IF NOT EXISTS data(id_record INTEGER NOT NULL, time INTEGER, type INTEGER NOT NULL, val BLOB, fk_data_unit INTEGER NOT NULL, FOREIGN KEY (fk_data_unit) REFERENCES units(id))",
        ).is_err() {
            return Err(());
        }
        if sql::sql_exec(
            conn,
            "CREATE INDEX IF NOT EXISTS index_data_record ON data (fk_data_unit, id_record)",
        ).is_err() {
            return Err(());
        }
        if sql::sql_exec(
            conn,
            "CREATE INDEX IF NOT EXISTS index_data_time ON data (fk_data_unit, time)",
        ).is_err() {
            return Err(());
        }
        let mut id_group_new: u32 = match sql::sql_max_group_id(conn) {
            Ok(Some(id)) => {
                if id == u32::MAX {
                    return Err(());
                }
                id + 1
            },
            Ok(None) => 0,
            Err(()) => {
                return Err(());
            },
        };
        let mut id_unit_new: u32 = match sql::sql_max_unit_id(conn) {
            Ok(Some(id)) => {
                if id == u32::MAX {
                    return Err(());
                }
                id + 1
            },
            Ok(None) => 0,
            Err(()) => {
                return Err(());
            },
        };
        let mut map_group: StrMap<StrMap<u32>> = StrMap::new();
        let mut map_state: IdMap<StateUnit> = IdMap::new();
        let mut overflowed: Vec<u32> = Vec::new();
        let n = cfg_groups.len();
        for i in 0..n
            invariant
                n == cfg_groups@.len(),
                forall|a: int, b: int| 0 <= a < b < cfg_groups@.len() ==> (
                #[trigger] cfg_groups@[a]).0@ != (#[trigger] cfg_groups@[b]).0@,
                forall|a: int| 0 <= a < cfg_groups@.len()
                    ==> crate::config::units_retention_valid(
                    (#[trigger] cfg_groups@[a]).1.units@,
                ),
                map_group.wf(),
                forall|g: Seq<char>| map_group.m().contains_key(g) ==> (
                #[trigger] map_group.m()[g]).wf(),
                map_state.wf(),
                forall|g: Seq<char>, u: Seq<char>|
                    map_group.m().contains_key(g) && map_group.m()[g].m().contains_key(u)
                        ==> map_state.m().contains_key(#[trigger] map_group.m()[g].m()[u]),
                forall|id: u32| map_state.m().contains_key(id) ==> (
                #[trigger] map_state.m()[id]).count_min < map_state.m()[id].count_max,
                debt_ok(map_state.m(), overflowed@),
                forall|k: int| 0 <= k < overflowed@.len() ==> map_state.m().contains_key(
                    #[trigger] overflowed@[k],
                ),
                forall|a: int| 0 <= a < i ==> map_group.m().contains_key(
                    (#[trigger] cfg_groups@[a]).0@,
                ),
                forall|a: int, b: int| #![trigger cfg_groups@[a].1.units@[b]]
                    0 <= a < i && 0 <= b < cfg_groups@[a].1.units@.len()
                        ==> map_group.m().contains_key(cfg_groups@[a].0@)
                        && map_group.m()[cfg_groups@[a].0@].m().contains_key(
                        cfg_groups@[a].1.units@[b].0@,
                    ),
        {
            let group_name = &cfg_groups[i].0;
            let cfg_group = &cfg_groups[i].1;
            match sql::sql_insert_group(conn, id_group_new, group_name.as_str()) {
                sql::InsertOutcome::Inserted => {
                    if id_group_new == u32::MAX {
                        return Err(());
                    }
                    id_group_new = id_group_new + 1;
                },
                sql::InsertOutcome::Duplicate => {},
                sql::InsertOutcome::Failed => {
                    return Err(());
                },
            }
            let id_group = match sql::sql_group_id(conn, group_name.as_str()) {
                Ok(Some(id)) => id,
                _ => {
                    return Err(());
                },
            };
            let mut map_units: StrMap<u32> = StrMap::new();
            let m = cfg_group.units.len();
            for j in 0..m
                invariant
                    n == cfg_groups@.len(),
                    i < n,
                    m == cfg_group.units@.len(),
                    *cfg_group == cfg_groups@[i as int].1,
                    crate::config::units_retention_valid(cfg_group.units@),
                    map_units.wf(),
                    map_state.wf(),
                    forall|u: Seq<char>| map_units.m().contains_key(u)
                        ==> map_state.m().contains_key(#[trigger] map_units.m()[u]),
                    forall|g: Seq<char>, u: Seq<char>|
                        map_group.m().contains_key(g) && map_group.m()[g].m().contains_key(u)
                            ==> map_state.m().contains_key(#[trigger] map_group.m()[g].m()[u]),
                    forall|id: u32| map_state.m().contains_key(id) ==> (
                    #[trigger] map_state.m()[id]).count_min < map_state.m()[id].count_max,
                    debt_ok(map_state.m(), overflowed@),
                    forall|k: int| 0 <= k < overflowed@.len() ==> map_state.m().contains_key(
                        #[trigger] overflowed@[k],
                    ),
                    forall|b: int| 0 <= b < j ==> map_units.m().contains_key(
                        (#[trigger] cfg_group.units@[b]).0@,
                    ),
            {
                let unit_name = &cfg_group.units[j].0;
                let cfg_unit = &cfg_group.units[j].1;
                match sql::sql_insert_unit(conn, id_unit_new, id_group, unit_name.as_str()) {
                    sql::InsertOutcome::Inserted => {
                        if id_unit_new == u32::MAX {
                            return Err(());
                        }
                        id_unit_new = id_unit_new + 1;
                    },
                    sql::InsertOutcome::Duplicate => {},
                    sql::InsertOutcome::Failed => {
                        return Err(());
                    },
                }
                let id_unit = match sql::sql_unit_id(conn, unit_name.as_str(), id_group) {
                    Ok(Some(id)) => id,
                    _ => {
                        return Err(());
                    },
                };
                let record_last: Option<Record<Update>> = match sql::sql_last_row(conn, id_unit) {
                    Ok(Some((rid, rtime, rtype, rval))) => Some(
                        Record {
                            id: rid,
                            is_saved: true,
                            time: rtime,
                            val: Update::from_ser(rtype, rval),
                        },
                    ),
                    Ok(None) => None,
                    Err(()) => {
                        return Err(());
                    },
                };
                let count: u64 = if record_last.is_some() {
                    match sql::sql_count(conn, id_unit) {
                        Ok(c) => c,
                        Err(()) => {
                            return Err(());
                        },
                    }
                } else {
                    0
                };
                assert(cfg_unit.count_min < cfg_unit.count_max);
                if map_state.index_of(id_unit).is_some() {
                    // Two configured units share a stored id: the store is
                    // corrupt, which is fatal.
                    return Err(());
                }
                let st = StateUnit {
                    count,
                    count_min: cfg_unit.count_min,
                    count_max: cfg_unit.count_max,
                    record_last,
                };
                // A unit loaded at or above its ceiling owes retention:
                // flag it until the pending trims cover the excess.
                let ghost flags_before = overflowed@;
                proof {
                    assert forall|k: int| 0 <= k < flags_before.len() implies flags_before[k]
                        != id_unit by {
                        assert(map_state.m().contains_key(flags_before[k]));
                    };
                    lemma_count_occ_absent(flags_before, id_unit);
                }
                if st.count_min >= 1 {
                    let mut c = st.count;
                    let ghost mut added: nat = 0nat;
                    while c >= st.count_max
                        invariant
                            st.count_min >= 1,
                            st.count_min < st.count_max,
                            st.count as int <= c + added * st.count_min,
                            overflowed@.len() == flags_before.len() + added,
                            forall|x: u32| count_occ(overflowed@, x) == count_occ(flags_before, x)
                                + if x == id_unit {
                                added
                            } else {
                                0nat
                            },
                            forall|k: int| flags_before.len() <= k < overflowed@.len()
                                ==> overflowed@[k] == id_unit,
                            forall|k: int| 0 <= k < flags_before.len() ==> overflowed@[k]
                                == flags_before[k],
                        decreases c,
                    {
                        let ghost q0 = overflowed@;
                        overflowed.push(id_unit);
                        proof {
                            assert forall|x: u32|
                                count_occ(overflowed@, x) == count_occ(flags_before, x) + (if x
                                    == id_unit {
                                    added + 1
                                } else {
                                    0nat
                                }) by {
                                lemma_count_occ_push(q0, id_unit, x);
                            };
                            added = added + 1;
                        }
                        let ghost c0 = c;
                        c = if c >= st.count_min {
                            c - st.count_min
                        } else {
                            0
                        };
                        proof {
                            assert(st.count as int <= c + added * st.count_min) by (
                            nonlinear_arith)
                                requires
                                    st.count_min >= 1,
                                    added >= 1,
                                    st.count as int <= c0 + (added - 1) * st.count_min,
                                    c as int == if c0 >= st.count_min {
                                        c0 - st.count_min
                                    } else {
                                        0
                                    },
                            ;
                        }
                    }
                }
                proof {
                    assert(retention_ok(st, count_occ(overflowed@, id_unit)));
                }
                let ghost states_before = map_state.m();
                map_state.push_new(id_unit, st);
                map_units.insert(unit_name.clone(), id_unit);
                proof {
                    assert forall|x: u32| map_state.m().contains_key(x) implies retention_ok(
                        #[trigger] map_state.m()[x],
                        count_occ(overflowed@, x),
                    ) by {
                        if x != id_unit {
                            assert(states_before.contains_key(x));
                            assert(count_occ(overflowed@, x) == count_occ(flags_before, x));
                        }
                    };
                    assert forall|k: int| 0 <= k < overflowed@.len()
                        implies map_state.m().contains_key(#[trigger] overflowed@[k]) by {
                        if k < flags_before.len() {
                            assert(overflowed@[k] == flags_before[k]);
                            assert(states_before.contains_key(flags_before[k]));
                        } else {
                            assert(overflowed@[k] == id_unit);
                        }
                    };
                }
            }
            map_group.insert(group_name.clone(), map_units);
            proof {
                assert forall|a: int, b: int| #![trigger cfg_groups@[a].1.units@[b]]
                    0 <= a < i + 1 && 0 <= b < cfg_groups@[a].1.units@.len()
                        implies map_group.m().contains_key(cfg_groups@[a].0@)
                        && map_group.m()[cfg_groups@[a].0@].m().contains_key(
                        cfg_groups@[a].1.units@[b].0@,
                    ) by {
                    if a == i {
                        assert(cfg_groups@[a].0@ == group_name@);
                        assert(map_group.m().contains_key(group_name@));
                        assert(map_group.m()[cfg_groups@[a].0@] == map_units);
                        assert(b < cfg_group.units@.len());
                        assert(map_units.m().contains_key(cfg_group.units@[b].0@));
                        assert(cfg_groups@[a].1.units@[b].0@ == cfg_group.units@[b].0@);
                    } else {
                        assert(a < i);
                        assert(cfg_groups@[a].0@ != cfg_groups@[i as int].0@);
                        assert(map_group.m().contains_key(cfg_groups@[a].0@));
                        assert(map_group.m()[cfg_groups@[a].0@].m().contains_key(
                            cfg_groups@[a].1.units@[b].0@,
                        ));
                    }
                };
            }
        }
        let repo = Repo { map_group, map_state, overflowed };
        Ok(repo)
    }
}

/// Turn stored rows `(id, time, type, val)` back into records: each is
/// marked saved and its update decoded from the stored form.
pub fn records_from_rows(rows: Vec<(u64, i64, u8, Option<Vec<u8>>)>) -> (r: Vec<Record<Update>>)
    ensures
        r@.len() == rows@.len(),
        forall|i: int| 0 <= i < rows@.len() ==> {
            let rec = #[trigger] r@[i];
            &&& rec.id == rows@[i].0
            &&& rec.time == rows@[i].1
            &&& rec.is_saved
            &&& crate::dataflow::decodes_to(rows@[i].2, match rows@[i].3 {
                Some(b) => Some(b@),
                None => None,
            }, rec.val@)
        },
{
    let ghost rowsv = rows@;
    let mut out: Vec<Record<Update>> = Vec::new();
    let n = rows.len();
    let mut rows = rows;
    let mut i: usize = 0;
    while i < n
        invariant
            n == rowsv.len(),
            0 <= i <= n,
            rows@ =~= rowsv.skip(i as int),
            out@.len() == i,
            forall|j: int| 0 <= j < i ==> {
                let rec = #[trigger] out@[j];
                &&& rec.id == rowsv[j].0
                &&& rec.time == rowsv[j].1
                &&& rec.is_saved
                &&& crate::dataflow::decodes_to(rowsv[j].2, match rowsv[j].3 {
                    Some(b) => Some(b@),
                    None => None,
                }, rec.val@)
            },
        decreases n - i,
    {
        let (rid, rtime, rtype, rval) = rows.remove(0);
        proof {
            assert(rowsv.skip(i as int)[0] == rowsv[i as int]);
        }
        let upd = Update::from_ser(rtype, rval);
        out.push(Record { is_saved: true, id: rid, time: rtime, val: upd });
        proof {
            assert(rows@ =~= rowsv.skip(i as int + 1));
        }
        i = i + 1;
    }
    out
}

} // verus!
