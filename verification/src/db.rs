//! The store actor's transactional drain cycle.
//!
//! Ingest signals are drained in batches: one transaction per cycle, up to
//! the configured ceiling of signals. The records produced by a batch are
//! collected and handed back for broadcast — one signal when the batch made
//! one record bundle, a pack when it made several. When the commit fails
//! every record of the batch is marked unsaved and broadcast anyway; the
//! retention flags are resolved after each cycle.

use vstd::prelude::*;

use crate::dataflow::{Data, DataView, Group, Record, RecordView, Unit, Update};
use crate::mailbox::RecView;
use crate::repo::{push_rel, trim_failures, trim_fold, Repo};
use crate::sql;

verus! {

/// What a drain cycle produced for broadcast.
pub enum Records {
    Empty,
    Single(Data<Record<Update>>),
    Multi(Vec<Data<Record<Update>>>),
}

impl Records {
    /// The produced bundles, in order, as views.
    pub open spec fn seq(&self) -> Seq<DataView<RecView>> {
        match self {
            Records::Empty => Seq::empty(),
            Records::Single(d) => seq![d@],
            Records::Multi(v) => v@.map_values(|d: Data<Record<Update>>| d@),
        }
    }
}

/// The collector a drain cycle fills.
pub struct Datapack {
    records: Records,
}

/// A record view with its saved mark cleared.
pub open spec fn unsaved_rec(r: RecView) -> RecView {
    RecordView { is_saved: false, id: r.id, time: r.time, val: r.val }
}

/// A data view with every record's saved mark cleared.
pub open spec fn unsaved_data_view(d: DataView<RecView>) -> DataView<RecView> {
    match d {
        DataView::Single { group, unit, update } => DataView::Single {
            group,
            unit,
            update: unsaved_rec(update),
        },
        DataView::Multi { vec } => DataView::Multi {
            vec: vec.map_values(
                |p: (Seq<char>, Seq<(Seq<char>, RecView)>)|
                    (p.0, p.1.map_values(|q: (Seq<char>, RecView)| (q.0, unsaved_rec(q.1)))),
            ),
        },
    }
}

/// The bundles a run of per-signal outputs yields, in order: one per
/// signal that produced something.
pub open spec fn chain_outs(outs: Seq<Option<(usize, Data<Record<Update>>)>>) -> Seq<
    DataView<RecView>,
>
    decreases outs.len(),
{
    if outs.len() == 0 {
        Seq::empty()
    } else {
        chain_outs(outs.drop_last()) + match outs.last() {
            Some(p) => seq![p.1@],
            None => Seq::empty(),
        }
    }
}

/// Clear the saved mark on every record of a bundle; nothing else changes.
fn data_unsaved(data: &Data<Record<Update>>) -> (r: Data<Record<Update>>)
    ensures
        r@ == unsaved_data_view(data@),
{
    match data {
        Data::Single { group, unit, update } => Data::Single {
            group: group.clone(),
            unit: unit.clone(),
            update: Record {
                is_saved: false,
                id: update.id,
                time: update.time,
                val: update.val.clone(),
            },
        },
        Data::Multi { vec } => {
            let ghost vecv = vec@.map_values(
                |p: (Group, Vec<(Unit, Record<Update>)>)|
                    (p.0@, p.1@.map_values(|q: (Unit, Record<Update>)| (q.0@, q.1@))),
            );
            let mut out: Vec<(Group, Vec<(Unit, Record<Update>)>)> = Vec::new();
            let n = vec.len();
            for i in 0..n
                invariant
                    n == vec@.len(),
                    vecv == vec@.map_values(
                        |p: (Group, Vec<(Unit, Record<Update>)>)|
                            (p.0@, p.1@.map_values(|q: (Unit, Record<Update>)| (q.0@, q.1@))),
                    ),
                    out@.len() == i,
                    forall|a: int| 0 <= a < i ==> (#[trigger] out@[a]).0@ == vecv[a].0
                        && out@[a].1@.map_values(|q: (Unit, Record<Update>)| (q.0@, q.1@))
                            == vecv[a].1.map_values(
                            |q: (Seq<char>, RecView)| (q.0, unsaved_rec(q.1)),
                        ),
            {
                let g = &vec[i].0;
                let units = &vec[i].1;
                let ghost unitsv = units@.map_values(|q: (Unit, Record<Update>)| (q.0@, q.1@));
                proof {
                    assert(vecv[i as int] == (g@, unitsv));
                }
                let mut inner: Vec<(Unit, Record<Update>)> = Vec::new();
                let m = units.len();
                for k in 0..m
                    invariant
                        m == units@.len(),
                        i < n,
                        n == vec@.len(),
                        *units == vec@[i as int].1,
                        unitsv == units@.map_values(|q: (Unit, Record<Update>)| (q.0@, q.1@)),
                        inner@.len() == k,
                        forall|a: int| 0 <= a < k ==> (#[trigger] inner@[a]).0@ == unitsv[a].0
                            && inner@[a].1@ == unsaved_rec(unitsv[a].1),
                {
                    let u = units[k].0.clone();
                    let rec = &units[k].1;
                    proof {
                        assert(unitsv[k as int] == (units@[k as int].0@, units@[k as int].1@));
                    }
                    inner.push(
                        (u, Record { is_saved: false, id: rec.id, time: rec.time, val: rec.val.clone() }),
                    );
                }
                proof {
                    assert(inner@.map_values(|q: (Unit, Record<Update>)| (q.0@, q.1@))
                        =~= unitsv.map_values(|q: (Seq<char>, RecView)| (q.0, unsaved_rec(q.1))));
                }
                out.push((g.clone(), inner));
            }
            let r = Data::Multi { vec: out };
            proof {
                assert(out@.map_values(
                    |p: (Group, Vec<(Unit, Record<Update>)>)|
                        (p.0@, p.1@.map_values(|q: (Unit, Record<Update>)| (q.0@, q.1@))),
                ) =~= vecv.map_values(
                    |p: (Seq<char>, Seq<(Seq<char>, RecView)>)|
                        (p.0, p.1.map_values(|q: (Seq<char>, RecView)| (q.0, unsaved_rec(q.1)))),
                ));
            }
            r
        },
    }
}

impl Datapack {
    pub closed spec fn seq(&self) -> Seq<DataView<RecView>> {
        self.records.seq()
    }

    /// A pack holds several bundles only in its many-bundle form.
    pub closed spec fn wf(&self) -> bool {
        match self.records {
            Records::Multi(v) => v@.len() >= 2,
            _ => true,
        }
    }

    pub fn new() -> (r: Self)
        ensures
            r.seq() == Seq::<DataView<RecView>>::empty(),
            r.wf(),
    {
        Datapack { records: Records::Empty }
    }

    /// Collect one produced bundle.
    pub fn push(&mut self, data: Data<Record<Update>>)
        requires
            old(self).wf(),
        ensures
            final(self).seq() =~= old(self).seq().push(data@),
            final(self).wf(),
    {
        let mut prev = Records::Empty;
        core::mem::swap(&mut prev, &mut self.records);
        self.records = match prev {
            Records::Empty => Records::Single(data),
            Records::Single(single) => {
                let mut v: Vec<Data<Record<Update>>> = Vec::new();
                v.push(single);
                v.push(data);
                Records::Multi(v)
            },
            Records::Multi(mut v) => {
                v.push(data);
                Records::Multi(v)
            },
        };
    }

    /// The commit failed: clear the saved mark on every collected record.
    pub fn mark_unsaved(&mut self)
        requires
            old(self).wf(),
        ensures
            final(self).seq() =~= old(self).seq().map_values(
                |d: DataView<RecView>| unsaved_data_view(d),
            ),
            final(self).wf(),
    {
        let mut prev = Records::Empty;
        core::mem::swap(&mut prev, &mut self.records);
        self.records = match prev {
            Records::Empty => Records::Empty,
            Records::Single(single) => Records::Single(data_unsaved(&single)),
            Records::Multi(v) => {
                let ghost vv = v@.map_values(|d: Data<Record<Update>>| d@);
                let mut out: Vec<Data<Record<Update>>> = Vec::new();
                let n = v.len();
                for i in 0..n
                    invariant
                        n == v@.len(),
                        vv == v@.map_values(|d: Data<Record<Update>>| d@),
                        out@.len() == i,
                        forall|a: int| 0 <= a < i ==> (#[trigger] out@[a])@ == unsaved_data_view(
                            vv[a],
                        ),
                {
                    proof {
                        assert(vv[i as int] == v@[i as int]@);
                    }
                    out.push(data_unsaved(&v[i]));
                }
                Records::Multi(out)
            },
        };
        proof {
            match old(self).records {
                Records::Empty => {
                    assert(self.seq() =~= old(self).seq().map_values(
                        |d: DataView<RecView>| unsaved_data_view(d),
                    ));
                },
                _ => {},
            }
        }
    }

    /// Hand out what the cycle collected: one bundle goes out alone, two
    /// or more as a pack, none as nothing.
    pub fn into_records(self) -> (r: Records)
        requires
            self.wf(),
        ensures
            r.seq() == self.seq(),
            match r {
                Records::Empty => r.seq().len() == 0,
                Records::Single(_) => r.seq().len() == 1,
                Records::Multi(v) => v@.len() >= 2 && r.seq().len() == v@.len(),
            },
    {
        self.records
    }
}

/// One drain cycle: open a transaction, ingest each drained signal in
/// order, commit, and resolve the retention flags. The output is the
/// chain of the per-signal outputs the push postcondition fixes — their
/// unsaved images when the commit failed — sent as one bundle, a pack, or
/// nothing by how many there are.
pub fn ingest_batch(conn: &rusqlite::Connection, repo: &mut Repo, batch: Vec<Data<Update>>) -> (r:
    Records)
    requires
        old(repo).wf(),
    ensures
        final(repo).wf(),
        Repo::topo_same(old(repo), final(repo)),
        r.seq().len() <= batch@.len(),
        match r {
            Records::Empty => r.seq().len() == 0,
            Records::Single(_) => r.seq().len() == 1,
            Records::Multi(v) => v@.len() >= 2 && r.seq().len() == v@.len(),
        },
        exists|mids: Seq<Repo>, outs: Seq<Option<(usize, Data<Record<Update>>)>>, oks: Seq<bool>|
            #![trigger chain_outs(outs), trim_fold(mids[batch@.len() as int].states(), mids[batch@.len() as int].flags(), oks)]
            {
                &&& mids.len() == batch@.len() + 1
                &&& outs.len() == batch@.len()
                &&& mids[0] == *old(repo)
                &&& (forall|k: int| 0 <= k < batch@.len() ==> push_rel(
                    mids[k],
                    #[trigger] mids[k + 1],
                    batch@[k],
                    outs[k],
                ))
                &&& (r.seq() == chain_outs(outs) || r.seq() == chain_outs(outs).map_values(
                    |d: DataView<RecView>| unsaved_data_view(d),
                ))
                &&& oks.len() == mids[batch@.len() as int].flags().len()
                &&& final(repo).states() == trim_fold(
                    mids[batch@.len() as int].states(),
                    mids[batch@.len() as int].flags(),
                    oks,
                )
                &&& final(repo).flags() == trim_failures(
                    mids[batch@.len() as int].flags(),
                    oks,
                )
            },
{
    let _ = sql::sql_exec(conn, "BEGIN TRANSACTION");
    let mut pack = Datapack::new();
    let ghost batch0 = batch@;
    let ghost mut mids: Seq<Repo> = seq![*repo];
    let ghost mut outs: Seq<Option<(usize, Data<Record<Update>>)>> = Seq::empty();
    let n = batch.len();
    let mut batch = batch;
    let mut i: usize = 0;
    while i < n
        invariant
            0 <= i <= n,
            n == batch0.len(),
            batch@ =~= batch0.skip(i as int),
            repo.wf(),
            Repo::topo_same(old(repo), repo),
            pack.seq().len() <= i,
            pack.wf(),
            mids.len() == i + 1,
            outs.len() == i,
            mids[0] == *old(repo),
            mids[i as int] == *repo,
            forall|k: int| 0 <= k < i ==> push_rel(
                mids[k],
                #[trigger] mids[k + 1],
                batch0[k],
                outs[k],
            ),
            pack.seq() == chain_outs(outs),
        decreases n - i,
    {
        let ghost pre = *repo;
        let data = batch.remove(0);
        let ghost datag = data;
        proof {
            assert(batch0.skip(i as int)[0] == batch0[i as int]);
            assert(datag == batch0[i as int]);
            assert(batch@ =~= batch0.skip(i as int + 1));
        }
        let res = repo.data_push(conn, data);
        let ghost resg = res;
        let ghost outs0 = outs;
        let ghost mids0 = mids;
        proof {
            mids = mids.push(*repo);
            outs = outs.push(resg);
            assert(outs.drop_last() =~= outs0);
            assert(outs.last() == resg);
            assert(mids[i as int] == mids0[i as int]);
            assert(push_rel(pre, *repo, datag, resg));
        }
        if let Some((_, produced)) = res {
            proof {
                assert(resg matches Some(p) && p.1 == produced);
            }
            pack.push(produced);
        }
        proof {
            assert(chain_outs(outs) == chain_outs(outs0) + match resg {
                Some(p) => seq![p.1@],
                None => Seq::<DataView<RecView>>::empty(),
            });
            assert(pack.seq() =~= chain_outs(outs));
            assert(pack.seq() == chain_outs(outs));
        }
        i = i + 1;
    }
    proof {
        assert(batch0.skip(n as int) =~= Seq::<Data<Update>>::empty());
    }
    let committed = sql::sql_exec(conn, "COMMIT").is_ok();
    if !committed {
        pack.mark_unsaved();
    }
    let ghost pre_resolve = *repo;
    repo.overflow_resolve(conn);
    proof {
        let oks = choose|oks: Seq<bool>|
            oks.len() == pre_resolve.flags().len() && repo.states() == trim_fold(
                pre_resolve.states(),
                pre_resolve.flags(),
                oks,
            ) && repo.flags() == trim_failures(pre_resolve.flags(), oks);
        assert(mids.len() == batch0.len() + 1 && outs.len() == batch0.len() && mids[0] == *old(
            repo,
        ) && (forall|k: int| 0 <= k < batch0.len() ==> push_rel(
            mids[k],
            #[trigger] mids[k + 1],
            batch0[k],
            outs[k],
        )) && (pack.seq() == chain_outs(outs) || pack.seq() == chain_outs(outs).map_values(
            |d: DataView<RecView>| unsaved_data_view(d),
        )) && oks.len() == mids[batch0.len() as int].flags().len() && repo.states() == trim_fold(
            mids[batch0.len() as int].states(),
            mids[batch0.len() as int].flags(),
            oks,
        ) && repo.flags() == trim_failures(mids[batch0.len() as int].flags(), oks));
    }
    pack.into_records()
}

} // verus!
