//! The per-connection coalescing mailbox.
//!
//! It sits between the routing actor and one WebSocket writer. Bursty data
//! is coalesced into one record per `(group, unit)` key — a later record
//! wins — while ticks, pongs and close keep their priority semantics. The
//! channel plumbing lives outside; this is the state machine: each producer
//! signal and each consumer request is a transition that may emit at most
//! one outbound signal, which the caller then tries to send.

use vstd::prelude::*;

use crate::dataflow::{Data, DataView, Group, Record, RecordView, Unit, Update, UpdateView};
use crate::pairmap::KeyedRecords;

verus! {

/// What the mailbox hands the consumer.
pub enum MailboxOut {
    Close,
    Tick,
    Pong(u64),
    Data(Group, Unit, Record<Update>),
    DataMap(KeyedRecords),
}

/// One keyed record view: the shape buffered entries are compared in.
pub type RecView = RecordView<UpdateView>;

/// Merge the units of one group into the buffer, in order: later entries win.
pub open spec fn merge_units(
    m: Map<(Seq<char>, Seq<char>), RecView>,
    g: Seq<char>,
    units: Seq<(Seq<char>, RecView)>,
) -> Map<(Seq<char>, Seq<char>), RecView>
    decreases units.len(),
{
    if units.len() == 0 {
        m
    } else {
        merge_units(m, g, units.drop_last()).insert((g, units.last().0), units.last().1)
    }
}

/// Merge a grouped batch into the buffer, group by group.
pub open spec fn merge_groups(
    m: Map<(Seq<char>, Seq<char>), RecView>,
    vec: Seq<(Seq<char>, Seq<(Seq<char>, RecView)>)>,
) -> Map<(Seq<char>, Seq<char>), RecView>
    decreases vec.len(),
{
    if vec.len() == 0 {
        m
    } else {
        merge_units(merge_groups(m, vec.drop_last()), vec.last().0, vec.last().1)
    }
}

/// What one inbound `Data` signal does to the buffer.
pub open spec fn merge_data(
    m: Map<(Seq<char>, Seq<char>), RecView>,
    d: DataView<RecView>,
) -> Map<(Seq<char>, Seq<char>), RecView> {
    match d {
        DataView::Single { group, unit, update } => m.insert((group, unit), update),
        DataView::Multi { vec } => merge_groups(m, vec),
    }
}

/// The coalescing mailbox state between requests.
pub struct Mailbox {
    is_closed: bool,
    is_awaiting: bool,
    pong: Option<u64>,
    tick: bool,
    map: Option<KeyedRecords>,
}

impl Mailbox {
    pub closed spec fn closed(&self) -> bool {
        self.is_closed
    }

    pub closed spec fn awaiting(&self) -> bool {
        self.is_awaiting
    }

    pub closed spec fn pong_pending(&self) -> Option<u64> {
        self.pong
    }

    pub closed spec fn tick_pending(&self) -> bool {
        self.tick
    }

    /// The coalesced buffer, if any entry is pending.
    pub closed spec fn coalesced(&self) -> Option<Map<(Seq<char>, Seq<char>), RecView>> {
        match self.map {
            Some(kr) => Some(kr.m()),
            None => None,
        }
    }

    pub closed spec fn wf(&self) -> bool {
        match self.map {
            Some(kr) => kr.wf() && kr.kv().len() >= 1,
            None => true,
        }
    }

    pub fn new() -> (r: Self)
        ensures
            r.wf(),
            !r.closed(),
            !r.awaiting(),
            r.pong_pending() is None,
            !r.tick_pending(),
            r.coalesced() is None,
    {
        Mailbox { is_closed: false, is_awaiting: false, pong: None, tick: false, map: None }
    }

    pub fn is_closed(&self) -> (b: bool)
        ensures
            b == self.closed(),
    {
        self.is_closed
    }

    /// The producer closed the mailbox, or the channel around it failed.
    /// A waiting consumer is told `Close`.
    pub fn on_close(&mut self) -> (emit: Option<MailboxOut>)
        requires
            old(self).wf(),
        ensures
            final(self).wf(),
            final(self).closed(),
            !final(self).awaiting(),
            emit == if old(self).awaiting() {
                Some(MailboxOut::Close)
            } else {
                None::<MailboxOut>
            },
            final(self).pong_pending() == old(self).pong_pending(),
            final(self).tick_pending() == old(self).tick_pending(),
            final(self).coalesced() == old(self).coalesced(),
    {
        self.is_closed = true;
        if self.is_awaiting {
            self.is_awaiting = false;
            Some(MailboxOut::Close)
        } else {
            None
        }
    }

    /// An emission could not be handed to the consumer: the mailbox closes.
    pub fn note_send_failed(&mut self)
        requires
            old(self).wf(),
        ensures
            final(self).wf(),
            final(self).closed(),
            !final(self).awaiting(),
    {
        self.is_closed = true;
        self.is_awaiting = false;
    }

    /// A heartbeat nudge arrived: deliver it at once to a waiting consumer,
    /// otherwise remember that one is due.
    pub fn on_tick(&mut self) -> (emit: Option<MailboxOut>)
        requires
            old(self).wf(),
        ensures
            final(self).wf(),
            !final(self).awaiting(),
            emit == if old(self).awaiting() {
                Some(MailboxOut::Tick)
            } else {
                None::<MailboxOut>
            },
            !old(self).awaiting() ==> final(self).tick_pending(),
            old(self).awaiting() ==> final(self).tick_pending() == old(self).tick_pending(),
            final(self).closed() == old(self).closed(),
            final(self).pong_pending() == old(self).pong_pending(),
            final(self).coalesced() == old(self).coalesced(),
    {
        if self.is_awaiting {
            self.is_awaiting = false;
            Some(MailboxOut::Tick)
        } else {
            self.tick = true;
            None
        }
    }

    /// A pong arrived. Two unread pongs mean the protocol went wrong: the
    /// mailbox closes.
    pub fn on_pong(&mut self, val: u64) -> (emit: Option<MailboxOut>)
        requires
            old(self).wf(),
        ensures
            final(self).wf(),
            !final(self).awaiting(),
            old(self).awaiting() ==> emit == Some(MailboxOut::Pong(val)),
            !old(self).awaiting() ==> emit is None,
            !old(self).awaiting() && old(self).pong_pending() is None ==> final(self).pong_pending()
                == Some(val) && final(self).closed() == old(self).closed(),
            !old(self).awaiting() && old(self).pong_pending() is Some ==> final(self).closed(),
            old(self).awaiting() ==> final(self).closed() == old(self).closed()
                && final(self).pong_pending() == old(self).pong_pending(),
            final(self).tick_pending() == old(self).tick_pending(),
            final(self).coalesced() == old(self).coalesced(),
    {
        if self.is_awaiting {
            self.is_awaiting = false;
            Some(MailboxOut::Pong(val))
        } else if self.pong.is_none() {
            self.pong = Some(val);
            None
        } else {
            self.is_closed = true;
            None
        }
    }

    /// A data signal arrived: deliver it at once to a waiting consumer,
    /// otherwise coalesce it into the buffer — per key, the later record
    /// wins.
    pub fn on_data(&mut self, data: Data<Record<Update>>) -> (emit: Option<MailboxOut>)
        requires
            old(self).wf(),
        ensures
            final(self).wf(),
            !final(self).awaiting(),
            final(self).closed() == old(self).closed(),
            final(self).pong_pending() == old(self).pong_pending(),
            final(self).tick_pending() == old(self).tick_pending(),
            !old(self).awaiting() ==> emit is None && (final(self).coalesced() matches Some(m)
                ==> m == merge_data(
                match old(self).coalesced() {
                    Some(m0) => m0,
                    None => Map::empty(),
                },
                data@,
            )) && (final(self).coalesced() is None ==> merge_data(
                match old(self).coalesced() {
                    Some(m0) => m0,
                    None => Map::empty(),
                },
                data@,
            ) =~= Map::empty()),
            old(self).awaiting() ==> final(self).coalesced() == old(self).coalesced() && match emit {
                Some(MailboxOut::Data(g, u, r)) => data@ == DataView::Single {
                    group: g@,
                    unit: u@,
                    update: r@,
                },
                Some(MailboxOut::DataMap(kr)) => kr.wf() && kr.m() == merge_data(
                    Map::<(Seq<char>, Seq<char>), RecView>::empty(),
                    data@,
                ),
                _ => false,
            },
    {
        if self.is_awaiting {
            self.is_awaiting = false;
            match data {
                Data::Single { group, unit, update } => Some(
                    MailboxOut::Data(group, unit, update),
                ),
                Data::Multi { vec } => {
                    let mut kr = KeyedRecords::new();
                    merge_multi(&mut kr, vec);
                    Some(MailboxOut::DataMap(kr))
                },
            }
        } else {
            let mut kr = match self.map.take() {
                Some(kr) => kr,
                None => KeyedRecords::new(),
            };
            match data {
                Data::Single { group, unit, update } => {
                    kr.put(group, unit, update);
                },
                Data::Multi { vec } => {
                    merge_multi(&mut kr, vec);
                },
            }
            if kr.len() > 0 {
                self.map = Some(kr);
            } else {
                // An empty batch over an empty buffer leaves nothing pending.
                proof {
                    assert(kr.m() =~= Map::<(Seq<char>, Seq<char>), RecView>::empty());
                }
                self.map = None;
            }
            None
        }
    }

    /// The consumer asks for the next signal. Priority: close, then tick,
    /// then pong, then the coalesced data (one entry as `Data`, several as
    /// `DataMap`); with nothing pending the consumer parks.
    pub fn on_req(&mut self) -> (emit: Option<MailboxOut>)
        requires
            old(self).wf(),
        ensures
            final(self).wf(),
            final(self).closed() == old(self).closed(),
            old(self).closed() ==> emit == Some(MailboxOut::Close) && !final(self).awaiting()
                && final(self).tick_pending() == old(self).tick_pending()
                && final(self).pong_pending() == old(self).pong_pending()
                && final(self).coalesced() == old(self).coalesced(),
            !old(self).closed() && old(self).tick_pending() ==> emit == Some(MailboxOut::Tick)
                && !final(self).tick_pending() && final(self).pong_pending() == old(
                self,
            ).pong_pending() && final(self).coalesced() == old(self).coalesced()
                && !final(self).awaiting(),
            match old(self).pong_pending() {
                Some(v) => (!old(self).closed() && !old(self).tick_pending()) ==> emit == Some(
                    MailboxOut::Pong(v),
                ) && final(self).pong_pending() is None
                    && final(self).coalesced() == old(self).coalesced()
                    && !final(self).awaiting(),
                None => true,
            },
            match old(self).coalesced() {
                Some(m) => (!old(self).closed() && !old(self).tick_pending()
                    && old(self).pong_pending() is None) ==> final(self).coalesced() is None
                    && !final(self).awaiting() && match emit {
                    Some(MailboxOut::Data(g, u, r)) => m == Map::<
                        (Seq<char>, Seq<char>),
                        RecView,
                    >::empty().insert((g@, u@), r@),
                    Some(MailboxOut::DataMap(kr)) => kr.wf() && kr.m() == m && kr.kv().len()
                        > 1,
                    _ => false,
                },
                None => true,
            },
            !old(self).closed() && !old(self).tick_pending() && old(self).pong_pending() is None
                && old(self).coalesced() is None ==> emit is None && final(self).awaiting(),
    {
        self.is_awaiting = false;
        if self.is_closed {
            return Some(MailboxOut::Close);
        }
        if self.tick {
            self.tick = false;
            return Some(MailboxOut::Tick);
        }
        if let Some(val) = self.pong.take() {
            return Some(MailboxOut::Pong(val));
        }
        if let Some(kr) = self.map.take() {
            if kr.len() == 1 {
                proof {
                    kr.lemma_kv_index(0);
                    assert(kr.m().dom() =~= set![(kr.kv()[0].0@, kr.kv()[0].1@)] ) by {
                        crate::pairmap::lemma_rec_entries_map_domain(
                            kr.kv(),
                            (kr.kv()[0].0@, kr.kv()[0].1@),
                        );
                        assert forall|k: (Seq<char>, Seq<char>)| kr.m().contains_key(k)
                            implies k == (kr.kv()[0].0@, kr.kv()[0].1@) by {
                            crate::pairmap::lemma_rec_entries_map_domain(kr.kv(), k);
                        }
                    }
                    assert(kr.m() =~= Map::<(Seq<char>, Seq<char>), RecView>::empty().insert(
                        (kr.kv()[0].0@, kr.kv()[0].1@),
                        kr.kv()[0].2@,
                    ));
                }
                let mut entries = kr.into_entries();
                let (g, u, r) = entries.remove(0);
                return Some(MailboxOut::Data(g, u, r));
            }
            return Some(MailboxOut::DataMap(kr));
        }
        self.is_awaiting = true;
        None
    }
}

/// Fold a grouped batch into the buffer, in order: within a group unit by
/// unit, and group by group, so a later record for a key wins.
fn merge_multi(kr: &mut KeyedRecords, vec: Vec<(Group, Vec<(Unit, Record<Update>)>)>)
    requires
        old(kr).wf(),
    ensures
        final(kr).wf(),
        final(kr).m() == merge_groups(old(kr).m(), vec@.map_values(
            |p: (Group, Vec<(Unit, Record<Update>)>)|
                (p.0@, p.1@.map_values(|q: (Unit, Record<Update>)| (q.0@, q.1@))),
        )),
        final(kr).kv().len() >= old(kr).kv().len(),
{
    let ghost vecv = vec@.map_values(
        |p: (Group, Vec<(Unit, Record<Update>)>)|
            (p.0@, p.1@.map_values(|q: (Unit, Record<Update>)| (q.0@, q.1@))),
    );
    let n = vec.len();
    for i in 0..n
        invariant
            n == vec@.len(),
            vecv == vec@.map_values(
                |p: (Group, Vec<(Unit, Record<Update>)>)|
                    (p.0@, p.1@.map_values(|q: (Unit, Record<Update>)| (q.0@, q.1@))),
            ),
            kr.wf(),
            kr.m() == merge_groups(old(kr).m(), vecv.take(i as int)),
            kr.kv().len() >= old(kr).kv().len(),
    {
        let ghost prev = kr.m();
        let g = &vec[i].0;
        let units = &vec[i].1;
        let ghost unitsv = units@.map_values(|q: (Unit, Record<Update>)| (q.0@, q.1@));
        proof {
            assert(vecv[i as int] == (g@, unitsv));
        }
        let m = units.len();
        for k in 0..m
            invariant
                n == vec@.len(),
                i < n,
                m == units@.len(),
                m == unitsv.len(),
                *g == vec@[i as int].0,
                *units == vec@[i as int].1,
                unitsv == units@.map_values(|q: (Unit, Record<Update>)| (q.0@, q.1@)),
                kr.wf(),
                kr.m() == merge_units(prev, g@, unitsv.take(k as int)),
                kr.kv().len() >= old(kr).kv().len(),
        {
            let u = units[k].0.clone();
            let r = units[k].1.clone();
            proof {
                assert(unitsv[k as int] == (units@[k as int].0@, units@[k as int].1@));
                assert(unitsv[k as int] == (u@, r@));
            }
            kr.put(g.clone(), u, r);
            proof {
                assert(unitsv.take(k as int + 1).drop_last() =~= unitsv.take(k as int));
                assert(unitsv.take(k as int + 1).last() == unitsv[k as int]);
            }
        }
        proof {
            assert(unitsv.take(m as int) =~= unitsv);
            assert(vecv.take(i as int + 1).drop_last() =~= vecv.take(i as int));
            assert(vecv.take(i as int + 1).last() == vecv[i as int]);
        }
    }
    proof {
        assert(vecv.take(n as int) =~= vecv);
    }
}

/// Fold a trace of single-record writes into the buffer, oldest first.
pub open spec fn coalesce_trace(
    m: Map<(Seq<char>, Seq<char>), RecView>,
    trace: Seq<((Seq<char>, Seq<char>), RecView)>,
) -> Map<(Seq<char>, Seq<char>), RecView>
    decreases trace.len(),
{
    if trace.len() == 0 {
        m
    } else {
        coalesce_trace(m, trace.drop_last()).insert(trace.last().0, trace.last().1)
    }
}

/// The most recent record a trace wrote for a key, if any.
pub open spec fn last_write(
    trace: Seq<((Seq<char>, Seq<char>), RecView)>,
    k: (Seq<char>, Seq<char>),
) -> Option<RecView>
    decreases trace.len(),
{
    if trace.len() == 0 {
        None
    } else if trace.last().0 == k {
        Some(trace.last().1)
    } else {
        last_write(trace.drop_last(), k)
    }
}

/// Last write wins: after a trace of single-record writes folds into the
/// buffer, each written key holds the most recent record written for it,
/// and a key nobody wrote keeps what the buffer started with.
pub proof fn lemma_coalesce_last_write_wins(
    m0: Map<(Seq<char>, Seq<char>), RecView>,
    trace: Seq<((Seq<char>, Seq<char>), RecView)>,
    k: (Seq<char>, Seq<char>),
)
    ensures
        match last_write(trace, k) {
            Some(r) => coalesce_trace(m0, trace).contains_key(k) && coalesce_trace(m0, trace)[k]
                == r,
            None => (coalesce_trace(m0, trace).contains_key(k) <==> m0.contains_key(k)) && (
            m0.contains_key(k) ==> coalesce_trace(m0, trace)[k] == m0[k]),
        },
    decreases trace.len(),
{
    if trace.len() > 0 {
        lemma_coalesce_last_write_wins(m0, trace.drop_last(), k);
    }
}

} // verus!
