//! The per-connection actor's decision core and its wire models.
//!
//! A connection streams records to one WebSocket client and runs an
//! application-layer heartbeat: it pings with a monotonically increasing
//! counter and closes when the client's latest pong does not match the
//! current ping by the next tick. The socket, the timers and the JSON
//! framing live outside; here are the ping state machine and the exact
//! shapes that cross the wire.

use vstd::prelude::*;

use crate::dataflow::{base64_of, Group, Record, Unit, Update};

verus! {

/// A client frame: the only thing a client sends after the introducer.
pub enum Input {
    Pong { val: u64 },
}

/// A server frame: the connect snapshot, a ping, or a data batch.
pub enum Output {
    CtrlConnected { map: Vec<(Group, Vec<(Unit, Option<Record<Update>>)>)> },
    CtrlPing { val: u64 },
    Data { data: Vec<DtoRecord> },
}

/// One record as the client sees it.
pub struct DtoRecord {
    pub id: u64,
    pub time: i64,
    pub group: String,
    pub unit: String,
    pub update: DtoUpdate,
}

/// One update as the client sees it: a value travels base64-encoded.
pub enum DtoUpdate {
    Offline,
    Online,
    Value { v: String },
}

/// What an update looks like on the wire.
pub open spec fn dto_update_of(u: crate::dataflow::UpdateView, d: DtoUpdate) -> bool {
    match (u, d) {
        (crate::dataflow::UpdateView::Offline, DtoUpdate::Offline) => true,
        (crate::dataflow::UpdateView::Online, DtoUpdate::Online) => true,
        (crate::dataflow::UpdateView::Value(bytes), DtoUpdate::Value { v }) => v@ == base64_of(
            bytes,
        ),
        _ => false,
    }
}

impl DtoUpdate {
    pub fn new(update: Update) -> (r: Self)
        ensures
            dto_update_of(update@, r),
    {
        match update {
            Update::Online => DtoUpdate::Online,
            Update::Offline => DtoUpdate::Offline,
            Update::Value { value } => DtoUpdate::Value { v: value.into_base64() },
        }
    }
}

impl DtoRecord {
    pub fn new(group: Group, unit: Unit, record: Record<Update>) -> (r: Self)
        ensures
            r.id == record.id,
            r.time == record.time,
            r.group@ == group@,
            r.unit@ == unit@,
            dto_update_of(record.val@, r.update),
    {
        DtoRecord {
            id: record.id,
            time: record.time,
            group: group.into_string(),
            unit: unit.into_string(),
            update: DtoUpdate::new(record.val),
        }
    }
}

/// The heartbeat state of one connection: the current ping counter and
/// the latest pong the client sent.
pub struct ConnState {
    ping: u64,
    pong: Option<u64>,
}

impl ConnState {
    pub closed spec fn ping_v(&self) -> u64 {
        self.ping
    }

    pub closed spec fn pong_v(&self) -> Option<u64> {
        self.pong
    }

    /// A fresh connection has sent ping zero and heard nothing yet.
    pub fn new() -> (r: Self)
        ensures
            r.ping_v() == 0,
            r.pong_v() is None,
    {
        ConnState { ping: 0, pong: None }
    }

    /// The client ponged.
    pub fn on_pong(&mut self, val: u64)
        ensures
            final(self).pong_v() == Some(val),
            final(self).ping_v() == old(self).ping_v(),
    {
        self.pong = Some(val);
    }

    /// The heartbeat ticked. When the latest pong matches the current
    /// ping, the counter advances and the new ping is sent; on any
    /// mismatch — a stale pong, no pong at all, or an exhausted counter —
    /// the connection closes.
    pub fn on_tick(&mut self) -> (r: Option<u64>)
        ensures
            r is Some <==> old(self).pong_v() == Some(old(self).ping_v()) && old(self).ping_v()
                < u64::MAX,
            match r {
                Some(next) => next == old(self).ping_v() + 1 && final(self).ping_v() == next
                    && final(self).pong_v() is None,
                None => *final(self) == *old(self),
            },
    {
        if let Some(pong) = self.pong {
            if pong == self.ping && self.ping < u64::MAX {
                self.pong = None;
                self.ping = self.ping + 1;
                return Some(self.ping);
            }
        }
        None
    }
}

/// Turn a delivered batch into the wire records of one data frame.
pub fn dto_records_of(entries: Vec<(Group, Unit, Record<Update>)>) -> (r: Vec<DtoRecord>)
    ensures
        r@.len() == entries@.len(),
        forall|i: int| 0 <= i < entries@.len() ==> {
            let d = #[trigger] r@[i];
            &&& d.id == entries@[i].2.id
            &&& d.time == entries@[i].2.time
            &&& d.group@ == entries@[i].0@
            &&& d.unit@ == entries@[i].1@
            &&& dto_update_of(entries@[i].2.val@, d.update)
        },
{
    let ghost ev = entries@;
    let mut out: Vec<DtoRecord> = Vec::new();
    let n = entries.len();
    let mut entries = entries;
    let mut i: usize = 0;
    while i < n
        invariant
            n == ev.len(),
            0 <= i <= n,
            entries@ =~= ev.skip(i as int),
            out@.len() == i,
            forall|a: int| 0 <= a < i ==> {
                let d = #[trigger] out@[a];
                &&& d.id == ev[a].2.id
                &&& d.time == ev[a].2.time
                &&& d.group@ == ev[a].0@
                &&& d.unit@ == ev[a].1@
                &&& dto_update_of(ev[a].2.val@, d.update)
            },
        decreases n - i,
    {
        let (g, u, rec) = entries.remove(0);
        proof {
            assert(ev.skip(i as int)[0] == ev[i as int]);
            assert(entries@ =~= ev.skip(i as int + 1));
        }
        out.push(DtoRecord::new(g, u, rec));
        i = i + 1;
    }
    out
}

} // verus!
