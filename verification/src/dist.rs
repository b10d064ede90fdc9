//! The subscriber distribution tables and the broker state machine.
//!
//! Each configured group is one broker, numbered at boot. A published
//! message is routed by its topic to that broker's unit; a broker going
//! online or offline fills every unit of its group with the status. The
//! MQTT client itself runs outside and hands events in as plain values.

use vstd::prelude::*;

use crate::config::ConfigServeGroup;
use crate::dataflow::{Data, DataView, Group, Unit, Update, UpdateView, Value};
use crate::idmap::IdMap;

verus! {

/// One subscribed unit of a broker.
pub struct DistUnit {
    pub unit: Unit,
    pub qos: u8,
}

/// One broker: its group and its units keyed by topic, in configuration
/// order.
pub struct StateGroup {
    pub group: Group,
    pub map_unit: Vec<(String, DistUnit)>,
}

/// The first unit a topic maps to.
pub open spec fn topic_unit(s: Seq<(String, DistUnit)>, t: Seq<char>) -> Option<DistUnit>
    decreases s.len(),
{
    if s.len() == 0 {
        None
    } else if s[0].0@ == t {
        Some(s[0].1)
    } else {
        topic_unit(s.drop_first(), t)
    }
}

/// The distribution tables: broker id to group state.
pub struct Dist {
    map: IdMap<StateGroup>,
}

impl Dist {
    pub closed spec fn brokers(&self) -> Map<u32, StateGroup> {
        self.map.m()
    }

    pub closed spec fn wf(&self) -> bool {
        self.map.wf()
    }

    /// Number the configured groups as brokers, zero up, in configuration
    /// order: broker `k` carries group `k`'s name and its units keyed by
    /// topic, in unit order. No other broker exists.
    pub fn new(cfg_groups: &Vec<(String, ConfigServeGroup)>) -> (r: Self)
        ensures
            r.wf(),
            forall|k: int|
                0 <= k < cfg_groups@.len() && k < u32::MAX ==> r.brokers().contains_key(
                    #[trigger] (k as u32),
                ) && r.brokers()[k as u32].group@ == cfg_groups@[k].0@ && r.brokers()[
                    k as u32].map_unit@.len() == cfg_groups@[k].1.units@.len() && (forall|j: int|
                    0 <= j < cfg_groups@[k].1.units@.len() ==> (#[trigger] r.brokers()[
                        k as u32].map_unit@[j]).0@ == cfg_groups@[k].1.units@[j].1.topic@
                        && r.brokers()[k as u32].map_unit@[j].1.unit@ == cfg_groups@[
                        k].1.units@[j].0@ && r.brokers()[k as u32].map_unit@[j].1.qos
                        == cfg_groups@[k].1.units@[j].1.qos),
            forall|id: u32| #[trigger] r.brokers().contains_key(id) ==> (id as int)
                < cfg_groups@.len() && id < u32::MAX,
    {
        let mut map: IdMap<StateGroup> = IdMap::new();
        let n = cfg_groups.len();
        let mut idx: u32 = 0;
        for i in 0..n
            invariant
                n == cfg_groups@.len(),
                map.wf(),
                idx as int == if i <= u32::MAX as int {
                    i as int
                } else {
                    u32::MAX as int
                },
                forall|id: u32| #[trigger] map.m().contains_key(id) ==> (id as int) < i && id
                    < u32::MAX,
                forall|k: int|
                    0 <= k < i && k < u32::MAX ==> map.m().contains_key(#[trigger] (k as u32))
                        && map.m()[k as u32].group@ == cfg_groups@[k].0@ && map.m()[
                        k as u32].map_unit@.len() == cfg_groups@[k].1.units@.len() && (forall|
                        j: int,
                    |
                        0 <= j < cfg_groups@[k].1.units@.len() ==> (#[trigger] map.m()[
                            k as u32].map_unit@[j]).0@ == cfg_groups@[k].1.units@[j].1.topic@
                            && map.m()[k as u32].map_unit@[j].1.unit@ == cfg_groups@[
                            k].1.units@[j].0@ && map.m()[k as u32].map_unit@[j].1.qos
                            == cfg_groups@[k].1.units@[j].1.qos),
        {
            if idx < u32::MAX {
                let group_name = &cfg_groups[i].0;
                let units = &cfg_groups[i].1.units;
                let mut map_unit: Vec<(String, DistUnit)> = Vec::new();
                let m = units.len();
                for j in 0..m
                    invariant
                        m == units@.len(),
                        i < n,
                        n == cfg_groups@.len(),
                        *units == cfg_groups@[i as int].1.units,
                        map_unit@.len() == j,
                        forall|q: int| 0 <= q < j ==> (#[trigger] map_unit@[q]).0@ == units@[
                            q].1.topic@ && map_unit@[q].1.unit@ == units@[q].0@ && map_unit@[
                            q].1.qos == units@[q].1.qos,
                {
                    let topic = units[j].1.topic.clone();
                    let unit = Unit::new(units[j].0.clone());
                    let qos = units[j].1.qos;
                    map_unit.push((topic, DistUnit { unit, qos }));
                }
                let state = StateGroup { group: Group::new(group_name.clone()), map_unit };
                let ghost m0 = map.m();
                map.push_new(idx, state);
                proof {
                    assert(map.m()[idx] == state);
                    assert forall|id: u32| #[trigger] map.m().contains_key(id) implies (id as int)
                        < i + 1 && id < u32::MAX by {
                        assert(map.m() =~= m0.insert(idx, state));
                        if id != idx {
                            assert(m0.contains_key(id));
                        }
                    };
                    assert forall|k: int|
                        0 <= k < i + 1 && k < u32::MAX implies map.m().contains_key(
                        #[trigger] (k as u32),
                    ) && map.m()[k as u32].group@ == cfg_groups@[k].0@ && map.m()[
                        k as u32].map_unit@.len() == cfg_groups@[k].1.units@.len() && (forall|
                        j: int,
                    |
                        0 <= j < cfg_groups@[k].1.units@.len() ==> (#[trigger] map.m()[
                            k as u32].map_unit@[j]).0@ == cfg_groups@[k].1.units@[j].1.topic@
                            && map.m()[k as u32].map_unit@[j].1.unit@ == cfg_groups@[
                            k].1.units@[j].0@ && map.m()[k as u32].map_unit@[j].1.qos
                            == cfg_groups@[k].1.units@[j].1.qos) by {
                        if k == i {
                            assert((k as u32) == idx);
                            assert(map.m()[k as u32] == state);
                        } else {
                            assert((k as u32) != idx);
                            assert(map.m()[k as u32] == m0[k as u32]);
                        }
                    };
                }
                idx = idx + 1;
            }
        }
        Dist { map }
    }

    /// A message arrived from a broker: when its topic names one of the
    /// broker's units, it becomes one value update for that unit.
    pub fn serve_data(&self, id_broker: u32, topic: &String, message: Vec<u8>) -> (r: Option<
        Data<Update>,
    >)
        requires
            self.wf(),
        ensures
            r is Some <==> self.brokers().contains_key(id_broker) && topic_unit(
                self.brokers()[id_broker].map_unit@,
                topic@,
            ) is Some,
            match r {
                Some(d) => match d@ {
                    DataView::Single { group, unit, update } => group
                        == self.brokers()[id_broker].group@ && Some(unit) == match topic_unit(
                        self.brokers()[id_broker].map_unit@,
                        topic@,
                    ) {
                        Some(du) => Some(du.unit@),
                        None => None,
                    } && update == UpdateView::Value(message@),
                    _ => false,
                },
                None => true,
            },
    {
        let state = match self.map.get(id_broker) {
            Some(state) => state,
            None => {
                return None;
            },
        };
        let n = state.map_unit.len();
        proof {
            assert(state.map_unit@.skip(0) =~= state.map_unit@);
        }
        for i in 0..n
            invariant
                n == state.map_unit@.len(),
                self.wf(),
                self.brokers().contains_key(id_broker),
                self.brokers()[id_broker] == *state,
                topic_unit(state.map_unit@, topic@) == topic_unit(
                    state.map_unit@.skip(i as int),
                    topic@,
                ),
        {
            proof {
                assert(state.map_unit@.skip(i as int)[0] == state.map_unit@[i as int]);
            }
            if state.map_unit[i].0 == *topic {
                let du = &state.map_unit[i].1;
                return Some(
                    Data::Single {
                        group: state.group.clone(),
                        unit: du.unit.clone(),
                        update: Update::Value { value: Value::new(message) },
                    },
                );
            }
            proof {
                assert(state.map_unit@.skip(i as int).drop_first() =~= state.map_unit@.skip(
                    i as int + 1,
                ));
            }
        }
        proof {
            assert(state.map_unit@.skip(n as int) =~= Seq::<(String, DistUnit)>::empty());
        }
        None
    }

    /// A broker's status changed: fill every unit of its group with the
    /// status update.
    pub fn serve_broker_fill(&self, id_broker: u32, update: &Update) -> (r: Option<Data<Update>>)
        requires
            self.wf(),
        ensures
            r is Some <==> self.brokers().contains_key(id_broker),
            match r {
                Some(d) => match d@ {
                    DataView::Multi { vec } => vec.len() == 1 && vec[0].0
                        == self.brokers()[id_broker].group@ && vec[0].1.len()
                        == self.brokers()[id_broker].map_unit@.len() && (forall|j: int|
                        0 <= j < vec[0].1.len() ==> (#[trigger] vec[0].1[j]).0
                            == self.brokers()[id_broker].map_unit@[j].1.unit@ && vec[0].1[j].1
                            == update@),
                    _ => false,
                },
                None => true,
            },
    {
        let state = match self.map.get(id_broker) {
            Some(state) => state,
            None => {
                return None;
            },
        };
        let mut updates: Vec<(Unit, Update)> = Vec::new();
        let n = state.map_unit.len();
        for i in 0..n
            invariant
                n == state.map_unit@.len(),
                self.wf(),
                self.brokers().contains_key(id_broker),
                self.brokers()[id_broker] == *state,
                updates@.len() == i,
                forall|j: int| 0 <= j < i ==> (#[trigger] updates@[j]).0@
                    == state.map_unit@[j].1.unit@ && updates@[j].1@ == update@,
        {
            updates.push((state.map_unit[i].1.unit.clone(), update.clone()));
        }
        let mut vec: Vec<(Group, Vec<(Unit, Update)>)> = Vec::new();
        vec.push((state.group.clone(), updates));
        let d = Data::Multi { vec };
        proof {
            let vv = vec@.map_values(
                |p: (Group, Vec<(Unit, Update)>)|
                    (p.0@, p.1@.map_values(|q: (Unit, Update)| (q.0@, q.1@))),
            );
            assert(vv.len() == 1);
            assert(vv[0].0 == state.group@);
        }
        Some(d)
    }
}

/// The broker link's liveness state, fed by the MQTT event loop.
pub struct SubState {
    is_online: bool,
}

/// What the event loop hands in, as plain values.
pub enum SubEvent {
    Publish { topic: String, payload: Vec<u8> },
    Disconnect,
    OtherIncoming,
    ConnError,
}

/// What the link tells the distribution tables.
pub enum SubAction {
    SendOnline,
    SendOffline,
    SendData { topic: String, payload: Vec<u8> },
}

impl SubState {
    pub closed spec fn online(&self) -> bool {
        self.is_online
    }

    pub fn new() -> (r: Self)
        ensures
            !r.online(),
    {
        SubState { is_online: false }
    }

    pub fn set_online(&mut self)
        ensures
            final(self).online(),
    {
        self.is_online = true;
    }

    /// One event from the broker: a publish forwards its message (going
    /// online first if the link was down); a disconnect or a connection
    /// error takes the link offline once; any other incoming traffic
    /// brings it online once.
    pub fn on_event(&mut self, ev: SubEvent) -> (r: Vec<SubAction>)
        ensures
            match ev {
                SubEvent::Publish { topic, payload } => final(self).online() && if old(
                    self,
                ).online() {
                    r@.len() == 1 && (r@[0] matches SubAction::SendData { topic: t, payload: p }
                        && t@ == topic@ && p@ == payload@)
                } else {
                    r@.len() == 2 && r@[0] is SendOnline && (r@[1] matches SubAction::SendData {
                        topic: t,
                        payload: p,
                    } && t@ == topic@ && p@ == payload@)
                },
                SubEvent::Disconnect | SubEvent::ConnError => !final(self).online() && if old(
                    self,
                ).online() {
                    r@.len() == 1 && r@[0] is SendOffline
                } else {
                    r@.len() == 0
                },
                SubEvent::OtherIncoming => final(self).online() && if old(self).online() {
                    r@.len() == 0
                } else {
                    r@.len() == 1 && r@[0] is SendOnline
                },
            },
    {
        let mut out: Vec<SubAction> = Vec::new();
        match ev {
            SubEvent::Publish { topic, payload } => {
                if !self.is_online {
                    self.is_online = true;
                    out.push(SubAction::SendOnline);
                }
                out.push(SubAction::SendData { topic, payload });
            },
            SubEvent::Disconnect => {
                if self.is_online {
                    self.is_online = false;
                    out.push(SubAction::SendOffline);
                }
            },
            SubEvent::OtherIncoming => {
                if !self.is_online {
                    self.is_online = true;
                    out.push(SubAction::SendOnline);
                }
            },
            SubEvent::ConnError => {
                if self.is_online {
                    self.is_online = false;
                    out.push(SubAction::SendOffline);
                }
            },
        }
        out
    }
}

} // verus!
