//! Domain model: groups, units, payload values, updates, records and the
//! shapes data travels in between the actors.

use vstd::prelude::*;

verus! {

/// A named logical bucket of telemetry channels.
#[derive(Debug)]
pub struct Group {
    val: String,
}

impl View for Group {
    type V = Seq<char>;

    closed spec fn view(&self) -> Seq<char> {
        self.val@
    }
}

impl Clone for Group {
    fn clone(&self) -> (r: Self)
        ensures
            r == *self,
    {
        Group { val: self.val.clone() }
    }
}

impl PartialEq for Group {
    fn eq(&self, other: &Self) -> (r: bool) {
        self.val == other.val
    }
}

impl vstd::std_specs::cmp::PartialEqSpecImpl for Group {
    open spec fn obeys_eq_spec() -> bool {
        true
    }

    open spec fn eq_spec(&self, other: &Self) -> bool {
        self@ == other@
    }
}

impl Group {
    pub fn new(val: String) -> (r: Self)
        ensures
            r@ == val@,
    {
        Group { val }
    }

    pub fn into_string(self) -> (r: String)
        ensures
            r@ == self@,
    {
        self.val
    }

    pub fn to_str(&self) -> (r: &str)
        ensures
            r@ == self@,
    {
        self.val.as_str()
    }

    pub fn as_name(&self) -> (r: &String)
        ensures
            r@ == self@,
    {
        &self.val
    }
}

/// A named channel within a `Group`.
#[derive(Debug)]
pub struct Unit {
    val: String,
}

impl View for Unit {
    type V = Seq<char>;

    closed spec fn view(&self) -> Seq<char> {
        self.val@
    }
}

impl Clone for Unit {
    fn clone(&self) -> (r: Self)
        ensures
            r == *self,
    {
        Unit { val: self.val.clone() }
    }
}

impl PartialEq for Unit {
    fn eq(&self, other: &Self) -> (r: bool) {
        self.val == other.val
    }
}

impl vstd::std_specs::cmp::PartialEqSpecImpl for Unit {
    open spec fn obeys_eq_spec() -> bool {
        true
    }

    open spec fn eq_spec(&self, other: &Self) -> bool {
        self@ == other@
    }
}

impl Unit {
    pub fn new(val: String) -> (r: Self)
        ensures
            r@ == val@,
    {
        Unit { val }
    }

    pub fn into_string(self) -> (r: String)
        ensures
            r@ == self@,
    {
        self.val
    }

    pub fn to_str(&self) -> (r: &str)
        ensures
            r@ == self@,
    {
        self.val.as_str()
    }

    pub fn as_name(&self) -> (r: &String)
        ensures
            r@ == self@,
    {
        &self.val
    }
}

/// What `base64::encode` returns on the given bytes.
pub uninterp spec fn base64_of(b: Seq<u8>) -> Seq<char>;

/// Relies on base64::encode (standard alphabet, padded): the encoding is a
/// function of the input bytes alone, and the empty input encodes to the
/// empty string.
#[verifier::external_body]
fn b64_encode(b: &[u8]) -> (r: String)
    ensures
        r@ == base64_of(b@),
        b@.len() == 0 ==> r@.len() == 0,
{
    base64::encode(b)
}

/// An opaque byte payload carried by a telemetry update.
#[derive(Debug)]
pub struct Value {
    bytes: Vec<u8>,
}

impl View for Value {
    type V = Seq<u8>;

    closed spec fn view(&self) -> Seq<u8> {
        self.bytes@
    }
}

impl Clone for Value {
    fn clone(&self) -> (r: Self)
        ensures
            r@ == self@,
    {
        Value { bytes: self.bytes.clone() }
    }
}

impl Value {
    pub fn new(bytes: Vec<u8>) -> (r: Self)
        ensures
            r@ == bytes@,
    {
        Value { bytes }
    }

    pub fn as_bytes(&self) -> (r: &[u8])
        ensures
            r@ == self@,
    {
        self.bytes.as_slice()
    }

    pub fn into_base64(self) -> (r: String)
        ensures
            r@ == base64_of(self@),
    {
        b64_encode(self.bytes.as_slice())
    }
}

/// One telemetry event of a unit.
#[derive(Debug)]
pub enum Update {
    Online,
    Offline,
    Value { value: Value },
}

/// The mathematical shape of an `Update`: the payload as a byte sequence.
pub enum UpdateView {
    Online,
    Offline,
    Value(Seq<u8>),
}

impl View for Update {
    type V = UpdateView;

    open spec fn view(&self) -> UpdateView {
        match self {
            Update::Online => UpdateView::Online,
            Update::Offline => UpdateView::Offline,
            Update::Value { value } => UpdateView::Value(value@),
        }
    }
}

impl Clone for Update {
    fn clone(&self) -> (r: Self)
        ensures
            r@ == self@,
    {
        match self {
            Update::Online => Update::Online,
            Update::Offline => Update::Offline,
            Update::Value { value } => Update::Value { value: value.clone() },
        }
    }
}

/// The stored form of an update: the type code and the payload bytes that
/// `to_ser` emits.
pub open spec fn ser_parts_of(u: UpdateView, t: u8, b: Option<Seq<u8>>) -> bool {
    match u {
        UpdateView::Offline => t == 0 && b is None,
        UpdateView::Online => t == 1 && b is None,
        UpdateView::Value(bytes) => t == 2 && b == Some(bytes),
    }
}

/// The update a stored type code and payload decode to: unknown codes decode
/// as values, a missing payload as the empty one.
pub open spec fn decodes_to(t: u8, b: Option<Seq<u8>>, u: UpdateView) -> bool {
    if t == 0 {
        u == UpdateView::Offline
    } else if t == 1 {
        u == UpdateView::Online
    } else {
        u == UpdateView::Value(
            match b {
                Some(s) => s,
                None => Seq::<u8>::empty(),
            },
        )
    }
}

impl Update {
    /// The stored form: type code and payload bytes.
    pub fn to_ser(&self) -> (r: (u8, Option<&[u8]>))
        ensures
            ser_parts_of(self@, r.0, match r.1 {
                Some(s) => Some(s@),
                None => None,
            }),
    {
        match self {
            Update::Offline => (0, None),
            Update::Online => (1, None),
            Update::Value { value } => (2, Some(value.as_bytes())),
        }
    }

    /// Rebuild an update from its stored form.
    pub fn from_ser(upd_type: u8, upd_bytes: Option<Vec<u8>>) -> (r: Self)
        ensures
            decodes_to(upd_type, match upd_bytes {
                Some(b) => Some(b@),
                None => None,
            }, r@),
    {
        match upd_type {
            0 => Update::Offline,
            1 => Update::Online,
            _ => match upd_bytes {
                Some(b) => Update::Value { value: Value::new(b) },
                None => Update::Value { value: Value::new(Vec::new()) },
            },
        }
    }
}

/// Round trip: decoding what an update encodes to gives the update back —
/// the same variant for Online and Offline, and for Value the same bytes.
pub proof fn lemma_update_ser_round_trip(u: UpdateView, t: u8, b: Option<Seq<u8>>, u2: UpdateView)
    requires
        ser_parts_of(u, t, b),
        decodes_to(t, b, u2),
    ensures
        u2 == u,
{
}

/// Relies on chrono's Utc::now: the wall clock in epoch milliseconds.
/// Nothing is promised of the value.
#[verifier::external_body]
pub(crate) fn now_millis() -> i64 {
    chrono::offset::Utc::now().timestamp_millis()
}

/// An immutable ingested event.
#[derive(Debug)]
pub struct Record<T> {
    pub is_saved: bool,
    pub id: u64,
    pub time: i64,
    pub val: T,
}

/// The mathematical shape of a `Record`.
pub struct RecordView<TV> {
    pub is_saved: bool,
    pub id: u64,
    pub time: i64,
    pub val: TV,
}

impl<T: View> View for Record<T> {
    type V = RecordView<T::V>;

    open spec fn view(&self) -> RecordView<T::V> {
        RecordView { is_saved: self.is_saved, id: self.id, time: self.time, val: self.val@ }
    }
}

impl<T> Record<T> {
    /// A fresh, not yet persisted record stamped with the current time.
    pub fn establish_now(id: u64, val: T) -> (r: Self)
        ensures
            r.id == id,
            r.val == val,
            !r.is_saved,
    {
        Record { id, val, is_saved: false, time: now_millis() }
    }
}

impl Clone for Record<Update> {
    fn clone(&self) -> (r: Self)
        ensures
            r@ == self@,
    {
        Record { is_saved: self.is_saved, id: self.id, time: self.time, val: self.val.clone() }
    }
}

/// How updates travel: one keyed event, or a batch grouped by group.
#[derive(Debug)]
pub enum Data<T> {
    Single { group: Group, unit: Unit, update: T },
    Multi { vec: Vec<(Group, Vec<(Unit, T)>)> },
}

/// The mathematical shape of a `Data`.
pub enum DataView<TV> {
    Single { group: Seq<char>, unit: Seq<char>, update: TV },
    Multi { vec: Seq<(Seq<char>, Seq<(Seq<char>, TV)>)> },
}

impl<T: View> View for Data<T> {
    type V = DataView<T::V>;

    open spec fn view(&self) -> DataView<T::V> {
        match self {
            Data::Single { group, unit, update } => DataView::Single {
                group: group@,
                unit: unit@,
                update: update@,
            },
            Data::Multi { vec } => DataView::Multi {
                vec: vec@.map_values(
                    |p: (Group, Vec<(Unit, T)>)|
                        (p.0@, p.1@.map_values(|q: (Unit, T)| (q.0@, q.1@))),
                ),
            },
        }
    }
}

impl Clone for Data<Record<Update>> {
    fn clone(&self) -> (r: Self)
        ensures
            r@ == self@,
    {
        match self {
            Data::Single { group, unit, update } => Data::Single {
                group: group.clone(),
                unit: unit.clone(),
                update: update.clone(),
            },
            Data::Multi { vec } => {
                let mut out: Vec<(Group, Vec<(Unit, Record<Update>)>)> = Vec::new();
                let n = vec.len();
                for i in 0..n
                    invariant
                        n == vec@.len(),
                        out@.len() == i,
                        forall|j: int| 0 <= j < i ==> (#[trigger] out@[j]).0@ == vec@[j].0@
                            && out@[j].1@.map_values(|q: (Unit, Record<Update>)| (q.0@, q.1@))
                                == vec@[j].1@.map_values(
                                    |q: (Unit, Record<Update>)| (q.0@, q.1@)),
                {
                    let (g, inner) = &vec[i];
                    let mut inner_out: Vec<(Unit, Record<Update>)> = Vec::new();
                    let m = inner.len();
                    for k in 0..m
                        invariant
                            m == inner@.len(),
                            inner_out@.len() == k,
                                forall|j: int| 0 <= j < k ==> (#[trigger] inner_out@[j]).0@
                                == inner@[j].0@ && inner_out@[j].1@ == inner@[j].1@,
                    {
                        let (u, rec) = &inner[k];
                        inner_out.push((u.clone(), rec.clone()));
                    }
                    proof {
                        assert(inner_out@.map_values(|q: (Unit, Record<Update>)| (q.0@, q.1@))
                            =~= inner@.map_values(|q: (Unit, Record<Update>)| (q.0@, q.1@)));
                    }
                    out.push((g.clone(), inner_out));
                }
                let r = Data::Multi { vec: out };
                proof {
                    assert(out@.map_values(
                        |p: (Group, Vec<(Unit, Record<Update>)>)|
                            (p.0@, p.1@.map_values(|q: (Unit, Record<Update>)| (q.0@, q.1@))))
                        =~= vec@.map_values(
                        |p: (Group, Vec<(Unit, Record<Update>)>)|
                            (p.0@, p.1@.map_values(|q: (Unit, Record<Update>)| (q.0@, q.1@)))));
                }
                r
            },
        }
    }
}

} // verus!
