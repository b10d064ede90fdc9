//! The HTTP facade's value models: what crosses the control plane, and
//! the checks it applies before handing work to the actors.

use vstd::prelude::*;

use crate::conn::DtoUpdate as DtoUpdateWire;
use crate::dataflow::{Group, Record, Unit, Update};

verus! {

/// The session introducer: what `POST /login` returns, base64-wrapped.
pub struct Sess {
    pub login: String,
    pub token: String,
}

/// A login request body.
pub struct Auth {
    pub login: String,
    pub password: String,
}

/// A history query: an inclusive id range for one unit.
pub struct QueryHist {
    pub min: u64,
    pub max: u64,
    pub group: Group,
    pub unit: Unit,
}

/// One record as the history endpoint returns it: without group and unit,
/// which the query already names.
pub struct DtoRecord {
    pub id: u64,
    pub time: i64,
    pub update: DtoUpdate,
}

/// One update as the history endpoint returns it.
pub enum DtoUpdate {
    Offline,
    Online,
    Value { v: String },
}

/// What an update looks like in a history reply.
pub open spec fn hist_update_of(u: crate::dataflow::UpdateView, d: DtoUpdate) -> bool {
    match (u, d) {
        (crate::dataflow::UpdateView::Offline, DtoUpdate::Offline) => true,
        (crate::dataflow::UpdateView::Online, DtoUpdate::Online) => true,
        (crate::dataflow::UpdateView::Value(bytes), DtoUpdate::Value { v }) => v@
            == crate::dataflow::base64_of(bytes),
        _ => false,
    }
}

impl DtoUpdate {
    pub fn new(update: Update) -> (r: Self)
        ensures
            hist_update_of(update@, r),
    {
        match update {
            Update::Online => DtoUpdate::Online,
            Update::Offline => DtoUpdate::Offline,
            Update::Value { value } => DtoUpdate::Value { v: value.into_base64() },
        }
    }
}

impl DtoRecord {
    pub fn new(record: Record<Update>) -> (r: Self)
        ensures
            r.id == record.id,
            r.time == record.time,
            hist_update_of(record.val@, r.update),
    {
        DtoRecord { id: record.id, time: record.time, update: DtoUpdate::new(record.val) }
    }
}

/// The error kinds the control plane surfaces.
#[derive(Debug, PartialEq, Eq, Structural)]
pub enum ErrorServer {
    Unauthorized,
    BadRequest,
    InternalServerError,
    NotFound,
}

impl ErrorServer {
    /// The HTTP status code each kind is surfaced as.
    pub fn status(&self) -> (r: u16)
        ensures
            r == match self {
                ErrorServer::Unauthorized => 401u16,
                ErrorServer::BadRequest => 400u16,
                ErrorServer::InternalServerError => 500u16,
                ErrorServer::NotFound => 404u16,
            },
    {
        match self {
            ErrorServer::Unauthorized => 401,
            ErrorServer::BadRequest => 400,
            ErrorServer::InternalServerError => 500,
            ErrorServer::NotFound => 404,
        }
    }
}

/// A resolved path stays under its base directory: the base is a byte
/// prefix and, unless the two are equal, the next byte starts a new
/// component.
pub fn path_within(path: &[u8], base: &[u8]) -> (r: bool)
    ensures
        r == (path@.len() >= base@.len() && path@.subrange(0, base@.len() as int) == base@ && (
        path@.len() == base@.len() || path@[base@.len() as int] == 47)),
{
    if path.len() < base.len() {
        return false;
    }
    let n = base.len();
    for i in 0..n
        invariant
            n == base@.len(),
            n <= path@.len(),
            forall|j: int| 0 <= j < i ==> path@[j] == base@[j],
    {
        if path[i] != base[i] {
            proof {
                assert(path@.subrange(0, n as int)[i as int] != base@[i as int]);
            }
            return false;
        }
    }
    proof {
        assert(path@.subrange(0, n as int) =~= base@);
    }
    if path.len() == base.len() {
        true
    } else {
        path[n] == 47
    }
}

/// Accept a history range: the bounds must be ordered and span fewer than
/// one hundred ids; anything else is a bad request.
pub fn handle_min_max(min: u64, max: u64) -> (r: Result<(u64, u64), ErrorServer>)
    ensures
        r is Ok <==> min <= max && max - min < 100,
        match r {
            Ok(p) => p == (min, max),
            Err(e) => e == ErrorServer::BadRequest,
        },
{
    if max >= min && max - min < 100 {
        Ok((min, max))
    } else {
        Err(ErrorServer::BadRequest)
    }
}

} // verus!
