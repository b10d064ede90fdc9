//! Trusted wrappers around the SQLite bindings.
//!
//! The ingest actor is the only writer of the store. Every call into
//! rusqlite goes through one of these wrappers; what comes back from disk is
//! handed to verified code as plain values. Nothing is promised of the
//! store's contents — the verified layer keeps its own in-memory mirror and
//! states its contracts over that.

use vstd::prelude::*;

verus! {

#[verifier::external_type_specification]
#[verifier::external_body]
pub struct ExConnection(rusqlite::Connection);

/// How an insert ended: a duplicate key is expected at startup and means
/// the row was already there.
pub(crate) enum InsertOutcome {
    Inserted,
    Duplicate,
    Failed,
}

/// Relies on rusqlite's Connection::execute: runs one parameterless
/// statement; `Ok` when SQLite accepted it.
#[verifier::external_body]
pub(crate) fn sql_exec(conn: &rusqlite::Connection, sql: &str) -> (r: Result<(), ()>) {
    conn.execute(sql, ()).map(|_| ()).map_err(|_| ())
}

/// Relies on rusqlite's Connection::execute: inserts a group row; the
/// SQLite constraint-violation error (extended code 2067, unique violated)
/// is told apart from other failures.
#[verifier::external_body]
pub(crate) fn sql_insert_group(conn: &rusqlite::Connection, id: u32, name: &str) -> (r: InsertOutcome) {
    match conn.execute("INSERT INTO groups (id, name) VALUES (?1, ?2)", (id, name)) {
        Ok(_) => InsertOutcome::Inserted,
        Err(rusqlite::Error::SqliteFailure(e, _)) if e.extended_code == 2067 => {
            InsertOutcome::Duplicate
        },
        Err(_) => InsertOutcome::Failed,
    }
}

/// Relies on rusqlite's Connection::execute: inserts a unit row; the unique
/// violation (extended code 2067) is told apart from other failures.
#[verifier::external_body]
pub(crate) fn sql_insert_unit(conn: &rusqlite::Connection, id: u32, id_group: u32, name: &str) -> (r:
    InsertOutcome) {
    match conn.execute(
        "INSERT INTO units (id, fk_unit_group, name) VALUES (?1, ?2, ?3)",
        (id, id_group, name),
    ) {
        Ok(_) => InsertOutcome::Inserted,
        Err(rusqlite::Error::SqliteFailure(e, _)) if e.extended_code == 2067 => {
            InsertOutcome::Duplicate
        },
        Err(_) => InsertOutcome::Failed,
    }
}

/// Relies on rusqlite's Statement::query: looks a group id up by name.
#[verifier::external_body]
pub(crate) fn sql_group_id(conn: &rusqlite::Connection, name: &str) -> (r: Result<Option<u32>, ()>) {
    let sql = "SELECT id FROM groups WHERE name = ?1 LIMIT 1";
    let mut stmt = conn.prepare(sql).map_err(|_| ())?;
    let mut rows = stmt.query((name,)).map_err(|_| ())?;
    match rows.next() {
        Ok(Some(row)) => row.get(0).map(Some).map_err(|_| ()),
        Ok(None) => Ok(None),
        Err(_) => Err(()),
    }
}

/// Relies on rusqlite's Statement::query: looks a unit id up by name within
/// a group.
#[verifier::external_body]
pub(crate) fn sql_unit_id(conn: &rusqlite::Connection, name: &str, id_group: u32) -> (r: Result<
    Option<u32>,
    (),
>) {
    let sql = "SELECT id FROM units WHERE name = ?1 AND fk_unit_group = ?2 LIMIT 1";
    let mut stmt = conn.prepare(sql).map_err(|_| ())?;
    let mut rows = stmt.query((name, id_group)).map_err(|_| ())?;
    match rows.next() {
        Ok(Some(row)) => row.get(0).map(Some).map_err(|_| ()),
        Ok(None) => Ok(None),
        Err(_) => Err(()),
    }
}

/// Relies on rusqlite's Statement::query: the largest group id in the store.
#[verifier::external_body]
pub(crate) fn sql_max_group_id(conn: &rusqlite::Connection) -> (r: Result<Option<u32>, ()>) {
    let sql = "SELECT id FROM groups ORDER BY id DESC LIMIT 1";
    let mut stmt = conn.prepare(sql).map_err(|_| ())?;
    let mut rows = stmt.query(()).map_err(|_| ())?;
    match rows.next() {
        Ok(Some(row)) => row.get(0).map(Some).map_err(|_| ()),
        Ok(None) => Ok(None),
        Err(_) => Err(()),
    }
}

/// Relies on rusqlite's Statement::query: the largest unit id in the store.
#[verifier::external_body]
pub(crate) fn sql_max_unit_id(conn: &rusqlite::Connection) -> (r: Result<Option<u32>, ()>) {
    let sql = "SELECT id FROM units ORDER BY id DESC LIMIT 1";
    let mut stmt = conn.prepare(sql).map_err(|_| ())?;
    let mut rows = stmt.query(()).map_err(|_| ())?;
    match rows.next() {
        Ok(Some(row)) => row.get(0).map(Some).map_err(|_| ()),
        Ok(None) => Ok(None),
        Err(_) => Err(()),
    }
}

/// Relies on rusqlite's Statement::query: the newest stored record of a
/// unit as plain columns `(id_record, time, type, val)`, if the unit has
/// any.
#[verifier::external_body]
pub(crate) fn sql_last_row(conn: &rusqlite::Connection, id_unit: u32) -> (r: Result<
    Option<(u64, i64, u8, Option<Vec<u8>>)>,
    (),
>) {
    let sql = "SELECT id_record, time, type, val FROM data WHERE fk_data_unit = ?1 ORDER BY id_record DESC LIMIT 1";
    let mut stmt = conn.prepare(sql).map_err(|_| ())?;
    let mut rows = stmt.query((id_unit,)).map_err(|_| ())?;
    match rows.next() {
        Ok(Some(row)) => match (row.get(0), row.get(1), row.get(2), row.get(3)) {
            (Ok(a), Ok(b), Ok(c), Ok(d)) => Ok(Some((a, b, c, d))),
            _ => Err(()),
        },
        Ok(None) => Ok(None),
        Err(_) => Err(()),
    }
}

/// Relies on rusqlite's Statement::query: how many records the store holds
/// for a unit.
#[verifier::external_body]
pub(crate) fn sql_count(conn: &rusqlite::Connection, id_unit: u32) -> (r: Result<u64, ()>) {
    let sql = "SELECT COUNT(*) FROM data WHERE fk_data_unit = ?1";
    let mut stmt = conn.prepare(sql).map_err(|_| ())?;
    let mut rows = stmt.query((id_unit,)).map_err(|_| ())?;
    match rows.next() {
        Ok(Some(row)) => row.get(0).map_err(|_| ()),
        _ => Err(()),
    }
}

/// Relies on rusqlite's Connection::execute: appends one record row; `Ok`
/// means the row is on disk.
#[verifier::external_body]
pub(crate) fn sql_push_record(
    conn: &rusqlite::Connection,
    id_unit: u32,
    id_record: u64,
    time: i64,
    upd_type: u8,
    val: Option<&[u8]>,
) -> (r: Result<(), ()>) {
    let sql =
        "INSERT INTO data (fk_data_unit, id_record, time, type, val) VALUES (?1, ?2, ?3, ?4, ?5)";
    conn.execute(sql, (id_unit, id_record, time, upd_type, val)).map(|_| ()).map_err(|_| ())
}

/// Relies on rusqlite's Statement::query: every stored record of a unit
/// whose id lies in `[idx_min, idx_max]`, as plain columns. The
/// statement's WHERE clause bounds every returned id by that range.
#[verifier::external_body]
pub(crate) fn sql_rows_range(conn: &rusqlite::Connection, id_unit: u32, idx_min: u64, idx_max: u64) -> (r:
    Result<Vec<(u64, i64, u8, Option<Vec<u8>>)>, ()>)
    ensures
        r matches Ok(rows) ==> forall|i: int|
            0 <= i < rows@.len() ==> idx_min <= (#[trigger] rows@[i]).0 <= idx_max,
{
    let sql =
        "SELECT id_record, time, type, val FROM data WHERE fk_data_unit = ?1 AND id_record >= ?2 AND id_record <= ?3";
    let mut stmt = conn.prepare(sql).map_err(|_| ())?;
    let mut rows = stmt.query((id_unit, idx_min, idx_max)).map_err(|_| ())?;
    let mut out = Vec::new();
    loop {
        match rows.next() {
            Ok(Some(row)) => match (row.get(0), row.get(1), row.get(2), row.get(3)) {
                (Ok(a), Ok(b), Ok(c), Ok(d)) => out.push((a, b, c, d)),
                _ => return Err(()),
            },
            Ok(None) => return Ok(out),
            Err(_) => return Err(()),
        }
    }
}

/// Relies on rusqlite's Connection::execute: deletes the `count` oldest
/// rows of a unit, by rowid; `Ok` means the delete ran.
#[verifier::external_body]
pub(crate) fn sql_trim_oldest(conn: &rusqlite::Connection, id_unit: u32, count: u64) -> (r: Result<
    (),
    (),
>) {
    let sql =
        "DELETE FROM data WHERE rowid IN (SELECT rowid FROM data WHERE fk_data_unit = ?1 ORDER BY rowid ASC LIMIT ?2)";
    conn.execute(sql, (id_unit, count)).map(|_| ()).map_err(|_| ())
}

} // verus!
