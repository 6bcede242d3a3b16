//! The durable layer: a relational store kept behind trusted calls. The
//! engine treats it as a write-through mirror of its verified in-memory
//! history; every row the engine retains is inserted here, every pruned row
//! deleted, and on startup the mirror's rows are read back and revalidated
//! by verified code before anything is trusted.

use crate::errors::StoreError;
use rusqlite::Connection;
use vstd::prelude::*;

verus! {

#[verifier::external_type_specification]
#[verifier::external_body]
pub struct ExConnection(Connection);

/// Relies on rusqlite::Connection::execute_batch to create the three row
/// kinds (event, item, typed payload) with cascade-deleting foreign keys,
/// if they are not there yet.
#[verifier::external_body]
pub(crate) fn init_schema(conn: &Connection) -> (r: Result<(), StoreError>) {
    conn.execute_batch(
        "CREATE TABLE IF NOT EXISTS clipboard_events (id INTEGER PRIMARY KEY, \
         timestamp INTEGER NOT NULL, event_hash TEXT); \
         CREATE TABLE IF NOT EXISTS clipboard_items (id INTEGER PRIMARY KEY, \
         event_id INTEGER NOT NULL, \
         FOREIGN KEY(event_id) REFERENCES clipboard_events(id) ON DELETE CASCADE); \
         CREATE TABLE IF NOT EXISTS clipboard_types (id INTEGER PRIMARY KEY, \
         item_id INTEGER NOT NULL, uti TEXT NOT NULL, data BLOB NOT NULL, \
         size INTEGER NOT NULL, \
         FOREIGN KEY(item_id) REFERENCES clipboard_items(id) ON DELETE CASCADE); \
         PRAGMA foreign_keys = ON;",
    ).map_err(|e| StoreError::StorageFault(e.to_string()))
}

/// Relies on rusqlite::Connection::execute_batch to open a transaction.
#[verifier::external_body]
pub(crate) fn begin_transaction(conn: &Connection) -> (r: Result<(), StoreError>) {
    conn.execute_batch("BEGIN").map_err(|e| StoreError::StorageFault(e.to_string()))
}

/// Relies on rusqlite::Connection::execute_batch to commit the open
/// transaction.
#[verifier::external_body]
pub(crate) fn commit_transaction(conn: &Connection) -> (r: Result<(), StoreError>) {
    conn.execute_batch("COMMIT").map_err(|e| StoreError::StorageFault(e.to_string()))
}

/// Relies on rusqlite::Connection::execute_batch to roll the open
/// transaction back, discarding its writes.
#[verifier::external_body]
pub(crate) fn rollback_transaction(conn: &Connection) -> (r: Result<(), StoreError>) {
    conn.execute_batch("ROLLBACK").map_err(|e| StoreError::StorageFault(e.to_string()))
}

/// Relies on rusqlite::Connection::execute to insert one event row under the
/// given id.
#[verifier::external_body]
pub(crate) fn insert_event_row(conn: &Connection, id: i64, timestamp: i64, hash: &String) -> (r:
    Result<(), StoreError>) {
    conn.execute(
        "INSERT INTO clipboard_events (id, timestamp, event_hash) VALUES (?1, ?2, ?3)",
        (id, timestamp, hash.as_str()),
    ).map(|_| ()).map_err(|e| StoreError::StorageFault(e.to_string()))
}

/// Relies on rusqlite::Connection::execute to insert one item row under the
/// given id, owned by the given event row.
#[verifier::external_body]
pub(crate) fn insert_item_row(conn: &Connection, id: i64, event_id: i64) -> (r: Result<
    (),
    StoreError,
>) {
    conn.execute(
        "INSERT INTO clipboard_items (id, event_id) VALUES (?1, ?2)",
        (id, event_id),
    ).map(|_| ()).map_err(|e| StoreError::StorageFault(e.to_string()))
}

/// Relies on rusqlite::Connection::execute to insert one typed-payload row
/// under the given id, owned by the given item row.
#[verifier::external_body]
pub(crate) fn insert_type_row(
    conn: &Connection,
    id: i64,
    item_id: i64,
    uti: &String,
    data: &Vec<u8>,
) -> (r: Result<(), StoreError>) {
    conn.execute(
        "INSERT INTO clipboard_types (id, item_id, uti, data, size) VALUES (?1, ?2, ?3, ?4, ?5)",
        (id, item_id, uti.as_str(), data.as_slice(), data.len() as i64),
    ).map(|_| ()).map_err(|e| StoreError::StorageFault(e.to_string()))
}

/// Relies on rusqlite::Connection::execute to delete one event row; the
/// schema's foreign keys cascade the deletion to its items and payloads.
#[verifier::external_body]
pub(crate) fn delete_event_row(conn: &Connection, id: i64) -> (r: Result<(), StoreError>) {
    conn.execute(
        "DELETE FROM clipboard_events WHERE id = ?1",
        (id,),
    ).map(|_| ()).map_err(|e| StoreError::StorageFault(e.to_string()))
}

/// Relies on rusqlite::Connection::prepare and rusqlite::Statement::query_map
/// to read every event row as (id, timestamp), in id order.
#[verifier::external_body]
pub(crate) fn query_event_rows(conn: &Connection) -> (r: Result<Vec<(i64, i64)>, StoreError>) {
    let run = || -> rusqlite::Result<Vec<(i64, i64)>> {
        let mut stmt = conn.prepare("SELECT id, timestamp FROM clipboard_events ORDER BY id")?;
        let rows = stmt.query_map([], |row| Ok((row.get(0)?, row.get(1)?)))?;
        rows.collect()
    };
    run().map_err(|e| StoreError::StorageFault(e.to_string()))
}

/// Relies on rusqlite::Connection::prepare and rusqlite::Statement::query_map
/// to read every item row as (id, event_id), in id order.
#[verifier::external_body]
pub(crate) fn query_item_rows(conn: &Connection) -> (r: Result<Vec<(i64, i64)>, StoreError>) {
    let run = || -> rusqlite::Result<Vec<(i64, i64)>> {
        let mut stmt = conn.prepare("SELECT id, event_id FROM clipboard_items ORDER BY id")?;
        let rows = stmt.query_map([], |row| Ok((row.get(0)?, row.get(1)?)))?;
        rows.collect()
    };
    run().map_err(|e| StoreError::StorageFault(e.to_string()))
}

/// Relies on rusqlite::Connection::prepare and rusqlite::Statement::query_map
/// to read every typed-payload row as (id, item_id, tag, bytes), in id order.
#[verifier::external_body]
pub(crate) fn query_type_rows(conn: &Connection) -> (r: Result<
    Vec<(i64, i64, String, Vec<u8>)>,
    StoreError,
>) {
    let run = || -> rusqlite::Result<Vec<(i64, i64, String, Vec<u8>)>> {
        let mut stmt = conn.prepare(
            "SELECT id, item_id, uti, data FROM clipboard_types ORDER BY id",
        )?;
        let rows = stmt.query_map(
            [],
            |row| Ok((row.get(0)?, row.get(1)?, row.get(2)?, row.get(3)?)),
        )?;
        rows.collect()
    };
    run().map_err(|e| StoreError::StorageFault(e.to_string()))
}

/// Relies on std::time::SystemTime: seconds since the Unix epoch, clamped to
/// zero when the clock reads earlier than the epoch.
#[verifier::external_body]
pub(crate) fn now_unix_seconds() -> (r: i64)
    ensures
        r >= 0,
{
    let secs = std::time::SystemTime::now().duration_since(
        std::time::SystemTime::UNIX_EPOCH,
    ).unwrap_or_default().as_secs();
    i64::try_from(secs).unwrap_or(i64::MAX)
}

} // verus!
