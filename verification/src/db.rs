//! What the service makes of what its database says.

use crate::instant::{representable, rfc3339_reading, Timestamp};
use crate::models::{Catalog, CatalogSummary, SnapshotRecord};
use vstd::prelude::*;
use vstd::string::*;

verus! {

/// What can go wrong with the database.
#[derive(Debug)]
pub enum DbError {
    Sqlite(String),
    Serde(String),
    /// The version has been imported before.
    DuplicateVersion(String),
}

impl DbError {
    pub open spec fn description(self) -> Seq<char> {
        match self {
            DbError::Sqlite(m) => "sqlite error: "@ + m@,
            DbError::Serde(m) => "serialization error: "@ + m@,
            DbError::DuplicateVersion(v) => "catalog version already imported: "@ + v@,
        }
    }

    /// The error in words.
    pub fn describe(&self) -> (r: String)
        ensures
            r@ == self.description(),
    {
        match self {
            DbError::Sqlite(m) => "sqlite error: ".to_owned().concat(m.as_str()),
            DbError::Serde(m) => "serialization error: ".to_owned().concat(m.as_str()),
            DbError::DuplicateVersion(v) => "catalog version already imported: ".to_owned().concat(
                v.as_str(),
            ),
        }
    }

    /// The HTTP status of the error: a conflict for a version that is there
    /// already, else a fault of the server.
    pub fn status(&self) -> (r: u16)
        ensures
            r == (if self is DuplicateVersion {
                409u16
            } else {
                500u16
            }),
    {
        match self {
            DbError::DuplicateVersion(_) => 409,
            DbError::Sqlite(_) => 500,
            DbError::Serde(_) => 500,
        }
    }
}

/// Accepts a catalog for import, given whether its version is stored already.
pub fn check_version(catalog: &Catalog, exists: bool) -> (r: Result<(), DbError>)
    ensures
        match r {
            Ok(()) => !exists,
            Err(DbError::DuplicateVersion(v)) => exists && v@ == catalog@.catalog_version,
            Err(_) => false,
        },
{
    if exists {
        Err(DbError::DuplicateVersion(catalog.catalog_version.clone()))
    } else {
        Ok(())
    }
}

/// The instant that a text names or, where it names none, now.
fn instant_or_now(text: &str) -> (r: Timestamp)
    ensures
        match rfc3339_reading(text@) {
            Ok(t) => r@ == t,
            Err(_) => representable(r@.0, r@.1),
        },
{
    match Timestamp::from_rfc3339(text) {
        Ok(t) => t,
        Err(_) => Timestamp::now(),
    }
}

/// A stored snapshot, with the instant of its making or, where the stored text
/// names none, now.
pub fn read_snapshot(
    id: String,
    catalog_version: String,
    payload: String,
    created_at: &str,
) -> (r: SnapshotRecord)
    ensures
        r.id == id,
        r.catalog_version == catalog_version,
        r.payload == payload,
        match rfc3339_reading(created_at@) {
            Ok(t) => r.created_at@ == t,
            Err(_) => representable(r.created_at@.0, r.created_at@.1),
        },
{
    SnapshotRecord { id, catalog_version, payload, created_at: instant_or_now(created_at) }
}

/// A catalog in figures, with the instant of its import or, where the stored
/// text names none, now.
pub fn summarize(catalog: &Catalog, imported_at: &str) -> (r: CatalogSummary)
    ensures
        r.catalog_version@ == catalog@.catalog_version,
        r.point_count == catalog@.points.len(),
        r.closure_count == catalog@.closures.len(),
        match rfc3339_reading(imported_at@) {
            Ok(t) => r.imported_at@ == t,
            Err(_) => representable(r.imported_at@.0, r.imported_at@.1),
        },
{
    CatalogSummary {
        catalog_version: catalog.catalog_version.clone(),
        point_count: catalog.points.len(),
        closure_count: catalog.closures.len(),
        imported_at: instant_or_now(imported_at),
    }
}

} // verus!
