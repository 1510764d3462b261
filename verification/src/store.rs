//! The versions of the catalog that are held in memory, and the decisions
//! around storing them.
//!
//! Reading and writing rows is left to the caller. Every change of a stored
//! version is followed by building that version anew from its rows; a request
//! keeps the catalog that it was given, whatever happens to the store.

use crate::catalog::ClosureModel;
use crate::ident::{fresh_id, is_random_uuid};
use crate::import::{dated, plan_rows, rows_of};
use crate::instant::{
    four_digit_year, no_later, representable, rfc3339_reading, rfc3339_text, Timestamp,
};
use crate::json::{lossy, lossy_text};
use crate::keyed::{ascending_list, TextMap};
use crate::model::{
    normalized, raw_fault, Catalog, CatalogModel, DegradationModel, RawCatalog,
};
use crate::order::{lemma_views_push, views};
use crate::planner::RouteResult;
use crate::rows::{
    build_catalog, built, closure_in, degradation_in, CatalogRows, ClosureRow, ClosureRowModel,
    DegradationRow, DegradationRowModel, RowsModel,
};
use crate::text::{has_part, mentions, optional_text};
use std::sync::Arc;
use vstd::prelude::*;
use vstd::string::*;
use vstd::utf8::{decode_utf8, valid_utf8};

verus! {

/// The versions of the catalog in memory, and which of them is active.
pub struct Store {
    versions: TextMap<Arc<Catalog>>,
    active: Option<String>,
}

pub struct StoreModel {
    pub versions: Map<Seq<char>, CatalogModel>,
    pub active: Option<Seq<char>>,
}

/// The models of the catalogs in a map.
pub open spec fn catalog_views(m: Map<Seq<char>, Arc<Catalog>>) -> Map<Seq<char>, CatalogModel> {
    m.map_values(|c: Arc<Catalog>| (*c)@)
}

impl View for Store {
    type V = StoreModel;

    closed spec fn view(&self) -> StoreModel {
        StoreModel {
            versions: catalog_views(self.versions@),
            active: optional_text(self.active),
        }
    }
}

/// `Arc::clone`: another handle on the same catalog.
#[verifier::external_body]
fn share(catalog: &Arc<Catalog>) -> (r: Arc<Catalog>)
    ensures
        r == *catalog,
{
    catalog.clone()
}

/// The catalogs that the rows of several versions hold, or the message of the
/// first error.
pub open spec fn loaded(entries: Seq<(Seq<char>, RowsModel)>) -> Result<
    Map<Seq<char>, CatalogModel>,
    Seq<char>,
>
    decreases entries.len(),
{
    if entries.len() == 0 {
        Ok(Map::empty())
    } else {
        match loaded(entries.drop_last()) {
            Err(m) => Err(m),
            Ok(front) => match built(entries.last().0, entries.last().1) {
                Err(m) => Err(m),
                Ok(c) => Ok(front.insert(entries.last().0, c)),
            },
        }
    }
}

/// A stored version.
pub struct StoredVersion {
    pub version: String,
    pub rows: CatalogRows,
}

impl View for StoredVersion {
    type V = (Seq<char>, RowsModel);

    open spec fn view(&self) -> (Seq<char>, RowsModel) {
        (self.version@, self.rows@)
    }
}

proof fn lemma_loaded_error(entries: Seq<(Seq<char>, RowsModel)>, n: int)
    requires
        0 <= n <= entries.len(),
        loaded(entries.take(n)) is Err,
    ensures
        loaded(entries) == loaded(entries.take(n)),
    decreases entries.len() - n,
{
    if n < entries.len() {
        assert(entries.take(n + 1).drop_last() =~= entries.take(n));
        lemma_loaded_error(entries, n + 1);
    } else {
        assert(entries.take(n) =~= entries);
    }
}

/// The store once a version has been built anew from its rows.
pub open spec fn rebuilt(
    state: StoreModel,
    version: Seq<char>,
    rows: RowsModel,
) -> Result<StoreModel, Seq<char>> {
    match built(version, rows) {
        Ok(c) => Ok(
            StoreModel { versions: state.versions.insert(version, c), active: state.active },
        ),
        Err(m) => Err(m),
    }
}

/// The store once an imported version has been built from its rows.
pub open spec fn imported(
    state: StoreModel,
    version: Seq<char>,
    rows: RowsModel,
    activate: bool,
) -> Result<StoreModel, Seq<char>> {
    match built(version, rows) {
        Ok(c) => Ok(
            StoreModel {
                versions: state.versions.insert(version, c),
                active: if activate {
                    Some(version)
                } else {
                    state.active
                },
            },
        ),
        Err(m) => Err(m),
    }
}

impl Store {
    /// No versions.
    pub fn new() -> (r: Self)
        ensures
            r@.versions == Map::<Seq<char>, CatalogModel>::empty(),
            r@.active is None,
    {
        let r = Store { versions: TextMap::new(), active: None };
        assert(r@.versions =~= Map::<Seq<char>, CatalogModel>::empty());
        r
    }

    /// Builds all stored versions anew; an error leaves the store as it was.
    pub fn reload_all(&mut self, entries: &Vec<StoredVersion>, active: Option<String>) -> (r:
        Result<(), String>)
        ensures
            match r {
                Ok(()) => {
                    &&& loaded(views(entries@)) is Ok
                    &&& final(self)@.versions == loaded(views(entries@))->Ok_0
                    &&& final(self)@.active == optional_text(active)
                },
                Err(m) => {
                    &&& loaded(views(entries@)) is Err
                    &&& loaded(views(entries@))->Err_0 == m@
                    &&& final(self)@ == old(self)@
                },
            },
    {
        let ghost all = views(entries@);
        let mut map: TextMap<Arc<Catalog>> = TextMap::new();
        let mut i: usize = 0;
        assert(all.take(0) =~= Seq::empty());
        assert(catalog_views(map@) =~= Map::<Seq<char>, CatalogModel>::empty());
        while i < entries.len()
            invariant
                i <= entries@.len(),
                all == views(entries@),
                self@ == old(self)@,
                loaded(all.take(i as int)) is Ok,
                loaded(all.take(i as int))->Ok_0 == catalog_views(map@),
            decreases entries@.len() - i,
        {
            let entry = &entries[i];
            proof {
                assert(all[i as int] == entry@);
                assert(all.take(i + 1).drop_last() =~= all.take(i as int));
            }
            match build_catalog(entry.version.as_str(), &entry.rows) {
                Ok(catalog) => {
                    let ghost had = map@;
                    let ghost c = catalog@;
                    map.insert(entry.version.clone(), Arc::new(catalog));
                    assert(catalog_views(map@) =~= catalog_views(had).insert(entry.version@, c));
                },
                Err(m) => {
                    proof {
                        lemma_loaded_error(all, i + 1);
                    }
                    return Err(m);
                },
            }
            i = i + 1;
        }
        assert(all.take(i as int) =~= all);
        self.versions = map;
        self.active = active;
        Ok(())
    }

    /// Builds a version anew from its rows; an error leaves the store as it
    /// was.
    pub fn rebuild_version(&mut self, version: &str, rows: &CatalogRows) -> (r: Result<(), String>)
        ensures
            match r {
                Ok(()) => {
                    &&& rebuilt(old(self)@, version@, rows@) is Ok
                    &&& final(self)@ == rebuilt(old(self)@, version@, rows@)->Ok_0
                },
                Err(m) => {
                    &&& rebuilt(old(self)@, version@, rows@) is Err
                    &&& rebuilt(old(self)@, version@, rows@)->Err_0 == m@
                    &&& final(self)@ == old(self)@
                },
            },
    {
        match build_catalog(version, rows) {
            Ok(catalog) => {
                let ghost had = self.versions@;
                let ghost c = catalog@;
                self.versions.insert(version.to_owned(), Arc::new(catalog));
                assert(catalog_views(self.versions@) =~= catalog_views(had).insert(version@, c));
                Ok(())
            },
            Err(m) => Err(m),
        }
    }

    /// Takes up an imported version from its rows, and gives its name; an error
    /// leaves the store as it was.
    pub fn finish_import(&mut self, version: &str, rows: &CatalogRows, activate: bool) -> (r:
        Result<String, String>)
        ensures
            match r {
                Ok(v) => {
                    &&& v@ == version@
                    &&& imported(old(self)@, version@, rows@, activate) is Ok
                    &&& final(self)@ == imported(old(self)@, version@, rows@, activate)->Ok_0
                },
                Err(m) => {
                    &&& imported(old(self)@, version@, rows@, activate) is Err
                    &&& imported(old(self)@, version@, rows@, activate)->Err_0 == m@
                    &&& final(self)@ == old(self)@
                },
            },
    {
        match self.rebuild_version(version, rows) {
            Ok(()) => {
                if activate {
                    self.active = Some(version.to_owned());
                }
                Ok(version.to_owned())
            },
            Err(m) => Err(m),
        }
    }

    /// Accepts a version for activation, or says that it is not known.
    pub fn check_activation(&self, version: &str) -> (r: Result<(), String>)
        ensures
            match r {
                Ok(()) => self@.versions.contains_key(version@),
                Err(m) => !self@.versions.contains_key(version@) && m@
                    == "unknown catalog version: "@ + version@,
            },
    {
        assert(self@.versions.contains_key(version@) == self.versions@.contains_key(version@));
        if self.versions.contains_key(version) {
            Ok(())
        } else {
            Err("unknown catalog version: ".to_owned().concat(version))
        }
    }

    /// Makes a version active; an error leaves the store as it was.
    pub fn activate(&mut self, version: &str) -> (r: Result<(), String>)
        ensures
            match r {
                Ok(()) => {
                    &&& old(self)@.versions.contains_key(version@)
                    &&& final(self)@.active == Some(version@)
                    &&& final(self)@.versions == old(self)@.versions
                },
                Err(m) => {
                    &&& !old(self)@.versions.contains_key(version@)
                    &&& m@ == "unknown catalog version: "@ + version@
                    &&& final(self)@ == old(self)@
                },
            },
    {
        match self.check_activation(version) {
            Ok(()) => {
                self.active = Some(version.to_owned());
                Ok(())
            },
            Err(m) => Err(m),
        }
    }

    /// The catalog of a version.
    pub fn catalog(&self, version: &str) -> (r: Option<Arc<Catalog>>)
        ensures
            match r {
                Some(c) => self@.versions.contains_key(version@) && (*c)@
                    == self@.versions[version@],
                None => !self@.versions.contains_key(version@),
            },
    {
        assert(self@.versions.contains_key(version@) == self.versions@.contains_key(version@));
        match self.versions.get(version) {
            Some(c) => Some(share(c)),
            None => None,
        }
    }

    /// The catalog of the active version.
    pub fn active_catalog(&self) -> (r: Option<Arc<Catalog>>)
        ensures
            match r {
                Some(c) => {
                    &&& self@.active is Some
                    &&& self@.versions.contains_key(self@.active->Some_0)
                    &&& (*c)@ == self@.versions[self@.active->Some_0]
                },
                None => self@.active is None || !self@.versions.contains_key(self@.active->Some_0),
            },
    {
        match &self.active {
            Some(v) => self.catalog(v.as_str()),
            None => None,
        }
    }

    /// The versions, ascending, and the active one.
    pub fn list_versions(&self) -> (r: (Vec<String>, Option<String>))
        ensures
            views(r.0@) == ascending_list(self@.versions.dom()),
            optional_text(r.1) == self@.active,
    {
        let n: usize = self.versions.len();
        let ghost keys = self.versions.keys();
        assert(self@.versions.dom() =~= self.versions@.dom());
        let mut list: Vec<String> = Vec::new();
        let mut i: usize = 0;
        assert(views(list@) =~= keys.take(0));
        while i < n
            invariant
                i <= n == keys.len(),
                keys == self.versions.keys(),
                views(list@) == keys.take(i as int),
            decreases n - i,
        {
            let key = self.versions.key_at(i).clone();
            proof {
                lemma_views_push(list@, key);
            }
            list.push(key);
            i = i + 1;
            assert(views(list@) =~= keys.take(i as int));
        }
        assert(views(list@) =~= keys);
        let active = match &self.active {
            Some(v) => Some(v.clone()),
            None => None,
        };
        (list, active)
    }
}

/// A listed catalog that can be imported, and its version.
pub struct Incoming {
    pub raw: RawCatalog,
    pub version: String,
}

/// Accepts a catalog for import, given what parsing its JSON text came to, or
/// says what is wrong with it.
pub fn check_import(parsed: Result<RawCatalog, String>) -> (r: Result<Incoming, String>)
    ensures
        match r {
            Ok(i) => {
                &&& parsed is Ok
                &&& raw_fault(parsed->Ok_0@) is None
                &&& i.raw == parsed->Ok_0
                &&& i.version@ == parsed->Ok_0@.catalog_version
            },
            Err(m) => match parsed {
                Ok(raw) => raw_fault(raw@) == Some(m@),
                Err(e) => m@ == "invalid catalog json: "@ + e@,
            },
        },
{
    match parsed {
        Ok(raw) => match Catalog::normalize(&raw) {
            Ok(catalog) => Ok(Incoming { raw, version: catalog.version }),
            Err(m) => Err(m),
        },
        Err(e) => Err("invalid catalog json: ".to_owned().concat(e.as_str())),
    }
}

/// What an import writes.
pub struct ImportPlan {
    pub version: String,
    pub raw_json: String,
    pub imported_at: String,
    pub rows: CatalogRows,
}

fn unknown_point(point_id: &str, version: &str) -> (m: String)
    ensures
        m@ == "unknown point "@ + point_id@ + " in version "@ + version@,
{
    let mut m = "unknown point ".to_owned();
    m.append(point_id);
    m.append(" in version ");
    m.append(version);
    m
}

/// The message when the row of a new closure could not be written.
pub fn closure_refused(event_id: &str, error: String) -> (m: String)
    ensures
        m@ == if mentions(error@, "UNIQUE"@) {
            "closure event already exists: "@ + event_id@
        } else {
            error@
        },
{
    if has_part(error.as_str(), "UNIQUE") {
        "closure event already exists: ".to_owned().concat(event_id)
    } else {
        error
    }
}

/// The message when the row of a new degradation could not be written.
pub fn degradation_refused(event_id: &str, error: String) -> (m: String)
    ensures
        m@ == if mentions(error@, "UNIQUE"@) {
            "degradation event already exists: "@ + event_id@
        } else {
            error@
        },
{
    if has_part(error.as_str(), "UNIQUE") {
        "degradation event already exists: ".to_owned().concat(event_id)
    } else {
        error
    }
}

/// The instant at which an event that began at `from` ends when it is ended at
/// `at`: never before it began.
pub open spec fn clamped(from: (int, int), at: (int, int)) -> (int, int) {
    if no_later(from, at) {
        at
    } else {
        from
    }
}

/// `t` is an instant at which an event that began at `from` ends when it is
/// ended at `at` or, without `at`, at whatever time it is.
pub open spec fn ends_at(from: (int, int), at: Option<Timestamp>, t: (int, int)) -> bool {
    match at {
        Some(a) => t == clamped(from, a@),
        None => exists|now: (int, int)|
            representable(now.0, now.1) && t == #[trigger] clamped(from, now),
    }
}

fn clamp_end(from_ts: &str, at: Option<Timestamp>) -> (r: Result<Timestamp, String>)
    ensures
        match r {
            Ok(t) => {
                &&& rfc3339_reading(from_ts@) is Ok
                &&& ends_at(rfc3339_reading(from_ts@)->Ok_0, at, t@)
            },
            Err(m) => rfc3339_reading(from_ts@) is Err && rfc3339_reading(from_ts@)->Err_0 == m@,
        },
{
    let end = match at {
        Some(t) => t,
        None => Timestamp::now(),
    };
    match Timestamp::from_rfc3339(from_ts) {
        Ok(from) => {
            let t = if from.is_no_later_than(&end) {
                end
            } else {
                from
            };
            assert(t@ == clamped(from@, end@));
            Ok(t)
        },
        Err(m) => Err(m),
    }
}

/// A snapshot as it is written.
pub struct SnapshotRow {
    pub snapshot_id: String,
    pub catalog_version: String,
    pub request_json: String,
    pub result_json: String,
    pub created_at: String,
}

/// A snapshot as it is read, with what parsing its result came to.
pub struct StoredSnapshot {
    pub snapshot_id: String,
    pub catalog_version: String,
    pub result: Result<RouteResult, String>,
    pub created_at: String,
}

/// A snapshot as it is given out again.
pub struct SnapshotRecord {
    pub snapshot_id: String,
    pub catalog_version: String,
    pub created_at: Timestamp,
    pub result: RouteResult,
}

impl Store {
    /// What an import writes, given whether the version is stored already: a
    /// version is never imported again, so that snapshots stay reproducible.
    pub fn import_catalog(incoming: Incoming, exists: bool, raw_json: &[u8]) -> (r: Result<
        ImportPlan,
        String,
    >)
        ensures
            match r {
                Ok(plan) => {
                    &&& !exists
                    &&& plan.version == incoming.version
                    &&& plan.raw_json@ == lossy_text(raw_json@)
                    &&& valid_utf8(raw_json@) ==> plan.raw_json@ == decode_utf8(raw_json@)
                    &&& exists|t: (int, int)|
                        representable(t.0, t.1) && plan.imported_at@ == #[trigger] rfc3339_text(
                            t.0,
                            t.1,
                        )
                    &&& plan.rows@ == rows_of(incoming.raw@)
                    &&& raw_fault(incoming.raw@) is None && dated(incoming.raw@) ==> built(
                        incoming.raw@.catalog_version,
                        plan.rows@,
                    ) is Ok && built(incoming.raw@.catalog_version, plan.rows@)->Ok_0 == normalized(
                        incoming.raw@,
                    )
                },
                Err(m) => exists && m@ == "catalog version already imported: "@ + incoming.version@,
            },
    {
        if exists {
            return Err(
                "catalog version already imported: ".to_owned().concat(incoming.version.as_str()),
            );
        }
        let now = Timestamp::now();
        let imported_at = now.to_rfc3339();
        assert(imported_at@ == rfc3339_text(now@.0, now@.1));
        let rows = plan_rows(&incoming.raw);
        Ok(ImportPlan { version: incoming.version, raw_json: lossy(raw_json), imported_at, rows })
    }

    /// The row of a new closure, given whether the version has the point; it can
    /// be read back where the years have four digits.
    pub fn start_closure(
        version: &str,
        event_id: &str,
        point_id: &str,
        from: &Timestamp,
        to: &Timestamp,
        point_exists: bool,
    ) -> (r: Result<ClosureRow, String>)
        ensures
            match r {
                Ok(row) => {
                    &&& no_later(from@, to@)
                    &&& point_exists
                    &&& row@ == (ClosureRowModel {
                        event_id: event_id@,
                        point_id: point_id@,
                        from_ts: rfc3339_text(from@.0, from@.1),
                        to_ts: rfc3339_text(to@.0, to@.1),
                    })
                    &&& four_digit_year(from@.0) && four_digit_year(to@.0) ==> closure_in(row@)
                        == Ok::<ClosureModel, Seq<char>>(
                        ClosureModel {
                            event_id: event_id@,
                            point_id: point_id@,
                            from: from@,
                            to: to@,
                        },
                    )
                },
                Err(m) => if !no_later(from@, to@) {
                    m@ == "closure `to` precedes `from`"@
                } else {
                    !point_exists && m@ == "unknown point "@ + point_id@ + " in version "@ + version@
                },
            },
    {
        if !from.is_no_later_than(to) {
            return Err("closure `to` precedes `from`".to_owned());
        }
        if !point_exists {
            return Err(unknown_point(point_id, version));
        }
        Ok(
            ClosureRow {
                event_id: event_id.to_owned(),
                point_id: point_id.to_owned(),
                from_ts: from.to_rfc3339(),
                to_ts: to.to_rfc3339(),
            },
        )
    }

    /// The row of a new degradation, given whether the version has the point; it
    /// can be read back where the years have four digits.
    pub fn start_degradation(
        version: &str,
        event_id: &str,
        point_id: &str,
        capability: &str,
        from: &Timestamp,
        to: &Timestamp,
        point_exists: bool,
    ) -> (r: Result<DegradationRow, String>)
        ensures
            match r {
                Ok(row) => {
                    &&& no_later(from@, to@)
                    &&& point_exists
                    &&& row@ == (DegradationRowModel {
                        event_id: event_id@,
                        point_id: point_id@,
                        capability: capability@,
                        from_ts: rfc3339_text(from@.0, from@.1),
                        to_ts: rfc3339_text(to@.0, to@.1),
                    })
                    &&& four_digit_year(from@.0) && four_digit_year(to@.0) ==> degradation_in(row@)
                        == Ok::<DegradationModel, Seq<char>>(
                        DegradationModel {
                            event_id: event_id@,
                            point_id: point_id@,
                            capability: capability@,
                            from: from@,
                            to: to@,
                        },
                    )
                },
                Err(m) => if !no_later(from@, to@) {
                    m@ == "degradation `to` precedes `from`"@
                } else {
                    !point_exists && m@ == "unknown point "@ + point_id@ + " in version "@ + version@
                },
            },
    {
        if !from.is_no_later_than(to) {
            return Err("degradation `to` precedes `from`".to_owned());
        }
        if !point_exists {
            return Err(unknown_point(point_id, version));
        }
        Ok(
            DegradationRow {
                event_id: event_id.to_owned(),
                point_id: point_id.to_owned(),
                capability: capability.to_owned(),
                from_ts: from.to_rfc3339(),
                to_ts: to.to_rfc3339(),
            },
        )
    }

    /// The instant at which a closure ends when it is ended at `at` or, without
    /// `at`, now, given the stored text of its beginning, if there is such a
    /// closure.
    pub fn end_closure(found: Option<String>, event_id: &str, at: Option<Timestamp>) -> (r: Result<
        Timestamp,
        String,
    >)
        ensures
            match found {
                Some(from_ts) => match r {
                    Ok(t) => {
                        &&& rfc3339_reading(from_ts@) is Ok
                        &&& ends_at(rfc3339_reading(from_ts@)->Ok_0, at, t@)
                    },
                    Err(m) => rfc3339_reading(from_ts@) is Err && rfc3339_reading(from_ts@)->Err_0
                        == m@,
                },
                None => match r {
                    Ok(_) => false,
                    Err(m) => m@ == "unknown closure event: "@ + event_id@,
                },
            },
    {
        match found {
            Some(from_ts) => clamp_end(from_ts.as_str(), at),
            None => Err("unknown closure event: ".to_owned().concat(event_id)),
        }
    }

    /// The instant at which a degradation ends when it is ended at `at` or, without
    /// `at`, now, given the stored text of its beginning, if there is such a
    /// degradation.
    pub fn end_degradation(found: Option<String>, event_id: &str, at: Option<Timestamp>) -> (r: Result<
        Timestamp,
        String,
    >)
        ensures
            match found {
                Some(from_ts) => match r {
                    Ok(t) => {
                        &&& rfc3339_reading(from_ts@) is Ok
                        &&& ends_at(rfc3339_reading(from_ts@)->Ok_0, at, t@)
                    },
                    Err(m) => rfc3339_reading(from_ts@) is Err && rfc3339_reading(from_ts@)->Err_0
                        == m@,
                },
                None => match r {
                    Ok(_) => false,
                    Err(m) => m@ == "unknown degradation event: "@ + event_id@,
                },
            },
    {
        match found {
            Some(from_ts) => clamp_end(from_ts.as_str(), at),
            None => Err("unknown degradation event: ".to_owned().concat(event_id)),
        }
    }

    /// A new snapshot of a result, under an id of its own; its instant can be read
    /// back where the year has four digits.
    pub fn save_snapshot(result: &RouteResult, request_json: String, result_json: String) -> (row:
        SnapshotRow)
        ensures
            is_random_uuid(row.snapshot_id@),
            row.catalog_version@ == result@.catalog_version,
            row.request_json == request_json,
            row.result_json == result_json,
            exists|t: (int, int)|
                {
                    &&& representable(t.0, t.1)
                    &&& row.created_at@ == #[trigger] rfc3339_text(t.0, t.1)
                    &&& four_digit_year(t.0) ==> rfc3339_reading(row.created_at@) is Ok
                        && rfc3339_reading(row.created_at@)->Ok_0 == t
                },
    {
        let now = Timestamp::now();
        let created_at = now.to_rfc3339();
        assert(created_at@ == rfc3339_text(now@.0, now@.1));
        SnapshotRow {
            snapshot_id: fresh_id(),
            catalog_version: result.catalog_version.clone(),
            request_json,
            result_json,
            created_at,
        }
    }

    /// Gives a stored snapshot out again as it is; routing is not run again.
    pub fn get_snapshot(found: Option<StoredSnapshot>) -> (r: Result<Option<SnapshotRecord>, String>)
        ensures
            match found {
                None => match r {
                    Ok(given) => given is None,
                    Err(_) => false,
                },
                Some(s) => match s.result {
                    Err(e) => match r {
                        Ok(_) => false,
                        Err(m) => m == e,
                    },
                    Ok(result) => match r {
                        Ok(given) => {
                            &&& rfc3339_reading(s.created_at@) is Ok
                            &&& given is Some
                            &&& given->Some_0.snapshot_id == s.snapshot_id
                            &&& given->Some_0.catalog_version == s.catalog_version
                            &&& given->Some_0.result == result
                            &&& given->Some_0.created_at@ == rfc3339_reading(s.created_at@)->Ok_0
                        },
                        Err(m) => rfc3339_reading(s.created_at@) is Err && rfc3339_reading(
                            s.created_at@,
                        )->Err_0 == m@,
                    },
                },
            },
    {
        match found {
            None => Ok(None),
            Some(s) => match s.result {
                Err(e) => Err(e),
                Ok(result) => match Timestamp::from_rfc3339(s.created_at.as_str()) {
                    Err(m) => Err(m),
                    Ok(created_at) => Ok(
                        Some(
                            SnapshotRecord {
                                snapshot_id: s.snapshot_id,
                                catalog_version: s.catalog_version,
                                created_at,
                                result,
                            },
                        ),
                    ),
                },
            },
        }
    }
}

} // verus!
