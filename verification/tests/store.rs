//! Stored catalogs.

use legal_service_router::instant::Timestamp;
use legal_service_router::keyed::TextMap;
use legal_service_router::import::plan_rows;
use legal_service_router::model::{
    Catalog, RawCatalog, RawClosure, RawDegradation, RawHomeService, RawHomeSlot, RawPoint,
};
use legal_service_router::planner::{route, RouteRequest, RouteResult};
use legal_service_router::rows::{build_catalog, CatalogRows};
use legal_service_router::store::{
    check_import, closure_refused, degradation_refused, Store, StoredSnapshot, StoredVersion,
};

fn at(text: &str) -> Timestamp {
    Timestamp::from_rfc3339(text).unwrap()
}

fn texts(items: &[&str]) -> Vec<String> {
    items.iter().map(|s| s.to_string()).collect()
}

fn listed(version: &str) -> RawCatalog {
    let mut hard: TextMap<String> = TextMap::new();
    hard.insert("WHEELCHAIR".to_string(), "STEP_FREE".to_string());
    hard.insert("HEARING".to_string(), "SIGN_INTERPRETER".to_string());
    RawCatalog {
        catalog_version: version.to_string(),
        cost_formula: "distance plus penalty".to_string(),
        points: vec![
            RawPoint {
                id: "POINT-B".to_string(),
                grid: [2, 1],
                services: texts(&["NOTARY", "LEGAL_AID"]),
                access: texts(&["SIGN_INTERPRETER"]),
                barrier_penalty: 1,
            },
            RawPoint {
                id: "POINT-A".to_string(),
                grid: [1, 1],
                services: texts(&["LEGAL_AID"]),
                access: texts(&["STEP_FREE", "TEXT_COMMUNICATION"]),
                barrier_penalty: 0,
            },
        ],
        hard_requirements: hard,
        tie_break: texts(&["totalCost ascending", "a \"quoted\" rule"]),
        closures: vec![
            RawClosure {
                event_id: "CLOSE-02".to_string(),
                point_id: "POINT-A".to_string(),
                from: at("2026-08-02T00:00:00.25Z"),
                to: at("2026-08-04T00:00:00Z"),
            },
            RawClosure {
                event_id: "CLOSE-01".to_string(),
                point_id: "POINT-A".to_string(),
                from: at("2026-09-02T00:00:00Z"),
                to: at("2026-09-04T00:00:00Z"),
            },
        ],
        degradations: vec![RawDegradation {
            event_id: "DEGRADE-01".to_string(),
            point_id: "POINT-A".to_string(),
            capability: "STEP_FREE".to_string(),
            from: at("2026-10-03T00:00:00Z"),
            to: at("2026-10-05T00:00:00Z"),
        }],
        home_service: Some(RawHomeService {
            allowed_service: "LEGAL_AID".to_string(),
            allowed_mobility: texts(&["HOMEBOUND", "BEDRIDDEN"]),
            reason: "HOME_SERVICE_REQUIRED".to_string(),
            slots: vec![
                RawHomeSlot { slot_id: "S2".to_string(), cost: 3, capacity: 1 },
                RawHomeSlot { slot_id: "S1".to_string(), cost: 3, capacity: 2 },
            ],
        }),
    }
}

fn seeded(version: &str) -> (Store, CatalogRows) {
    let rows = plan_rows(&listed(version));
    let mut store = Store::new();
    assert_eq!(store.finish_import(version, &rows, true), Ok(version.to_string()));
    (store, rows)
}

fn wheelchair(when: &str) -> RouteRequest {
    RouteRequest {
        origin: [1, 1],
        service: "LEGAL_AID".to_string(),
        mobility: Some("WHEELCHAIR".to_string()),
        communication: vec![],
        at: Some(at(when)),
    }
}

fn reasons(result: &RouteResult, id: &str) -> Vec<String> {
    result
        .exclusions
        .iter()
        .find(|e| e.point_id == id)
        .map(|e| e.reasons.clone())
        .unwrap_or_default()
}

#[test]
fn imported_catalogs_are_read_back() {
    let rows = plan_rows(&listed("V1"));
    assert_eq!(rows.tie_break, "[\"totalCost ascending\",\"a \\\"quoted\\\" rule\"]");
    assert_eq!(rows.closures[0].from_ts, "2026-08-02T00:00:00.250+00:00");
    let built = build_catalog("V1", &rows).unwrap();
    assert_eq!(built, Catalog::from_raw(listed("V1")).unwrap());
}

#[test]
fn order_of_rows_does_not_show() {
    let rows = plan_rows(&listed("V1"));
    let mut turned = rows.clone();
    turned.points.reverse();
    turned.services.reverse();
    turned.access.reverse();
    turned.hard_requirements.reverse();
    turned.closures.reverse();
    turned.home_mobility.reverse();
    turned.home_slots.reverse();
    assert_eq!(build_catalog("V1", &turned), build_catalog("V1", &rows));
}

#[test]
fn faulty_rows_are_told() {
    let mut rows = plan_rows(&listed("V1"));
    rows.tie_break = "not json".to_string();
    assert!(build_catalog("V1", &rows).unwrap().tie_break.is_empty());
    rows.closures[1].to_ts = "soon".to_string();
    let message = chrono::DateTime::parse_from_rfc3339("soon").unwrap_err().to_string();
    assert_eq!(build_catalog("V1", &rows).unwrap_err(), message);
    let mut store = Store::new();
    assert_eq!(store.finish_import("V1", &rows, true).unwrap_err(), message);
    assert_eq!(store.list_versions(), (vec![], None));
}

#[test]
fn services_of_unknown_points_are_passed_over() {
    let mut rows = plan_rows(&listed("V1"));
    rows.services[0].key = "POINT-X".to_string();
    let built = build_catalog("V1", &rows).unwrap();
    assert!(built.points.get("POINT-X").is_none());
    assert_eq!(built.points.get("POINT-B").unwrap().services.list(), vec!["LEGAL_AID"]);
}

#[test]
fn imports_are_checked_and_planned() {
    assert_eq!(
        check_import(Err("eof".to_string())).err().unwrap(),
        "invalid catalog json: eof"
    );
    let mut twice = listed("V1");
    let again = twice.points[0].clone();
    twice.points.push(again);
    assert_eq!(check_import(Ok(twice)).err().unwrap(), "duplicate point id: POINT-B");

    let incoming = check_import(Ok(listed("V1"))).ok().unwrap();
    assert_eq!(incoming.version, "V1");
    assert_eq!(
        Store::import_catalog(incoming, true, b"{}").err().unwrap(),
        "catalog version already imported: V1"
    );
    let incoming = check_import(Ok(listed("V1"))).ok().unwrap();
    let plan = Store::import_catalog(incoming, false, "{\"é\":1}".as_bytes()).ok().unwrap();
    assert_eq!(plan.version, "V1");
    assert_eq!(plan.raw_json, "{\"é\":1}");
    assert!(Timestamp::from_rfc3339(&plan.imported_at).is_ok());
    assert_eq!(plan.rows.points.len(), 2);
    let incoming = check_import(Ok(listed("V1"))).ok().unwrap();
    let plan = Store::import_catalog(incoming, false, &[0x61, 0xff]).ok().unwrap();
    assert_eq!(plan.raw_json, "a\u{fffd}");
}

#[test]
fn versions_are_listed_and_activated() {
    let (mut store, rows) = seeded("V2");
    assert_eq!(store.finish_import("V1", &rows, false), Ok("V1".to_string()));
    assert_eq!(
        store.list_versions(),
        (vec!["V1".to_string(), "V2".to_string()], Some("V2".to_string()))
    );
    assert_eq!(store.active_catalog().unwrap().version, "V2");
    assert_eq!(
        store.activate("V3"),
        Err("unknown catalog version: V3".to_string())
    );
    assert_eq!(store.active_catalog().unwrap().version, "V2");
    assert_eq!(store.activate("V1"), Ok(()));
    assert_eq!(store.active_catalog().unwrap().version, "V1");
    assert_eq!(store.catalog("V2").unwrap().version, "V2");
    assert!(store.catalog("V3").is_none());
    assert!(Store::new().active_catalog().is_none());
}

#[test]
fn stores_are_reloaded_from_rows() {
    let mut store = Store::new();
    let entry = |version: &str| StoredVersion {
        version: version.to_string(),
        rows: plan_rows(&listed(version)),
    };
    let entries = vec![entry("V1"), entry("V2")];
    assert_eq!(store.reload_all(&entries, Some("V2".to_string())), Ok(()));
    assert_eq!(store.active_catalog().unwrap().version, "V2");
    assert_eq!(store.list_versions().0, vec!["V1", "V2"]);

    let mut broken = vec![entry("V3"), entry("V4")];
    broken[1].rows.degradations[0].from_ts = String::new();
    assert!(store.reload_all(&broken, None).is_err());
    assert_eq!(store.list_versions().0, vec!["V1", "V2"]);
}

#[test]
fn started_and_ended_events_change_nothing_else() {
    let rows = plan_rows(&listed("V1"));
    let before = build_catalog("V1", &rows).unwrap();
    let row = Store::start_degradation(
        "V1",
        "DEGRADE-Z",
        "POINT-A",
        "STEP_FREE",
        &at("2026-11-01T00:00:00Z"),
        &at("2026-11-10T00:00:00Z"),
        true,
    )
    .unwrap();
    let mut more = plan_rows(&listed("V1"));
    more.degradations.push(row);
    let after = build_catalog("V1", &more).unwrap();
    let events = |c: &Catalog| -> Vec<(String, Timestamp)> {
        match c.degradations_by_point.get("POINT-A") {
            Some(list) => list.iter().map(|d| (d.event_id.clone(), d.to)).collect(),
            None => vec![],
        }
    };
    let mut expected = events(&before);
    expected.push(("DEGRADE-Z".to_string(), at("2026-11-10T00:00:00Z")));
    expected.sort_by(|a, b| a.0.cmp(&b.0));
    assert_eq!(events(&after), expected);
    assert_eq!(
        format!("{:?}", after.closures_by_point),
        format!("{:?}", before.closures_by_point)
    );
    assert_eq!(format!("{:?}", after.points), format!("{:?}", before.points));

    let last = more.degradations.len() - 1;
    let found = Some(more.degradations[last].from_ts.clone());
    let t = Store::end_degradation(found, "DEGRADE-Z", Some(at("2026-11-05T00:00:00Z"))).unwrap();
    more.degradations[last].to_ts = t.to_rfc3339();
    let ended = build_catalog("V1", &more).unwrap();
    for e in &mut expected {
        if e.0 == "DEGRADE-Z" {
            e.1 = at("2026-11-05T00:00:00Z");
        }
    }
    assert_eq!(events(&ended), expected);
}

#[test]
fn a_restart_finds_the_same_store() {
    let (mut store, mut rows) = seeded("V1");
    let row = Store::start_closure(
        "V1",
        "CLOSE-A",
        "POINT-A",
        &at("2026-11-01T00:00:00Z"),
        &at("2026-11-10T00:00:00Z"),
        true,
    )
    .unwrap();
    rows.closures.push(row);
    assert_eq!(store.rebuild_version("V1", &rows), Ok(()));
    let second = plan_rows(&listed("V2"));
    assert!(store.finish_import("V2", &second, true).is_ok());
    let (versions, active) = store.list_versions();
    let before = store.catalog("V1").unwrap();

    // The rows come in another order.
    rows.closures.reverse();
    rows.points.reverse();
    let entries = vec![
        StoredVersion { version: "V2".to_string(), rows: second },
        StoredVersion { version: "V1".to_string(), rows },
    ];
    let mut restarted = Store::new();
    assert_eq!(restarted.reload_all(&entries, active.clone()), Ok(()));
    assert_eq!(restarted.list_versions(), (versions, active));
    let request = wheelchair("2026-11-05T00:00:00Z");
    let after = restarted.catalog("V1").unwrap();
    assert_eq!(
        format!("{:?}", route(&after, &request)),
        format!("{:?}", route(&before, &request))
    );
    assert_eq!(restarted.active_catalog().unwrap().version, "V2");
}

#[test]
fn started_closures_close_until_they_are_ended() {
    let (mut store, mut rows) = seeded("V1");
    let pinned = store.active_catalog().unwrap();
    let row = Store::start_closure(
        "V1",
        "CLOSE-A",
        "POINT-A",
        &at("2026-11-01T00:00:00Z"),
        &at("2026-11-10T00:00:00Z"),
        true,
    )
    .unwrap();
    rows.closures.push(row);
    assert_eq!(store.rebuild_version("V1", &rows), Ok(()));
    let live = store.active_catalog().unwrap();
    let request = wheelchair("2026-11-05T00:00:00Z");
    assert_eq!(reasons(&route(&live, &request), "POINT-A"), vec!["CLOSED:CLOSE-A"]);
    // A request keeps the catalog that it was given.
    assert!(route(&pinned, &request).candidates.iter().any(|c| c.point_id == "POINT-A"));

    let stored = rows.closures.last().unwrap().from_ts.clone();
    let ended = Store::end_closure(Some(stored), "CLOSE-A", Some(at("2026-11-03T00:00:00Z"))).unwrap();
    assert_eq!(ended, at("2026-11-03T00:00:00Z"));
    rows.closures.last_mut().unwrap().to_ts = ended.to_rfc3339();
    assert_eq!(store.rebuild_version("V1", &rows), Ok(()));
    let live = store.active_catalog().unwrap();
    assert!(route(&live, &request).candidates.iter().any(|c| c.point_id == "POINT-A"));
    let earlier = wheelchair("2026-11-02T00:00:00Z");
    assert_eq!(reasons(&route(&live, &earlier), "POINT-A"), vec!["CLOSED:CLOSE-A"]);
}

#[test]
fn started_degradations_exclude_until_they_are_ended() {
    let (mut store, mut rows) = seeded("V1");
    let row = Store::start_degradation(
        "V1",
        "DEG-A",
        "POINT-A",
        "STEP_FREE",
        &at("2026-11-01T00:00:00Z"),
        &at("2026-11-10T00:00:00Z"),
        true,
    )
    .unwrap();
    rows.degradations.push(row);
    assert_eq!(store.rebuild_version("V1", &rows), Ok(()));
    let request = wheelchair("2026-11-05T00:00:00Z");
    let live = store.active_catalog().unwrap();
    assert_eq!(
        reasons(&route(&live, &request), "POINT-A"),
        vec!["DEGRADED:DEG-A:STEP_FREE"]
    );
    let stored = rows.degradations.last().unwrap().from_ts.clone();
    let ended = Store::end_degradation(Some(stored), "DEG-A", Some(at("2026-11-03T00:00:00Z"))).unwrap();
    rows.degradations.last_mut().unwrap().to_ts = ended.to_rfc3339();
    assert_eq!(store.rebuild_version("V1", &rows), Ok(()));
    let live = store.active_catalog().unwrap();
    assert!(route(&live, &request).candidates.iter().any(|c| c.point_id == "POINT-A"));
}

#[test]
fn events_never_end_before_they_begin() {
    let from = "2026-11-05T00:00:00+00:00".to_string();
    let ended = Store::end_closure(Some(from.clone()), "E", Some(at("2026-11-01T00:00:00Z"))).unwrap();
    assert_eq!(ended, at("2026-11-05T00:00:00Z"));
    let ended = Store::end_degradation(Some(from), "E", Some(at("2026-11-01T00:00:00Z"))).unwrap();
    assert_eq!(ended, at("2026-11-05T00:00:00Z"));
    assert_eq!(
        Store::end_closure(None, "E", Some(at("2026-11-01T00:00:00Z"))),
        Err("unknown closure event: E".to_string())
    );
    assert_eq!(
        Store::end_degradation(None, "E", Some(at("2026-11-01T00:00:00Z"))),
        Err("unknown degradation event: E".to_string())
    );
    assert!(Store::end_closure(Some("x".to_string()), "E", Some(at("2026-11-01T00:00:00Z"))).is_err());
    let before = Timestamp::now();
    let past = Some("2000-01-01T00:00:00Z".to_string());
    assert!(before.is_no_later_than(&Store::end_closure(past, "E", None).unwrap()));
    let future = Some("9000-01-01T00:00:00Z".to_string());
    assert_eq!(
        Store::end_degradation(future, "E", None).unwrap(),
        at("9000-01-01T00:00:00Z")
    );
}

#[test]
fn events_that_cannot_start_are_refused() {
    let early = at("2026-11-01T00:00:00Z");
    let late = at("2026-11-02T00:00:00Z");
    assert_eq!(
        Store::start_closure("V1", "E", "P", &late, &early, true).err().unwrap(),
        "closure `to` precedes `from`"
    );
    assert_eq!(
        Store::start_closure("V1", "E", "P", &early, &late, false).err().unwrap(),
        "unknown point P in version V1"
    );
    assert!(Store::start_closure("V1", "E", "P", &early, &early, true).is_ok());
    assert_eq!(
        Store::start_degradation("V1", "E", "P", "C", &late, &early, true).err().unwrap(),
        "degradation `to` precedes `from`"
    );
    assert_eq!(
        Store::start_degradation("V1", "E", "P", "C", &early, &late, false).err().unwrap(),
        "unknown point P in version V1"
    );
    let unique = "UNIQUE constraint failed: closures.version".to_string();
    assert_eq!(closure_refused("E", unique.clone()), "closure event already exists: E");
    assert_eq!(closure_refused("E", "disk full".to_string()), "disk full");
    assert_eq!(degradation_refused("E", unique), "degradation event already exists: E");
    assert_eq!(degradation_refused("E", "unique".to_string()), "unique");
}

#[test]
fn snapshots_are_given_out_again_as_they_are() {
    let (store, _) = seeded("V1");
    let result = route(&store.active_catalog().unwrap(), &wheelchair("2026-08-03T00:00:00Z"));
    let row = Store::save_snapshot(&result, "{\"q\":1}".to_string(), "{\"r\":2}".to_string());
    assert_eq!(row.catalog_version, "V1");
    assert_eq!((row.request_json.as_str(), row.result_json.as_str()), ("{\"q\":1}", "{\"r\":2}"));
    assert!(uuid::Uuid::parse_str(&row.snapshot_id).is_ok());

    let found = StoredSnapshot {
        snapshot_id: row.snapshot_id.clone(),
        catalog_version: row.catalog_version.clone(),
        result: Ok(result.clone()),
        created_at: row.created_at.clone(),
    };
    let given = Store::get_snapshot(Some(found)).ok().unwrap().unwrap();
    assert_eq!(given.snapshot_id, row.snapshot_id);
    assert_eq!(given.catalog_version, "V1");
    assert_eq!(given.result, result);
    assert_eq!(given.created_at.to_rfc3339(), row.created_at);

    assert!(Store::get_snapshot(None).ok().unwrap().is_none());
    let broken = StoredSnapshot {
        snapshot_id: String::new(),
        catalog_version: String::new(),
        result: Err("bad json".to_string()),
        created_at: "bad time".to_string(),
    };
    assert_eq!(Store::get_snapshot(Some(broken)).err().unwrap(), "bad json");
    let undated = StoredSnapshot {
        snapshot_id: String::new(),
        catalog_version: String::new(),
        result: Ok(result),
        created_at: "bad time".to_string(),
    };
    assert!(Store::get_snapshot(Some(undated)).is_err());
}
