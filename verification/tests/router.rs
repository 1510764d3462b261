//! Routing for the service.

use legal_service_router::api::AppState;
use legal_service_router::db::{check_version, read_snapshot};
use legal_service_router::instant::Timestamp;
use legal_service_router::keyed::TextSet;
use legal_service_router::models::{
    Catalog, Closure, Communication, HardRequirements, HomeService, HomeServiceSlot, Mobility,
    RouteRequest, RouteResponse, ServicePoint,
};
use legal_service_router::router;
use serde_json::Value;
use uuid::Uuid;

fn at(text: &str) -> Timestamp {
    let t = chrono::DateTime::parse_from_rfc3339(text)
        .unwrap()
        .with_timezone(&chrono::Utc);
    Timestamp::new(t.timestamp(), t.timestamp_subsec_nanos()).unwrap()
}

fn set(items: &[&str]) -> TextSet {
    TextSet::of(items.iter().map(|s| s.to_string()).collect())
}

fn sample_catalog() -> Catalog {
    Catalog {
        catalog_version: "CAT-TEST-1".to_string(),
        cost_formula: "abs(originGridX-pointGridX)+abs(originGridY-pointGridY)+barrierPenalty"
            .to_string(),
        points: vec![
            ServicePoint {
                id: "POINT-A".to_string(),
                grid: [1, 1],
                services: set(&["LEGAL_AID", "MEDIATION"]),
                access: set(&[
                    "STEP_FREE",
                    "TEXT_COMMUNICATION",
                ]),
                barrier_penalty: 0,
            },
            ServicePoint {
                id: "POINT-B".to_string(),
                grid: [2, 1],
                services: set(&["LEGAL_AID", "NOTARY"]),
                access: set(&["SIGN_INTERPRETER"]),
                barrier_penalty: 1,
            },
            ServicePoint {
                id: "POINT-C".to_string(),
                grid: [5, 5],
                services: set(&[
                    "LEGAL_AID",
                    "NOTARY",
                    "MEDIATION",
                ]),
                access: set(&[
                    "STEP_FREE",
                    "SIGN_INTERPRETER",
                    "TEXT_COMMUNICATION",
                ]),
                barrier_penalty: 0,
            },
        ],
        hard_requirements: HardRequirements {
            wheelchair: "STEP_FREE".to_string(),
            hearing: "SIGN_INTERPRETER".to_string(),
            speech: "TEXT_COMMUNICATION".to_string(),
        },
        tie_break: vec!["totalCost ascending".to_string(), "point id ascending".to_string()],
        closures: vec![Closure {
            event_id: "CLOSE-01".to_string(),
            point_id: "POINT-C".to_string(),
            from: at("2026-08-02T00:00:00Z"),
            to: at("2026-08-04T00:00:00Z"),
        }],
        home_service: HomeService {
            allowed_service: "LEGAL_AID".to_string(),
            allowed_mobility: set(&["HOMEBOUND"]),
            reason: "HOME_SERVICE_REQUIRED".to_string(),
            slots: vec![],
        },
    }
}

fn tied_cost_catalog() -> Catalog {
    let mut cat = sample_catalog();
    cat.catalog_version = "CAT-TIED".to_string();
    cat.points = vec![
        ServicePoint {
            id: "POINT-Z".to_string(),
            grid: [0, 0],
            services: set(&["LEGAL_AID"]),
            access: TextSet::new(),
            barrier_penalty: 0,
        },
        ServicePoint {
            id: "POINT-A".to_string(),
            grid: [0, 0],
            services: set(&["LEGAL_AID"]),
            access: TextSet::new(),
            barrier_penalty: 0,
        },
        ServicePoint {
            id: "POINT-M".to_string(),
            grid: [0, 0],
            services: set(&["LEGAL_AID"]),
            access: TextSet::new(),
            barrier_penalty: 0,
        },
    ];
    cat.closures = vec![];
    cat
}

#[test]
fn filters_missing_service_before_cost() {
    let catalog = sample_catalog();
    let req = RouteRequest {
        origin_grid: [1, 1],
        service: "NOTARY".to_string(),
        mobility: vec![],
        communication: vec![],
        request_time: Some(
            at("2026-08-05T00:00:00Z"),
        ),
    };
    let resp = router::route(&catalog, &req, "snap-1".to_string());
    let ids: Vec<&str> = resp.candidates.iter().map(|c| c.point_id.as_str()).collect();
    assert_eq!(ids, vec!["POINT-B", "POINT-C"]);
    let excluded: Vec<&str> = resp.exclusions.iter().map(|e| e.point_id.as_str()).collect();
    assert!(excluded.contains(&"POINT-A"));
    assert!(resp
        .exclusions
        .iter()
        .any(|e| e.reason == "MISSING_SERVICE"));
}

#[test]
fn wheelchair_requires_step_free_and_cannot_be_overridden_by_distance() {
    let catalog = sample_catalog();
    let req = RouteRequest {
        origin_grid: [2, 1],
        service: "LEGAL_AID".to_string(),
        mobility: vec![Mobility::Wheelchair],
        communication: vec![],
        request_time: None,
    };
    let resp = router::route(&catalog, &req, "snap-2".to_string());
    let ids: Vec<&str> = resp.candidates.iter().map(|c| c.point_id.as_str()).collect();
    assert!(!ids.contains(&"POINT-B"), "POINT-B lacks STEP_FREE");
    assert!(ids.contains(&"POINT-A"));
    assert!(resp
        .exclusions
        .iter()
        .any(|e| e.point_id == "POINT-B" && e.reason == "MISSING_ACCESSIBILITY"));
}

#[test]
fn hearing_requires_sign_interpreter() {
    let catalog = sample_catalog();
    let req = RouteRequest {
        origin_grid: [1, 1],
        service: "LEGAL_AID".to_string(),
        mobility: vec![],
        communication: vec![Communication::Hearing],
        request_time: Some(
            at("2026-08-05T00:00:00Z"),
        ),
    };
    let resp = router::route(&catalog, &req, "snap-3".to_string());
    let ids: Vec<&str> = resp.candidates.iter().map(|c| c.point_id.as_str()).collect();
    assert_eq!(ids, vec!["POINT-B", "POINT-C"]);
}

#[test]
fn all_hard_capabilities_miss_returns_no_candidates() {
    let catalog = sample_catalog();
    let req = RouteRequest {
        origin_grid: [1, 1],
        service: "MEDIATION".to_string(),
        mobility: vec![Mobility::Wheelchair],
        communication: vec![Communication::Hearing],
        request_time: Some(
            at("2026-08-03T00:00:00Z"),
        ),
    };
    let resp = router::route(&catalog, &req, "snap-4".to_string());
    assert!(resp.candidates.is_empty());
    let reasons: Vec<&str> = resp.exclusions.iter().map(|e| e.reason.as_str()).collect();
    assert!(reasons.contains(&"MISSING_ACCESSIBILITY"));
    assert!(reasons.contains(&"TEMPORARILY_CLOSED"));
}

#[test]
fn closure_excludes_point_during_window() {
    let catalog = sample_catalog();
    let req = RouteRequest {
        origin_grid: [5, 5],
        service: "LEGAL_AID".to_string(),
        mobility: vec![],
        communication: vec![],
        request_time: Some(
            at("2026-08-03T12:00:00Z"),
        ),
    };
    let resp = router::route(&catalog, &req, "snap-5".to_string());
    let ids: Vec<&str> = resp.candidates.iter().map(|c| c.point_id.as_str()).collect();
    assert!(!ids.contains(&"POINT-C"));
    assert!(resp
        .exclusions
        .iter()
        .any(|e| e.point_id == "POINT-C" && e.reason == "TEMPORARILY_CLOSED"));
}

#[test]
fn closure_start_endpoint_is_inclusive_end_is_exclusive() {
    let catalog = sample_catalog();
    let req_before_end = RouteRequest {
        origin_grid: [5, 5],
        service: "LEGAL_AID".to_string(),
        mobility: vec![],
        communication: vec![],
        request_time: Some(
            at("2026-08-03T23:59:59Z"),
        ),
    };
    let resp = router::route(&catalog, &req_before_end, "snap-6".to_string());
    assert!(resp
        .exclusions
        .iter()
        .any(|e| e.point_id == "POINT-C" && e.reason == "TEMPORARILY_CLOSED"));

    let req_at_start = RouteRequest {
        origin_grid: [5, 5],
        service: "LEGAL_AID".to_string(),
        mobility: vec![],
        communication: vec![],
        request_time: Some(
            at("2026-08-02T00:00:00Z"),
        ),
    };
    let resp = router::route(&catalog, &req_at_start, "snap-7".to_string());
    assert!(resp
        .exclusions
        .iter()
        .any(|e| e.point_id == "POINT-C" && e.reason == "TEMPORARILY_CLOSED"));

    let req_after_end = RouteRequest {
        origin_grid: [5, 5],
        service: "LEGAL_AID".to_string(),
        mobility: vec![],
        communication: vec![],
        request_time: Some(
            at("2026-08-04T00:00:00Z"),
        ),
    };
    let resp = router::route(&catalog, &req_after_end, "snap-8".to_string());
    assert!(resp.candidates.iter().any(|c| c.point_id == "POINT-C"));
}

#[test]
fn homebound_applicant_gets_home_service_reason() {
    let catalog = sample_catalog();
    let req = RouteRequest {
        origin_grid: [1, 1],
        service: "LEGAL_AID".to_string(),
        mobility: vec![Mobility::Homebound],
        communication: vec![],
        request_time: None,
    };
    let resp = router::route(&catalog, &req, "snap-9".to_string());
    assert!(resp.candidates.is_empty());
    assert!(resp
        .exclusions
        .iter()
        .all(|e| e.reason == "HOME_SERVICE_REQUIRED"));
}

#[test]
fn cost_breakdown_includes_distance_and_barrier() {
    let catalog = sample_catalog();
    let req = RouteRequest {
        origin_grid: [0, 0],
        service: "LEGAL_AID".to_string(),
        mobility: vec![],
        communication: vec![],
        request_time: None,
    };
    let resp = router::route(&catalog, &req, "snap-10".to_string());
    let a = resp.candidates.iter().find(|c| c.point_id == "POINT-A").unwrap();
    assert_eq!(a.distance, 2);
    assert_eq!(a.barrier_penalty, 0);
    assert_eq!(a.total_cost, 2);
    let b = resp.candidates.iter().find(|c| c.point_id == "POINT-B").unwrap();
    assert_eq!(b.distance, 3);
    assert_eq!(b.barrier_penalty, 1);
    assert_eq!(b.total_cost, 4);
}

#[test]
fn tie_break_is_stable_by_point_id() {
    let catalog = tied_cost_catalog();
    let req = RouteRequest {
        origin_grid: [0, 0],
        service: "LEGAL_AID".to_string(),
        mobility: vec![],
        communication: vec![],
        request_time: None,
    };
    let resp = router::route(&catalog, &req, "snap-11".to_string());
    let ids: Vec<&str> = resp.candidates.iter().map(|c| c.point_id.as_str()).collect();
    assert_eq!(ids, vec!["POINT-A", "POINT-M", "POINT-Z"]);
}

#[test]
fn ordering_is_deterministic_regardless_of_input_order() {
    let c1 = tied_cost_catalog();
    let mut c2 = tied_cost_catalog();
    c2.points.reverse();
    let req = RouteRequest {
        origin_grid: [0, 0],
        service: "LEGAL_AID".to_string(),
        mobility: vec![],
        communication: vec![],
        request_time: None,
    };
    let r1 = router::route(&c1, &req, "a".to_string());
    let r2 = router::route(&c2, &req, "b".to_string());
    let ids1: Vec<&str> = r1.candidates.iter().map(|c| c.point_id.as_str()).collect();
    let ids2: Vec<&str> = r2.candidates.iter().map(|c| c.point_id.as_str()).collect();
    assert_eq!(ids1, ids2);
    let ex1: Vec<(&str, &str)> = r1
        .exclusions
        .iter()
        .map(|e| (e.point_id.as_str(), e.reason.as_str()))
        .collect();
    let ex2: Vec<(&str, &str)> = r2
        .exclusions
        .iter()
        .map(|e| (e.point_id.as_str(), e.reason.as_str()))
        .collect();
    assert_eq!(ex1, ex2);
}

#[test]
fn snapshot_immutability_after_hot_reload() {
    let mut state = AppState::new();
    let catalog_v1 = sample_catalog();
    state.install(&catalog_v1);
    let req = RouteRequest {
        origin_grid: [5, 5],
        service: "LEGAL_AID".to_string(),
        mobility: vec![],
        communication: vec![],
        request_time: Some(at("2026-08-03T12:00:00Z")),
    };
    let resp_v1 = router::route(&catalog_v1, &req, "snap-v1".to_string());
    let snapshots = rusqlite::Connection::open_in_memory().unwrap();
    snapshots
        .execute_batch("CREATE TABLE snapshots (id TEXT, version TEXT, payload TEXT, made TEXT)")
        .unwrap();
    snapshots
        .execute(
            "INSERT INTO snapshots VALUES (?1, ?2, ?3, ?4)",
            ["snap-v1", &catalog_v1.catalog_version, &payload(&resp_v1), "2026-08-03T12:00:01Z"],
        )
        .unwrap();

    let mut catalog_v2 = sample_catalog();
    catalog_v2.catalog_version = "CAT-TEST-2".to_string();
    catalog_v2.closures = vec![];
    assert!(check_version(&catalog_v2, false).is_ok());
    state.install(&catalog_v2);

    let stored = snapshots
        .query_row("SELECT * FROM snapshots WHERE id = ?1", ["snap-v1"], |row| {
            let made: String = row.get(3)?;
            Ok(read_snapshot(row.get(0)?, row.get(1)?, row.get(2)?, &made))
        })
        .unwrap();
    assert_eq!(stored.id, "snap-v1");
    assert_eq!(stored.catalog_version, "CAT-TEST-1");
    assert_eq!(stored.created_at, at("2026-08-03T12:00:01Z"));
    let replayed: Value = serde_json::from_str(&stored.payload).unwrap();
    assert_eq!(replayed["catalogVersion"], "CAT-TEST-1");
    assert!(replayed["exclusions"]
        .as_array()
        .unwrap()
        .iter()
        .any(|e| e["pointId"] == "POINT-C" && e["reason"] == "TEMPORARILY_CLOSED"));
    assert!(!replayed["candidates"]
        .as_array()
        .unwrap()
        .iter()
        .any(|c| c["pointId"] == "POINT-C"));

    let current = catalog_v2;
    assert_eq!(current.catalog_version, "CAT-TEST-2");
    let resp_v2 = router::route(&current, &req, "snap-v2".to_string());
    assert!(resp_v2.candidates.iter().any(|c| c.point_id == "POINT-C"));
}

/// A response as it is stored.
fn payload(response: &RouteResponse) -> String {
    let object = |fields: Vec<(&str, Value)>| {
        Value::Object(fields.into_iter().map(|(k, v)| (k.to_string(), v)).collect())
    };
    let candidates = response
        .candidates
        .iter()
        .map(|c| object(vec![("pointId", c.point_id.as_str().into())]))
        .collect();
    let exclusions = response
        .exclusions
        .iter()
        .map(|e| {
            object(vec![
                ("pointId", e.point_id.as_str().into()),
                ("reason", e.reason.as_str().into()),
            ])
        })
        .collect();
    object(vec![
        ("catalogVersion", response.catalog_version.as_str().into()),
        ("candidates", Value::Array(candidates)),
        ("exclusions", Value::Array(exclusions)),
    ])
    .to_string()
}

#[test]
fn batch_routing_returns_independent_responses() {
    let catalog = sample_catalog();
    let requests = vec![
        RouteRequest {
            origin_grid: [1, 1],
            service: "LEGAL_AID".to_string(),
            mobility: vec![Mobility::Wheelchair],
            communication: vec![],
            request_time: None,
        },
        RouteRequest {
            origin_grid: [2, 1],
            service: "NOTARY".to_string(),
            mobility: vec![],
            communication: vec![Communication::Hearing],
            request_time: None,
        },
    ];
    let results: Vec<_> = requests
        .iter()
        .map(|r| router::route(&catalog, r, Uuid::new_v4().to_string()))
        .collect();
    assert_eq!(results.len(), 2);
    assert!(results[0].candidates.iter().all(|c| c.point_id != "POINT-B"));
    assert!(results[1].candidates.iter().any(|c| c.point_id == "POINT-B"));
}

#[test]
fn large_catalog_has_repeatable_timing_shape() {
    let mut catalog = sample_catalog();
    catalog.catalog_version = "CAT-LARGE".to_string();
    catalog.points = (0..5000)
        .map(|i| ServicePoint {
            id: format!("POINT-{:05}", i),
            grid: [i % 100, i / 100],
            services: set(&["LEGAL_AID"]),
            access: TextSet::new(),
            barrier_penalty: (i % 3) as i64,
        })
        .collect();
    catalog.closures = vec![];
    let req = RouteRequest {
        origin_grid: [50, 50],
        service: "LEGAL_AID".to_string(),
        mobility: vec![],
        communication: vec![],
        request_time: None,
    };
    let r1 = router::route(&catalog, &req, "a".to_string());
    let r2 = router::route(&catalog, &req, "b".to_string());
    assert_eq!(r1.candidates.len(), r2.candidates.len());
    let ids1: Vec<&str> = r1.candidates.iter().map(|c| c.point_id.as_str()).collect();
    let ids2: Vec<&str> = r2.candidates.iter().map(|c| c.point_id.as_str()).collect();
    assert_eq!(ids1, ids2);
    assert!(!r1.candidates.is_empty());
}

#[test]
fn required_access_follows_the_needs() {
    let hard = sample_catalog().hard_requirements;
    let all = hard.required_access_for(
        &[Mobility::Wheelchair, Mobility::Homebound, Mobility::Wheelchair],
        &[Communication::Speech, Communication::Hearing, Communication::Unaided],
    );
    assert_eq!(all.list(), vec!["SIGN_INTERPRETER", "STEP_FREE", "TEXT_COMMUNICATION"]);
    let none = hard.required_access_for(&[Mobility::Ambulatory], &[Communication::Unaided]);
    assert!(none.list().is_empty());
}

#[test]
fn details_name_what_is_missing() {
    let catalog = sample_catalog();
    let mut req = RouteRequest {
        origin_grid: [1, 1],
        service: "NOTARY".to_string(),
        mobility: vec![Mobility::Wheelchair],
        communication: vec![Communication::Speech],
        request_time: Some(at("2026-08-03T00:00:00Z")),
    };
    let resp = router::route(&catalog, &req, "s".to_string());
    let details: Vec<&str> = resp.exclusions.iter().map(|e| e.detail.as_str()).collect();
    assert_eq!(
        details,
        vec![
            "point does not offer service NOTARY",
            "point lacks required accessibility capability: STEP_FREE, TEXT_COMMUNICATION",
            "closure event CLOSE-01 active from 2026-08-02 00:00:00 UTC to 2026-08-04 00:00:00 UTC",
        ]
    );
    req.service = "LEGAL_AID".to_string();
    req.mobility = vec![Mobility::Homebound];
    req.communication = vec![];
    let resp = router::route(&catalog, &req, "s".to_string());
    assert_eq!(
        resp.exclusions[0].detail,
        "applicant is eligible for home service; in-person points excluded"
    );
    assert!(resp.home_service.is_none());
}

#[test]
fn home_visits_need_the_service_and_the_entitlement() {
    let mut catalog = sample_catalog();
    let mut req = RouteRequest {
        origin_grid: [1, 1],
        service: "NOTARY".to_string(),
        mobility: vec![Mobility::Homebound],
        communication: vec![],
        request_time: Some(at("2026-08-05T00:00:00Z")),
    };
    assert!(!router::is_eligible(&catalog, &req));
    req.service = "LEGAL_AID".to_string();
    assert!(router::is_eligible(&catalog, &req));
    catalog.home_service.allowed_mobility = set(&["WHEELCHAIR"]);
    assert!(!router::is_eligible(&catalog, &req));
}

#[test]
fn home_options_are_ranked_by_cost_and_slot() {
    let mut catalog = sample_catalog();
    let slot = |id: &str, grid: [i64; 2], penalty: i64| HomeServiceSlot {
        slot_id: id.to_string(),
        grid,
        capacity: 1,
        barrier_penalty: penalty,
    };
    catalog.home_service.slots = vec![
        slot("SLOT-Z", [2, 2], 1),
        slot("SLOT-B", [3, 2], 0),
        slot("SLOT-A", [2, 3], 0),
        slot("SLOT-Y", [2, 2], 0),
    ];
    let req = RouteRequest {
        origin_grid: [2, 2],
        service: "LEGAL_AID".to_string(),
        mobility: vec![Mobility::Homebound],
        communication: vec![],
        request_time: Some(at("2026-08-05T00:00:00Z")),
    };
    let found = router::evaluate(&catalog, &req);
    let ranked: Vec<(&str, i64)> = found
        .home_options
        .iter()
        .map(|o| (o.slot_id.as_str(), o.total_cost))
        .collect();
    assert_eq!(ranked, vec![("SLOT-Y", 0), ("SLOT-A", 1), ("SLOT-B", 1), ("SLOT-Z", 1)]);
    assert_eq!(found.notices.len(), 1);
    assert_eq!(found.notices[0].code, "HOME_SERVICE_REQUIRED");
    assert!(found.candidates.is_empty());
    assert_eq!(found.exclusions.len(), 3);
}

#[test]
fn first_closure_in_the_list_is_named() {
    let mut catalog = sample_catalog();
    catalog.closures.insert(
        0,
        Closure {
            event_id: "CLOSE-00".to_string(),
            point_id: "POINT-C".to_string(),
            from: at("2026-08-03T00:00:00Z"),
            to: at("2026-08-03T06:00:00Z"),
        },
    );
    let mut req = RouteRequest {
        origin_grid: [5, 5],
        service: "LEGAL_AID".to_string(),
        mobility: vec![],
        communication: vec![],
        request_time: Some(at("2026-08-03T01:00:00Z")),
    };
    let resp = router::route(&catalog, &req, "s".to_string());
    assert!(resp.exclusions[0].detail.starts_with("closure event CLOSE-00 "));
    req.request_time = Some(at("2026-08-03T06:00:00Z"));
    let resp = router::route(&catalog, &req, "s".to_string());
    assert!(resp.exclusions[0].detail.starts_with("closure event CLOSE-01 "));
}

#[test]
fn costs_out_of_range_are_recognised() {
    let mut catalog = sample_catalog();
    let mut req = RouteRequest {
        origin_grid: [0, 0],
        service: "LEGAL_AID".to_string(),
        mobility: vec![],
        communication: vec![],
        request_time: None,
    };
    assert!(router::has_costs(&catalog, &req));
    req.origin_grid = [i64::MIN, 0];
    assert!(!router::has_costs(&catalog, &req));
    req.origin_grid = [-1, 0];
    catalog.points[0].grid = [i64::MAX - 2, 0];
    assert!(router::has_costs(&catalog, &req));
    catalog.points[0].barrier_penalty = 2;
    assert!(!router::has_costs(&catalog, &req));
    catalog.points[0].barrier_penalty = 1;
    assert!(router::has_costs(&catalog, &req));
    let resp = router::route(&catalog, &req, "s".to_string());
    let far = resp.candidates.iter().find(|c| c.point_id == "POINT-A").unwrap();
    assert_eq!(far.total_cost, i64::MAX);
}

#[test]
fn costs_of_excluded_points_do_not_matter() {
    let mut catalog = sample_catalog();
    let far = catalog.points.iter().position(|p| p.id == "POINT-C").unwrap();
    catalog.points[far].grid = [i64::MAX, i64::MAX];
    let mut req = RouteRequest {
        origin_grid: [-1, 0],
        service: "LEGAL_AID".to_string(),
        mobility: vec![],
        communication: vec![],
        request_time: None,
    };
    // Open sooner or later.
    assert!(!router::has_costs(&catalog, &req));
    // Closed at the instant that is asked about.
    req.request_time = Some(at("2026-08-03T12:00:00Z"));
    assert!(router::has_costs(&catalog, &req));
    assert!(router::has_costs_at(&catalog, &req, &at("2026-08-03T12:00:00Z")));
    let resp = router::route(&catalog, &req, "s".to_string());
    assert!(resp.exclusions.iter().any(|e| e.point_id == "POINT-C"));
    req.request_time = Some(at("2026-08-10T12:00:00Z"));
    assert!(!router::has_costs(&catalog, &req));
    // Without the service the point is never open to the applicant.
    req.request_time = None;
    catalog.points[far].services = set(&[]);
    assert!(router::has_costs(&catalog, &req));
}

#[test]
fn costs_of_slots_do_not_matter_without_an_appointment() {
    let mut catalog = sample_catalog();
    catalog.home_service.slots = vec![HomeServiceSlot {
        slot_id: "FAR".to_string(),
        grid: [i64::MAX, i64::MAX],
        capacity: 1,
        barrier_penalty: 0,
    }];
    let req = RouteRequest {
        origin_grid: [0, 0],
        service: "LEGAL_AID".to_string(),
        mobility: vec![Mobility::Homebound],
        communication: vec![],
        request_time: None,
    };
    assert!(!router::has_slot_costs(&catalog, &req));
    assert!(!router::has_costs(&catalog, &req));
    assert!(router::has_point_costs(&catalog, &req));
    let resp = router::route(&catalog, &req, "s".to_string());
    assert!(resp.candidates.is_empty());
    assert_eq!(resp.exclusions.len(), catalog.points.len());
}

#[test]
fn further_needs_only_take_candidates_away() {
    let catalog = sample_catalog();
    let mut req = RouteRequest {
        origin_grid: [1, 1],
        service: "LEGAL_AID".to_string(),
        mobility: vec![],
        communication: vec![],
        request_time: Some(at("2026-08-10T12:00:00Z")),
    };
    let ids = |req: &RouteRequest| -> Vec<String> {
        router::route(&catalog, req, "s".to_string())
            .candidates
            .into_iter()
            .map(|c| c.point_id)
            .collect()
    };
    let all = ids(&req);
    req.mobility = vec![Mobility::Wheelchair];
    let fewer = ids(&req);
    assert!(fewer.len() < all.len());
    assert_eq!(fewer, all.iter().filter(|id| fewer.contains(id)).cloned().collect::<Vec<_>>());
    req.communication = vec![Communication::Hearing, Communication::Speech];
    let forth = ids(&req);
    req.communication.reverse();
    req.mobility.push(Mobility::Wheelchair);
    assert_eq!(ids(&req), forth);
}
