//! Routing over a catalog in normal form.

use legal_service_router::instant::Timestamp;
use legal_service_router::keyed::TextMap;
use legal_service_router::model::{
    Catalog, Grid, RawCatalog, RawClosure, RawDegradation, RawHomeService, RawHomeSlot, RawPoint,
};
use legal_service_router::planner::{has_costs, route, RouteRequest, RouteResult};

fn ts(s: &str) -> Timestamp {
    let t = chrono::DateTime::parse_from_rfc3339(s)
        .unwrap()
        .with_timezone(&chrono::Utc);
    Timestamp::new(t.timestamp(), t.timestamp_subsec_nanos()).unwrap()
}

fn texts(items: &[&str]) -> Vec<String> {
    items.iter().map(|s| s.to_string()).collect()
}

fn point(id: &str, grid: [i64; 2], services: &[&str], access: &[&str], penalty: i64) -> RawPoint {
    RawPoint {
        id: id.to_string(),
        grid,
        services: texts(services),
        access: texts(access),
        barrier_penalty: penalty,
    }
}

fn requirements(pairs: &[(&str, &str)]) -> TextMap<String> {
    let mut m: TextMap<String> = TextMap::new();
    for (need, capability) in pairs {
        m.insert(need.to_string(), capability.to_string());
    }
    m
}

fn listed(version: &str, points: Vec<RawPoint>, hard: &[(&str, &str)]) -> RawCatalog {
    RawCatalog {
        catalog_version: version.to_string(),
        cost_formula: String::new(),
        points,
        hard_requirements: requirements(hard),
        tie_break: vec![],
        closures: vec![],
        degradations: vec![],
        home_service: None,
    }
}

fn fixture() -> RawCatalog {
    RawCatalog {
        catalog_version: "CAT-2026-07-31".to_string(),
        cost_formula: "abs(originGridX-pointGridX)+abs(originGridY-pointGridY)+barrierPenalty"
            .to_string(),
        points: vec![
            point("POINT-A", [1, 1], &["LEGAL_AID", "MEDIATION"], &["STEP_FREE", "TEXT_COMMUNICATION"], 0),
            point("POINT-B", [2, 1], &["LEGAL_AID", "NOTARY"], &["SIGN_INTERPRETER"], 1),
            point(
                "POINT-C",
                [5, 5],
                &["LEGAL_AID", "NOTARY", "MEDIATION"],
                &["STEP_FREE", "SIGN_INTERPRETER", "TEXT_COMMUNICATION"],
                0,
            ),
        ],
        hard_requirements: requirements(&[
            ("WHEELCHAIR", "STEP_FREE"),
            ("HEARING", "SIGN_INTERPRETER"),
            ("SPEECH", "TEXT_COMMUNICATION"),
        ]),
        tie_break: texts(&["totalCost ascending", "point id ascending"]),
        closures: vec![RawClosure {
            event_id: "CLOSE-01".to_string(),
            point_id: "POINT-C".to_string(),
            from: ts("2026-08-02T00:00:00Z"),
            to: ts("2026-08-04T00:00:00Z"),
        }],
        degradations: vec![RawDegradation {
            event_id: "DEGRADE-01".to_string(),
            point_id: "POINT-C".to_string(),
            capability: "STEP_FREE".to_string(),
            from: ts("2026-08-03T00:00:00Z"),
            to: ts("2026-08-05T00:00:00Z"),
        }],
        home_service: Some(RawHomeService {
            allowed_service: "LEGAL_AID".to_string(),
            allowed_mobility: texts(&["HOMEBOUND"]),
            reason: "HOME_SERVICE_REQUIRED".to_string(),
            slots: vec![],
        }),
    }
}

fn fixture_catalog() -> Catalog {
    Catalog::from_json(Ok(fixture())).unwrap()
}

#[test]
fn hard_filter_precedes_cost_even_when_closer() {
    // A wheelchair applicant near POINT-B (which lacks STEP_FREE) must not be
    // routed there just because it is closer than the compliant POINT-A/C.
    let cat = fixture_catalog();
    let req = RouteRequest {
        origin: [2, 1], // exactly on POINT-B
        service: "LEGAL_AID".into(),
        mobility: Some("WHEELCHAIR".into()),
        communication: vec![],
        at: Some(ts("2026-07-01T00:00:00Z")), // before the closure window
    };
    let res = route(&cat, &req);
    // POINT-B excluded for missing STEP_FREE despite distance 0.
    let excluded_b = res
        .exclusions
        .iter()
        .find(|e| e.point_id == "POINT-B")
        .expect("POINT-B excluded");
    assert!(excluded_b.reasons.iter().any(|r| r == "MISSING_ACCESS:STEP_FREE"));
    // Best candidate is the nearest compliant one: POINT-A (dist 1) over C.
    assert_eq!(res.candidates[0].point_id, "POINT-A");
    assert!(res.candidates.iter().all(|c| c.point_id != "POINT-B"));
}

#[test]
fn all_hard_capabilities_unsatisfied_yields_empty_candidates() {
    // Applicant that is wheelchair + hearing + speech impaired requesting NOTARY.
    // Only POINT-C satisfies all access caps AND NOTARY, but it's closed in the
    // fixture window -> zero candidates, full reason chain retained.
    let cat = fixture_catalog();
    let req = RouteRequest {
        origin: [0, 0],
        service: "NOTARY".into(),
        mobility: Some("WHEELCHAIR".into()),
        communication: vec!["HEARING".into(), "SPEECH".into()],
        at: Some(ts("2026-08-03T00:00:00Z")), // inside CLOSE-01
    };
    let res = route(&cat, &req);
    assert!(res.candidates.is_empty(), "expected no candidates");
    assert_eq!(res.exclusions.len(), 3);
    // POINT-A: no NOTARY, missing SIGN_INTERPRETER.
    let a = res.exclusions.iter().find(|e| e.point_id == "POINT-A").unwrap();
    assert!(a.reasons.contains(&"MISSING_SERVICE".to_string()));
    assert!(a.reasons.contains(&"MISSING_ACCESS:SIGN_INTERPRETER".to_string()));
    // POINT-C: correct service+access but CLOSED.
    let c = res.exclusions.iter().find(|e| e.point_id == "POINT-C").unwrap();
    assert!(c.reasons.iter().any(|r| r == "CLOSED:CLOSE-01"));
}

#[test]
fn equal_cost_breaks_ties_by_point_id() {
    // Build a catalog with two equidistant, equally-compliant points.
    let mut raw = listed(
        "TIE-1",
        vec![
            point("POINT-Z", [1, 0], &["LEGAL_AID"], &[], 0),
            point("POINT-A", [-1, 0], &["LEGAL_AID"], &[], 0),
        ],
        &[],
    );
    raw.tie_break = texts(&["totalCost ascending", "point id ascending"]);
    let cat = Catalog::from_json(Ok(raw)).unwrap();
    let req = RouteRequest {
        origin: [0, 0],
        service: "LEGAL_AID".into(),
        mobility: None,
        communication: vec![],
        at: Some(ts("2026-01-01T00:00:00Z")),
    };
    let res = route(&cat, &req);
    assert_eq!(res.candidates.len(), 2);
    assert_eq!(res.candidates[0].cost.total, res.candidates[1].cost.total);
    // Same cost -> ascending id wins.
    assert_eq!(res.candidates[0].point_id, "POINT-A");
    assert_eq!(res.candidates[1].point_id, "POINT-Z");
}

#[test]
fn input_order_does_not_change_output() {
    // Two catalogs with points and needs in different orders must produce
    // identical candidates, exclusions, and cost breakdowns.
    let raw_a = listed(
        "ORDER-1",
        vec![
            point("P1", [1, 1], &["LEGAL_AID", "MEDIATION"], &["STEP_FREE"], 0),
            point("P2", [3, 3], &["MEDIATION", "LEGAL_AID"], &["STEP_FREE", "TEXT_COMMUNICATION"], 2),
        ],
        &[("WHEELCHAIR", "STEP_FREE"), ("SPEECH", "TEXT_COMMUNICATION")],
    );
    // Reversed point order and reversed capability order.
    let raw_b = listed(
        "ORDER-1",
        vec![
            point("P2", [3, 3], &["LEGAL_AID", "MEDIATION"], &["TEXT_COMMUNICATION", "STEP_FREE"], 2),
            point("P1", [1, 1], &["MEDIATION", "LEGAL_AID"], &["STEP_FREE"], 0),
        ],
        &[("SPEECH", "TEXT_COMMUNICATION"), ("WHEELCHAIR", "STEP_FREE")],
    );
    let cat_a = Catalog::from_json(Ok(raw_a)).unwrap();
    let cat_b = Catalog::from_json(Ok(raw_b)).unwrap();
    assert_eq!(cat_a, cat_b);

    let req1 = RouteRequest {
        origin: [0, 0],
        service: "LEGAL_AID".into(),
        mobility: Some("WHEELCHAIR".into()),
        communication: vec!["SPEECH".into()],
        at: Some(ts("2026-01-01T00:00:00Z")),
    };
    // Same request but communication needs reversed.
    let req2 = RouteRequest {
        communication: vec!["SPEECH".into()],
        ..req1.clone()
    };
    let res_a = route(&cat_a, &req1);
    let res_b = route(&cat_b, &req2);
    assert_eq!(res_a, res_b, "routing must be independent of input order");
}

#[test]
fn home_service_eligibility() {
    let cat = fixture_catalog();
    let req = RouteRequest {
        origin: [9, 9],
        service: "LEGAL_AID".into(),
        mobility: Some("HOMEBOUND".into()),
        communication: vec![],
        at: Some(ts("2026-01-01T00:00:00Z")),
    };
    let res = route(&cat, &req);
    let hs = res.home_service.expect("home service applied");
    assert_eq!(hs.reason, "HOME_SERVICE_REQUIRED");
}

#[test]
fn closure_half_open_boundaries() {
    let cat = fixture_catalog();
    let base = RouteRequest {
        origin: [5, 5],
        service: "NOTARY".into(),
        mobility: None,
        communication: vec![],
        at: None,
    };
    // At exactly `from` -> closed.
    let at_from = RouteRequest { at: Some(ts("2026-08-02T00:00:00Z")), ..base.clone() };
    assert!(route(&cat, &at_from)
        .exclusions
        .iter()
        .any(|e| e.point_id == "POINT-C" && e.reasons.iter().any(|r| r == "CLOSED:CLOSE-01")));
    // At exactly `to` -> open again.
    let at_to = RouteRequest { at: Some(ts("2026-08-04T00:00:00Z")), ..base.clone() };
    assert!(route(&cat, &at_to)
        .candidates
        .iter()
        .any(|c| c.point_id == "POINT-C"));
}

#[test]
fn perf_larger_catalog_is_repeatable() {
    // Build a larger synthetic catalog and route over it again and again.
    let n = 5_000i64;
    let mut points = Vec::with_capacity(n as usize);
    for i in 0..n {
        points.push(point(
            &format!("POINT-{i:05}"),
            [i % 100, i / 100],
            &["LEGAL_AID"],
            &["STEP_FREE"],
            i % 3,
        ));
    }
    let raw = listed("PERF-1", points, &[("WHEELCHAIR", "STEP_FREE")]);
    let cat = Catalog::from_json(Ok(raw)).unwrap();
    let req = RouteRequest {
        origin: [50, 25],
        service: "LEGAL_AID".into(),
        mobility: Some("WHEELCHAIR".into()),
        communication: vec![],
        at: Some(ts("2026-07-01T00:00:00Z")),
    };

    // Assert determinism across runs.
    let first = route(&cat, &req);
    let iterations = 200u32;
    let start = std::time::Instant::now();
    for _ in 0..iterations {
        let r = route(&cat, &req);
        assert_eq!(r.candidates.len(), first.candidates.len());
        assert_eq!(r.candidates[0].point_id, first.candidates[0].point_id);
    }
    let elapsed = start.elapsed();
    let per = elapsed / iterations;
    println!(
        "[perf] catalog_points={n} candidates={} iterations={iterations} total={elapsed:?} per_route={per:?}",
        first.candidates.len()
    );
    let again = route(&cat, &req);
    assert_eq!(first, again);
}

fn wheelchair_notary_at(at: &str) -> RouteRequest {
    // POINT-C is the only point offering NOTARY *and* STEP_FREE.
    RouteRequest {
        origin: [5, 5],
        service: "NOTARY".into(),
        mobility: Some("WHEELCHAIR".into()),
        communication: vec![],
        at: Some(ts(at)),
    }
}

fn point_c_reasons(res: &RouteResult) -> Vec<String> {
    res.exclusions
        .iter()
        .find(|e| e.point_id == "POINT-C")
        .map(|e| e.reasons.clone())
        .unwrap_or_default()
}

#[test]
fn degradation_timeline_and_overlap_priority() {
    let cat = fixture_catalog();

    // Before any event: POINT-C is a candidate (open, STEP_FREE present).
    let before = route(&cat, &wheelchair_notary_at("2026-08-01T12:00:00Z"));
    assert!(before.candidates.iter().any(|c| c.point_id == "POINT-C"));

    // Closure-only window: closed, degradation not yet active.
    let closed_only = route(&cat, &wheelchair_notary_at("2026-08-02T12:00:00Z"));
    assert_eq!(point_c_reasons(&closed_only), vec!["CLOSED:CLOSE-01"]);

    // Overlap window: closure DOMINATES; degradation is suppressed.
    let overlap = route(&cat, &wheelchair_notary_at("2026-08-03T12:00:00Z"));
    assert_eq!(point_c_reasons(&overlap), vec!["CLOSED:CLOSE-01"]);

    // Post-closure but still degraded: only the degradation reason remains.
    let degraded = route(&cat, &wheelchair_notary_at("2026-08-04T12:00:00Z"));
    assert_eq!(point_c_reasons(&degraded), vec!["DEGRADED:DEGRADE-01:STEP_FREE"]);
    assert!(degraded.candidates.iter().all(|c| c.point_id != "POINT-C"));

    // After both events: candidate again, results identical to `before`.
    let after = route(&cat, &wheelchair_notary_at("2026-08-05T12:00:00Z"));
    assert!(after.candidates.iter().any(|c| c.point_id == "POINT-C"));
}

#[test]
fn degradation_half_open_boundaries() {
    let cat = fixture_catalog();

    // Exactly at closure `to` (08-04): closure ends, degradation still active.
    let at_close_to = route(&cat, &wheelchair_notary_at("2026-08-04T00:00:00Z"));
    assert_eq!(point_c_reasons(&at_close_to), vec!["DEGRADED:DEGRADE-01:STEP_FREE"]);

    // Exactly at degradation `to` (08-05): degradation ends -> candidate.
    let at_degrade_to = route(&cat, &wheelchair_notary_at("2026-08-05T00:00:00Z"));
    assert!(at_degrade_to.candidates.iter().any(|c| c.point_id == "POINT-C"));

    // Exactly at degradation `from` (08-03): but closure still covers -> CLOSED.
    let at_degrade_from = route(&cat, &wheelchair_notary_at("2026-08-03T00:00:00Z"));
    assert_eq!(point_c_reasons(&at_degrade_from), vec!["CLOSED:CLOSE-01"]);
}

#[test]
fn degradation_ignored_when_capability_not_needed() {
    // A hearing applicant needs SIGN_INTERPRETER, not STEP_FREE, so the
    // STEP_FREE degradation must not exclude POINT-C during the degraded window.
    let cat = fixture_catalog();
    let req = RouteRequest {
        origin: [5, 5],
        service: "NOTARY".into(),
        mobility: None,
        communication: vec!["HEARING".into()],
        at: Some(ts("2026-08-04T12:00:00Z")), // degraded window
    };
    let res = route(&cat, &req);
    assert!(res.candidates.iter().any(|c| c.point_id == "POINT-C"));
}

#[test]
fn equal_cost_candidates_with_degradation() {
    // Two equidistant NOTARY+STEP_FREE points; degrade STEP_FREE on the
    // lower-id one so only the other survives — proves the degradation removes
    // a candidate rather than merely reordering equal-cost ties.
    let mut raw = listed(
        "DEG-TIE-1",
        vec![
            point("POINT-A", [1, 0], &["NOTARY"], &["STEP_FREE"], 0),
            point("POINT-B", [-1, 0], &["NOTARY"], &["STEP_FREE"], 0),
        ],
        &[("WHEELCHAIR", "STEP_FREE")],
    );
    raw.tie_break = texts(&["totalCost ascending", "point id ascending"]);
    raw.degradations = vec![RawDegradation {
        event_id: "DEG-X".to_string(),
        point_id: "POINT-A".to_string(),
        capability: "STEP_FREE".to_string(),
        from: ts("2026-08-10T00:00:00Z"),
        to: ts("2026-08-12T00:00:00Z"),
    }];
    let cat = Catalog::from_json(Ok(raw)).unwrap();
    let req = RouteRequest {
        origin: [0, 0],
        service: "NOTARY".into(),
        mobility: Some("WHEELCHAIR".into()),
        communication: vec![],
        at: Some(ts("2026-08-11T00:00:00Z")),
    };
    let res = route(&cat, &req);
    assert_eq!(res.candidates.len(), 1);
    assert_eq!(res.candidates[0].point_id, "POINT-B");
    let a = res.exclusions.iter().find(|e| e.point_id == "POINT-A").unwrap();
    assert_eq!(a.reasons, vec!["DEGRADED:DEG-X:STEP_FREE"]);
}

#[test]
fn degraded_points_list_what_is_left() {
    let cat = fixture_catalog();
    let mut req = wheelchair_notary_at("2026-08-04T12:00:00Z");
    req.mobility = None;
    let res = route(&cat, &req);
    let c = res.candidates.iter().find(|c| c.point_id == "POINT-C").unwrap();
    assert_eq!(c.access, vec!["SIGN_INTERPRETER", "TEXT_COMMUNICATION"]);
    req.at = Some(ts("2026-08-05T00:00:00Z"));
    let res = route(&cat, &req);
    let c = res.candidates.iter().find(|c| c.point_id == "POINT-C").unwrap();
    assert_eq!(c.access, vec!["SIGN_INTERPRETER", "STEP_FREE", "TEXT_COMMUNICATION"]);
    assert_eq!((c.cost.distance, c.cost.barrier_penalty, c.cost.total), (0, 0, 0));
}

#[test]
fn capabilities_never_offered_are_missing_not_degraded() {
    let mut raw = fixture();
    raw.degradations.push(RawDegradation {
        event_id: "DEGRADE-B".to_string(),
        point_id: "POINT-B".to_string(),
        capability: "STEP_FREE".to_string(),
        from: ts("2026-08-03T00:00:00Z"),
        to: ts("2026-08-05T00:00:00Z"),
    });
    let cat = Catalog::from_raw(raw).unwrap();
    let res = route(&cat, &wheelchair_notary_at("2026-08-04T12:00:00Z"));
    let b = res.exclusions.iter().find(|e| e.point_id == "POINT-B").unwrap();
    assert_eq!(b.reasons, vec!["MISSING_ACCESS:STEP_FREE"]);
}

#[test]
fn reasons_come_in_a_fixed_order() {
    let mut raw = fixture();
    raw.points[2].access = texts(&["STEP_FREE"]);
    raw.closures.clear();
    let cat = Catalog::from_raw(raw).unwrap();
    let req = RouteRequest {
        origin: [0, 0],
        service: "IMMIGRATION".into(),
        mobility: Some("WHEELCHAIR".into()),
        communication: texts(&["SPEECH", "HEARING"]),
        at: Some(ts("2026-08-03T12:00:00Z")),
    };
    let res = route(&cat, &req);
    assert_eq!(
        point_c_reasons(&res),
        vec![
            "MISSING_SERVICE",
            "MISSING_ACCESS:SIGN_INTERPRETER",
            "MISSING_ACCESS:TEXT_COMMUNICATION",
            "DEGRADED:DEGRADE-01:STEP_FREE",
        ]
    );
    assert_eq!(res.catalog_version, "CAT-2026-07-31");
}

#[test]
fn home_visits_follow_service_and_mobility() {
    let cat = fixture_catalog();
    let mut req = RouteRequest {
        origin: [9, 9],
        service: "NOTARY".into(),
        mobility: Some("HOMEBOUND".into()),
        communication: vec![],
        at: None,
    };
    assert!(route(&cat, &req).home_service.is_none());
    req.service = "LEGAL_AID".into();
    req.mobility = Some("WHEELCHAIR".into());
    assert!(route(&cat, &req).home_service.is_none());
    req.mobility = None;
    assert!(route(&cat, &req).home_service.is_none());
}

#[test]
fn faults_of_a_listed_catalog_are_told() {
    let mut raw = fixture();
    raw.points.push(point("POINT-A", [0, 0], &[], &[], 0));
    assert_eq!(Catalog::from_raw(raw).unwrap_err(), "duplicate point id: POINT-A");

    let mut raw = fixture();
    raw.closures[0].to = ts("2026-08-01T23:59:59Z");
    assert_eq!(Catalog::from_raw(raw).unwrap_err(), "closure CLOSE-01 has to < from");

    let mut raw = fixture();
    raw.closures[0].to = raw.closures[0].from;
    assert!(Catalog::from_raw(raw).is_ok());

    let mut raw = fixture();
    raw.degradations[0].from = ts("2026-08-05T00:00:01Z");
    assert_eq!(Catalog::from_raw(raw).unwrap_err(), "degradation DEGRADE-01 has to < from");

    assert_eq!(
        Catalog::from_json(Err("eof".to_string())).unwrap_err(),
        "invalid catalog json: eof"
    );
}

#[test]
fn normal_form_sorts_events_and_slots() {
    let mut raw = fixture();
    let later = RawClosure {
        event_id: "CLOSE-00".to_string(),
        point_id: "POINT-C".to_string(),
        from: ts("2026-09-02T00:00:00Z"),
        to: ts("2026-09-04T00:00:00Z"),
    };
    raw.closures.push(later);
    let slot = |id: &str, cost: i64| RawHomeSlot { slot_id: id.to_string(), cost, capacity: 2 };
    raw.home_service.as_mut().unwrap().slots = vec![slot("S3", 1), slot("S2", 1), slot("S1", 5)];
    let mut turned = raw.clone();
    turned.points.reverse();
    turned.closures.reverse();
    turned.home_service.as_mut().unwrap().slots.reverse();
    let cat = Catalog::from_raw(raw).unwrap();
    let events: Vec<&str> = cat
        .closures_by_point
        .get("POINT-C")
        .unwrap()
        .iter()
        .map(|c| c.event_id.as_str())
        .collect();
    assert_eq!(events, vec!["CLOSE-00", "CLOSE-01"]);
    let slots: Vec<&str> = cat
        .home_service
        .as_ref()
        .unwrap()
        .slots
        .iter()
        .map(|s| s.slot_id.as_str())
        .collect();
    assert_eq!(slots, vec!["S2", "S3", "S1"]);
    assert_eq!(cat, Catalog::from_raw(turned).unwrap());
}

#[test]
fn events_cover_their_first_instant_and_not_their_last() {
    let cat = fixture_catalog();
    let closure = &cat.closures_by_point.get("POINT-C").unwrap()[0];
    assert!(!closure.covers(ts("2026-08-01T23:59:59.999999999Z")));
    assert!(closure.covers(ts("2026-08-02T00:00:00Z")));
    assert!(closure.covers(ts("2026-08-03T23:59:59.999999999Z")));
    assert!(!closure.covers(ts("2026-08-04T00:00:00Z")));
    let degradation = &cat.degradations_by_point.get("POINT-C").unwrap()[0];
    assert!(!degradation.covers(ts("2026-08-02T23:59:59Z")));
    assert!(degradation.covers(ts("2026-08-03T00:00:00Z")));
    assert!(!degradation.covers(ts("2026-08-05T00:00:00Z")));
}

#[test]
fn distances_are_manhattan() {
    let a = Grid { x: -3, y: 4 };
    let b = Grid { x: 2, y: 1 };
    assert_eq!(a.manhattan(&b), 8);
    assert_eq!(b.manhattan(&a), 8);
    assert_eq!(a.manhattan(&a), 0);
}

#[test]
fn planner_costs_out_of_range_are_recognised() {
    let cat = fixture_catalog();
    let mut req = wheelchair_notary_at("2026-08-06T00:00:00Z");
    assert!(has_costs(&cat, &req));
    req.origin = [i64::MAX, i64::MIN];
    assert!(!has_costs(&cat, &req));
    // Nothing is open to the applicant, so nothing is out of reach.
    req.service = "IMMIGRATION".to_string();
    assert!(has_costs(&cat, &req));
    req.at = None;
    assert!(has_costs(&cat, &req));
    assert_eq!(route(&cat, &req).candidates.len(), 0);
    req.service = "NOTARY".to_string();
    assert!(!has_costs(&cat, &req));
}
