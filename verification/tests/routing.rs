//! Routing over a catalog in its plain form.

use chrono::{DateTime, Duration, TimeZone, Utc};
use legal_service_router::catalog::{
    parse_catalog, parse_rfc3339, validate_catalog, Catalog, Closure, Degradation,
    HomeServiceConfig, Point,
};
use legal_service_router::error::AppError;
use legal_service_router::instant::Timestamp;
use legal_service_router::keyed::TextMap;
use legal_service_router::routing::{
    compare_reasons, has_costs_at, resolve_query_time, resolve_required_access, validate_request,
    ExclusionReason, RouteRequest, RouteResult,
};
use legal_service_router::text::Relation;

fn stamp(t: DateTime<Utc>) -> Timestamp {
    Timestamp::new(t.timestamp(), t.timestamp_subsec_nanos()).unwrap()
}

fn compute(catalog: &Catalog, request: &RouteRequest, t: DateTime<Utc>) -> RouteResult {
    legal_service_router::routing::compute(catalog, request, stamp(t))
}

fn closure_window() -> (DateTime<Utc>, DateTime<Utc>) {
    let from = Utc.with_ymd_and_hms(2026, 8, 2, 0, 0, 0).unwrap();
    let to = Utc.with_ymd_and_hms(2026, 8, 4, 0, 0, 0).unwrap();
    (from, to)
}

fn open_time() -> DateTime<Utc> {
    let (_, to) = closure_window();
    to + Duration::days(1)
}

fn sample_catalog() -> Catalog {
    let (from, to) = closure_window();
    let mut hard: TextMap<String> = TextMap::new();
    hard.insert("WHEELCHAIR".into(), "STEP_FREE".into());
    hard.insert("HEARING".into(), "SIGN_INTERPRETER".into());
    hard.insert("SPEECH".into(), "TEXT_COMMUNICATION".into());

    Catalog {
        catalog_version: "CAT-TEST".into(),
        cost_formula: "abs(originGridX-pointGridX)+abs(originGridY-pointGridY)+barrierPenalty".into(),
        points: vec![
            Point {
                id: "POINT-A".into(),
                grid: [1, 1],
                services: vec!["LEGAL_AID".into(), "MEDIATION".into()],
                access: vec!["STEP_FREE".into(), "TEXT_COMMUNICATION".into()],
                barrier_penalty: 0,
            },
            Point {
                id: "POINT-B".into(),
                grid: [2, 1],
                services: vec!["LEGAL_AID".into(), "NOTARY".into()],
                access: vec!["SIGN_INTERPRETER".into()],
                barrier_penalty: 1,
            },
            Point {
                id: "POINT-C".into(),
                grid: [5, 5],
                services: vec!["LEGAL_AID".into(), "NOTARY".into(), "MEDIATION".into()],
                access: vec![
                    "STEP_FREE".into(),
                    "SIGN_INTERPRETER".into(),
                    "TEXT_COMMUNICATION".into(),
                ],
                barrier_penalty: 0,
            },
        ],
        hard_requirements: hard,
        tie_break: vec!["totalCost ascending".into(), "point id ascending".into()],
        closures: vec![Closure {
            event_id: "CLOSE-01".into(),
            point_id: "POINT-C".into(),
            from: stamp(from),
            to: stamp(to),
        }],
        degradations: vec![],
        home_service: HomeServiceConfig {
            allowed_service: "LEGAL_AID".into(),
            allowed_mobility: vec!["HOMEBOUND".into()],
            reason: "HOME_SERVICE_REQUIRED".into(),
        },
    }
}

fn req(service: &str, mobility: &[&str], communication: &[&str], t: DateTime<Utc>) -> RouteRequest {
    RouteRequest {
        origin_grid: [2, 2],
        service: service.into(),
        mobility: mobility.iter().map(|s| s.to_string()).collect(),
        communication: communication.iter().map(|s| s.to_string()).collect(),
        query_time: Some(t.to_rfc3339()),
    }
}

#[test]
fn test_basic_routing_and_tie_break_by_point_id() {
    let cat = sample_catalog();
    let t = open_time();
    let r = compute(&cat, &req("LEGAL_AID", &[], &[], t), t);
    let ids: Vec<_> = r.candidates.iter().map(|c| c.point_id.clone()).collect();
    assert_eq!(ids, vec!["POINT-A", "POINT-B", "POINT-C"]);
    assert_eq!(r.candidates[0].total_cost, 2);
    assert_eq!(r.candidates[1].total_cost, 2);
    assert_eq!(r.candidates[2].total_cost, 6);
    assert_eq!(r.candidates[0].rank, 1);
    assert_eq!(r.candidates[1].rank, 2);
}

#[test]
fn test_wheelchair_filters_before_distance() {
    let cat = sample_catalog();
    let t = open_time();
    let r = compute(&cat, &req("LEGAL_AID", &["WHEELCHAIR"], &[], t), t);
    let ids: Vec<_> = r.candidates.iter().map(|c| c.point_id.clone()).collect();
    assert_eq!(ids, vec!["POINT-A", "POINT-C"]);
    let b = r.excluded.iter().find(|e| e.point_id == "POINT-B").unwrap();
    assert!(matches!(
        &b.reasons[0],
        ExclusionReason::MissingAccess { required } if required == "STEP_FREE"
    ));
    assert_eq!(r.candidates[1].total_cost, 6);
}

#[test]
fn test_hearing_requirement() {
    let cat = sample_catalog();
    let t = open_time();
    let r = compute(&cat, &req("LEGAL_AID", &[], &["HEARING"], t), t);
    let ids: Vec<_> = r.candidates.iter().map(|c| c.point_id.clone()).collect();
    assert_eq!(ids, vec!["POINT-B", "POINT-C"]);
}

#[test]
fn test_speech_requirement() {
    let cat = sample_catalog();
    let t = open_time();
    let r = compute(&cat, &req("LEGAL_AID", &[], &["SPEECH"], t), t);
    let ids: Vec<_> = r.candidates.iter().map(|c| c.point_id.clone()).collect();
    assert_eq!(ids, vec!["POINT-A", "POINT-C"]);
}

#[test]
fn test_all_three_requirements_only_c() {
    let cat = sample_catalog();
    let t = open_time();
    let r = compute(
        &cat,
        &req("LEGAL_AID", &["WHEELCHAIR"], &["HEARING", "SPEECH"], t),
        t,
    );
    let ids: Vec<_> = r.candidates.iter().map(|c| c.point_id.clone()).collect();
    assert_eq!(ids, vec!["POINT-C"]);
}

#[test]
fn test_no_candidates_when_all_hard_capabilities_unsatisfied() {
    let cat = sample_catalog();
    let (from, _) = closure_window();
    let r = compute(
        &cat,
        &req("NOTARY", &["WHEELCHAIR"], &["HEARING"], from),
        from,
    );
    assert!(r.candidates.is_empty());
    let excluded_ids: Vec<_> = r.excluded.iter().map(|e| e.point_id.clone()).collect();
    assert!(excluded_ids.contains(&"POINT-A".to_string()));
    assert!(excluded_ids.contains(&"POINT-B".to_string()));
    assert!(excluded_ids.contains(&"POINT-C".to_string()));
    let c = r.excluded.iter().find(|e| e.point_id == "POINT-C").unwrap();
    assert!(c.reasons.iter().any(|reason| matches!(
        reason,
        ExclusionReason::TemporarilyClosed { .. }
    )));
}

#[test]
fn test_unknown_service_excludes_all() {
    let cat = sample_catalog();
    let (from, _) = closure_window();
    let r = compute(&cat, &req("IMMIGRATION", &[], &[], from), from);
    assert!(r.candidates.is_empty());
    assert_eq!(r.excluded.len(), 3);
    for e in &r.excluded {
        assert!(matches!(&e.reasons[0], ExclusionReason::MissingService { .. }));
    }
}

#[test]
fn test_closure_start_boundary_is_closed() {
    let cat = sample_catalog();
    let (from, _) = closure_window();
    let r = compute(&cat, &req("LEGAL_AID", &[], &[], from), from);
    let c = r.excluded.iter().find(|e| e.point_id == "POINT-C").unwrap();
    assert!(matches!(&c.reasons[0], ExclusionReason::TemporarilyClosed { event_id, .. } if event_id == "CLOSE-01"));
}

#[test]
fn test_closure_end_boundary_is_open() {
    let cat = sample_catalog();
    let (_, to) = closure_window();
    let r = compute(&cat, &req("LEGAL_AID", &[], &[], to), to);
    let ids: Vec<_> = r.candidates.iter().map(|c| c.point_id.clone()).collect();
    assert!(ids.contains(&"POINT-C".to_string()));
    assert!(r.excluded.iter().all(|e| e.point_id != "POINT-C"));
}

#[test]
fn test_just_before_closure_is_open() {
    let cat = sample_catalog();
    let (from, _) = closure_window();
    let t = from - Duration::seconds(1);
    let r = compute(&cat, &req("LEGAL_AID", &[], &[], t), t);
    let ids: Vec<_> = r.candidates.iter().map(|c| c.point_id.clone()).collect();
    assert!(ids.contains(&"POINT-C".to_string()));
}

#[test]
fn test_just_before_end_is_still_closed() {
    let cat = sample_catalog();
    let (_, to) = closure_window();
    let t = to - Duration::seconds(1);
    let r = compute(&cat, &req("LEGAL_AID", &[], &[], t), t);
    let c = r.excluded.iter().find(|e| e.point_id == "POINT-C").unwrap();
    assert!(matches!(&c.reasons[0], ExclusionReason::TemporarilyClosed { .. }));
}

#[test]
fn test_home_service_eligible() {
    let cat = sample_catalog();
    let (from, _) = closure_window();
    let r = compute(&cat, &req("LEGAL_AID", &["HOMEBOUND"], &[], from), from);
    let hs = r.home_service.as_ref().expect("home service expected");
    assert!(hs.eligible);
    assert_eq!(hs.reason, "HOME_SERVICE_REQUIRED");
}

#[test]
fn test_home_service_not_eligible_for_other_service() {
    let cat = sample_catalog();
    let (from, _) = closure_window();
    let r = compute(&cat, &req("NOTARY", &["HOMEBOUND"], &[], from), from);
    assert!(r.home_service.is_none());
}

#[test]
fn test_home_service_not_eligible_without_homebound() {
    let cat = sample_catalog();
    let (from, _) = closure_window();
    let r = compute(&cat, &req("LEGAL_AID", &[], &[], from), from);
    assert!(r.home_service.is_none());
}

#[test]
fn test_cost_breakdown_and_barrier_penalty() {
    let cat = sample_catalog();
    let (from, _) = closure_window();
    let r = compute(&cat, &req("LEGAL_AID", &[], &[], from), from);
    let b = r.candidates.iter().find(|c| c.point_id == "POINT-B").unwrap();
    assert_eq!(b.cost.distance, 1);
    assert_eq!(b.cost.barrier_penalty, 1);
    assert_eq!(b.total_cost, 2);
}

#[test]
fn test_excluded_sorted_by_point_id_regardless_of_input_order() {
    let cat = sample_catalog();
    let (from, _) = closure_window();
    let r = compute(&cat, &req("IMMIGRATION", &[], &[], from), from);
    let ids: Vec<_> = r.excluded.iter().map(|e| e.point_id.clone()).collect();
    assert_eq!(ids, vec!["POINT-A", "POINT-B", "POINT-C"]);
}

#[test]
fn test_multiple_exclusion_reasons_are_complete_and_ordered() {
    let mut cat = sample_catalog();
    cat.closures = vec![];
    cat.points.push(Point {
        id: "POINT-D".into(),
        grid: [9, 9],
        services: vec!["MEDIATION".into()],
        access: vec![],
        barrier_penalty: 3,
    });
    let (from, _) = closure_window();
    cat.closures.push(Closure {
        event_id: "CLOSE-D".into(),
        point_id: "POINT-D".into(),
        from: stamp(from),
        to: stamp(from + Duration::hours(48)),
    });

    let r = compute(&cat, &req("LEGAL_AID", &["WHEELCHAIR"], &[], from), from);
    let d = r.excluded.iter().find(|e| e.point_id == "POINT-D").unwrap();
    assert!(matches!(&d.reasons[0], ExclusionReason::MissingService { .. }));
    assert!(matches!(&d.reasons[1], ExclusionReason::MissingAccess { required } if required == "STEP_FREE"));
    assert!(matches!(&d.reasons[2], ExclusionReason::TemporarilyClosed { .. }));
    assert_eq!(d.reasons.len(), 3);
}

#[test]
fn test_input_order_does_not_affect_result() {
    let cat1 = sample_catalog();
    let mut cat2 = sample_catalog();
    cat2.points.reverse();
    cat2.closures.reverse();
    let t = open_time();
    let request = req("LEGAL_AID", &["WHEELCHAIR"], &["HEARING"], t);

    let r1 = compute(&cat1, &request, t);
    let r2 = compute(&cat2, &request, t);

    let ids1: Vec<_> = r1.candidates.iter().map(|c| (&c.point_id, c.total_cost, c.rank)).collect();
    let ids2: Vec<_> = r2.candidates.iter().map(|c| (&c.point_id, c.total_cost, c.rank)).collect();
    assert_eq!(ids1, ids2);

    let ex1: Vec<_> = r1.excluded.iter().map(|e| (&e.point_id, &e.reasons)).collect();
    let ex2: Vec<_> = r2.excluded.iter().map(|e| (&e.point_id, &e.reasons)).collect();
    assert_eq!(ex1, ex2);
}

#[test]
fn test_duplicate_needs_collapse_to_single_access_requirement() {
    let cat = sample_catalog();
    let (from, _) = closure_window();
    let request = RouteRequest {
        origin_grid: [2, 2],
        service: "LEGAL_AID".into(),
        mobility: vec!["WHEELCHAIR".into()],
        communication: vec!["WHEELCHAIR".into()],
        query_time: Some(from.to_rfc3339()),
    };
    let r = compute(&cat, &request, from);
    let b = r.excluded.iter().find(|e| e.point_id == "POINT-B").unwrap();
    assert_eq!(b.reasons.len(), 1);
}

#[test]
fn closure_reasons_carry_the_window() {
    let cat = sample_catalog();
    let (from, _) = closure_window();
    let r = compute(&cat, &req("LEGAL_AID", &[], &[], from), from);
    assert_eq!(r.excluded.len(), 1);
    assert_eq!(
        r.excluded[0].reasons,
        vec![ExclusionReason::TemporarilyClosed {
            event_id: "CLOSE-01".to_string(),
            from: "2026-08-02T00:00:00+00:00".to_string(),
            to: "2026-08-04T00:00:00+00:00".to_string(),
        }]
    );
    assert_eq!(r.tie_break, vec!["totalCost ascending", "point id ascending"]);
}

#[test]
fn services_and_access_are_listed_in_order() {
    let cat = sample_catalog();
    let t = open_time();
    let r = compute(&cat, &req("NOTARY", &["WHEELCHAIR"], &[], t), t);
    assert_eq!(r.candidates.len(), 1);
    assert_eq!(r.candidates[0].point_id, "POINT-C");
    assert_eq!(r.candidates[0].services, vec!["LEGAL_AID", "MEDIATION", "NOTARY"]);
    assert_eq!(
        r.candidates[0].access,
        vec!["SIGN_INTERPRETER", "STEP_FREE", "TEXT_COMMUNICATION"]
    );
    assert_eq!(r.candidates[0].grid, [5, 5]);
}

#[test]
fn required_access_is_ascending_and_free_of_repeats() {
    let cat = sample_catalog();
    let t = open_time();
    let request = req("NOTARY", &["WHEELCHAIR", "HOMEBOUND"], &["SPEECH", "HEARING", "SPEECH"], t);
    assert_eq!(
        resolve_required_access(&cat, &request),
        vec!["SIGN_INTERPRETER", "STEP_FREE", "TEXT_COMMUNICATION"]
    );
}

#[test]
fn reasons_are_written_as_json_objects() {
    let service = ExclusionReason::MissingService { service: "A \"quoted\" one".to_string() };
    assert_eq!(
        service.to_json(),
        "{\"code\":\"MISSING_SERVICE\",\"service\":\"A \\\"quoted\\\" one\"}"
    );
    let access = ExclusionReason::MissingAccess { required: "STEP_FREE".to_string() };
    assert_eq!(access.to_json(), "{\"code\":\"MISSING_ACCESS\",\"required\":\"STEP_FREE\"}");
    let closed = ExclusionReason::TemporarilyClosed {
        event_id: "E".to_string(),
        from: "f".to_string(),
        to: "t".to_string(),
    };
    assert_eq!(
        closed.to_json(),
        "{\"code\":\"TEMPORARILY_CLOSED\",\"eventId\":\"E\",\"from\":\"f\",\"to\":\"t\"}"
    );
    assert!(matches!(compare_reasons(&service, &access), Relation::Before));
    assert!(matches!(compare_reasons(&closed, &access), Relation::After));
    assert!(matches!(compare_reasons(&closed, &closed.clone()), Relation::Same));
}

#[test]
fn catalogs_are_validated() {
    assert!(validate_catalog(&sample_catalog()).is_ok());

    let mut cat = sample_catalog();
    cat.catalog_version = " \t".into();
    let e = validate_catalog(&cat).unwrap_err();
    assert!(matches!(&e, AppError::BadRequest(m) if m == "catalogVersion must not be empty"));
    assert_eq!(e.status(), 400);

    let mut cat = sample_catalog();
    cat.points = vec![];
    assert!(matches!(validate_catalog(&cat),
        Err(AppError::BadRequest(m)) if m == "catalog must contain at least one point"));

    let mut cat = sample_catalog();
    let again = cat.points[1].clone();
    cat.points.push(again);
    assert!(matches!(validate_catalog(&cat),
        Err(AppError::BadRequest(m)) if m == "duplicate point id: POINT-B"));

    let mut cat = sample_catalog();
    cat.closures[0].to = cat.closures[0].from;
    assert!(matches!(validate_catalog(&cat),
        Err(AppError::BadRequest(m)) if m == "closure CLOSE-01 has to <= from"));

    let mut cat = sample_catalog();
    cat.closures[0].point_id = "POINT-X".into();
    assert!(matches!(validate_catalog(&cat),
        Err(AppError::BadRequest(m)) if m == "closure CLOSE-01 references unknown point POINT-X"));

    assert!(matches!(parse_catalog(Err("broken".into())), Err(AppError::Serde(m)) if m == "broken"));
    assert_eq!(parse_catalog(Ok(sample_catalog())).unwrap().catalog_version, "CAT-TEST");
}

#[test]
fn requests_are_validated() {
    let t = open_time();
    assert!(validate_request(&req("LEGAL_AID", &[], &[], t)).is_ok());
    assert!(matches!(validate_request(&req("  ", &[], &[], t)),
        Err(AppError::BadRequest(m)) if m == "service must not be empty"));
    let mut request = req("LEGAL_AID", &[], &[], t);
    request.query_time = Some("yesterday".into());
    assert!(matches!(validate_request(&request), Err(AppError::TimeParse(_))));
    assert!(matches!(resolve_query_time(&request), Err(AppError::TimeParse(_))));
    request.query_time = Some("  2026-08-05T02:00:00+02:00 ".into());
    assert!(validate_request(&request).is_ok());
    assert_eq!(resolve_query_time(&request).unwrap(), stamp(t));
    request.query_time = None;
    assert!(resolve_query_time(&request).is_ok());
}

#[test]
fn instants_are_read_with_white_space_around_them() {
    let t = parse_rfc3339("\u{3000}2026-08-02T00:00:00.5Z\n").unwrap();
    assert_eq!((t.seconds(), t.nanos()), (1785628800, 500_000_000));
    assert!(matches!(parse_rfc3339("2026-08-02"), Err(AppError::TimeParse(_))));
}

#[test]
fn errors_are_answered_with_a_status_and_a_message() {
    let cases = [
        (AppError::BadRequest("x".into()), 400),
        (AppError::NotFound("x".into()), 404),
        (AppError::Conflict("x".into()), 409),
        (AppError::Internal("x".into()), 500),
    ];
    for (e, status) in cases {
        assert_eq!(e.status(), status);
    }
}

fn degradation(event_id: &str, point_id: &str, day: u32, removed: &[&str]) -> Degradation {
    Degradation {
        event_id: event_id.into(),
        point_id: point_id.into(),
        from: stamp(Utc.with_ymd_and_hms(2026, 8, day, 0, 0, 0).unwrap()),
        to: stamp(Utc.with_ymd_and_hms(2026, 8, day + 2, 0, 0, 0).unwrap()),
        removed_access: removed.iter().map(|s| s.to_string()).collect(),
    }
}

fn day(d: u32) -> DateTime<Utc> {
    Utc.with_ymd_and_hms(2026, 8, d, 0, 0, 0).unwrap()
}

#[test]
fn degradation_excludes_who_needs_the_capability() {
    let mut cat = sample_catalog();
    cat.degradations = vec![degradation("DEGRADE-01", "POINT-C", 3, &["SIGN_INTERPRETER"])];
    let t = day(4);
    let r = compute(&cat, &req("LEGAL_AID", &["WHEELCHAIR"], &["HEARING"], t), t);
    assert!(r.candidates.is_empty());
    let c = r.excluded.iter().find(|e| e.point_id == "POINT-C").unwrap();
    assert_eq!(
        c.reasons,
        vec![ExclusionReason::CapabilityDegraded {
            event_id: "DEGRADE-01".into(),
            access: "SIGN_INTERPRETER".into(),
            from: "2026-08-03T00:00:00+00:00".into(),
            to: "2026-08-05T00:00:00+00:00".into(),
        }]
    );
    assert_eq!(
        c.reasons[0].to_json(),
        "{\"code\":\"CAPABILITY_DEGRADED\",\"eventId\":\"DEGRADE-01\",\"access\":\"SIGN_INTERPRETER\",\"from\":\"2026-08-03T00:00:00+00:00\",\"to\":\"2026-08-05T00:00:00+00:00\"}"
    );
}

#[test]
fn degradation_ends_at_its_last_instant() {
    let mut cat = sample_catalog();
    cat.closures = vec![];
    cat.degradations = vec![degradation("DEGRADE-01", "POINT-C", 3, &["SIGN_INTERPRETER"])];
    for (d, found) in [(2, true), (3, false), (4, false), (5, true)] {
        let t = day(d);
        let r = compute(&cat, &req("LEGAL_AID", &["WHEELCHAIR"], &["HEARING"], t), t);
        assert_eq!(r.candidates.iter().any(|c| c.point_id == "POINT-C"), found, "day {}", d);
    }
}

#[test]
fn degradation_that_is_not_needed_shows_in_the_access_list() {
    let mut cat = sample_catalog();
    cat.degradations = vec![degradation("DEGRADE-01", "POINT-C", 3, &["SIGN_INTERPRETER"])];
    let t = day(4);
    let r = compute(&cat, &req("LEGAL_AID", &["WHEELCHAIR"], &[], t), t);
    let c = r.candidates.iter().find(|c| c.point_id == "POINT-C").unwrap();
    assert_eq!(c.access, vec!["STEP_FREE", "TEXT_COMMUNICATION"]);
}

#[test]
fn closure_wins_over_degradation() {
    let mut cat = sample_catalog();
    cat.degradations = vec![degradation("DEGRADE-01", "POINT-C", 3, &["SIGN_INTERPRETER"])];
    let t = day(3);
    let r = compute(&cat, &req("LEGAL_AID", &[], &["HEARING"], t), t);
    let c = r.excluded.iter().find(|e| e.point_id == "POINT-C").unwrap();
    assert_eq!(c.reasons.len(), 1);
    assert!(matches!(&c.reasons[0], ExclusionReason::TemporarilyClosed { .. }));
}

#[test]
fn capability_never_offered_is_missing_and_not_degraded() {
    let mut cat = sample_catalog();
    cat.degradations = vec![degradation("DEGRADE-02", "POINT-A", 3, &["SIGN_INTERPRETER"])];
    let t = day(4);
    let r = compute(&cat, &req("LEGAL_AID", &[], &["HEARING"], t), t);
    let a = r.excluded.iter().find(|e| e.point_id == "POINT-A").unwrap();
    assert_eq!(
        a.reasons,
        vec![ExclusionReason::MissingAccess { required: "SIGN_INTERPRETER".into() }]
    );
}

#[test]
fn degradations_in_another_order_give_the_same_reasons() {
    let mut cat = sample_catalog();
    cat.degradations = vec![
        degradation("DEGRADE-02", "POINT-C", 4, &["STEP_FREE", "SIGN_INTERPRETER"]),
        degradation("DEGRADE-01", "POINT-C", 3, &["SIGN_INTERPRETER"]),
    ];
    let t = day(4);
    let request = req("IMMIGRATION", &["WHEELCHAIR"], &["HEARING"], t);
    let forth = compute(&cat, &request, t);
    cat.degradations.reverse();
    let back = compute(&cat, &request, t);
    let c = forth.excluded.iter().find(|e| e.point_id == "POINT-C").unwrap();
    let d = back.excluded.iter().find(|e| e.point_id == "POINT-C").unwrap();
    assert_eq!(c.reasons, d.reasons);
    assert_eq!(c.reasons.len(), 4);
    assert!(matches!(&c.reasons[0], ExclusionReason::MissingService { .. }));
    assert!(
        matches!(&c.reasons[1], ExclusionReason::CapabilityDegraded { event_id, .. } if event_id == "DEGRADE-01")
    );
}

#[test]
fn reasons_are_written_as_json() {
    for text in ["plain", "", "\"", "\\", "\u{8}\t\n\u{c}\r", "\u{0}\u{1}\u{b}\u{1f}", "/\u{7f}\u{e9}\u{1f600}"] {
        let reason = ExclusionReason::MissingService { service: text.to_string() };
        let json = reason.to_json();
        let value: serde_json::Value = serde_json::from_str(&json).unwrap();
        assert_eq!(value["code"], "MISSING_SERVICE");
        assert_eq!(value["service"], text);
    }
    let reason = ExclusionReason::MissingAccess { required: "a\"b\\c\n\u{1}\u{1f}/\u{e9}".into() };
    assert_eq!(
        reason.to_json(),
        "{\"code\":\"MISSING_ACCESS\",\"required\":\"a\\\"b\\\\c\\n\\u0001\\u001f/\u{e9}\"}"
    );
}

#[test]
fn order_inside_points_and_requests_does_not_show() {
    let one = sample_catalog();
    let mut two = sample_catalog();
    two.points.reverse();
    for p in &mut two.points {
        p.services.reverse();
        p.access.reverse();
    }
    let t = closure_window().0;
    let mut request = req("NOTARY", &["WHEELCHAIR", "HOMEBOUND"], &["HEARING", "SPEECH"], t);
    let first = compute(&one, &request, t);
    request.mobility.reverse();
    request.communication.reverse();
    let second = compute(&two, &request, t);
    assert_eq!(format!("{:?}", first), format!("{:?}", second));
}

#[test]
fn costs_of_excluded_points_are_not_computed() {
    let mut cat = sample_catalog();
    cat.points[2].grid = [i32::MAX, i32::MIN];
    let (from, to) = closure_window();
    let request = req("LEGAL_AID", &[], &[], from);
    assert!(has_costs_at(&cat, &request, &stamp(from)));
    assert!(!has_costs_at(&cat, &request, &stamp(to)));
    let r = compute(&cat, &request, from);
    assert_eq!(r.candidates.len(), 2);
    assert_eq!(r.excluded[0].point_id, "POINT-C");
}
