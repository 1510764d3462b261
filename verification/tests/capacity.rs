//! Home appointments and the answers of the service across requests.

use legal_service_router::api::{
    answer, answer_at, cache_key, compute_response, compute_response_at, remember,
    require_catalog, require_snapshot, require_summary, snapshot_entry, withdraw, AppState,
};
use legal_service_router::capacity::CapacityManager;
use legal_service_router::db::{check_version, read_snapshot, summarize, DbError};
use legal_service_router::instant::Timestamp;
use legal_service_router::keyed::TextSet;
use legal_service_router::models::{
    Catalog, Closure, HardRequirements, HomeService, HomeServiceSlot, Mobility, RouteRequest,
    ServicePoint,
};

fn at(text: &str) -> Timestamp {
    Timestamp::from_rfc3339(text).unwrap()
}

fn set(items: &[&str]) -> TextSet {
    TextSet::of(items.iter().map(|s| s.to_string()).collect())
}

fn slot(id: &str, grid: [i64; 2], capacity: u32) -> HomeServiceSlot {
    HomeServiceSlot { slot_id: id.to_string(), grid, capacity, barrier_penalty: 0 }
}

fn catalog(version: &str, slots: Vec<HomeServiceSlot>) -> Catalog {
    Catalog {
        catalog_version: version.to_string(),
        cost_formula: String::new(),
        points: vec![ServicePoint {
            id: "POINT-A".to_string(),
            grid: [1, 1],
            services: set(&["LEGAL_AID", "NOTARY"]),
            access: set(&["STEP_FREE"]),
            barrier_penalty: 0,
        }],
        hard_requirements: HardRequirements {
            wheelchair: "STEP_FREE".to_string(),
            hearing: "SIGN_INTERPRETER".to_string(),
            speech: "TEXT_COMMUNICATION".to_string(),
        },
        tie_break: vec![],
        closures: vec![Closure {
            event_id: "CLOSE-01".to_string(),
            point_id: "POINT-A".to_string(),
            from: at("2026-08-02T00:00:00Z"),
            to: at("2026-08-04T00:00:00Z"),
        }],
        home_service: HomeService {
            allowed_service: "LEGAL_AID".to_string(),
            allowed_mobility: set(&["HOMEBOUND"]),
            reason: "HOME_SERVICE_REQUIRED".to_string(),
            slots,
        },
    }
}

fn home_request(origin_grid: [i64; 2]) -> RouteRequest {
    RouteRequest {
        origin_grid,
        service: "LEGAL_AID".to_string(),
        mobility: vec![Mobility::Homebound],
        communication: vec![],
        request_time: Some(at("2026-08-10T00:00:00Z")),
    }
}

fn notary_request() -> RouteRequest {
    RouteRequest {
        origin_grid: [0, 0],
        service: "NOTARY".to_string(),
        mobility: vec![],
        communication: vec![],
        request_time: Some(at("2026-08-10T00:00:00Z")),
    }
}

fn ids(items: &[&str]) -> Vec<String> {
    items.iter().map(|s| s.to_string()).collect()
}

#[test]
fn appointments_are_given_in_order_until_none_is_left() {
    let mut capacity = CapacityManager::new();
    capacity.reset_for_catalog(&catalog("V1", vec![slot("S1", [0, 0], 2), slot("S2", [0, 0], 1)]));
    let order = ids(&["S2", "S1"]);
    assert_eq!(capacity.try_assign("V1", &order), Ok("S2".to_string()));
    assert_eq!(capacity.remaining("V1", "S2"), Some(0));
    assert_eq!(capacity.try_assign("V1", &order), Ok("S1".to_string()));
    assert_eq!(capacity.try_assign("V1", &order), Ok("S1".to_string()));
    assert_eq!(
        capacity.try_assign("V1", &order),
        Err("all home-service appointment slots are exhausted: S2, S1".to_string())
    );
    assert_eq!(capacity.remaining("V1", "S1"), Some(0));
    assert_eq!(capacity.remaining("V1", "S3"), None);
    assert_eq!(
        capacity.try_assign("V1", &ids(&[])),
        Err("home service is eligible but no appointment slots are configured".to_string())
    );
}

#[test]
fn ten_requests_for_three_appointments() {
    let mut capacity = CapacityManager::default();
    capacity.reset_for_catalog(&catalog("V1", vec![slot("S1", [0, 0], 1), slot("S2", [0, 0], 2)]));
    let forward = ids(&["S1", "S2"]);
    let backward = ids(&["S2", "S1"]);
    let mut granted = 0;
    for i in 0..10 {
        let order = if i % 2 == 0 { &forward } else { &backward };
        if capacity.try_assign("V1", order).is_ok() {
            granted += 1;
        }
    }
    assert_eq!(granted, 3);
}

#[test]
fn capacity_is_isolated_per_version() {
    let v1 = catalog("V1", vec![slot("S1", [0, 0], 1)]);
    let v2 = catalog("V2", vec![slot("S1", [0, 0], 1)]);
    let mut capacity = CapacityManager::new();
    assert_eq!(
        capacity.try_assign("V1", &ids(&["S1"])),
        Err("capacity state belongs to a different catalog version: expected , current V1".to_string())
    );
    capacity.reset_for_catalog(&v1);
    assert!(capacity.try_assign("V1", &ids(&["S1"])).is_ok());
    // Setting the same version again gives nothing back.
    capacity.reset_for_catalog(&v1);
    assert_eq!(capacity.remaining("V1", "S1"), Some(0));
    assert_eq!(capacity.remaining("V2", "S1"), None);
    assert_eq!(
        capacity.try_assign("V2", &ids(&["S1"])),
        Err("capacity state belongs to a different catalog version: expected V1, current V2".to_string())
    );
    capacity.reset_for_catalog(&v2);
    assert_eq!(capacity.remaining("V2", "S1"), Some(1));
}

#[test]
fn later_slots_with_the_same_id_count() {
    let mut capacity = CapacityManager::new();
    capacity.reset_for_catalog(&catalog("V1", vec![slot("S1", [0, 0], 1), slot("S1", [0, 0], 7)]));
    assert_eq!(capacity.remaining("V1", "S1"), Some(7));
}

#[test]
fn home_visits_reserve_the_best_slot_and_then_the_next() {
    let cat = catalog("V1", vec![slot("S-FAR", [9, 9], 1), slot("S-NEAR", [2, 2], 1)]);
    let mut state = AppState::new();
    state.install(&cat);
    let request = home_request([1, 2]);

    let first = compute_response(&mut state, &cat, &request);
    let home = first.home_service.unwrap();
    assert!(home.eligible);
    assert_eq!(home.reason, "HOME_SERVICE_REQUIRED");
    let given = home.slot.unwrap();
    assert_eq!(
        (given.slot_id.as_str(), given.total_cost, given.distance, given.grid),
        ("S-NEAR", 1, 1, [2, 2])
    );
    assert!(home.no_capacity.is_none());
    assert!(first.candidates.is_empty());
    assert_eq!(first.exclusions.len(), 1);

    let second = compute_response(&mut state, &cat, &request);
    assert_eq!(second.home_service.unwrap().slot.unwrap().slot_id, "S-FAR");
    assert_ne!(first.snapshot_id, second.snapshot_id);

    let third = compute_response(&mut state, &cat, &request);
    let home = third.home_service.unwrap();
    assert!(home.slot.is_none());
    let refusal = home.no_capacity.unwrap();
    assert_eq!(refusal.code, "HOME_SERVICE_NO_CAPACITY");
    assert_eq!(refusal.message, "all home service appointment slots are at capacity");
    // No point is given instead.
    assert!(third.candidates.is_empty());
}

#[test]
fn home_visits_without_slots_are_refused() {
    let cat = catalog("V1", vec![]);
    let mut state = AppState::new();
    state.install(&cat);
    let given = compute_response_at(
        &mut state,
        &cat,
        &home_request([0, 0]),
        &at("2026-08-10T00:00:00Z"),
        "snap".to_string(),
    );
    assert_eq!(given.snapshot_id, "snap");
    assert_eq!(
        given.home_service.unwrap().no_capacity.unwrap().message,
        "home service is required but no appointment slots are configured"
    );
}

#[test]
fn snapshot_ids_are_random_uuids() {
    let cat = catalog("V1", vec![]);
    let mut state = AppState::new();
    let given = compute_response(&mut state, &cat, &notary_request());
    let parsed = uuid::Uuid::parse_str(&given.snapshot_id).unwrap();
    assert_eq!(parsed.get_version_num(), 4);
    assert_eq!(parsed.to_string(), given.snapshot_id);
}

#[test]
fn answers_are_remembered_once_they_are_stored() {
    let cat = catalog("V1", vec![slot("S1", [0, 0], 1)]);
    let mut state = AppState::new();
    state.install(&cat);
    let request = notary_request();
    let canonical = "{\"service\":\"NOTARY\"}";

    let first = answer(&mut state, &cat, &request, canonical);
    assert_eq!(
        first.remember_under,
        Some(cache_key("V1", canonical))
    );
    assert_eq!(cache_key("V1", canonical), "V1::{\"service\":\"NOTARY\"}");
    let first_id = first.response.snapshot_id.clone();
    // Not stored yet: computed again.
    let again = answer(&mut state, &cat, &request, canonical);
    assert!(again.remember_under.is_some());
    remember(&mut state, first);

    let second = answer_at(
        &mut state,
        &cat,
        &request,
        canonical,
        &at("2026-08-10T00:00:00Z"),
        "second".to_string(),
    );
    assert!(second.remember_under.is_none());
    assert_eq!(second.response.snapshot_id, "second");
    assert_ne!(first_id, "second");
    assert_eq!(second.response.catalog_version, "V1");
    assert_eq!(second.response.candidates.len(), 1);
    assert_eq!(second.response.candidates[0].total_cost, 2);

    // An import forgets it.
    let next = catalog("V2", vec![]);
    state.install(&next);
    let third = answer(&mut state, &next, &request, canonical);
    assert_eq!(third.response.catalog_version, "V2");
    assert!(third.remember_under.is_some());
}

#[test]
fn home_visits_are_never_remembered() {
    let cat = catalog("V1", vec![slot("S1", [0, 0], 1)]);
    let mut state = AppState::new();
    state.pin(&cat);
    let request = home_request([0, 0]);
    let first = answer(&mut state, &cat, &request, "{}");
    assert!(first.remember_under.is_none());
    assert!(first.response.home_service.as_ref().unwrap().slot.is_some());
    remember(&mut state, first);
    let second = answer(&mut state, &cat, &request, "{}");
    assert!(second.response.home_service.unwrap().no_capacity.is_some());
}

#[test]
fn batches_stay_on_the_pinned_version() {
    let cat = catalog("V1", vec![slot("S1", [0, 0], 3)]);
    let mut state = AppState::new();
    state.pin(&cat);
    for (i, request) in [notary_request(), home_request([1, 1]), notary_request()]
        .iter()
        .enumerate()
    {
        let given = answer(&mut state, &cat, request, &format!("{{\"n\":{i}}}"));
        assert_eq!(given.response.catalog_version, "V1");
        remember(&mut state, given);
    }
    assert_eq!(state.capacity.remaining("V1", "S1"), Some(2));
}

#[test]
fn what_is_not_there_is_told() {
    assert!(matches!(require_catalog(None), Err((400, m)) if m == "no catalog imported"));
    assert!(matches!(require_summary(None), Err((404, m)) if m == "no catalog imported"));
    assert!(matches!(require_snapshot(None), Err((404, m)) if m == "snapshot not found"));
    let cat = catalog("V1", vec![]);
    let summary = require_summary(Some(summarize(&cat, "2026-08-01T00:00:00Z"))).unwrap();
    assert_eq!(summary.catalog_version, "V1");
    assert_eq!((summary.point_count, summary.closure_count), (1, 1));
    assert_eq!(summary.imported_at, at("2026-08-01T00:00:00Z"));
    assert_eq!(require_catalog(Some(cat)).unwrap().catalog_version, "V1");
}

#[test]
fn stored_snapshots_are_read_as_they_are() {
    let record = read_snapshot(
        "id".to_string(),
        "V1".to_string(),
        "{}".to_string(),
        "2026-08-01T00:00:00+00:00",
    );
    assert_eq!((record.id.as_str(), record.catalog_version.as_str()), ("id", "V1"));
    assert_eq!(record.payload, "{}");
    assert_eq!(record.created_at, at("2026-08-01T00:00:00Z"));
    let before = Timestamp::now();
    let odd = read_snapshot(String::new(), String::new(), String::new(), "some day");
    assert!(before.is_no_later_than(&odd.created_at));
    assert!(odd.created_at.is_no_later_than(&Timestamp::now()));
    assert_eq!(require_snapshot(Some(record)).unwrap().id, "id");
}

#[test]
fn versions_are_imported_once() {
    let cat = catalog("V1", vec![]);
    assert!(check_version(&cat, false).is_ok());
    let e = check_version(&cat, true).unwrap_err();
    assert!(matches!(&e, DbError::DuplicateVersion(v) if v == "V1"));
    assert_eq!(e.status(), 409);
    assert_eq!(e.describe(), "catalog version already imported: V1");
    assert_eq!(DbError::Sqlite("x".to_string()).describe(), "sqlite error: x");
    assert_eq!(DbError::Sqlite("x".to_string()).status(), 500);
    assert_eq!(DbError::Serde("x".to_string()).describe(), "serialization error: x");
    assert_eq!(DbError::Serde("x".to_string()).status(), 500);
}

#[test]
fn requests_without_a_time_are_answered_for_now() {
    let cat = catalog("V1", vec![]);
    let mut state = AppState::new();
    state.install(&cat);
    let mut request = notary_request();
    request.request_time = None;
    let canonical = "{\"service\":\"NOTARY\"}";
    let before = at("2026-08-01T00:00:00Z");
    let inside = at("2026-08-03T00:00:00Z");

    let first = answer_at(&mut state, &cat, &request, canonical, &before, "first".to_string());
    assert_eq!(first.response.candidates.len(), 1);
    assert!(first.remember_under.is_none());
    remember(&mut state, first);
    let second = answer_at(&mut state, &cat, &request, canonical, &inside, "second".to_string());
    assert!(second.response.candidates.is_empty());
    assert_eq!(second.response.exclusions[0].point_id, "POINT-A");
    assert_eq!(second.response.exclusions[0].reason, "TEMPORARILY_CLOSED");
    assert!(second.remember_under.is_none());

    // Not even an answer that is remembered under the same key is given.
    request.request_time = Some(before);
    let named = answer_at(&mut state, &cat, &request, canonical, &before, "named".to_string());
    remember(&mut state, named);
    request.request_time = None;
    let third = answer_at(&mut state, &cat, &request, canonical, &inside, "third".to_string());
    assert!(third.response.candidates.is_empty());
}

#[test]
fn withdrawn_answers_give_their_appointment_back() {
    let cat = catalog("V1", vec![slot("S1", [0, 0], 1)]);
    let mut state = AppState::new();
    state.pin(&cat);
    let first = answer(&mut state, &cat, &home_request([0, 0]), "{}");
    assert_eq!(first.taken, Some("S1".to_string()));
    assert_eq!(state.capacity.remaining("V1", "S1"), Some(0));
    withdraw(&mut state, &first);
    assert_eq!(state.capacity.remaining("V1", "S1"), Some(1));

    let again = answer(&mut state, &cat, &home_request([0, 0]), "{}");
    assert!(again.taken.is_some());
    let refused = answer(&mut state, &cat, &home_request([0, 0]), "{}");
    assert!(refused.taken.is_none());
    withdraw(&mut state, &refused);
    assert_eq!(state.capacity.remaining("V1", "S1"), Some(0));

    // Another version owes nothing.
    let next = catalog("V2", vec![slot("S1", [0, 0], 2)]);
    state.pin(&next);
    withdraw(&mut state, &again);
    assert_eq!(state.capacity.remaining("V2", "S1"), Some(2));
}

#[test]
fn only_known_slots_take_an_appointment_back() {
    let mut capacity = CapacityManager::new();
    capacity.reset_for_catalog(&catalog("V1", vec![slot("S1", [0, 0], u32::MAX)]));
    capacity.give_back("V1", "S1");
    assert_eq!(capacity.remaining("V1", "S1"), Some(u32::MAX));
    capacity.give_back("V1", "S2");
    assert_eq!(capacity.remaining("V1", "S2"), None);
    assert_eq!(capacity.try_assign("V1", &ids(&["S1"])), Ok("S1".to_string()));
    capacity.give_back("V2", "S1");
    assert_eq!(capacity.remaining("V1", "S1"), Some(u32::MAX - 1));
    capacity.give_back("V1", "S1");
    assert_eq!(capacity.remaining("V1", "S1"), Some(u32::MAX));
}

#[test]
fn every_slot_gives_out_what_it_has() {
    let mut capacity = CapacityManager::new();
    capacity.reset_for_catalog(&catalog("V1", vec![slot("S1", [0, 0], 2), slot("S2", [0, 0], 3)]));
    let mut granted = [0u32, 0u32];
    for order in [["S1", "S2"], ["S2", "S1"], ["S1", "S2"], ["S1", "S2"]] {
        match capacity.try_assign("V1", &ids(&order)).unwrap().as_str() {
            "S1" => granted[0] += 1,
            _ => granted[1] += 1,
        }
    }
    assert_eq!(granted, [2, 2]);
    assert_eq!(capacity.remaining("V1", "S1").unwrap() + granted[0], 2);
    assert_eq!(capacity.remaining("V1", "S2").unwrap() + granted[1], 3);
}

#[test]
fn asking_twice_gives_one_answer_under_two_ids() {
    let cat = catalog("V1", vec![slot("S1", [0, 0], 1)]);
    let mut state = AppState::new();
    state.install(&cat);
    let canonical = "{\"service\":\"NOTARY\"}";
    let first = answer(&mut state, &cat, &notary_request(), canonical);
    let again = answer(&mut state, &cat, &notary_request(), canonical);
    let mut entries = vec![];
    for given in [&first, &again] {
        assert!(given.taken.is_none());
        entries.push(snapshot_entry(&cat, &given.response, canonical.to_string(), "{}".to_string()));
    }
    let first_response = first.response.clone();
    remember(&mut state, first);
    let third = answer(&mut state, &cat, &notary_request(), canonical);
    for other in [&again.response, &third.response] {
        assert_ne!(other.snapshot_id, first_response.snapshot_id);
        assert_eq!(other.catalog_version, "V1");
        assert_eq!(other.candidates.len(), 1);
        assert_eq!(other.candidates[0].point_id, first_response.candidates[0].point_id);
        assert_eq!(other.candidates[0].total_cost, first_response.candidates[0].total_cost);
        assert!(other.exclusions.is_empty() && other.home_service.is_none());
    }
    assert_eq!(entries[0].snapshot_id, first_response.snapshot_id);
    assert_eq!(entries[1].snapshot_id, again.response.snapshot_id);
    assert_eq!(entries[1].catalog_version, "V1");
    assert_eq!(entries[1].request_payload, canonical);
    assert_eq!(entries[1].result_payload, "{}");
    assert_eq!(state.capacity.remaining("V1", "S1"), Some(1));
}
