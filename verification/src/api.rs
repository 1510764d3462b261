//! What the service remembers between requests, and how it answers them.
//!
//! Answers to requests that name their instant and reserve no appointment are
//! kept and given again; each copy gets a snapshot id of its own. Storing
//! snapshots is left to the caller, who tells `remember` once an answer is
//! stored, and `withdraw` where it could not be.

use crate::capacity::{attempt, given_back, reset, CapacityManager, CapacityModel};
use crate::ident::{fresh_id, is_random_uuid};
use crate::instant::Timestamp;
use crate::keyed::TextMap;
use crate::models::{
    Catalog, CatalogModel, CatalogSummary, HomeOption, HomeOptionModel, RouteRequest,
    RouteRequestModel, RouteResponse, RouteResponseModel, SnapshotRecord,
};
use crate::order::{lemma_views_push, views};
use crate::router::{
    asked_at, build_response, costs_fit, evaluate_at, evaluated, home_options_for, outcome,
    point_costs_fit, request_costs_fit, request_instant, Evaluation, EvaluationModel,
};
use crate::text::{optional_text, same};
use vstd::prelude::*;
use vstd::string::*;

verus! {

/// What the service remembers.
pub struct AppState {
    pub query_cache: TextMap<RouteResponse>,
    pub capacity: CapacityManager,
}

pub struct AppStateModel {
    pub query_cache: Map<Seq<char>, RouteResponseModel>,
    pub capacity: CapacityModel,
}

pub open spec fn response_views(
    cache: Map<Seq<char>, RouteResponse>,
) -> Map<Seq<char>, RouteResponseModel> {
    cache.map_values(|r: RouteResponse| r@)
}

impl View for AppState {
    type V = AppStateModel;

    open spec fn view(&self) -> AppStateModel {
        AppStateModel {
            query_cache: response_views(self.query_cache@),
            capacity: self.capacity@,
        }
    }
}

/// The key of a request, in its canonical text, for a version of the catalog.
pub open spec fn key_of(catalog_version: Seq<char>, canonical: Seq<char>) -> Seq<char> {
    catalog_version + "::"@ + canonical
}

/// The key of a request, in its canonical text, for a version of the catalog.
pub fn cache_key(catalog_version: &str, canonical: &str) -> (r: String)
    ensures
        r@ == key_of(catalog_version@, canonical@),
{
    let mut r = catalog_version.to_owned();
    r.append("::");
    r.append(canonical);
    r
}

/// The slots of a list of appointments.
pub open spec fn slot_ids(options: Seq<HomeOptionModel>) -> Seq<Seq<char>> {
    Seq::new(options.len(), |i: int| options[i].slot_id)
}

/// The message when home service is due but the catalog has no slots.
pub open spec fn no_slots() -> Seq<char> {
    "home service is required but no appointment slots are configured"@
}

/// What comes of reserving an appointment for an evaluated request: the
/// capacity after it, the slot, and the reason why there is none.
pub open spec fn reserved(
    capacity: CapacityModel,
    version: Seq<char>,
    e: EvaluationModel,
) -> (CapacityModel, Option<Seq<char>>, Option<Seq<char>>) {
    if e.home_options.len() > 0 {
        let (next, answer) = attempt(capacity, version, slot_ids(e.home_options));
        match answer {
            Ok(slot_id) => (next, Some(slot_id), None),
            Err(message) => (next, None, Some(message)),
        }
    } else if e.notices.contains("HOME_SERVICE_REQUIRED"@) {
        (capacity, None, Some(no_slots()))
    } else {
        (capacity, None, None)
    }
}

/// What a request is answered when nothing is remembered of it: the capacity
/// after it, and the answer.
pub open spec fn responded(
    capacity: CapacityModel,
    c: CatalogModel,
    r: RouteRequestModel,
    at: (int, int),
    snapshot_id: Seq<char>,
) -> (CapacityModel, RouteResponseModel) {
    let e = evaluated(c, r, at);
    let (next, slot, refusal) = reserved(capacity, c.catalog_version, e);
    (
        next,
        RouteResponseModel {
            snapshot_id,
            catalog_version: c.catalog_version,
            candidates: e.candidates,
            exclusions: e.exclusions,
            home_service: outcome(c.home_service.reason, e.home_options, slot, refusal),
        },
    )
}

fn list_slots(options: &Vec<HomeOption>) -> (r: Vec<String>)
    ensures
        views(r@) == slot_ids(views(options@)),
{
    let ghost all = slot_ids(views(options@));
    let mut r: Vec<String> = Vec::new();
    let mut i: usize = 0;
    assert(views(r@) =~= all.take(0));
    while i < options.len()
        invariant
            i <= options@.len(),
            all == slot_ids(views(options@)),
            views(r@) == all.take(i as int),
        decreases options@.len() - i,
    {
        let id = options[i].slot_id.clone();
        proof {
            lemma_views_push(r@, id);
        }
        r.push(id);
        i = i + 1;
        assert(views(r@) =~= all.take(i as int));
    }
    assert(views(r@) =~= all);
    r
}

/// Whether an evaluation notes that home service is due.
fn is_home_service_noted(evaluation: &Evaluation) -> (r: bool)
    ensures
        r == evaluation@.notices.contains("HOME_SERVICE_REQUIRED"@),
{
    let mut i: usize = 0;
    while i < evaluation.notices.len()
        invariant
            i <= evaluation.notices@.len(),
            forall|j: int|
                0 <= j < i ==> #[trigger] evaluation@.notices[j] != "HOME_SERVICE_REQUIRED"@,
        decreases evaluation.notices@.len() - i,
    {
        if same(evaluation.notices[i].code.as_str(), "HOME_SERVICE_REQUIRED") {
            assert(evaluation@.notices[i as int] == "HOME_SERVICE_REQUIRED"@);
            return true;
        }
        i = i + 1;
    }
    false
}

/// Answers a request at an instant, under a given snapshot id; an appointment
/// is reserved where one is due.
pub fn compute_response_at(
    state: &mut AppState,
    catalog: &Catalog,
    request: &RouteRequest,
    at: &Timestamp,
    snapshot_id: String,
) -> (r: RouteResponse)
    requires
        costs_fit(catalog@, request@, at@),
    ensures
        r@ == responded(old(state)@.capacity, catalog@, request@, at@, snapshot_id@).1,
        final(state)@.capacity == responded(
            old(state)@.capacity,
            catalog@,
            request@,
            at@,
            snapshot_id@,
        ).0,
        final(state)@.query_cache == old(state)@.query_cache,
{
    let evaluation = evaluate_at(catalog, request, at);
    let mut assigned_slot: Option<String> = None;
    let mut no_capacity_reason: Option<String> = None;
    if evaluation.home_options.len() > 0 {
        let ids = list_slots(&evaluation.home_options);
        match state.capacity.try_assign(catalog.catalog_version.as_str(), ids.as_slice()) {
            Ok(slot_id) => {
                assigned_slot = Some(slot_id);
            },
            Err(reason) => {
                no_capacity_reason = Some(reason);
            },
        }
    } else if is_home_service_noted(&evaluation) {
        no_capacity_reason =
        Some("home service is required but no appointment slots are configured".to_owned());
    }
    let slot: Option<&str> = match &assigned_slot {
        Some(s) => Some(s.as_str()),
        None => None,
    };
    let refusal: Option<&str> = match &no_capacity_reason {
        Some(s) => Some(s.as_str()),
        None => None,
    };
    build_response(catalog, evaluation, snapshot_id, slot, refusal)
}

/// Answers a request at the instant that it names, or else now, under a new
/// snapshot id; an appointment is reserved where one is due.
pub fn compute_response(state: &mut AppState, catalog: &Catalog, request: &RouteRequest) -> (r:
    RouteResponse)
    requires
        request_costs_fit(catalog@, request@),
    ensures
        is_random_uuid(r@.snapshot_id),
        exists|at: (int, int)|
            {
                &&& asked_at(request@, at)
                &&& (final(state)@.capacity, r@) == #[trigger] responded(
                    old(state)@.capacity,
                    catalog@,
                    request@,
                    at,
                    r@.snapshot_id,
                )
            },
        final(state)@.query_cache == old(state)@.query_cache,
{
    let at = request_instant(request);
    assert(point_costs_fit(catalog@, request@, at@));
    let ghost before = state@.capacity;
    let r = compute_response_at(state, catalog, request, &at, fresh_id());
    assert(asked_at(request@, at@) && (state@.capacity, r@) == responded(
        before,
        catalog@,
        request@,
        at@,
        r@.snapshot_id,
    ));
    r
}

/// An answer, the key under which it is to be remembered once it has been
/// stored, if it is, and the slot in which it takes an appointment, if it does.
pub struct Answer {
    pub response: RouteResponse,
    pub remember_under: Option<String>,
    pub taken: Option<String>,
}

pub struct AnswerModel {
    pub response: RouteResponseModel,
    pub remember_under: Option<Seq<char>>,
    pub taken: Option<Seq<char>>,
}

impl View for Answer {
    type V = AnswerModel;

    open spec fn view(&self) -> AnswerModel {
        AnswerModel {
            response: self.response@,
            remember_under: optional_text(self.remember_under),
            taken: optional_text(self.taken),
        }
    }
}

/// The slot in which a response holds an appointment.
pub open spec fn appointment(response: RouteResponseModel) -> Option<Seq<char>> {
    match response.home_service {
        Some(h) => match h.slot {
            Some(o) => Some(o.slot_id),
            None => None,
        },
        None => None,
    }
}

/// The slot in which a response holds an appointment.
fn find_appointment(response: &RouteResponse) -> (r: Option<String>)
    ensures
        optional_text(r) == appointment(response@),
{
    match &response.home_service {
        Some(h) => match &h.slot {
            Some(o) => Some(o.slot_id.clone()),
            None => None,
        },
        None => None,
    }
}

/// A request whose answer can be given again: it names its instant, and no
/// appointment is open to the applicant.
pub open spec fn lasting(c: CatalogModel, r: RouteRequestModel) -> bool {
    r.request_time is Some && home_options_for(c, r).len() == 0
}

/// What a request is answered, and the capacity after it: a remembered answer
/// under a new snapshot id or, where there is none or the answer does not last,
/// a new answer.
pub open spec fn answered(
    state: AppStateModel,
    c: CatalogModel,
    r: RouteRequestModel,
    canonical: Seq<char>,
    at: (int, int),
    snapshot_id: Seq<char>,
) -> (CapacityModel, AnswerModel) {
    let key = key_of(c.catalog_version, canonical);
    if lasting(c, r) && state.query_cache.contains_key(key) {
        (
            state.capacity,
            AnswerModel {
                response: RouteResponseModel { snapshot_id, ..state.query_cache[key] },
                remember_under: None,
                taken: None,
            },
        )
    } else {
        let (next, response) = responded(state.capacity, c, r, at, snapshot_id);
        (
            next,
            AnswerModel {
                response,
                remember_under: if lasting(c, r) {
                    Some(key)
                } else {
                    None
                },
                taken: appointment(response),
            },
        )
    }
}

/// Answers a request at an instant, under a given snapshot id, from memory
/// where possible; see `answered`.
pub fn answer_at(
    state: &mut AppState,
    catalog: &Catalog,
    request: &RouteRequest,
    canonical: &str,
    at: &Timestamp,
    snapshot_id: String,
) -> (r: Answer)
    requires
        costs_fit(catalog@, request@, at@),
    ensures
        (final(state)@.capacity, r@) == answered(
            old(state)@,
            catalog@,
            request@,
            canonical@,
            at@,
            snapshot_id@,
        ),
        final(state)@.query_cache == old(state)@.query_cache,
{
    let evaluation = evaluate_at(catalog, request, at);
    let lasts = request.request_time.is_some() && evaluation.home_options.len() == 0;
    assert(lasts == lasting(catalog@, request@));
    let key = cache_key(catalog.catalog_version.as_str(), canonical);
    if lasts {
        match state.query_cache.get(key.as_str()) {
            Some(cached) => {
                assert(state@.query_cache[key@] == cached@);
                let mut response = cached.clone();
                response.snapshot_id = snapshot_id;
                return Answer { response, remember_under: None, taken: None };
            },
            None => {},
        }
    }
    let response = compute_response_at(state, catalog, request, at, snapshot_id);
    let taken = find_appointment(&response);
    Answer {
        response,
        remember_under: if lasts {
            Some(key)
        } else {
            None
        },
        taken,
    }
}

/// Answers a request at the instant that it names, or else now, under a new
/// snapshot id, from memory where possible.
pub fn answer(
    state: &mut AppState,
    catalog: &Catalog,
    request: &RouteRequest,
    canonical: &str,
) -> (r: Answer)
    requires
        request_costs_fit(catalog@, request@),
    ensures
        is_random_uuid(r@.response.snapshot_id),
        exists|at: (int, int)|
            {
                &&& asked_at(request@, at)
                &&& (final(state)@.capacity, r@) == #[trigger] answered(
                    old(state)@,
                    catalog@,
                    request@,
                    canonical@,
                    at,
                    r@.response.snapshot_id,
                )
            },
        final(state)@.query_cache == old(state)@.query_cache,
{
    let at = request_instant(request);
    assert(point_costs_fit(catalog@, request@, at@));
    let ghost before = state@;
    let r = answer_at(state, catalog, request, canonical, &at, fresh_id());
    assert(asked_at(request@, at@) && (state@.capacity, r@) == answered(
        before,
        catalog@,
        request@,
        canonical@,
        at@,
        r@.response.snapshot_id,
    ));
    r
}

/// A snapshot as it is stored: under the id of the response, with the version
/// that the response is pinned to.
pub struct SnapshotEntry {
    pub snapshot_id: String,
    pub catalog_version: String,
    pub request_payload: String,
    pub result_payload: String,
}

/// What is stored of a response, given the request and the response as JSON.
pub fn snapshot_entry(
    catalog: &Catalog,
    response: &RouteResponse,
    request_payload: String,
    result_payload: String,
) -> (r: SnapshotEntry)
    ensures
        r.snapshot_id@ == response@.snapshot_id,
        r.catalog_version@ == catalog@.catalog_version,
        r.request_payload == request_payload,
        r.result_payload == result_payload,
{
    SnapshotEntry {
        snapshot_id: response.snapshot_id.clone(),
        catalog_version: catalog.catalog_version.clone(),
        request_payload,
        result_payload,
    }
}

/// The memory once an answer has been stored.
pub open spec fn remembered(
    cache: Map<Seq<char>, RouteResponseModel>,
    a: AnswerModel,
) -> Map<Seq<char>, RouteResponseModel> {
    match a.remember_under {
        Some(key) => cache.insert(key, a.response),
        None => cache,
    }
}

/// Remembers an answer that has been stored.
pub fn remember(state: &mut AppState, answer: Answer)
    ensures
        final(state)@.query_cache == remembered(old(state)@.query_cache, answer@),
        final(state)@.capacity == old(state)@.capacity,
{
    match answer.remember_under {
        Some(key) => {
            let ghost before = state.query_cache@;
            let ghost k = key@;
            state.query_cache.insert(key, answer.response);
            assert(response_views(state.query_cache@) =~= response_views(before).insert(
                k,
                answer.response@,
            ));
        },
        None => {},
    }
}

/// The capacity once an answer has been withdrawn: the appointment that the
/// answer takes is given back.
pub open spec fn withdrawn(capacity: CapacityModel, a: AnswerModel) -> CapacityModel {
    match a.taken {
        Some(slot_id) => given_back(capacity, a.response.catalog_version, slot_id),
        None => capacity,
    }
}

/// Withdraws an answer that could not be stored.
pub fn withdraw(state: &mut AppState, answer: &Answer)
    ensures
        final(state)@.capacity == withdrawn(old(state)@.capacity, answer@),
        final(state)@.query_cache == old(state)@.query_cache,
{
    if let Some(slot_id) = &answer.taken {
        state.capacity.give_back(answer.response.catalog_version.as_str(), slot_id.as_str());
    }
}

/// The state once a catalog has been imported: its capacity, and nothing
/// remembered.
pub open spec fn installed(state: AppStateModel, c: CatalogModel) -> AppStateModel {
    AppStateModel { query_cache: Map::empty(), capacity: reset(state.capacity, c) }
}

impl AppState {
    /// Nothing remembered, and no appointments.
    pub fn new() -> (r: Self)
        ensures
            r@.query_cache == Map::<Seq<char>, RouteResponseModel>::empty(),
            r@.capacity.catalog_version.len() == 0,
            r@.capacity.remaining == Map::<Seq<char>, u32>::empty(),
    {
        let r = AppState { query_cache: TextMap::new(), capacity: CapacityManager::new() };
        assert(r@.query_cache =~= Map::<Seq<char>, RouteResponseModel>::empty());
        r
    }

    /// Takes note that a catalog has been imported.
    pub fn install(&mut self, catalog: &Catalog)
        ensures
            final(self)@ == installed(old(self)@, catalog@),
    {
        self.capacity.reset_for_catalog(catalog);
        self.query_cache.clear();
        assert(self@.query_cache =~= Map::<Seq<char>, RouteResponseModel>::empty());
    }

    /// Prepares for requests that are answered from a catalog.
    pub fn pin(&mut self, catalog: &Catalog)
        ensures
            final(self)@.capacity == reset(old(self)@.capacity, catalog@),
            final(self)@.query_cache == old(self)@.query_cache,
    {
        self.capacity.reset_for_catalog(catalog);
    }
}

/// The catalog to answer from, or the status and the message of the error.
pub fn require_catalog(found: Option<Catalog>) -> (r: Result<Catalog, (u16, String)>)
    ensures
        match r {
            Ok(c) => found == Some(c),
            Err(e) => found is None && e.0 == 400 && e.1@ == "no catalog imported"@,
        },
{
    match found {
        Some(c) => Ok(c),
        None => Err((400, "no catalog imported".to_owned())),
    }
}

/// The summary of the catalog, or the status and the message of the error.
pub fn require_summary(found: Option<CatalogSummary>) -> (r: Result<
    CatalogSummary,
    (u16, String),
>)
    ensures
        match r {
            Ok(s) => found == Some(s),
            Err(e) => found is None && e.0 == 404 && e.1@ == "no catalog imported"@,
        },
{
    match found {
        Some(s) => Ok(s),
        None => Err((404, "no catalog imported".to_owned())),
    }
}

/// A stored snapshot, or the status and the message of the error.
pub fn require_snapshot(found: Option<SnapshotRecord>) -> (r: Result<
    SnapshotRecord,
    (u16, String),
>)
    ensures
        match r {
            Ok(s) => found == Some(s),
            Err(e) => found is None && e.0 == 404 && e.1@ == "snapshot not found"@,
        },
{
    match found {
        Some(s) => Ok(s),
        None => Err((404, "snapshot not found".to_owned())),
    }
}

} // verus!
