//! Routing for the service: which points an applicant can be sent to, which
//! are excluded and why, and which home appointments are open to them.

use crate::catalog::ClosureModel;
use crate::distance::{cost_fits, distance, grid_distance, has_cost};
use crate::instant::{lemma_later_instant, no_later, representable, shown_text, Timestamp};
use crate::keyed::ascending_list;
use crate::models::{
    required_for, Candidate, CandidateModel, Catalog, CatalogModel, Closure, Exclusion,
    ExclusionModel, HomeOption, HomeOptionModel, HomeServiceOutcome, HomeServiceOutcomeModel,
    HomeServiceSlotModel, Mobility, NoCapacity, NoCapacityModel, Notice, RouteRequest,
    RouteRequestModel, RouteResponse, RouteResponseModel, ServicePoint, ServicePointModel,
};
use crate::order::{
    lemma_selected_ends, lemma_selected_step, lemma_views_push, selected, sort, sorted, views,
};
use crate::text::{join, joined, same};
use vstd::prelude::*;
use vstd::string::*;

verus! {

/// The capabilities that a request calls for, each once, ascending.
pub open spec fn required_list(c: CatalogModel, r: RouteRequestModel) -> Seq<Seq<char>> {
    ascending_list(required_for(c.hard_requirements, r.mobility, r.communication))
}

/// The applicant is to be visited at home.
pub open spec fn eligible(c: CatalogModel, r: RouteRequestModel) -> bool {
    &&& r.mobility.contains(Mobility::Homebound)
    &&& r.service == c.home_service.allowed_service
    &&& c.home_service.allowed_mobility.contains("HOMEBOUND"@)
}

pub open spec fn lacks(p: ServicePointModel) -> spec_fn(Seq<char>) -> bool {
    |a: Seq<char>| !p.access.contains(a)
}

pub open spec fn unchanged() -> spec_fn(Seq<char>) -> Seq<char> {
    |a: Seq<char>| a
}

/// The required capabilities that a point lacks.
pub open spec fn missing(required: Seq<Seq<char>>, p: ServicePointModel) -> Seq<Seq<char>> {
    required.filter(lacks(p)).map_values(unchanged())
}

/// The first closure from `from` on that closes the point `id`.
pub open spec fn first_closing(
    closures: Seq<ClosureModel>,
    id: Seq<char>,
    at: (int, int),
    from: int,
) -> Option<ClosureModel>
    decreases closures.len() - from,
{
    if from < 0 || from >= closures.len() {
        None
    } else if closures[from].closes(id, at) {
        Some(closures[from])
    } else {
        first_closing(closures, id, at, from + 1)
    }
}

/// Why the applicant cannot be sent to a point, if they cannot.
pub open spec fn exclusion(
    c: CatalogModel,
    r: RouteRequestModel,
    at: (int, int),
    p: ServicePointModel,
) -> Option<ExclusionModel> {
    let lacking = missing(required_list(c, r), p);
    if !p.services.contains(r.service) {
        Some(
            ExclusionModel {
                point_id: p.id,
                reason: "MISSING_SERVICE"@,
                detail: "point does not offer service "@ + r.service,
            },
        )
    } else if lacking.len() > 0 {
        Some(
            ExclusionModel {
                point_id: p.id,
                reason: "MISSING_ACCESSIBILITY"@,
                detail: "point lacks required accessibility capability: "@ + joined(
                    lacking,
                    ", "@,
                ),
            },
        )
    } else if eligible(c, r) {
        Some(
            ExclusionModel {
                point_id: p.id,
                reason: c.home_service.reason,
                detail: "applicant is eligible for home service; in-person points excluded"@,
            },
        )
    } else {
        match first_closing(c.closures, p.id, at, 0) {
            Some(closure) => Some(
                ExclusionModel {
                    point_id: p.id,
                    reason: "TEMPORARILY_CLOSED"@,
                    detail: "closure event "@ + closure.event_id + " active from "@ + shown_text(
                        closure.from.0,
                        closure.from.1,
                    ) + " to "@ + shown_text(closure.to.0, closure.to.1),
                },
            ),
            None => None,
        }
    }
}

/// The points that nothing speaks against.
pub open spec fn admitted(
    c: CatalogModel,
    r: RouteRequestModel,
    at: (int, int),
) -> spec_fn(ServicePointModel) -> bool {
    |p: ServicePointModel| exclusion(c, r, at, p) is None
}

/// The points that something speaks against.
pub open spec fn refused(
    c: CatalogModel,
    r: RouteRequestModel,
    at: (int, int),
) -> spec_fn(ServicePointModel) -> bool {
    |p: ServicePointModel| exclusion(c, r, at, p) is Some
}

/// An admitted point with what it costs to reach it.
pub open spec fn candidate_at(r: RouteRequestModel) -> spec_fn(ServicePointModel) -> CandidateModel {
    |p: ServicePointModel|
        CandidateModel {
            point_id: p.id,
            total_cost: grid_distance(r.origin_grid, p.grid) + p.barrier_penalty,
            distance: grid_distance(r.origin_grid, p.grid),
            barrier_penalty: p.barrier_penalty,
        }
}

/// A refused point with what speaks against it.
pub open spec fn exclusion_at(
    c: CatalogModel,
    r: RouteRequestModel,
    at: (int, int),
) -> spec_fn(ServicePointModel) -> ExclusionModel {
    |p: ServicePointModel| exclusion(c, r, at, p)->Some_0
}

/// The points that the applicant can be sent to, the best first.
pub open spec fn candidates_for(
    c: CatalogModel,
    r: RouteRequestModel,
    at: (int, int),
) -> Seq<CandidateModel> {
    sorted(c.points.filter(admitted(c, r, at)).map_values(candidate_at(r)))
}

/// The points that the applicant cannot be sent to, by id.
pub open spec fn exclusions_for(
    c: CatalogModel,
    r: RouteRequestModel,
    at: (int, int),
) -> Seq<ExclusionModel> {
    sorted(c.points.filter(refused(c, r, at)).map_values(exclusion_at(c, r, at)))
}

/// A slot with what it costs to serve the applicant from it.
pub open spec fn option_at(
    r: RouteRequestModel,
) -> spec_fn(HomeServiceSlotModel) -> HomeOptionModel {
    |s: HomeServiceSlotModel|
        HomeOptionModel {
            slot_id: s.slot_id,
            total_cost: grid_distance(r.origin_grid, s.grid) + s.barrier_penalty,
            distance: grid_distance(r.origin_grid, s.grid),
            barrier_penalty: s.barrier_penalty,
            grid: s.grid,
        }
}

/// The appointments that are open to the applicant, the best first.
pub open spec fn home_options_for(c: CatalogModel, r: RouteRequestModel) -> Seq<HomeOptionModel> {
    if eligible(c, r) {
        sorted(c.home_service.slots.map_values(option_at(r)))
    } else {
        Seq::empty()
    }
}

/// The costs of all admitted points can be computed in 64 bits.
pub open spec fn point_costs_fit(c: CatalogModel, r: RouteRequestModel, at: (int, int)) -> bool {
    forall|i: int|
        0 <= i < c.points.len() && exclusion(c, r, at, #[trigger] c.points[i]) is None
            ==> cost_fits(r.origin_grid, c.points[i].grid, c.points[i].barrier_penalty)
}

/// The costs of all open appointments can be computed in 64 bits.
pub open spec fn slot_costs_fit(c: CatalogModel, r: RouteRequestModel) -> bool {
    eligible(c, r) ==> forall|i: int|
        0 <= i < c.home_service.slots.len() ==> cost_fits(
            r.origin_grid,
            (#[trigger] c.home_service.slots[i]).grid,
            c.home_service.slots[i].barrier_penalty,
        )
}

/// The costs of all admitted points and open appointments can be computed in
/// 64 bits.
pub open spec fn costs_fit(c: CatalogModel, r: RouteRequestModel, at: (int, int)) -> bool {
    point_costs_fit(c, r, at) && slot_costs_fit(c, r)
}

/// The costs of the points that a request can come to can be computed in
/// 64 bits: at the instant that it names or, where it names none, at every
/// instant.
pub open spec fn request_point_costs_fit(c: CatalogModel, r: RouteRequestModel) -> bool {
    match r.request_time {
        Some(at) => point_costs_fit(c, r, at),
        None => forall|at: (int, int)| #[trigger] point_costs_fit(c, r, at),
    }
}

/// The costs that a request can come to, those of appointments included, can be
/// computed in 64 bits.
pub open spec fn request_costs_fit(c: CatalogModel, r: RouteRequestModel) -> bool {
    request_point_costs_fit(c, r) && slot_costs_fit(c, r)
}

/// The instants at which a request may be answered: the one that it names or,
/// where it names none, any.
pub open spec fn asked_at(r: RouteRequestModel, at: (int, int)) -> bool {
    match r.request_time {
        Some(t) => at == t,
        None => representable(at.0, at.1),
    }
}

/// Nothing but a closure can speak against the point.
pub open spec fn stands(c: CatalogModel, r: RouteRequestModel, p: ServicePointModel) -> bool {
    &&& p.services.contains(r.service)
    &&& missing(required_list(c, r), p).len() == 0
    &&& !eligible(c, r)
}

proof fn lemma_no_closing(closures: Seq<ClosureModel>, id: Seq<char>, at: (int, int), from: int)
    requires
        0 <= from,
        forall|i: int| 0 <= i < closures.len() ==> no_later((#[trigger] closures[i]).to, at),
    ensures
        first_closing(closures, id, at, from) is None,
    decreases closures.len() - from,
{
    if from < closures.len() {
        assert(!closures[from].closes(id, at));
        lemma_no_closing(closures, id, at, from + 1);
    }
}

/// Such a point is admitted once all closures are over.
proof fn lemma_stands(c: CatalogModel, r: RouteRequestModel, p: ServicePointModel) -> (at: (
    int,
    int,
))
    requires
        stands(c, r, p),
    ensures
        exclusion(c, r, at, p) is None,
{
    let ends = c.closures.map_values(|x: ClosureModel| x.to);
    let at = lemma_later_instant(ends);
    assert forall|i: int| 0 <= i < c.closures.len() implies no_later(
        (#[trigger] c.closures[i]).to,
        at,
    ) by {
        assert(ends[i] == c.closures[i].to);
    }
    lemma_no_closing(c.closures, p.id, at, 0);
    at
}

/// Whether the costs of the appointments that are open to the applicant can be
/// computed in 64 bits.
pub fn has_slot_costs(catalog: &Catalog, request: &RouteRequest) -> (r: bool)
    ensures
        r == slot_costs_fit(catalog@, request@),
{
    if !is_eligible(catalog, request) {
        return true;
    }
    let mut k: usize = 0;
    while k < catalog.home_service.slots.len()
        invariant
            eligible(catalog@, request@),
            k <= catalog.home_service.slots@.len(),
            forall|j: int|
                0 <= j < k ==> cost_fits(
                    request@.origin_grid,
                    (#[trigger] catalog@.home_service.slots[j]).grid,
                    catalog@.home_service.slots[j].barrier_penalty,
                ),
        decreases catalog.home_service.slots@.len() - k,
    {
        let slot = &catalog.home_service.slots[k];
        assert(catalog@.home_service.slots[k as int] == slot@);
        if !has_cost(&request.origin_grid, &slot.grid, slot.barrier_penalty) {
            return false;
        }
        k = k + 1;
    }
    true
}

/// Whether the costs of the points that a request comes to at an instant can be
/// computed in 64 bits.
pub fn has_point_costs_at(catalog: &Catalog, request: &RouteRequest, at: &Timestamp) -> (r: bool)
    ensures
        r == point_costs_fit(catalog@, request@, at@),
{
    let required = catalog.hard_requirements.required_access_for(
        request.mobility.as_slice(),
        request.communication.as_slice(),
    ).list();
    let home = is_eligible(catalog, request);
    let mut i: usize = 0;
    while i < catalog.points.len()
        invariant
            i <= catalog.points@.len(),
            views(required@) == required_list(catalog@, request@),
            home == eligible(catalog@, request@),
            forall|j: int|
                0 <= j < i && exclusion(
                    catalog@,
                    request@,
                    at@,
                    #[trigger] catalog@.points[j],
                ) is None ==> cost_fits(
                    request@.origin_grid,
                    catalog@.points[j].grid,
                    catalog@.points[j].barrier_penalty,
                ),
        decreases catalog.points@.len() - i,
    {
        let point = &catalog.points[i];
        assert(catalog@.points[i as int] == point@);
        if exclude(catalog, request, at, &required, home, point).is_none() && !has_cost(
            &request.origin_grid,
            &point.grid,
            point.barrier_penalty,
        ) {
            return false;
        }
        i = i + 1;
    }
    true
}

/// Whether the costs that a request comes to at an instant can be computed in
/// 64 bits.
pub fn has_costs_at(catalog: &Catalog, request: &RouteRequest, at: &Timestamp) -> (r: bool)
    ensures
        r == costs_fit(catalog@, request@, at@),
{
    has_point_costs_at(catalog, request, at) && has_slot_costs(catalog, request)
}

/// Whether the costs of the points that a request can come to can be computed in
/// 64 bits; see `request_point_costs_fit`.
pub fn has_point_costs(catalog: &Catalog, request: &RouteRequest) -> (r: bool)
    ensures
        r == request_point_costs_fit(catalog@, request@),
{
    if let Some(at) = &request.request_time {
        return has_point_costs_at(catalog, request, at);
    }
    let required = catalog.hard_requirements.required_access_for(
        request.mobility.as_slice(),
        request.communication.as_slice(),
    ).list();
    let home = is_eligible(catalog, request);
    let mut i: usize = 0;
    while i < catalog.points.len()
        invariant
            i <= catalog.points@.len(),
            request@.request_time is None,
            views(required@) == required_list(catalog@, request@),
            home == eligible(catalog@, request@),
            forall|j: int|
                0 <= j < i && stands(catalog@, request@, #[trigger] catalog@.points[j])
                    ==> cost_fits(
                    request@.origin_grid,
                    catalog@.points[j].grid,
                    catalog@.points[j].barrier_penalty,
                ),
        decreases catalog.points@.len() - i,
    {
        let point = &catalog.points[i];
        assert(catalog@.points[i as int] == point@);
        if !home && point.services.contains(request.service.as_str()) && find_missing(
            &required,
            point,
        ).len() == 0 && !has_cost(&request.origin_grid, &point.grid, point.barrier_penalty) {
            proof {
                let at = lemma_stands(catalog@, request@, point@);
                assert(!point_costs_fit(catalog@, request@, at));
            }
            return false;
        }
        i = i + 1;
    }
    proof {
        assert forall|at: (int, int)| #[trigger] point_costs_fit(catalog@, request@, at) by {
            assert forall|j: int|
                0 <= j < catalog@.points.len() && exclusion(
                    catalog@,
                    request@,
                    at,
                    #[trigger] catalog@.points[j],
                ) is None implies cost_fits(
                request@.origin_grid,
                catalog@.points[j].grid,
                catalog@.points[j].barrier_penalty,
            ) by {
                assert(stands(catalog@, request@, catalog@.points[j]));
            }
        }
    }
    true
}

/// Whether the costs that a request can come to can be computed in 64 bits; see
/// `request_costs_fit`.
pub fn has_costs(catalog: &Catalog, request: &RouteRequest) -> (r: bool)
    ensures
        r == request_costs_fit(catalog@, request@),
{
    has_point_costs(catalog, request) && has_slot_costs(catalog, request)
}

/// Whether the applicant is to be visited at home.
pub fn is_eligible(catalog: &Catalog, request: &RouteRequest) -> (r: bool)
    ensures
        r == eligible(catalog@, request@),
{
    let mut homebound = false;
    let mut i: usize = 0;
    while i < request.mobility.len()
        invariant
            i <= request.mobility@.len(),
            homebound == request.mobility@.take(i as int).contains(Mobility::Homebound),
        decreases request.mobility@.len() - i,
    {
        let ghost seen = request.mobility@.take(i as int);
        let ghost now = request.mobility@.take(i + 1);
        match request.mobility[i] {
            Mobility::Homebound => {
                homebound = true;
                assert(now[i as int] == Mobility::Homebound);
            },
            Mobility::Wheelchair => {},
            Mobility::Ambulatory => {},
        }
        proof {
            if seen.contains(Mobility::Homebound) {
                let k = choose|k: int| 0 <= k < seen.len() && seen[k] == Mobility::Homebound;
                assert(now[k] == Mobility::Homebound);
            }
            if now.contains(Mobility::Homebound) && request.mobility@[i as int]
                != Mobility::Homebound {
                let k = choose|k: int| 0 <= k < now.len() && now[k] == Mobility::Homebound;
                assert(seen[k] == Mobility::Homebound);
            }
        }
        i = i + 1;
    }
    assert(request.mobility@.take(i as int) =~= request.mobility@);
    homebound && request.service == catalog.home_service.allowed_service
        && catalog.home_service.allowed_mobility.contains("HOMEBOUND")
}

/// The required capabilities that a point lacks.
fn find_missing(required: &Vec<String>, point: &ServicePoint) -> (r: Vec<String>)
    ensures
        views(r@) == missing(views(required@), point@),
{
    let ghost all = views(required@);
    let mut r: Vec<String> = Vec::new();
    let mut i: usize = 0;
    proof {
        lemma_selected_ends(all, lacks(point@), unchanged());
        assert(views(r@) =~= selected(all, 0, lacks(point@), unchanged()));
    }
    while i < required.len()
        invariant
            i <= required@.len(),
            all == views(required@),
            views(r@) == selected(all, i as int, lacks(point@), unchanged()),
        decreases required@.len() - i,
    {
        proof {
            lemma_selected_step(all, i as int, lacks(point@), unchanged());
        }
        if !point.access.contains(required[i].as_str()) {
            let item = required[i].clone();
            proof {
                lemma_views_push(r@, item);
            }
            r.push(item);
        }
        i = i + 1;
    }
    r
}

/// The first closure that closes the point `id`.
fn find_closing<'a>(closures: &'a Vec<Closure>, id: &String, at: &Timestamp) -> (r: Option<
    &'a Closure,
>)
    ensures
        match r {
            Some(c) => first_closing(views(closures@), id@, at@, 0) == Some(c@),
            None => first_closing(views(closures@), id@, at@, 0) is None,
        },
{
    let mut i: usize = 0;
    while i < closures.len()
        invariant
            i <= closures@.len(),
            first_closing(views(closures@), id@, at@, 0) == first_closing(
                views(closures@),
                id@,
                at@,
                i as int,
            ),
        decreases closures@.len() - i,
    {
        let closure = &closures[i];
        assert(views(closures@)[i as int] == closure@);
        if closure.point_id == *id && at.is_within(&closure.from, &closure.to) {
            return Some(closure);
        }
        i = i + 1;
    }
    None
}

/// Why the applicant cannot be sent to a point, if they cannot.
fn exclude(
    catalog: &Catalog,
    request: &RouteRequest,
    at: &Timestamp,
    required: &Vec<String>,
    home: bool,
    point: &ServicePoint,
) -> (r: Option<Exclusion>)
    requires
        views(required@) == required_list(catalog@, request@),
        home == eligible(catalog@, request@),
    ensures
        match r {
            Some(e) => exclusion(catalog@, request@, at@, point@) == Some(e@),
            None => exclusion(catalog@, request@, at@, point@) is None,
        },
{
    if !point.services.contains(request.service.as_str()) {
        return Some(
            Exclusion {
                point_id: point.id.clone(),
                reason: "MISSING_SERVICE".to_owned(),
                detail: "point does not offer service ".to_owned().concat(
                    request.service.as_str(),
                ),
            },
        );
    }
    let lacking = find_missing(required, point);
    if lacking.len() > 0 {
        return Some(
            Exclusion {
                point_id: point.id.clone(),
                reason: "MISSING_ACCESSIBILITY".to_owned(),
                detail: "point lacks required accessibility capability: ".to_owned().concat(
                    join(lacking.as_slice(), ", ").as_str(),
                ),
            },
        );
    }
    if home {
        return Some(
            Exclusion {
                point_id: point.id.clone(),
                reason: catalog.home_service.reason.clone(),
                detail:
                    "applicant is eligible for home service; in-person points excluded".to_owned(),
            },
        );
    }
    match find_closing(&catalog.closures, &point.id, at) {
        Some(closure) => {
            let mut detail = "closure event ".to_owned();
            detail.append(closure.event_id.as_str());
            detail.append(" active from ");
            detail.append(closure.from.shown().as_str());
            detail.append(" to ");
            detail.append(closure.to.shown().as_str());
            Some(
                Exclusion {
                    point_id: point.id.clone(),
                    reason: "TEMPORARILY_CLOSED".to_owned(),
                    detail,
                },
            )
        },
        None => None,
    }
}

/// The appointments that are open to the applicant, the best first.
fn find_home_options(catalog: &Catalog, request: &RouteRequest, home: bool) -> (r: Vec<HomeOption>)
    requires
        home == eligible(catalog@, request@),
        home ==> forall|i: int|
            0 <= i < catalog@.home_service.slots.len() ==> cost_fits(
                request@.origin_grid,
                (#[trigger] catalog@.home_service.slots[i]).grid,
                catalog@.home_service.slots[i].barrier_penalty,
            ),
    ensures
        views(r@) == home_options_for(catalog@, request@),
{
    let mut r: Vec<HomeOption> = Vec::new();
    if !home {
        assert(views(r@) =~= Seq::empty());
        return r;
    }
    let ghost slots = catalog@.home_service.slots;
    let mut i: usize = 0;
    assert(views(r@) =~= slots.take(0).map_values(option_at(request@)));
    while i < catalog.home_service.slots.len()
        invariant
            i <= catalog.home_service.slots@.len(),
            slots == catalog@.home_service.slots,
            views(r@) == slots.take(i as int).map_values(option_at(request@)),
            forall|i: int|
                0 <= i < slots.len() ==> cost_fits(
                    request@.origin_grid,
                    (#[trigger] slots[i]).grid,
                    slots[i].barrier_penalty,
                ),
        decreases catalog.home_service.slots@.len() - i,
    {
        let slot = &catalog.home_service.slots[i];
        assert(slots[i as int] == slot@);
        let d: i64 = distance(
            request.origin_grid[0],
            request.origin_grid[1],
            slot.grid[0],
            slot.grid[1],
        );
        let option = HomeOption {
            slot_id: slot.slot_id.clone(),
            total_cost: d + slot.barrier_penalty,
            distance: d,
            barrier_penalty: slot.barrier_penalty,
            grid: slot.grid,
        };
        proof {
            lemma_views_push(r@, option);
        }
        r.push(option);
        i = i + 1;
        assert(views(r@) =~= slots.take(i as int).map_values(option_at(request@)));
    }
    assert(slots.take(i as int) =~= slots);
    sort(r)
}

/// What a request comes to before any appointment is reserved.
#[derive(Debug, Clone)]
pub struct Evaluation {
    pub candidates: Vec<Candidate>,
    pub exclusions: Vec<Exclusion>,
    pub home_options: Vec<HomeOption>,
    pub notices: Vec<Notice>,
}

pub struct EvaluationModel {
    pub candidates: Seq<CandidateModel>,
    pub exclusions: Seq<ExclusionModel>,
    pub home_options: Seq<HomeOptionModel>,
    pub notices: Seq<Seq<char>>,
}

impl View for Evaluation {
    type V = EvaluationModel;

    open spec fn view(&self) -> EvaluationModel {
        EvaluationModel {
            candidates: views(self.candidates@),
            exclusions: views(self.exclusions@),
            home_options: views(self.home_options@),
            notices: views(self.notices@),
        }
    }
}

/// An eligible applicant is noted.
pub open spec fn notices_for(c: CatalogModel, r: RouteRequestModel) -> Seq<Seq<char>> {
    if eligible(c, r) {
        seq!["HOME_SERVICE_REQUIRED"@]
    } else {
        Seq::empty()
    }
}

/// What a request comes to at an instant.
pub open spec fn evaluated(c: CatalogModel, r: RouteRequestModel, at: (int, int)) -> EvaluationModel {
    EvaluationModel {
        candidates: candidates_for(c, r, at),
        exclusions: exclusions_for(c, r, at),
        home_options: home_options_for(c, r),
        notices: notices_for(c, r),
    }
}

/// The points that the applicant can be sent to, the best first, and those that
/// they cannot be sent to, by id.
fn sift(catalog: &Catalog, request: &RouteRequest, at: &Timestamp) -> (r: (
    Vec<Candidate>,
    Vec<Exclusion>,
))
    requires
        point_costs_fit(catalog@, request@, at@),
    ensures
        views(r.0@) == candidates_for(catalog@, request@, at@),
        views(r.1@) == exclusions_for(catalog@, request@, at@),
{
    let required = catalog.hard_requirements.required_access_for(
        request.mobility.as_slice(),
        request.communication.as_slice(),
    ).list();
    let home = is_eligible(catalog, request);
    let mut candidates: Vec<Candidate> = Vec::new();
    let mut exclusions: Vec<Exclusion> = Vec::new();
    let ghost points = catalog@.points;
    let ghost open = admitted(catalog@, request@, at@);
    let ghost shut = refused(catalog@, request@, at@);
    let ghost offer = candidate_at(request@);
    let ghost refusal = exclusion_at(catalog@, request@, at@);
    proof {
        lemma_selected_ends(points, open, offer);
        lemma_selected_ends(points, shut, refusal);
        assert(views(candidates@) =~= selected(points, 0, open, offer));
        assert(views(exclusions@) =~= selected(points, 0, shut, refusal));
    }
    let mut i: usize = 0;
    while i < catalog.points.len()
        invariant
            i <= catalog.points@.len(),
            points == views(catalog.points@),
            points == catalog@.points,
            open == admitted(catalog@, request@, at@),
            shut == refused(catalog@, request@, at@),
            offer == candidate_at(request@),
            refusal == exclusion_at(catalog@, request@, at@),
            point_costs_fit(catalog@, request@, at@),
            views(required@) == required_list(catalog@, request@),
            home == eligible(catalog@, request@),
            views(candidates@) == selected(points, i as int, open, offer),
            views(exclusions@) == selected(points, i as int, shut, refusal),
        decreases catalog.points@.len() - i,
    {
        let point = &catalog.points[i];
        assert(points[i as int] == point@);
        proof {
            lemma_selected_step(points, i as int, open, offer);
            lemma_selected_step(points, i as int, shut, refusal);
        }
        match exclude(catalog, request, at, &required, home, point) {
            Some(entry) => {
                proof {
                    lemma_views_push(exclusions@, entry);
                }
                exclusions.push(entry);
            },
            None => {
                let d: i64 = distance(
                    request.origin_grid[0],
                    request.origin_grid[1],
                    point.grid[0],
                    point.grid[1],
                );
                let candidate = Candidate {
                    point_id: point.id.clone(),
                    total_cost: d + point.barrier_penalty,
                    distance: d,
                    barrier_penalty: point.barrier_penalty,
                };
                proof {
                    lemma_views_push(candidates@, candidate);
                }
                candidates.push(candidate);
            },
        }
        i = i + 1;
    }
    (sort(candidates), sort(exclusions))
}

/// What a request comes to at an instant.
pub fn evaluate_at(catalog: &Catalog, request: &RouteRequest, at: &Timestamp) -> (r: Evaluation)
    requires
        costs_fit(catalog@, request@, at@),
    ensures
        r@ == evaluated(catalog@, request@, at@),
{
    let (candidates, exclusions) = sift(catalog, request, at);
    let home = is_eligible(catalog, request);
    let mut notices: Vec<Notice> = Vec::new();
    if home {
        notices.push(Notice { code: "HOME_SERVICE_REQUIRED".to_owned() });
    }
    assert(views(notices@) =~= notices_for(catalog@, request@));
    Evaluation {
        candidates,
        exclusions,
        home_options: find_home_options(catalog, request, home),
        notices,
    }
}

/// The instant that a request is about: the one it names, or now.
pub fn request_instant(request: &RouteRequest) -> (at: Timestamp)
    ensures
        asked_at(request@, at@),
{
    match request.request_time {
        Some(t) => t,
        None => Timestamp::now(),
    }
}

/// What a request comes to: at the instant that it names, or else now.
pub fn evaluate(catalog: &Catalog, request: &RouteRequest) -> (r: Evaluation)
    requires
        request_costs_fit(catalog@, request@),
    ensures
        exists|at: (int, int)|
            asked_at(request@, at) && r@ == #[trigger] evaluated(catalog@, request@, at),
{
    let at = request_instant(request);
    assert(point_costs_fit(catalog@, request@, at@));
    let r = evaluate_at(catalog, request, &at);
    assert(asked_at(request@, at@) && r@ == evaluated(catalog@, request@, at@));
    r
}

/// The answer to a request at an instant.
pub open spec fn routed(
    c: CatalogModel,
    r: RouteRequestModel,
    snapshot_id: Seq<char>,
    at: (int, int),
) -> RouteResponseModel {
    RouteResponseModel {
        snapshot_id,
        catalog_version: c.catalog_version,
        candidates: candidates_for(c, r, at),
        exclusions: exclusions_for(c, r, at),
        home_service: None,
    }
}

/// Answers a request at an instant, without reserving an appointment.
pub fn route_at(
    catalog: &Catalog,
    request: &RouteRequest,
    snapshot_id: String,
    at: &Timestamp,
) -> (r: RouteResponse)
    requires
        point_costs_fit(catalog@, request@, at@),
    ensures
        r@ == routed(catalog@, request@, snapshot_id@, at@),
{
    let (candidates, exclusions) = sift(catalog, request, at);
    RouteResponse {
        snapshot_id,
        catalog_version: catalog.catalog_version.clone(),
        candidates,
        exclusions,
        home_service: None,
    }
}

/// Answers a request at the instant that it names, or else now, without
/// reserving an appointment.
pub fn route(catalog: &Catalog, request: &RouteRequest, snapshot_id: String) -> (r: RouteResponse)
    requires
        request_point_costs_fit(catalog@, request@),
    ensures
        exists|at: (int, int)|
            asked_at(request@, at) && r@ == #[trigger] routed(
                catalog@,
                request@,
                snapshot_id@,
                at,
            ),
{
    let at = request_instant(request);
    assert(point_costs_fit(catalog@, request@, at@));
    let r = route_at(catalog, request, snapshot_id, &at);
    assert(asked_at(request@, at@) && r@ == routed(catalog@, request@, snapshot_id@, at@));
    r
}

/// The first appointment from `from` on with the given slot.
pub open spec fn option_for(
    options: Seq<HomeOptionModel>,
    slot_id: Seq<char>,
    from: int,
) -> Option<HomeOptionModel>
    decreases options.len() - from,
{
    if from < 0 || from >= options.len() {
        None
    } else if options[from].slot_id == slot_id {
        Some(options[from])
    } else {
        option_for(options, slot_id, from + 1)
    }
}

/// The message when no appointment is left in any slot.
pub open spec fn at_capacity() -> Seq<char> {
    "all home service appointment slots are at capacity"@
}

/// What comes of home service when a slot was assigned, or none for a reason:
/// where there are slots, they are at capacity; where there are none, the reason
/// is told.
pub open spec fn outcome(
    reason: Seq<char>,
    options: Seq<HomeOptionModel>,
    assigned_slot: Option<Seq<char>>,
    no_capacity_reason: Option<Seq<char>>,
) -> Option<HomeServiceOutcomeModel> {
    match assigned_slot {
        Some(slot_id) => Some(
            HomeServiceOutcomeModel {
                eligible: true,
                reason,
                slot: option_for(options, slot_id, 0),
                no_capacity: None,
            },
        ),
        None => match no_capacity_reason {
            Some(message) => Some(
                HomeServiceOutcomeModel {
                    eligible: true,
                    reason,
                    slot: None,
                    no_capacity: Some(
                        NoCapacityModel {
                            code: "HOME_SERVICE_NO_CAPACITY"@,
                            message: if options.len() > 0 {
                                at_capacity()
                            } else {
                                message
                            },
                        },
                    ),
                },
            ),
            None => None,
        },
    }
}

/// The text behind an optional piece of text.
pub open spec fn optional(s: Option<&str>) -> Option<Seq<char>> {
    match s {
        Some(t) => Some(t@),
        None => None,
    }
}

/// Takes the first appointment with the given slot out of a list.
fn take_option(options: Vec<HomeOption>, slot_id: &str) -> (r: Option<HomeOption>)
    ensures
        match r {
            Some(o) => option_for(views(options@), slot_id@, 0) == Some(o@),
            None => option_for(views(options@), slot_id@, 0) is None,
        },
{
    let ghost all = views(options@);
    let mut rest = options;
    let mut i: usize = 0;
    while i < rest.len()
        invariant
            i <= rest@.len(),
            all == views(options@),
            all == views(rest@),
            option_for(all, slot_id@, 0) == option_for(all, slot_id@, i as int),
        decreases rest@.len() - i,
    {
        assert(all[i as int] == rest@[i as int]@);
        if same(rest[i].slot_id.as_str(), slot_id) {
            return Some(rest.remove(i));
        }
        i = i + 1;
    }
    None
}

/// Puts an answer together from an evaluation and what came of reserving an
/// appointment.
pub fn build_response(
    catalog: &Catalog,
    evaluation: Evaluation,
    snapshot_id: String,
    assigned_slot: Option<&str>,
    no_capacity_reason: Option<&str>,
) -> (r: RouteResponse)
    ensures
        r@.snapshot_id == snapshot_id@,
        r@.catalog_version == catalog@.catalog_version,
        r@.candidates == evaluation@.candidates,
        r@.exclusions == evaluation@.exclusions,
        r@.home_service == outcome(
            catalog@.home_service.reason,
            evaluation@.home_options,
            optional(assigned_slot),
            optional(no_capacity_reason),
        ),
{
    let home_service = match assigned_slot {
        Some(slot_id) => Some(
            HomeServiceOutcome {
                eligible: true,
                reason: catalog.home_service.reason.clone(),
                slot: take_option(evaluation.home_options, slot_id),
                no_capacity: None,
            },
        ),
        None => match no_capacity_reason {
            Some(message) => Some(
                HomeServiceOutcome {
                    eligible: true,
                    reason: catalog.home_service.reason.clone(),
                    slot: None,
                    no_capacity: Some(
                        NoCapacity {
                            code: "HOME_SERVICE_NO_CAPACITY".to_owned(),
                            message: if evaluation.home_options.len() > 0 {
                                "all home service appointment slots are at capacity".to_owned()
                            } else {
                                message.to_owned()
                            },
                        },
                    ),
                },
            ),
            None => None,
        },
    };
    RouteResponse {
        snapshot_id,
        catalog_version: catalog.catalog_version.clone(),
        candidates: evaluation.candidates,
        exclusions: evaluation.exclusions,
        home_service,
    }
}

} // verus!
