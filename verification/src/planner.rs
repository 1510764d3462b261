//! Routing over a catalog in normal form.
//!
//! A point is a candidate if it offers the service, has every required
//! capability, and is neither closed nor short of a required capability at the
//! instant of the request. Everything else is excluded, with all reasons.

use crate::catalog::ClosureModel;
use crate::distance::{cost_fits, grid_distance, has_cost};
use crate::instant::{lemma_later_instant, representable, within, Timestamp};
use crate::keyed::{ascending_list, TextSet};
use crate::model::{
    Catalog, CatalogModel, Closure, Degradation, DegradationModel, Grid, Point,
};
use crate::models::ServicePointModel;
use crate::order::{
    lemma_selected_ends, lemma_selected_step, lemma_selection_keeps, lemma_selection_source,
    lemma_views_push, selected, sort, sorted, views, Order, Ranked,
};
use crate::routing::required_access;
use crate::text::optional_text;
use vstd::prelude::*;
use vstd::string::*;

verus! {

/// What an applicant asks for.
#[derive(Debug, Clone)]
pub struct RouteRequest {
    pub origin: [i64; 2],
    pub service: String,
    pub mobility: Option<String>,
    pub communication: Vec<String>,
    pub at: Option<Timestamp>,
}

pub struct RouteRequestModel {
    pub origin: (int, int),
    pub service: Seq<char>,
    pub mobility: Option<Seq<char>>,
    pub communication: Seq<Seq<char>>,
    pub at: Option<(int, int)>,
}

impl View for RouteRequest {
    type V = RouteRequestModel;

    open spec fn view(&self) -> RouteRequestModel {
        RouteRequestModel {
            origin: (self.origin@[0] as int, self.origin@[1] as int),
            service: self.service@,
            mobility: optional_text(self.mobility),
            communication: views(self.communication@),
            at: match self.at {
                Some(t) => Some(t@),
                None => None,
            },
        }
    }
}

/// A cost in its parts.
#[derive(Debug, Clone, PartialEq, Eq)]
pub struct Cost {
    pub distance: i64,
    pub barrier_penalty: i64,
    pub total: i64,
}

/// A point that the applicant can be sent to, with the capabilities that it
/// has at the instant of the request.
#[derive(Debug, Clone, PartialEq, Eq)]
pub struct Candidate {
    pub point_id: String,
    pub cost: Cost,
    pub access: Vec<String>,
}

pub struct CandidateModel {
    pub point_id: Seq<char>,
    pub distance: int,
    pub barrier_penalty: int,
    pub total: int,
    pub access: Seq<Seq<char>>,
}

impl View for Candidate {
    type V = CandidateModel;

    open spec fn view(&self) -> CandidateModel {
        CandidateModel {
            point_id: self.point_id@,
            distance: self.cost.distance as int,
            barrier_penalty: self.cost.barrier_penalty as int,
            total: self.cost.total as int,
            access: views(self.access@),
        }
    }
}

impl Order for CandidateModel {
    /// By total cost, then by point id.
    open spec fn at_most(self, other: Self) -> bool {
        self.total < other.total || (self.total == other.total && self.point_id.at_most(
            other.point_id,
        ))
    }

    proof fn at_most_total(a: Self, b: Self) {
        Seq::<char>::at_most_total(a.point_id, b.point_id);
    }

    proof fn at_most_transitive(a: Self, b: Self, c: Self) {
        if a.total == b.total && b.total == c.total {
            Seq::<char>::at_most_transitive(a.point_id, b.point_id, c.point_id);
        }
    }
}

impl Ranked for Candidate {
    fn is_at_most(&self, other: &Self) -> (r: bool) {
        self.cost.total < other.cost.total || (self.cost.total == other.cost.total
            && self.point_id.is_at_most(&other.point_id))
    }
}

/// A point that the applicant cannot be sent to, and why.
#[derive(Debug, Clone, PartialEq, Eq)]
pub struct Exclusion {
    pub point_id: String,
    pub reasons: Vec<String>,
}

pub struct ExclusionModel {
    pub point_id: Seq<char>,
    pub reasons: Seq<Seq<char>>,
}

impl View for Exclusion {
    type V = ExclusionModel;

    open spec fn view(&self) -> ExclusionModel {
        ExclusionModel { point_id: self.point_id@, reasons: views(self.reasons@) }
    }
}

impl Order for ExclusionModel {
    /// By point id.
    open spec fn at_most(self, other: Self) -> bool {
        self.point_id.at_most(other.point_id)
    }

    proof fn at_most_total(a: Self, b: Self) {
        Seq::<char>::at_most_total(a.point_id, b.point_id);
    }

    proof fn at_most_transitive(a: Self, b: Self, c: Self) {
        Seq::<char>::at_most_transitive(a.point_id, b.point_id, c.point_id);
    }
}

impl Ranked for Exclusion {
    fn is_at_most(&self, other: &Self) -> (r: bool) {
        self.point_id.is_at_most(&other.point_id)
    }
}

/// That an applicant is entitled to a home visit, and why.
#[derive(Debug, Clone, PartialEq, Eq)]
pub struct HomeVisit {
    pub reason: String,
}

/// What routing comes to.
#[derive(Debug, Clone, PartialEq, Eq)]
pub struct RouteResult {
    pub catalog_version: String,
    pub candidates: Vec<Candidate>,
    pub exclusions: Vec<Exclusion>,
    pub home_service: Option<HomeVisit>,
}

pub struct RouteResultModel {
    pub catalog_version: Seq<char>,
    pub candidates: Seq<CandidateModel>,
    pub exclusions: Seq<ExclusionModel>,
    pub home_service: Option<Seq<char>>,
}

impl View for RouteResult {
    type V = RouteResultModel;

    open spec fn view(&self) -> RouteResultModel {
        RouteResultModel {
            catalog_version: self.catalog_version@,
            candidates: views(self.candidates@),
            exclusions: views(self.exclusions@),
            home_service: match self.home_service {
                Some(h) => Some(h.reason@),
                None => None,
            },
        }
    }
}

/// All needs of the applicant, that of mobility first.
pub open spec fn needs(r: RouteRequestModel) -> Seq<Seq<char>> {
    match r.mobility {
        Some(m) => seq![m] + r.communication,
        None => r.communication,
    }
}

/// The capabilities that a request calls for.
pub open spec fn required(c: CatalogModel, r: RouteRequestModel) -> Set<Seq<char>> {
    required_access(c.hard_requirements, needs(r))
}

/// The closures of a point.
pub open spec fn closures_of(c: CatalogModel, id: Seq<char>) -> Seq<ClosureModel> {
    if c.closures_by_point.contains_key(id) {
        c.closures_by_point[id]
    } else {
        Seq::empty()
    }
}

/// The degradations of a point.
pub open spec fn degradations_of(c: CatalogModel, id: Seq<char>) -> Seq<DegradationModel> {
    if c.degradations_by_point.contains_key(id) {
        c.degradations_by_point[id]
    } else {
        Seq::empty()
    }
}

/// The reason for the lack of the service, if it is lacking.
pub open spec fn service_reasons(r: RouteRequestModel, p: ServicePointModel) -> Seq<Seq<char>> {
    if p.services.contains(r.service) {
        Seq::empty()
    } else {
        seq!["MISSING_SERVICE"@]
    }
}

pub open spec fn lacks(p: ServicePointModel) -> spec_fn(Seq<char>) -> bool {
    |a: Seq<char>| !p.access.contains(a)
}

pub open spec fn missing_reason() -> spec_fn(Seq<char>) -> Seq<char> {
    |a: Seq<char>| "MISSING_ACCESS:"@ + a
}

/// A reason for every required capability that the point never has.
pub open spec fn access_reasons(needed: Set<Seq<char>>, p: ServicePointModel) -> Seq<Seq<char>> {
    ascending_list(needed).filter(lacks(p)).map_values(missing_reason())
}

pub open spec fn in_force(at: (int, int)) -> spec_fn(ClosureModel) -> bool {
    |c: ClosureModel| within(c.from, c.to, at)
}

pub open spec fn closed_reason() -> spec_fn(ClosureModel) -> Seq<char> {
    |c: ClosureModel| "CLOSED:"@ + c.event_id
}

/// A reason for every closure of the point that is in force.
pub open spec fn closure_reasons(
    c: CatalogModel,
    at: (int, int),
    p: ServicePointModel,
) -> Seq<Seq<char>> {
    closures_of(c, p.id).filter(in_force(at)).map_values(closed_reason())
}

/// The degradations that cost the applicant a capability that the point
/// otherwise has.
pub open spec fn hurts(
    needed: Set<Seq<char>>,
    at: (int, int),
    p: ServicePointModel,
) -> spec_fn(DegradationModel) -> bool {
    |d: DegradationModel|
        within(d.from, d.to, at) && needed.contains(d.capability) && p.access.contains(
            d.capability,
        )
}

pub open spec fn degraded_reason() -> spec_fn(DegradationModel) -> Seq<char> {
    |d: DegradationModel| "DEGRADED:"@ + d.event_id + ":"@ + d.capability
}

/// A reason for every degradation that hurts, unless the point is closed.
pub open spec fn degradation_reasons(
    c: CatalogModel,
    needed: Set<Seq<char>>,
    at: (int, int),
    p: ServicePointModel,
) -> Seq<Seq<char>> {
    if closure_reasons(c, at, p).len() > 0 {
        Seq::empty()
    } else {
        degradations_of(c, p.id).filter(hurts(needed, at, p)).map_values(degraded_reason())
    }
}

/// Everything that speaks against a point: the service, then capabilities that
/// it never has, then those that it has lost, then closures.
pub open spec fn reasons_against(
    c: CatalogModel,
    r: RouteRequestModel,
    at: (int, int),
    p: ServicePointModel,
) -> Seq<Seq<char>> {
    service_reasons(r, p) + access_reasons(required(c, r), p) + degradation_reasons(
        c,
        required(c, r),
        at,
        p,
    ) + closure_reasons(c, at, p)
}

/// The capabilities that a point has at an instant: its own but for those that
/// a degradation in force takes away.
pub open spec fn effective_access(
    c: CatalogModel,
    at: (int, int),
    p: ServicePointModel,
) -> Set<Seq<char>> {
    Set::new(
        |a: Seq<char>|
            p.access.contains(a) && forall|i: int|
                0 <= i < degradations_of(c, p.id).len() ==> {
                    let d = #[trigger] degradations_of(c, p.id)[i];
                    d.capability == a ==> !within(d.from, d.to, at)
                },
    )
}

/// The points that nothing speaks against.
pub open spec fn admitted(
    c: CatalogModel,
    r: RouteRequestModel,
    at: (int, int),
) -> spec_fn(ServicePointModel) -> bool {
    |p: ServicePointModel| reasons_against(c, r, at, p).len() == 0
}

/// The points that something speaks against.
pub open spec fn refused(
    c: CatalogModel,
    r: RouteRequestModel,
    at: (int, int),
) -> spec_fn(ServicePointModel) -> bool {
    |p: ServicePointModel| reasons_against(c, r, at, p).len() > 0
}

/// An admitted point with what it costs to reach it.
pub open spec fn candidate_at(
    c: CatalogModel,
    r: RouteRequestModel,
    at: (int, int),
) -> spec_fn(ServicePointModel) -> CandidateModel {
    |p: ServicePointModel|
        CandidateModel {
            point_id: p.id,
            distance: grid_distance(r.origin, p.grid),
            barrier_penalty: p.barrier_penalty,
            total: grid_distance(r.origin, p.grid) + p.barrier_penalty,
            access: ascending_list(effective_access(c, at, p)),
        }
}

/// A refused point with what speaks against it.
pub open spec fn exclusion_at(
    c: CatalogModel,
    r: RouteRequestModel,
    at: (int, int),
) -> spec_fn(ServicePointModel) -> ExclusionModel {
    |p: ServicePointModel| ExclusionModel { point_id: p.id, reasons: reasons_against(c, r, at, p) }
}

/// The points of a catalog in ascending order of their ids.
pub open spec fn points_in_order(c: CatalogModel) -> Seq<ServicePointModel> {
    let ids = ascending_list(c.points.dom());
    Seq::new(ids.len(), |i: int| c.points[ids[i]])
}

/// The points that the applicant can be sent to, the best first.
pub open spec fn candidates_for(
    c: CatalogModel,
    r: RouteRequestModel,
    at: (int, int),
) -> Seq<CandidateModel> {
    sorted(points_in_order(c).filter(admitted(c, r, at)).map_values(candidate_at(c, r, at)))
}

/// The points that the applicant cannot be sent to, by id.
pub open spec fn exclusions_for(
    c: CatalogModel,
    r: RouteRequestModel,
    at: (int, int),
) -> Seq<ExclusionModel> {
    sorted(points_in_order(c).filter(refused(c, r, at)).map_values(exclusion_at(c, r, at)))
}

/// The reason for a home visit, if the applicant is entitled to one.
pub open spec fn home_visit_for(c: CatalogModel, r: RouteRequestModel) -> Option<Seq<char>> {
    match (c.home_service, r.mobility) {
        (Some(h), Some(m)) => if h.allowed_service == r.service && h.allowed_mobility.contains(m) {
            Some(h.reason)
        } else {
            None
        },
        _ => None,
    }
}

/// What routing a request over a catalog at an instant comes to.
pub open spec fn routed(c: CatalogModel, r: RouteRequestModel, at: (int, int)) -> RouteResultModel {
    RouteResultModel {
        catalog_version: c.version,
        candidates: candidates_for(c, r, at),
        exclusions: exclusions_for(c, r, at),
        home_service: home_visit_for(c, r),
    }
}

/// The costs of all admitted points can be computed in 64 bits.
pub open spec fn costs_fit(c: CatalogModel, r: RouteRequestModel, at: (int, int)) -> bool {
    forall|k: Seq<char>| #[trigger]
        c.points.contains_key(k) && reasons_against(c, r, at, c.points[k]).len() == 0 ==> cost_fits(
            r.origin,
            c.points[k].grid,
            c.points[k].barrier_penalty,
        )
}

/// The costs that a request can come to can be computed in 64 bits: at the
/// instant that it names or, where it names none, at every instant.
pub open spec fn request_costs_fit(c: CatalogModel, r: RouteRequestModel) -> bool {
    match r.at {
        Some(at) => costs_fit(c, r, at),
        None => forall|at: (int, int)| #[trigger] costs_fit(c, r, at),
    }
}

/// The instants at which a request may be answered: the one that it names or,
/// where it names none, any.
pub open spec fn asked_at(r: RouteRequestModel, at: (int, int)) -> bool {
    match r.at {
        Some(t) => at == t,
        None => representable(at.0, at.1),
    }
}

/// Nothing but a closure or a degradation can speak against the point.
pub open spec fn stands(c: CatalogModel, r: RouteRequestModel, p: ServicePointModel) -> bool {
    service_reasons(r, p).len() == 0 && access_reasons(required(c, r), p).len() == 0
}

/// Such a point is admitted once all closures and degradations are over.
proof fn lemma_stands(c: CatalogModel, r: RouteRequestModel, p: ServicePointModel) -> (at: (
    int,
    int,
))
    requires
        stands(c, r, p),
    ensures
        reasons_against(c, r, at, p).len() == 0,
{
    let closures = closures_of(c, p.id);
    let degradations = degradations_of(c, p.id);
    let shut = closures.map_values(|x: ClosureModel| x.to);
    let ends = shut + degradations.map_values(|x: DegradationModel| x.to);
    let at = lemma_later_instant(ends);
    let closed = closure_reasons(c, at, p);
    if closed.len() > 0 {
        assert(closed.contains(closed[0]));
        let i = lemma_selection_source(closures, in_force(at), closed_reason(), closed[0]);
        assert(ends[i] == closures[i].to);
    }
    let lost = degradation_reasons(c, required(c, r), at, p);
    if lost.len() > 0 {
        assert(lost.contains(lost[0]));
        let i = lemma_selection_source(
            degradations,
            hurts(required(c, r), at, p),
            degraded_reason(),
            lost[0],
        );
        assert(ends[shut.len() + i] == degradations[i].to);
    }
    at
}

/// Whether nothing but a closure or a degradation can speak against a point.
fn is_standing(
    catalog: &Catalog,
    request: &RouteRequest,
    needed_list: &Vec<String>,
    point: &Point,
) -> (r: bool)
    requires
        views(needed_list@) == ascending_list(required(catalog@, request@)),
    ensures
        r == stands(catalog@, request@, point@),
{
    if !point.services.contains(request.service.as_str()) {
        return false;
    }
    let ghost all = views(needed_list@);
    let mut i: usize = 0;
    while i < needed_list.len()
        invariant
            i <= needed_list@.len(),
            all == views(needed_list@),
            all == ascending_list(required(catalog@, request@)),
            forall|j: int| 0 <= j < i ==> !lacks(point@)(#[trigger] all[j]),
        decreases needed_list@.len() - i,
    {
        assert(all[i as int] == needed_list@[i as int]@);
        if !point.access.contains(needed_list[i].as_str()) {
            proof {
                lemma_selection_keeps(all, lacks(point@), missing_reason(), i as int);
            }
            return false;
        }
        i = i + 1;
    }
    proof {
        let lacking = access_reasons(required(catalog@, request@), point@);
        if lacking.len() > 0 {
            assert(lacking.contains(lacking[0]));
            let j = lemma_selection_source(all, lacks(point@), missing_reason(), lacking[0]);
        }
    }
    true
}

/// Whether the costs that a request comes to at an instant can be computed in
/// 64 bits.
pub fn has_costs_at(catalog: &Catalog, request: &RouteRequest, at: &Timestamp) -> (r: bool)
    ensures
        r == costs_fit(catalog@, request@, at@),
{
    let needed = find_required(catalog, request);
    let needed_list = needed.list();
    let n: usize = catalog.points.len();
    let ghost keys = catalog.points.keys();
    let mut i: usize = 0;
    while i < n
        invariant
            i <= n == keys.len(),
            keys == catalog.points.keys(),
            needed@ == required(catalog@, request@),
            views(needed_list@) == ascending_list(needed@),
            forall|j: int|
                0 <= j < i && reasons_against(
                    catalog@,
                    request@,
                    at@,
                    catalog@.points[#[trigger] keys[j]],
                ).len() == 0 ==> cost_fits(
                    request@.origin,
                    catalog@.points[keys[j]].grid,
                    catalog@.points[keys[j]].barrier_penalty,
                ),
        decreases n - i,
    {
        let point = catalog.points.value_at(i);
        let place: [i64; 2] = [point.grid.x, point.grid.y];
        assert(catalog@.points.contains_key(keys[i as int]));
        assert(catalog@.points[keys[i as int]] == point@);
        if find_reasons(catalog, request, at, &needed, &needed_list, point).len() == 0
            && !has_cost(&request.origin, &place, point.barrier_penalty) {
            return false;
        }
        i = i + 1;
    }
    proof {
        assert forall|k: Seq<char>| #[trigger]
            catalog@.points.contains_key(k) && reasons_against(
                catalog@,
                request@,
                at@,
                catalog@.points[k],
            ).len() == 0 implies cost_fits(
            request@.origin,
            catalog@.points[k].grid,
            catalog@.points[k].barrier_penalty,
        ) by {
            let j = lemma_key_place(catalog, k);
            assert(keys[j] == k);
        }
    }
    true
}

/// Every id stands somewhere in the list of ids.
proof fn lemma_key_place(catalog: &Catalog, k: Seq<char>) -> (j: int)
    requires
        catalog@.points.contains_key(k),
        catalog.points.keys().to_set() == catalog.points@.dom(),
    ensures
        0 <= j < catalog.points.keys().len(),
        catalog.points.keys()[j] == k,
{
    let keys = catalog.points.keys();
    assert(catalog.points@.dom().contains(k));
    assert(keys.to_set().contains(k));
    assert(keys.contains(k));
    choose|j: int| 0 <= j < keys.len() && keys[j] == k
}

/// Whether the costs that a request can come to can be computed in 64 bits; see
/// `request_costs_fit`.
pub fn has_costs(catalog: &Catalog, request: &RouteRequest) -> (r: bool)
    ensures
        r == request_costs_fit(catalog@, request@),
{
    if let Some(at) = &request.at {
        return has_costs_at(catalog, request, at);
    }
    let needed_list = find_required(catalog, request).list();
    let n: usize = catalog.points.len();
    let ghost keys = catalog.points.keys();
    let mut i: usize = 0;
    while i < n
        invariant
            i <= n == keys.len(),
            request@.at is None,
            keys == catalog.points.keys(),
            views(needed_list@) == ascending_list(required(catalog@, request@)),
            forall|j: int|
                0 <= j < i && stands(catalog@, request@, catalog@.points[#[trigger] keys[j]])
                    ==> cost_fits(
                    request@.origin,
                    catalog@.points[keys[j]].grid,
                    catalog@.points[keys[j]].barrier_penalty,
                ),
        decreases n - i,
    {
        let point = catalog.points.value_at(i);
        let place: [i64; 2] = [point.grid.x, point.grid.y];
        assert(catalog@.points.contains_key(keys[i as int]));
        assert(catalog@.points[keys[i as int]] == point@);
        if is_standing(catalog, request, &needed_list, point) && !has_cost(
            &request.origin,
            &place,
            point.barrier_penalty,
        ) {
            proof {
                let at = lemma_stands(catalog@, request@, point@);
                assert(!costs_fit(catalog@, request@, at));
            }
            return false;
        }
        i = i + 1;
    }
    proof {
        assert forall|at: (int, int)| #[trigger] costs_fit(catalog@, request@, at) by {
            assert forall|k: Seq<char>| #[trigger]
                catalog@.points.contains_key(k) && reasons_against(
                    catalog@,
                    request@,
                    at,
                    catalog@.points[k],
                ).len() == 0 implies cost_fits(
                request@.origin,
                catalog@.points[k].grid,
                catalog@.points[k].barrier_penalty,
            ) by {
                let j = lemma_key_place(catalog, k);
                assert(stands(catalog@, request@, catalog@.points[keys[j]]));
            }
        }
    }
    true
}

fn add_requirement(set: &mut TextSet, catalog: &Catalog, need: &String, Ghost(seen): Ghost<
    Seq<Seq<char>>,
>)
    requires
        old(set)@ == required_access(catalog@.hard_requirements, seen),
    ensures
        final(set)@ == required_access(catalog@.hard_requirements, seen.push(need@)),
{
    let ghost hard = catalog@.hard_requirements;
    let ghost now = seen.push(need@);
    assert(now[seen.len() as int] == need@);
    match catalog.hard_requirements.get(need.as_str()) {
        Some(access) => {
            set.insert(access.clone());
            assert(hard.contains_key(need@) && hard[need@] == access@);
        },
        None => {
            assert(!hard.contains_key(need@));
        },
    }
    proof {
        assert forall|a: Seq<char>| set@.contains(a) == required_access(hard, now).contains(a) by {
            if required_access(hard, seen).contains(a) {
                let k = choose|k: int|
                    0 <= k < seen.len() && hard.contains_key(#[trigger] seen[k]) && hard[seen[k]]
                        == a;
                assert(now[k] == seen[k]);
            }
            if required_access(hard, now).contains(a) {
                let k = choose|k: int|
                    0 <= k < now.len() && hard.contains_key(#[trigger] now[k]) && hard[now[k]] == a;
                if k < seen.len() {
                    assert(seen[k] == now[k]);
                }
            }
        }
        assert(set@ =~= required_access(hard, now));
    }
}

/// The capabilities that a request calls for.
fn find_required(catalog: &Catalog, request: &RouteRequest) -> (r: TextSet)
    ensures
        r@ == required(catalog@, request@),
{
    let ghost hard = catalog@.hard_requirements;
    let ghost mut seen: Seq<Seq<char>> = Seq::empty();
    let mut set = TextSet::new();
    assert(set@ =~= required_access(hard, seen));
    match &request.mobility {
        Some(m) => {
            add_requirement(&mut set, catalog, m, Ghost(seen));
            proof {
                seen = seen.push(m@);
            }
        },
        None => {},
    }
    let ghost base = seen;
    let ghost more = request@.communication;
    let mut i: usize = 0;
    assert(seen =~= base + more.take(0));
    while i < request.communication.len()
        invariant
            i <= request.communication@.len(),
            more == request@.communication,
            seen == base + more.take(i as int),
            set@ == required_access(catalog@.hard_requirements, seen),
        decreases request.communication@.len() - i,
    {
        add_requirement(&mut set, catalog, &request.communication[i], Ghost(seen));
        proof {
            seen = seen.push(more[i as int]);
            assert(seen =~= base + more.take(i + 1));
        }
        i = i + 1;
    }
    assert(seen =~= needs(request@));
    set
}

fn closures_for<'a>(catalog: &'a Catalog, id: &str) -> (r: Option<&'a Vec<Closure>>)
    ensures
        closures_of(catalog@, id@) == (match r {
            Some(v) => views(v@),
            None => Seq::empty(),
        }),
{
    let r = catalog.closures_by_point.get(id);
    assert(catalog@.closures_by_point.contains_key(id@)
        == catalog.closures_by_point@.contains_key(id@));
    r
}

fn degradations_for<'a>(catalog: &'a Catalog, id: &str) -> (r: Option<&'a Vec<Degradation>>)
    ensures
        degradations_of(catalog@, id@) == (match r {
            Some(v) => views(v@),
            None => Seq::empty(),
        }),
{
    let r = catalog.degradations_by_point.get(id);
    assert(catalog@.degradations_by_point.contains_key(id@)
        == catalog.degradations_by_point@.contains_key(id@));
    r
}

fn find_closure_reasons(catalog: &Catalog, at: &Timestamp, point: &Point) -> (reasons: Vec<String>)
    ensures
        views(reasons@) == closure_reasons(catalog@, at@, point@),
{
    let mut reasons: Vec<String> = Vec::new();
    let ghost all = closures_of(catalog@, point@.id);
    proof {
        lemma_selected_ends(all, in_force(at@), closed_reason());
        assert(views(reasons@) =~= selected(all, 0, in_force(at@), closed_reason()));
    }
    match closures_for(catalog, point.id.as_str()) {
        Some(list) => {
            let mut i: usize = 0;
            while i < list.len()
                invariant
                    i <= list@.len(),
                    all == views(list@),
                    views(reasons@) == selected(all, i as int, in_force(at@), closed_reason()),
                decreases list@.len() - i,
            {
                proof {
                    lemma_selected_step(all, i as int, in_force(at@), closed_reason());
                    assert(all[i as int] == list@[i as int]@);
                }
                if list[i].covers(*at) {
                    let reason = "CLOSED:".to_owned().concat(list[i].event_id.as_str());
                    proof {
                        lemma_views_push(reasons@, reason);
                    }
                    reasons.push(reason);
                }
                i = i + 1;
            }
        },
        None => {},
    }
    reasons
}

fn find_degradation_reasons(
    catalog: &Catalog,
    at: &Timestamp,
    needed: &TextSet,
    point: &Point,
) -> (reasons: Vec<String>)
    ensures
        views(reasons@) == degradations_of(catalog@, point@.id).filter(
            hurts(needed@, at@, point@),
        ).map_values(degraded_reason()),
{
    let mut reasons: Vec<String> = Vec::new();
    let ghost all = degradations_of(catalog@, point@.id);
    let ghost keep = hurts(needed@, at@, point@);
    proof {
        lemma_selected_ends(all, keep, degraded_reason());
        assert(views(reasons@) =~= selected(all, 0, keep, degraded_reason()));
    }
    match degradations_for(catalog, point.id.as_str()) {
        Some(list) => {
            let mut i: usize = 0;
            while i < list.len()
                invariant
                    i <= list@.len(),
                    all == views(list@),
                    keep == hurts(needed@, at@, point@),
                    views(reasons@) == selected(all, i as int, keep, degraded_reason()),
                decreases list@.len() - i,
            {
                let d = &list[i];
                proof {
                    lemma_selected_step(all, i as int, keep, degraded_reason());
                    assert(all[i as int] == d@);
                }
                if d.covers(*at) && needed.contains(d.capability.as_str())
                    && point.access.contains(d.capability.as_str()) {
                    let mut reason = "DEGRADED:".to_owned();
                    reason.append(d.event_id.as_str());
                    reason.append(":");
                    reason.append(d.capability.as_str());
                    proof {
                        lemma_views_push(reasons@, reason);
                    }
                    reasons.push(reason);
                }
                i = i + 1;
            }
        },
        None => {},
    }
    reasons
}

/// Everything that speaks against a point.
fn find_reasons(
    catalog: &Catalog,
    request: &RouteRequest,
    at: &Timestamp,
    needed: &TextSet,
    needed_list: &Vec<String>,
    point: &Point,
) -> (reasons: Vec<String>)
    requires
        needed@ == required(catalog@, request@),
        views(needed_list@) == ascending_list(needed@),
    ensures
        views(reasons@) == reasons_against(catalog@, request@, at@, point@),
{
    let mut reasons: Vec<String> = Vec::new();
    if !point.services.contains(request.service.as_str()) {
        reasons.push("MISSING_SERVICE".to_owned());
    }
    let ghost first = service_reasons(request@, point@);
    assert(views(reasons@) =~= first);
    let ghost all = views(needed_list@);
    let mut i: usize = 0;
    proof {
        lemma_selected_ends(all, lacks(point@), missing_reason());
        assert(views(reasons@) =~= first + selected(all, 0, lacks(point@), missing_reason()));
    }
    while i < needed_list.len()
        invariant
            i <= needed_list@.len(),
            all == views(needed_list@),
            views(reasons@) == first + selected(all, i as int, lacks(point@), missing_reason()),
        decreases needed_list@.len() - i,
    {
        let ghost had = reasons@;
        proof {
            lemma_selected_step(all, i as int, lacks(point@), missing_reason());
        }
        if !point.access.contains(needed_list[i].as_str()) {
            let reason = "MISSING_ACCESS:".to_owned().concat(needed_list[i].as_str());
            proof {
                lemma_views_push(had, reason);
            }
            reasons.push(reason);
        }
        i = i + 1;
        assert(views(reasons@) =~= first + selected(
            all,
            i as int,
            lacks(point@),
            missing_reason(),
        ));
    }
    let ghost second = first + access_reasons(needed@, point@);
    assert(views(reasons@) =~= second);
    let mut closed = find_closure_reasons(catalog, at, point);
    let ghost shut = views(closed@);
    if closed.len() == 0 {
        let mut degraded = find_degradation_reasons(catalog, at, needed, point);
        let ghost lost = views(degraded@);
        reasons.append(&mut degraded);
        assert(views(reasons@) =~= second + lost);
    }
    let ghost third = second + degradation_reasons(catalog@, needed@, at@, point@);
    assert(views(reasons@) =~= third);
    reasons.append(&mut closed);
    assert(views(reasons@) =~= third + shut);
    reasons
}

/// The capabilities that a point has at an instant, ascending.
fn find_access(catalog: &Catalog, at: &Timestamp, point: &Point) -> (r: Vec<String>)
    ensures
        views(r@) == ascending_list(effective_access(catalog@, at@, point@)),
{
    let ghost all = degradations_of(catalog@, point@.id);
    match degradations_for(catalog, point.id.as_str()) {
        None => {
            assert(effective_access(catalog@, at@, point@) =~= point@.access);
            point.access.list()
        },
        Some(list) => {
            let mut lost = TextSet::new();
            let mut i: usize = 0;
            while i < list.len()
                invariant
                    i <= list@.len(),
                    all == views(list@),
                    forall|a: Seq<char>| #[trigger]
                        lost@.contains(a) <==> exists|j: int|
                            0 <= j < i && (#[trigger] all[j]).capability == a && within(
                                all[j].from,
                                all[j].to,
                                at@,
                            ),
                decreases list@.len() - i,
            {
                let d = &list[i];
                let ghost had = lost@;
                assert(all[i as int] == d@);
                if d.covers(*at) {
                    lost.insert(d.capability.clone());
                }
                proof {
                    assert forall|a: Seq<char>| #[trigger]
                        lost@.contains(a) <==> exists|j: int|
                            0 <= j < i + 1 && (#[trigger] all[j]).capability == a && within(
                                all[j].from,
                                all[j].to,
                                at@,
                            ) by {
                        if had.contains(a) {
                            let j = choose|j: int|
                                0 <= j < i && (#[trigger] all[j]).capability == a && within(
                                    all[j].from,
                                    all[j].to,
                                    at@,
                                );
                            assert(all[j].capability == a);
                        }
                        if exists|j: int|
                            0 <= j < i + 1 && (#[trigger] all[j]).capability == a && within(
                                all[j].from,
                                all[j].to,
                                at@,
                            ) {
                            let j = choose|j: int|
                                0 <= j < i + 1 && (#[trigger] all[j]).capability == a && within(
                                    all[j].from,
                                    all[j].to,
                                    at@,
                                );
                            if j < i {
                                assert(had.contains(a));
                            }
                        }
                    }
                }
                i = i + 1;
            }
            let own = point.access.list();
            let mut left = TextSet::new();
            let mut k: usize = 0;
            while k < own.len()
                invariant
                    k <= own@.len(),
                    forall|a: Seq<char>| #[trigger]
                        left@.contains(a) <==> views(own@).take(k as int).contains(a)
                            && !lost@.contains(a),
                decreases own@.len() - k,
            {
                let ghost had = left@;
                let ghost seen = views(own@).take(k as int);
                let ghost now = views(own@).take(k + 1);
                if !lost.contains(own[k].as_str()) {
                    left.insert(own[k].clone());
                }
                proof {
                    assert(now =~= seen.push(own@[k as int]@));
                    assert forall|a: Seq<char>| #[trigger]
                        left@.contains(a) <==> now.contains(a) && !lost@.contains(a) by {
                        assert(had.contains(a) <==> seen.contains(a) && !lost@.contains(a));
                        if seen.contains(a) {
                            let j = choose|j: int| 0 <= j < seen.len() && seen[j] == a;
                            assert(now[j] == a);
                        }
                        if now.contains(a) {
                            let j = choose|j: int| 0 <= j < now.len() && now[j] == a;
                            if j < seen.len() {
                                assert(seen[j] == a);
                            }
                        }
                        assert(now[k as int] == own@[k as int]@);
                    }
                }
                k = k + 1;
            }
            proof {
                assert(views(own@).take(k as int) =~= views(own@));
                assert forall|a: Seq<char>| left@.contains(a) == effective_access(
                    catalog@,
                    at@,
                    point@,
                ).contains(a) by {
                    assert(views(own@).to_set().contains(a) == views(own@).contains(a));
                    if left@.contains(a) {
                        assert forall|i: int| 0 <= i < all.len() implies {
                            let d = #[trigger] all[i];
                            d.capability == a ==> !within(d.from, d.to, at@)
                        } by {
                            if all[i].capability == a && within(all[i].from, all[i].to, at@) {
                                assert(lost@.contains(a));
                            }
                        }
                    }
                    if effective_access(catalog@, at@, point@).contains(a) && lost@.contains(a) {
                        let j = choose|j: int|
                            0 <= j < all.len() && (#[trigger] all[j]).capability == a && within(
                                all[j].from,
                                all[j].to,
                                at@,
                            );
                        assert(!within(all[j].from, all[j].to, at@));
                    }
                }
                assert(left@ =~= effective_access(catalog@, at@, point@));
            }
            left.list()
        },
    }
}

/// Routes a request over a catalog at an instant.
pub fn route_at(catalog: &Catalog, request: &RouteRequest, at: &Timestamp) -> (r: RouteResult)
    requires
        costs_fit(catalog@, request@, at@),
    ensures
        r@ == routed(catalog@, request@, at@),
{
    let needed = find_required(catalog, request);
    let needed_list = needed.list();
    let origin = Grid { x: request.origin[0], y: request.origin[1] };
    let mut candidates: Vec<Candidate> = Vec::new();
    let mut exclusions: Vec<Exclusion> = Vec::new();
    let n: usize = catalog.points.len();
    let ghost keys = catalog.points.keys();
    let ghost points = points_in_order(catalog@);
    let ghost open = admitted(catalog@, request@, at@);
    let ghost shut = refused(catalog@, request@, at@);
    let ghost offer = candidate_at(catalog@, request@, at@);
    let ghost refusal = exclusion_at(catalog@, request@, at@);
    proof {
        assert(catalog@.points.dom() =~= catalog.points@.dom());
        assert(keys == ascending_list(catalog@.points.dom()));
        lemma_selected_ends(points, open, offer);
        lemma_selected_ends(points, shut, refusal);
        assert(views(candidates@) =~= selected(points, 0, open, offer));
        assert(views(exclusions@) =~= selected(points, 0, shut, refusal));
    }
    let mut i: usize = 0;
    while i < n
        invariant
            i <= n == keys.len(),
            keys == catalog.points.keys(),
            keys == ascending_list(catalog@.points.dom()),
            points == points_in_order(catalog@),
            open == admitted(catalog@, request@, at@),
            shut == refused(catalog@, request@, at@),
            offer == candidate_at(catalog@, request@, at@),
            refusal == exclusion_at(catalog@, request@, at@),
            costs_fit(catalog@, request@, at@),
            needed@ == required(catalog@, request@),
            views(needed_list@) == ascending_list(needed@),
            origin@ == request@.origin,
            views(candidates@) == selected(points, i as int, open, offer),
            views(exclusions@) == selected(points, i as int, shut, refusal),
        decreases n - i,
    {
        let point = catalog.points.value_at(i);
        proof {
            assert(catalog@.points.contains_key(keys[i as int]));
            assert(catalog@.points[keys[i as int]] == point@);
            assert(points[i as int] == point@);
            lemma_selected_step(points, i as int, open, offer);
            lemma_selected_step(points, i as int, shut, refusal);
        }
        let reasons = find_reasons(catalog, request, at, &needed, &needed_list, point);
        if reasons.len() == 0 {
            let distance: i64 = origin.manhattan(&point.grid);
            let candidate = Candidate {
                point_id: point.id.clone(),
                cost: Cost {
                    distance,
                    barrier_penalty: point.barrier_penalty,
                    total: distance + point.barrier_penalty,
                },
                access: find_access(catalog, at, point),
            };
            proof {
                lemma_views_push(candidates@, candidate);
            }
            candidates.push(candidate);
        } else {
            let entry = Exclusion { point_id: point.id.clone(), reasons };
            proof {
                lemma_views_push(exclusions@, entry);
            }
            exclusions.push(entry);
        }
        i = i + 1;
    }
    let home_service = match (&catalog.home_service, &request.mobility) {
        (Some(h), Some(m)) => if h.allowed_service == request.service
            && h.allowed_mobility.contains(m.as_str()) {
            Some(HomeVisit { reason: h.reason.clone() })
        } else {
            None
        },
        _ => None,
    };
    RouteResult {
        catalog_version: catalog.version.clone(),
        candidates: sort(candidates),
        exclusions: sort(exclusions),
        home_service,
    }
}

/// Routes a request over a catalog at the instant that it names, or else now.
pub fn route(catalog: &Catalog, request: &RouteRequest) -> (r: RouteResult)
    requires
        request_costs_fit(catalog@, request@),
    ensures
        exists|at: (int, int)|
            asked_at(request@, at) && r@ == #[trigger] routed(catalog@, request@, at),
{
    let at = match request.at {
        Some(t) => t,
        None => Timestamp::now(),
    };
    assert(costs_fit(catalog@, request@, at@));
    let r = route_at(catalog, request, &at);
    assert(asked_at(request@, at@) && r@ == routed(catalog@, request@, at@));
    r
}

} // verus!
