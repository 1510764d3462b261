//! Routing over a catalog in its plain form.
//!
//! Points that lack the service or a required capability, for good or for a
//! time, or that are closed, are excluded before any cost is compared. What is
//! left is ranked by cost and then by id.

use crate::catalog::{
    parse_rfc3339, Catalog, CatalogModel, ClosureModel, Degradation, DegradationModel, Point,
    PointModel,
};
use crate::distance::{grid_distance, magnitude};
use crate::error::{AppError, AppResult};
use crate::instant::{rfc3339_reading, rfc3339_text, within, Timestamp};
use crate::json::{json_text, quote};
use crate::keyed::{ascending_list, TextSet};
use crate::order::{
    gathered, lemma_selected_ends, lemma_selected_step, lemma_views_push, selected, sort, sorted,
    views, Order, Ranked,
};
use crate::text::{blank, copied, holds, is_blank, optional_text, relate, trimmed, Relation};
use vstd::prelude::*;
use vstd::string::*;

verus! {

/// What an applicant asks for.
#[derive(Debug, Clone)]
pub struct RouteRequest {
    pub origin_grid: [i32; 2],
    pub service: String,
    pub mobility: Vec<String>,
    pub communication: Vec<String>,
    pub query_time: Option<String>,
}

pub struct RouteRequestModel {
    pub origin_grid: (int, int),
    pub service: Seq<char>,
    pub mobility: Seq<Seq<char>>,
    pub communication: Seq<Seq<char>>,
    pub query_time: Option<Seq<char>>,
}

impl View for RouteRequest {
    type V = RouteRequestModel;

    open spec fn view(&self) -> RouteRequestModel {
        RouteRequestModel {
            origin_grid: (self.origin_grid@[0] as int, self.origin_grid@[1] as int),
            service: self.service@,
            mobility: views(self.mobility@),
            communication: views(self.communication@),
            query_time: optional_text(self.query_time),
        }
    }
}

impl RouteRequest {
    /// All needs of the applicant, those of mobility first.
    pub fn needs(&self) -> (r: Vec<String>)
        ensures
            views(r@) == self@.mobility + self@.communication,
    {
        let mut all = copied(&self.mobility);
        let mut more = copied(&self.communication);
        all.append(&mut more);
        assert(views(all@) =~= self@.mobility + self@.communication);
        all
    }
}

/// A cost in its parts.
#[derive(Debug, Clone)]
pub struct CostBreakdown {
    pub distance: i32,
    pub barrier_penalty: i32,
}

/// A point that the applicant can be sent to.
#[derive(Debug, Clone)]
pub struct Candidate {
    pub rank: usize,
    pub point_id: String,
    pub total_cost: i32,
    pub cost: CostBreakdown,
    pub grid: [i32; 2],
    pub services: Vec<String>,
    pub access: Vec<String>,
}

pub struct CandidateModel {
    pub rank: int,
    pub point_id: Seq<char>,
    pub total_cost: int,
    pub distance: int,
    pub barrier_penalty: int,
    pub grid: (int, int),
    pub services: Seq<Seq<char>>,
    pub access: Seq<Seq<char>>,
}

impl View for Candidate {
    type V = CandidateModel;

    open spec fn view(&self) -> CandidateModel {
        CandidateModel {
            rank: self.rank as int,
            point_id: self.point_id@,
            total_cost: self.total_cost as int,
            distance: self.cost.distance as int,
            barrier_penalty: self.cost.barrier_penalty as int,
            grid: (self.grid@[0] as int, self.grid@[1] as int),
            services: views(self.services@),
            access: views(self.access@),
        }
    }
}

impl Order for CandidateModel {
    /// By total cost, then by point id.
    open spec fn at_most(self, other: Self) -> bool {
        self.total_cost < other.total_cost || (self.total_cost == other.total_cost
            && self.point_id.at_most(other.point_id))
    }

    proof fn at_most_total(a: Self, b: Self) {
        Seq::<char>::at_most_total(a.point_id, b.point_id);
    }

    proof fn at_most_transitive(a: Self, b: Self, c: Self) {
        if a.total_cost == b.total_cost && b.total_cost == c.total_cost {
            Seq::<char>::at_most_transitive(a.point_id, b.point_id, c.point_id);
        }
    }
}

impl Ranked for Candidate {
    fn is_at_most(&self, other: &Self) -> (r: bool) {
        self.total_cost < other.total_cost || (self.total_cost == other.total_cost
            && self.point_id.is_at_most(&other.point_id))
    }
}

/// Why a point is excluded.
#[derive(Debug, Clone, PartialEq, Eq)]
pub enum ExclusionReason {
    MissingService { service: String },
    MissingAccess { required: String },
    CapabilityDegraded { event_id: String, access: String, from: String, to: String },
    TemporarilyClosed { event_id: String, from: String, to: String },
}

pub enum ReasonModel {
    MissingService { service: Seq<char> },
    MissingAccess { required: Seq<char> },
    CapabilityDegraded {
        event_id: Seq<char>,
        access: Seq<char>,
        from: Seq<char>,
        to: Seq<char>,
    },
    TemporarilyClosed { event_id: Seq<char>, from: Seq<char>, to: Seq<char> },
}

impl View for ExclusionReason {
    type V = ReasonModel;

    open spec fn view(&self) -> ReasonModel {
        match self {
            ExclusionReason::MissingService { service } => ReasonModel::MissingService {
                service: service@,
            },
            ExclusionReason::MissingAccess { required } => ReasonModel::MissingAccess {
                required: required@,
            },
            ExclusionReason::CapabilityDegraded { event_id, access, from, to } =>
                ReasonModel::CapabilityDegraded {
                event_id: event_id@,
                access: access@,
                from: from@,
                to: to@,
            },
            ExclusionReason::TemporarilyClosed { event_id, from, to } =>
                ReasonModel::TemporarilyClosed { event_id: event_id@, from: from@, to: to@ },
        }
    }
}

impl ReasonModel {
    /// The place of the kind of reason in the fixed order of kinds.
    pub open spec fn kind(self) -> int {
        match self {
            ReasonModel::MissingService { .. } => 0,
            ReasonModel::MissingAccess { .. } => 1,
            ReasonModel::CapabilityDegraded { .. } => 2,
            ReasonModel::TemporarilyClosed { .. } => 3,
        }
    }

    /// The reason as a JSON object.
    pub open spec fn json(self) -> Seq<char> {
        match self {
            ReasonModel::MissingService { service } => "{\"code\":\"MISSING_SERVICE\",\"service\":"@
                + json_text(service) + "}"@,
            ReasonModel::MissingAccess { required } => "{\"code\":\"MISSING_ACCESS\",\"required\":"@
                + json_text(required) + "}"@,
            ReasonModel::CapabilityDegraded { event_id, access, from, to } =>
                "{\"code\":\"CAPABILITY_DEGRADED\",\"eventId\":"@ + json_text(event_id)
                + ",\"access\":"@ + json_text(access) + ",\"from\":"@ + json_text(from)
                + ",\"to\":"@ + json_text(to) + "}"@,
            ReasonModel::TemporarilyClosed { event_id, from, to } =>
                "{\"code\":\"TEMPORARILY_CLOSED\",\"eventId\":"@ + json_text(event_id)
                + ",\"from\":"@ + json_text(from) + ",\"to\":"@ + json_text(to) + "}"@,
        }
    }
}

impl Order for ReasonModel {
    /// By kind, then by the JSON text.
    open spec fn at_most(self, other: Self) -> bool {
        self.kind() < other.kind() || (self.kind() == other.kind() && self.json().at_most(
            other.json(),
        ))
    }

    proof fn at_most_total(a: Self, b: Self) {
        Seq::<char>::at_most_total(a.json(), b.json());
    }

    proof fn at_most_transitive(a: Self, b: Self, c: Self) {
        if a.kind() == b.kind() && b.kind() == c.kind() {
            Seq::<char>::at_most_transitive(a.json(), b.json(), c.json());
        }
    }
}

impl ExclusionReason {
    fn kind(&self) -> (r: u8)
        ensures
            r == self@.kind(),
    {
        match self {
            ExclusionReason::MissingService { .. } => 0,
            ExclusionReason::MissingAccess { .. } => 1,
            ExclusionReason::CapabilityDegraded { .. } => 2,
            ExclusionReason::TemporarilyClosed { .. } => 3,
        }
    }

    /// The reason as a JSON object.
    pub fn to_json(&self) -> (r: String)
        ensures
            r@ == self@.json(),
    {
        match self {
            ExclusionReason::MissingService { service } => {
                let mut r = "{\"code\":\"MISSING_SERVICE\",\"service\":".to_owned();
                r.append(quote(service.as_str()).as_str());
                r.append("}");
                r
            },
            ExclusionReason::MissingAccess { required } => {
                let mut r = "{\"code\":\"MISSING_ACCESS\",\"required\":".to_owned();
                r.append(quote(required.as_str()).as_str());
                r.append("}");
                r
            },
            ExclusionReason::CapabilityDegraded { event_id, access, from, to } => {
                let mut r = "{\"code\":\"CAPABILITY_DEGRADED\",\"eventId\":".to_owned();
                r.append(quote(event_id.as_str()).as_str());
                r.append(",\"access\":");
                r.append(quote(access.as_str()).as_str());
                r.append(",\"from\":");
                r.append(quote(from.as_str()).as_str());
                r.append(",\"to\":");
                r.append(quote(to.as_str()).as_str());
                r.append("}");
                r
            },
            ExclusionReason::TemporarilyClosed { event_id, from, to } => {
                let mut r = "{\"code\":\"TEMPORARILY_CLOSED\",\"eventId\":".to_owned();
                r.append(quote(event_id.as_str()).as_str());
                r.append(",\"from\":");
                r.append(quote(from.as_str()).as_str());
                r.append(",\"to\":");
                r.append(quote(to.as_str()).as_str());
                r.append("}");
                r
            },
        }
    }
}

/// Compares two reasons: by kind, then by the JSON text.
pub fn compare_reasons(a: &ExclusionReason, b: &ExclusionReason) -> (r: Relation)
    ensures
        match r {
            Relation::Before => a@.at_most(b@) && !b@.at_most(a@),
            Relation::Same => a@.at_most(b@) && b@.at_most(a@),
            Relation::After => !a@.at_most(b@) && b@.at_most(a@),
        },
{
    proof {
        Seq::<char>::at_most_total(a@.json(), b@.json());
        Seq::<char>::at_most_total(a@.json(), a@.json());
    }
    let x: u8 = a.kind();
    let y: u8 = b.kind();
    if x < y {
        Relation::Before
    } else if y < x {
        Relation::After
    } else {
        relate(a.to_json().as_str(), b.to_json().as_str())
    }
}

impl Ranked for ExclusionReason {
    fn is_at_most(&self, other: &Self) -> (r: bool) {
        match compare_reasons(self, other) {
            Relation::Before => true,
            Relation::Same => true,
            Relation::After => false,
        }
    }
}

/// A point that the applicant cannot be sent to, and why.
#[derive(Debug, Clone)]
pub struct Excluded {
    pub point_id: String,
    pub reasons: Vec<ExclusionReason>,
}

pub struct ExcludedModel {
    pub point_id: Seq<char>,
    pub reasons: Seq<ReasonModel>,
}

impl View for Excluded {
    type V = ExcludedModel;

    open spec fn view(&self) -> ExcludedModel {
        ExcludedModel { point_id: self.point_id@, reasons: views(self.reasons@) }
    }
}

impl Order for ExcludedModel {
    /// By point id.
    open spec fn at_most(self, other: Self) -> bool {
        self.point_id.at_most(other.point_id)
    }

    proof fn at_most_total(a: Self, b: Self) {
        Seq::<char>::at_most_total(a.point_id, b.point_id);
    }

    proof fn at_most_transitive(a: Self, b: Self, c: Self) {
        Seq::<char>::at_most_transitive(a.point_id, b.point_id, c.point_id);
    }
}

impl Ranked for Excluded {
    fn is_at_most(&self, other: &Self) -> (r: bool) {
        self.point_id.is_at_most(&other.point_id)
    }
}

/// What home service there is for an applicant.
#[derive(Debug, Clone)]
pub struct HomeServiceResult {
    pub eligible: bool,
    pub reason: String,
}

pub struct HomeServiceResultModel {
    pub eligible: bool,
    pub reason: Seq<char>,
}

impl View for HomeServiceResult {
    type V = HomeServiceResultModel;

    open spec fn view(&self) -> HomeServiceResultModel {
        HomeServiceResultModel { eligible: self.eligible, reason: self.reason@ }
    }
}

/// What routing comes to.
#[derive(Debug, Clone)]
pub struct RouteResult {
    pub home_service: Option<HomeServiceResult>,
    pub candidates: Vec<Candidate>,
    pub excluded: Vec<Excluded>,
    pub tie_break: Vec<String>,
}

pub struct RouteResultModel {
    pub home_service: Option<HomeServiceResultModel>,
    pub candidates: Seq<CandidateModel>,
    pub excluded: Seq<ExcludedModel>,
    pub tie_break: Seq<Seq<char>>,
}

impl View for RouteResult {
    type V = RouteResultModel;

    open spec fn view(&self) -> RouteResultModel {
        RouteResultModel {
            home_service: match self.home_service {
                Some(h) => Some(h@),
                None => None,
            },
            candidates: views(self.candidates@),
            excluded: views(self.excluded@),
            tie_break: views(self.tie_break@),
        }
    }
}

/// A result as it is answered.
#[derive(Debug, Clone)]
pub struct RouteResponse {
    pub snapshot_id: String,
    pub catalog_version: String,
    pub query_time: String,
    pub origin_grid: [i32; 2],
    pub service: String,
    pub home_service: Option<HomeServiceResult>,
    pub candidates: Vec<Candidate>,
    pub excluded: Vec<Excluded>,
    pub tie_break: Vec<String>,
}

/// The instant that a request is about: the one it names, or now.
pub fn resolve_query_time(req: &RouteRequest) -> (r: AppResult<Timestamp>)
    ensures
        match req@.query_time {
            Some(s) => match r {
                Ok(t) => {
                    &&& rfc3339_reading(trimmed(s)) is Ok
                    &&& rfc3339_reading(trimmed(s))->Ok_0 == t@
                },
                Err(AppError::TimeParse(m)) => {
                    &&& rfc3339_reading(trimmed(s)) is Err
                    &&& rfc3339_reading(trimmed(s))->Err_0 == m@
                },
                Err(_) => false,
            },
            None => r is Ok,
        },
{
    match &req.query_time {
        Some(s) => parse_rfc3339(s.as_str()),
        None => Ok(Timestamp::now()),
    }
}

/// Accepts a request, or says what is wrong with it.
pub fn validate_request(req: &RouteRequest) -> (r: AppResult<()>)
    ensures
        match r {
            Ok(()) => !is_blank(req@.service) && (req@.query_time is Some ==> rfc3339_reading(
                trimmed(req@.query_time->Some_0),
            ) is Ok),
            Err(AppError::BadRequest(m)) => is_blank(req@.service) && m@
                == "service must not be empty"@,
            Err(AppError::TimeParse(m)) => {
                &&& !is_blank(req@.service)
                &&& req@.query_time is Some
                &&& rfc3339_reading(trimmed(req@.query_time->Some_0)) is Err
                &&& rfc3339_reading(trimmed(req@.query_time->Some_0))->Err_0 == m@
            },
            Err(_) => false,
        },
{
    if blank(req.service.as_str()) {
        return Err(AppError::BadRequest("service must not be empty".to_owned()));
    }
    match &req.query_time {
        Some(s) => match parse_rfc3339(s.as_str()) {
            Ok(_) => Ok(()),
            Err(e) => Err(e),
        },
        None => Ok(()),
    }
}

/// The capabilities that the needs call for.
pub open spec fn required_access(
    hard_requirements: Map<Seq<char>, Seq<char>>,
    needs: Seq<Seq<char>>,
) -> Set<Seq<char>> {
    Set::new(
        |a: Seq<char>|
            exists|i: int|
                0 <= i < needs.len() && hard_requirements.contains_key(#[trigger] needs[i])
                    && hard_requirements[needs[i]] == a,
    )
}

/// The capabilities that a request calls for, each once, ascending.
pub open spec fn required_list(c: CatalogModel, r: RouteRequestModel) -> Seq<Seq<char>> {
    ascending_list(required_access(c.hard_requirements, r.mobility + r.communication))
}

/// The capabilities that a request calls for, each once, ascending.
pub fn resolve_required_access(catalog: &Catalog, req: &RouteRequest) -> (r: Vec<String>)
    ensures
        views(r@) == required_list(catalog@, req@),
{
    let needs = req.needs();
    let ghost hard = catalog@.hard_requirements;
    let mut set = TextSet::new();
    let mut i: usize = 0;
    assert(set@ =~= required_access(hard, views(needs@).take(0)));
    while i < needs.len()
        invariant
            i <= needs@.len(),
            hard == catalog@.hard_requirements,
            set@ == required_access(hard, views(needs@).take(i as int)),
        decreases needs@.len() - i,
    {
        let ghost had = set@;
        let ghost seen = views(needs@).take(i as int);
        let ghost now = views(needs@).take(i + 1);
        let need = &needs[i];
        assert(now[i as int] == need@);
        match catalog.hard_requirements.get(need.as_str()) {
            Some(access) => {
                set.insert(access.clone());
                assert(hard.contains_key(need@) && hard[need@] == access@);
            },
            None => {
                assert(!hard.contains_key(need@));
            },
        }
        proof {
            assert forall|a: Seq<char>| set@.contains(a) == required_access(hard, now).contains(
                a,
            ) by {
                if required_access(hard, seen).contains(a) {
                    let k = choose|k: int|
                        0 <= k < seen.len() && hard.contains_key(#[trigger] seen[k])
                            && hard[seen[k]] == a;
                    assert(now[k] == seen[k]);
                }
                if required_access(hard, now).contains(a) {
                    let k = choose|k: int|
                        0 <= k < now.len() && hard.contains_key(#[trigger] now[k])
                            && hard[now[k]] == a;
                    if k < i {
                        assert(seen[k] == now[k]);
                    }
                }
            }
            assert(set@ =~= required_access(hard, now));
        }
        i = i + 1;
    }
    assert(views(needs@).take(i as int) =~= views(needs@));
    set.list()
}

/// The home service that a request is entitled to.
pub open spec fn home_service_for(
    c: CatalogModel,
    r: RouteRequestModel,
) -> Option<HomeServiceResultModel> {
    if r.service == c.home_service.allowed_service && exists|i: int|
        0 <= i < r.mobility.len() && c.home_service.allowed_mobility.contains(
            #[trigger] r.mobility[i],
        ) {
        Some(HomeServiceResultModel { eligible: true, reason: c.home_service.reason })
    } else {
        None
    }
}

/// The home service that a request is entitled to.
pub fn resolve_home_service(catalog: &Catalog, req: &RouteRequest) -> (r: Option<
    HomeServiceResult,
>)
    ensures
        match r {
            Some(h) => home_service_for(catalog@, req@) == Some(h@),
            None => home_service_for(catalog@, req@) is None,
        },
{
    if !(req.service == catalog.home_service.allowed_service) {
        return None;
    }
    let mut i: usize = 0;
    while i < req.mobility.len()
        invariant
            i <= req.mobility@.len(),
            req@.service == catalog@.home_service.allowed_service,
            forall|j: int|
                0 <= j < i ==> !catalog@.home_service.allowed_mobility.contains(
                    #[trigger] req@.mobility[j],
                ),
        decreases req.mobility@.len() - i,
    {
        assert(req@.mobility[i as int] == req.mobility@[i as int]@);
        if holds(&catalog.home_service.allowed_mobility, req.mobility[i].as_str()) {
            return Some(
                HomeServiceResult {
                    eligible: true,
                    reason: catalog.home_service.reason.clone(),
                },
            );
        }
        i = i + 1;
    }
    None
}

/// The reason for the lack of the service, if it is lacking.
pub open spec fn service_reasons(r: RouteRequestModel, p: PointModel) -> Seq<ReasonModel> {
    if p.services.contains(r.service) {
        Seq::empty()
    } else {
        seq![ReasonModel::MissingService { service: r.service }]
    }
}

pub open spec fn lacks(p: PointModel) -> spec_fn(Seq<char>) -> bool {
    |a: Seq<char>| !p.access.contains(a)
}

pub open spec fn missing_access() -> spec_fn(Seq<char>) -> ReasonModel {
    |a: Seq<char>| ReasonModel::MissingAccess { required: a }
}

/// A reason for every required capability that the point lacks.
pub open spec fn access_reasons(required: Seq<Seq<char>>, p: PointModel) -> Seq<ReasonModel> {
    required.filter(lacks(p)).map_values(missing_access())
}

pub open spec fn closing(p: PointModel, at: (int, int)) -> spec_fn(ClosureModel) -> bool {
    |c: ClosureModel| c.closes(p.id, at)
}

pub open spec fn temporarily_closed() -> spec_fn(ClosureModel) -> ReasonModel {
    |c: ClosureModel|
        ReasonModel::TemporarilyClosed {
            event_id: c.event_id,
            from: rfc3339_text(c.from.0, c.from.1),
            to: rfc3339_text(c.to.0, c.to.1),
        }
}

/// A reason for every closure of the point that is in force.
pub open spec fn closure_reasons(
    closures: Seq<ClosureModel>,
    p: PointModel,
    at: (int, int),
) -> Seq<ReasonModel> {
    closures.filter(closing(p, at)).map_values(temporarily_closed())
}

/// The required capabilities that the point has but for the degradation.
pub open spec fn loses(
    d: DegradationModel,
    p: PointModel,
    at: (int, int),
) -> spec_fn(Seq<char>) -> bool {
    |a: Seq<char>| p.access.contains(a) && d.removes(p.id, a, at)
}

pub open spec fn degraded_reason(d: DegradationModel) -> spec_fn(Seq<char>) -> ReasonModel {
    |a: Seq<char>|
        ReasonModel::CapabilityDegraded {
            event_id: d.event_id,
            access: a,
            from: rfc3339_text(d.from.0, d.from.1),
            to: rfc3339_text(d.to.0, d.to.1),
        }
}

/// A reason for every required capability that a degradation takes away.
pub open spec fn reasons_by(
    required: Seq<Seq<char>>,
    p: PointModel,
    at: (int, int),
) -> spec_fn(DegradationModel) -> Seq<ReasonModel> {
    |d: DegradationModel| required.filter(loses(d, p, at)).map_values(degraded_reason(d))
}

/// A reason for every required capability that degradations take away, unless
/// the point is closed.
pub open spec fn degradation_reasons(
    c: CatalogModel,
    required: Seq<Seq<char>>,
    p: PointModel,
    at: (int, int),
) -> Seq<ReasonModel> {
    if closure_reasons(c.closures, p, at).len() > 0 {
        Seq::empty()
    } else {
        gathered(c.degradations, reasons_by(required, p, at))
    }
}

/// The capabilities that a point has at an instant: its own but for those that
/// a degradation in force takes away.
pub open spec fn effective_access(c: CatalogModel, p: PointModel, at: (int, int)) -> Set<
    Seq<char>,
> {
    Set::new(
        |a: Seq<char>|
            p.access.contains(a) && forall|i: int|
                0 <= i < c.degradations.len() ==> !(#[trigger] c.degradations[i]).removes(
                    p.id,
                    a,
                    at,
                ),
    )
}

/// Everything that speaks against a point.
pub open spec fn reasons_against(
    c: CatalogModel,
    r: RouteRequestModel,
    at: (int, int),
    p: PointModel,
) -> Seq<ReasonModel> {
    service_reasons(r, p) + access_reasons(required_list(c, r), p) + degradation_reasons(
        c,
        required_list(c, r),
        p,
        at,
    ) + closure_reasons(c.closures, p, at)
}

/// The points that nothing speaks against.
pub open spec fn admitted(
    c: CatalogModel,
    r: RouteRequestModel,
    at: (int, int),
) -> spec_fn(PointModel) -> bool {
    |p: PointModel| reasons_against(c, r, at, p).len() == 0
}

/// The points that something speaks against.
pub open spec fn refused(
    c: CatalogModel,
    r: RouteRequestModel,
    at: (int, int),
) -> spec_fn(PointModel) -> bool {
    |p: PointModel| reasons_against(c, r, at, p).len() > 0
}

/// The cost of reaching the point can be computed in 32 bits.
pub open spec fn cost_fits(r: RouteRequestModel, p: PointModel) -> bool {
    &&& magnitude(r.origin_grid.0 - p.grid.0) <= i32::MAX
    &&& magnitude(r.origin_grid.1 - p.grid.1) <= i32::MAX
    &&& grid_distance(r.origin_grid, p.grid) <= i32::MAX
    &&& i32::MIN <= grid_distance(r.origin_grid, p.grid) + p.barrier_penalty <= i32::MAX
}

/// The costs of all admitted points can be computed in 32 bits.
pub open spec fn costs_fit(c: CatalogModel, r: RouteRequestModel, at: (int, int)) -> bool {
    forall|i: int|
        0 <= i < c.points.len() && admitted(c, r, at)(#[trigger] c.points[i]) ==> cost_fits(
            r,
            c.points[i],
        )
}

/// An admitted point with what it costs to reach it.
pub open spec fn candidate_at(
    c: CatalogModel,
    r: RouteRequestModel,
    at: (int, int),
) -> spec_fn(PointModel) -> CandidateModel {
    |p: PointModel|
        CandidateModel {
            rank: 0,
            point_id: p.id,
            total_cost: grid_distance(r.origin_grid, p.grid) + p.barrier_penalty,
            distance: grid_distance(r.origin_grid, p.grid),
            barrier_penalty: p.barrier_penalty,
            grid: p.grid,
            services: ascending_list(p.services.to_set()),
            access: ascending_list(effective_access(c, p, at)),
        }
}

/// A refused point with what speaks against it, in order.
pub open spec fn excluded_for(
    c: CatalogModel,
    r: RouteRequestModel,
    at: (int, int),
) -> spec_fn(PointModel) -> ExcludedModel {
    |p: PointModel|
        ExcludedModel { point_id: p.id, reasons: sorted(reasons_against(c, r, at, p)) }
}

/// A list of candidates, each with its place in the list, counted from one.
pub open spec fn ranked(s: Seq<CandidateModel>) -> Seq<CandidateModel> {
    Seq::new(s.len(), |i: int| CandidateModel { rank: i + 1, ..s[i] })
}

/// The points that the applicant can be sent to, the best first.
pub open spec fn candidates_for(
    c: CatalogModel,
    r: RouteRequestModel,
    at: (int, int),
) -> Seq<CandidateModel> {
    ranked(sorted(c.points.filter(admitted(c, r, at)).map_values(candidate_at(c, r, at))))
}

/// The points that the applicant cannot be sent to, by id.
pub open spec fn exclusions_for(
    c: CatalogModel,
    r: RouteRequestModel,
    at: (int, int),
) -> Seq<ExcludedModel> {
    sorted(c.points.filter(refused(c, r, at)).map_values(excluded_for(c, r, at)))
}

/// What routing a request over a catalog at an instant comes to.
pub open spec fn routed(c: CatalogModel, r: RouteRequestModel, at: (int, int)) -> RouteResultModel {
    RouteResultModel {
        home_service: home_service_for(c, r),
        candidates: candidates_for(c, r, at),
        excluded: exclusions_for(c, r, at),
        tie_break: c.tie_break,
    }
}

/// A reason for every closure of a point that is in force.
fn find_closure_reasons(catalog: &Catalog, at: &Timestamp, point: &Point) -> (reasons: Vec<
    ExclusionReason,
>)
    ensures
        views(reasons@) == closure_reasons(catalog@.closures, point@, at@),
{
    let mut reasons: Vec<ExclusionReason> = Vec::new();
    let ghost closures = catalog@.closures;
    let ghost keep = closing(point@, at@);
    let mut k: usize = 0;
    proof {
        lemma_selected_ends(closures, keep, temporarily_closed());
        assert(views(reasons@) =~= selected(closures, 0, keep, temporarily_closed()));
    }
    while k < catalog.closures.len()
        invariant
            k <= catalog.closures@.len(),
            closures == views(catalog.closures@),
            keep == closing(point@, at@),
            views(reasons@) == selected(closures, k as int, keep, temporarily_closed()),
        decreases catalog.closures@.len() - k,
    {
        let closure = &catalog.closures[k];
        proof {
            lemma_selected_step(closures, k as int, keep, temporarily_closed());
            assert(closures[k as int] == closure@);
        }
        if closure.point_id == point.id && at.is_within(&closure.from, &closure.to) {
            let reason = ExclusionReason::TemporarilyClosed {
                event_id: closure.event_id.clone(),
                from: closure.from.to_rfc3339(),
                to: closure.to.to_rfc3339(),
            };
            proof {
                lemma_views_push(reasons@, reason);
            }
            reasons.push(reason);
        }
        k = k + 1;
    }
    reasons
}

/// Adds a reason for every required capability that a degradation takes away.
fn add_degraded(
    reasons: &mut Vec<ExclusionReason>,
    required: &Vec<String>,
    at: &Timestamp,
    point: &Point,
    degradation: &Degradation,
)
    ensures
        views(final(reasons)@) == views(old(reasons)@) + reasons_by(
            views(required@),
            point@,
            at@,
        )(degradation@),
{
    let ghost base = views(reasons@);
    let ghost needed = views(required@);
    let ghost keep = loses(degradation@, point@, at@);
    let ghost reason_of = degraded_reason(degradation@);
    let applies = degradation.point_id == point.id && at.is_within(
        &degradation.from,
        &degradation.to,
    );
    let mut i: usize = 0;
    proof {
        lemma_selected_ends(needed, keep, reason_of);
        assert(views(reasons@) =~= base + selected(needed, 0, keep, reason_of));
    }
    while i < required.len()
        invariant
            i <= required@.len(),
            needed == views(required@),
            keep == loses(degradation@, point@, at@),
            reason_of == degraded_reason(degradation@),
            applies == (degradation@.point_id == point@.id && within(
                degradation@.from,
                degradation@.to,
                at@,
            )),
            views(reasons@) == base + selected(needed, i as int, keep, reason_of),
        decreases required@.len() - i,
    {
        let ghost had = reasons@;
        proof {
            lemma_selected_step(needed, i as int, keep, reason_of);
        }
        if applies && holds(&point.access, required[i].as_str()) && holds(
            &degradation.removed_access,
            required[i].as_str(),
        ) {
            let reason = ExclusionReason::CapabilityDegraded {
                event_id: degradation.event_id.clone(),
                access: required[i].clone(),
                from: degradation.from.to_rfc3339(),
                to: degradation.to.to_rfc3339(),
            };
            proof {
                lemma_views_push(had, reason);
            }
            reasons.push(reason);
        }
        i = i + 1;
        assert(views(reasons@) =~= base + selected(needed, i as int, keep, reason_of));
    }
}

/// A reason for every required capability that degradations take away.
fn find_degradation_reasons(
    catalog: &Catalog,
    required: &Vec<String>,
    at: &Timestamp,
    point: &Point,
) -> (reasons: Vec<ExclusionReason>)
    ensures
        views(reasons@) == gathered(
            catalog@.degradations,
            reasons_by(views(required@), point@, at@),
        ),
{
    let mut reasons: Vec<ExclusionReason> = Vec::new();
    let ghost all = catalog@.degradations;
    let ghost f = reasons_by(views(required@), point@, at@);
    let mut i: usize = 0;
    assert(all.take(0) =~= Seq::empty());
    assert(views(reasons@) =~= gathered(all.take(0), f));
    while i < catalog.degradations.len()
        invariant
            i <= catalog.degradations@.len(),
            all == views(catalog.degradations@),
            f == reasons_by(views(required@), point@, at@),
            views(reasons@) == gathered(all.take(i as int), f),
        decreases catalog.degradations@.len() - i,
    {
        proof {
            assert(all[i as int] == catalog.degradations@[i as int]@);
            assert(all.take(i + 1).drop_last() =~= all.take(i as int));
            assert(all.take(i + 1).last() == all[i as int]);
        }
        add_degraded(&mut reasons, required, at, point, &catalog.degradations[i]);
        i = i + 1;
    }
    assert(all.take(i as int) =~= all);
    reasons
}

/// Everything that speaks against a point.
fn find_reasons(
    catalog: &Catalog,
    req: &RouteRequest,
    query_time: &Timestamp,
    required: &Vec<String>,
    point: &Point,
) -> (reasons: Vec<ExclusionReason>)
    requires
        views(required@) == required_list(catalog@, req@),
    ensures
        views(reasons@) == reasons_against(catalog@, req@, query_time@, point@),
{
    let mut reasons: Vec<ExclusionReason> = Vec::new();
    if !holds(&point.services, req.service.as_str()) {
        reasons.push(ExclusionReason::MissingService { service: req.service.clone() });
    }
    let ghost first = service_reasons(req@, point@);
    assert(views(reasons@) =~= first);
    let ghost needed = views(required@);
    let mut i: usize = 0;
    proof {
        lemma_selected_ends(needed, lacks(point@), missing_access());
        assert(views(reasons@) =~= first + selected(needed, 0, lacks(point@), missing_access()));
    }
    while i < required.len()
        invariant
            i <= required@.len(),
            needed == views(required@),
            views(reasons@) == first + selected(
                needed,
                i as int,
                lacks(point@),
                missing_access(),
            ),
        decreases required@.len() - i,
    {
        let ghost had = reasons@;
        proof {
            lemma_selected_step(needed, i as int, lacks(point@), missing_access());
        }
        if !holds(&point.access, required[i].as_str()) {
            let reason = ExclusionReason::MissingAccess { required: required[i].clone() };
            proof {
                lemma_views_push(had, reason);
            }
            reasons.push(reason);
        }
        i = i + 1;
        assert(views(reasons@) =~= first + selected(
            needed,
            i as int,
            lacks(point@),
            missing_access(),
        ));
    }
    let ghost second = first + access_reasons(needed, point@);
    assert(views(reasons@) =~= second);
    let mut closed = find_closure_reasons(catalog, query_time, point);
    let ghost shut = views(closed@);
    if closed.len() == 0 {
        let mut degraded = find_degradation_reasons(catalog, required, query_time, point);
        let ghost lost = views(degraded@);
        reasons.append(&mut degraded);
        assert(views(reasons@) =~= second + lost);
    }
    let ghost third = second + degradation_reasons(catalog@, needed, point@, query_time@);
    assert(views(reasons@) =~= third);
    reasons.append(&mut closed);
    assert(views(reasons@) =~= third + shut);
    reasons
}

/// Whether a degradation in force takes a capability from a point.
fn is_removed(catalog: &Catalog, at: &Timestamp, point: &Point, access: &str) -> (r: bool)
    ensures
        r == exists|i: int|
            0 <= i < catalog@.degradations.len() && (#[trigger] catalog@.degradations[i]).removes(
                point@.id,
                access@,
                at@,
            ),
{
    let mut i: usize = 0;
    while i < catalog.degradations.len()
        invariant
            i <= catalog.degradations@.len(),
            forall|j: int|
                0 <= j < i ==> !(#[trigger] catalog@.degradations[j]).removes(
                    point@.id,
                    access@,
                    at@,
                ),
        decreases catalog.degradations@.len() - i,
    {
        let d = &catalog.degradations[i];
        assert(catalog@.degradations[i as int] == d@);
        if d.point_id == point.id && at.is_within(&d.from, &d.to) && holds(
            &d.removed_access,
            access,
        ) {
            return true;
        }
        i = i + 1;
    }
    false
}

/// The capabilities that a point has at an instant, ascending.
fn find_access(catalog: &Catalog, at: &Timestamp, point: &Point) -> (r: Vec<String>)
    ensures
        views(r@) == ascending_list(effective_access(catalog@, point@, at@)),
{
    let ghost own = views(point.access@);
    let mut left = TextSet::new();
    let mut k: usize = 0;
    while k < point.access.len()
        invariant
            k <= point.access@.len(),
            own == views(point.access@),
            forall|a: Seq<char>| #[trigger]
                left@.contains(a) <==> own.take(k as int).contains(a) && forall|i: int|
                    0 <= i < catalog@.degradations.len() ==> !(
                    #[trigger] catalog@.degradations[i]).removes(point@.id, a, at@),
        decreases point.access@.len() - k,
    {
        let ghost seen = own.take(k as int);
        let ghost now = own.take(k + 1);
        let item = &point.access[k];
        if !is_removed(catalog, at, point, item.as_str()) {
            left.insert(item.clone());
        }
        proof {
            assert(now =~= seen.push(item@));
            assert forall|a: Seq<char>| now.contains(a) == (seen.contains(a) || a == item@) by {
                if seen.contains(a) {
                    let j = choose|j: int| 0 <= j < seen.len() && seen[j] == a;
                    assert(now[j] == a);
                }
                if now.contains(a) {
                    let j = choose|j: int| 0 <= j < now.len() && now[j] == a;
                    if j < seen.len() {
                        assert(seen[j] == a);
                    }
                }
                assert(now[k as int] == item@);
            }
        }
        k = k + 1;
    }
    proof {
        assert(own.take(k as int) =~= own);
        assert(left@ =~= effective_access(catalog@, point@, at@));
    }
    left.list()
}

/// Whether the cost of reaching a point can be computed in 32 bits.
fn has_cost(req: &RouteRequest, point: &Point) -> (r: bool)
    ensures
        r == cost_fits(req@, point@),
{
    let most: i64 = i32::MAX as i64;
    let least: i64 = i32::MIN as i64;
    let dx: i64 = req.origin_grid[0] as i64 - point.grid[0] as i64;
    let dy: i64 = req.origin_grid[1] as i64 - point.grid[1] as i64;
    let across: i64 = if dx < 0 { -dx } else { dx };
    let along: i64 = if dy < 0 { -dy } else { dy };
    let total: i64 = across + along + point.barrier_penalty as i64;
    across <= most && along <= most && across + along <= most && least <= total && total <= most
}

/// Whether the costs that a request comes to at an instant can be computed in
/// 32 bits.
pub fn has_costs_at(catalog: &Catalog, req: &RouteRequest, query_time: &Timestamp) -> (r: bool)
    ensures
        r == costs_fit(catalog@, req@, query_time@),
{
    let required = resolve_required_access(catalog, req);
    let mut i: usize = 0;
    while i < catalog.points.len()
        invariant
            i <= catalog.points@.len(),
            views(required@) == required_list(catalog@, req@),
            forall|j: int|
                0 <= j < i && admitted(catalog@, req@, query_time@)(
                    #[trigger] catalog@.points[j],
                ) ==> cost_fits(req@, catalog@.points[j]),
        decreases catalog.points@.len() - i,
    {
        let point = &catalog.points[i];
        assert(catalog@.points[i as int] == point@);
        let reasons = find_reasons(catalog, req, query_time, &required, point);
        if reasons.len() == 0 && !has_cost(req, point) {
            assert(admitted(catalog@, req@, query_time@)(catalog@.points[i as int]));
            return false;
        }
        i = i + 1;
    }
    true
}

fn gap(a: i32, b: i32) -> (r: i32)
    requires
        magnitude(a - b) <= i32::MAX,
    ensures
        r == magnitude(a - b),
{
    if a < b {
        b - a
    } else {
        a - b
    }
}

/// An admitted point with what it costs to reach it.
fn make_candidate(
    catalog: &Catalog,
    req: &RouteRequest,
    query_time: &Timestamp,
    point: &Point,
) -> (r: Candidate)
    requires
        cost_fits(req@, point@),
    ensures
        r@ == candidate_at(catalog@, req@, query_time@)(point@),
{
    let distance: i32 = gap(req.origin_grid[0], point.grid[0]) + gap(
        req.origin_grid[1],
        point.grid[1],
    );
    let total_cost: i32 = distance + point.barrier_penalty;
    let services = TextSet::of(copied(&point.services)).list();
    let access = find_access(catalog, query_time, point);
    Candidate {
        rank: 0,
        point_id: point.id.clone(),
        total_cost,
        cost: CostBreakdown { distance, barrier_penalty: point.barrier_penalty },
        grid: point.grid,
        services,
        access,
    }
}

/// Gives every candidate its place in the list, counted from one.
fn assign_ranks(list: Vec<Candidate>) -> (r: Vec<Candidate>)
    ensures
        views(r@) == ranked(views(list@)),
{
    let mut r = list;
    let ghost given = views(list@);
    let mut i: usize = 0;
    while i < r.len()
        invariant
            i <= r@.len() == given.len(),
            forall|j: int|
                0 <= j < i ==> #[trigger] r@[j]@ == (CandidateModel { rank: j + 1, ..given[j] }),
            forall|j: int| i <= j < r@.len() ==> #[trigger] r@[j]@ == given[j],
        decreases r@.len() - i,
    {
        let ghost before = r@;
        r[i].rank = i + 1;
        proof {
            assert(before[i as int]@ == given[i as int]);
            assert(r@[i as int]@ == (CandidateModel { rank: i + 1, ..given[i as int] }));
            assert forall|j: int| 0 <= j < i implies #[trigger] r@[j]@ == (CandidateModel {
                rank: j + 1,
                ..given[j]
            }) by {
                assert(r@[j] == before[j]);
            }
        }
        i = i + 1;
    }
    assert(views(r@) =~= ranked(given));
    r
}

/// Routes a request over a catalog at an instant.
pub fn compute(catalog: &Catalog, req: &RouteRequest, query_time: Timestamp) -> (r: RouteResult)
    requires
        costs_fit(catalog@, req@, query_time@),
    ensures
        r@ == routed(catalog@, req@, query_time@),
{
    let required = resolve_required_access(catalog, req);
    let home_service = resolve_home_service(catalog, req);
    let mut candidates: Vec<Candidate> = Vec::new();
    let mut excluded: Vec<Excluded> = Vec::new();
    let ghost points = catalog@.points;
    let ghost open = admitted(catalog@, req@, query_time@);
    let ghost shut = refused(catalog@, req@, query_time@);
    let ghost offer = candidate_at(catalog@, req@, query_time@);
    let ghost refusal = excluded_for(catalog@, req@, query_time@);
    proof {
        lemma_selected_ends(points, open, offer);
        lemma_selected_ends(points, shut, refusal);
        assert(views(candidates@) =~= selected(points, 0, open, offer));
        assert(views(excluded@) =~= selected(points, 0, shut, refusal));
    }
    let mut i: usize = 0;
    while i < catalog.points.len()
        invariant
            i <= catalog.points@.len(),
            points == views(catalog.points@),
            points == catalog@.points,
            open == admitted(catalog@, req@, query_time@),
            shut == refused(catalog@, req@, query_time@),
            offer == candidate_at(catalog@, req@, query_time@),
            refusal == excluded_for(catalog@, req@, query_time@),
            costs_fit(catalog@, req@, query_time@),
            views(required@) == required_list(catalog@, req@),
            views(candidates@) == selected(points, i as int, open, offer),
            views(excluded@) == selected(points, i as int, shut, refusal),
        decreases catalog.points@.len() - i,
    {
        let point = &catalog.points[i];
        assert(points[i as int] == point@);
        proof {
            lemma_selected_step(points, i as int, open, offer);
            lemma_selected_step(points, i as int, shut, refusal);
        }
        let reasons = find_reasons(catalog, req, &query_time, &required, point);
        if reasons.len() == 0 {
            assert(open(points[i as int]));
            let candidate = make_candidate(catalog, req, &query_time, point);
            proof {
                lemma_views_push(candidates@, candidate);
            }
            candidates.push(candidate);
        } else {
            let entry = Excluded { point_id: point.id.clone(), reasons: sort(reasons) };
            proof {
                lemma_views_push(excluded@, entry);
            }
            excluded.push(entry);
        }
        i = i + 1;
    }
    RouteResult {
        home_service,
        candidates: assign_ranks(sort(candidates)),
        excluded: sort(excluded),
        tie_break: copied(&catalog.tie_break),
    }
}

} // verus!
