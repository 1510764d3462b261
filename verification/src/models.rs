//! Catalogs, requests and answers of the routing service.

use crate::catalog::ClosureModel;
use crate::instant::Timestamp;
use crate::keyed::TextSet;
use crate::order::{views, Order, Ranked};
use vstd::prelude::*;

verus! {

/// One version of the catalog.
#[derive(Debug, Clone)]
pub struct Catalog {
    pub catalog_version: String,
    pub cost_formula: String,
    pub points: Vec<ServicePoint>,
    pub hard_requirements: HardRequirements,
    pub tie_break: Vec<String>,
    pub closures: Vec<Closure>,
    pub home_service: HomeService,
}

pub struct CatalogModel {
    pub catalog_version: Seq<char>,
    pub cost_formula: Seq<char>,
    pub points: Seq<ServicePointModel>,
    pub hard_requirements: HardRequirementsModel,
    pub tie_break: Seq<Seq<char>>,
    pub closures: Seq<ClosureModel>,
    pub home_service: HomeServiceModel,
}

impl View for Catalog {
    type V = CatalogModel;

    open spec fn view(&self) -> CatalogModel {
        CatalogModel {
            catalog_version: self.catalog_version@,
            cost_formula: self.cost_formula@,
            points: views(self.points@),
            hard_requirements: self.hard_requirements@,
            tie_break: views(self.tie_break@),
            closures: views(self.closures@),
            home_service: self.home_service@,
        }
    }
}

/// A service point.
#[derive(Debug, Clone)]
pub struct ServicePoint {
    pub id: String,
    pub grid: [i64; 2],
    pub services: TextSet,
    pub access: TextSet,
    pub barrier_penalty: i64,
}

pub struct ServicePointModel {
    pub id: Seq<char>,
    pub grid: (int, int),
    pub services: Set<Seq<char>>,
    pub access: Set<Seq<char>>,
    pub barrier_penalty: int,
}

impl View for ServicePoint {
    type V = ServicePointModel;

    open spec fn view(&self) -> ServicePointModel {
        ServicePointModel {
            id: self.id@,
            grid: (self.grid@[0] as int, self.grid@[1] as int),
            services: self.services@,
            access: self.access@,
            barrier_penalty: self.barrier_penalty as int,
        }
    }
}

/// The capability that each need calls for.
#[derive(Debug, Clone)]
pub struct HardRequirements {
    pub wheelchair: String,
    pub hearing: String,
    pub speech: String,
}

pub struct HardRequirementsModel {
    pub wheelchair: Seq<char>,
    pub hearing: Seq<char>,
    pub speech: Seq<char>,
}

impl View for HardRequirements {
    type V = HardRequirementsModel;

    open spec fn view(&self) -> HardRequirementsModel {
        HardRequirementsModel {
            wheelchair: self.wheelchair@,
            hearing: self.hearing@,
            speech: self.speech@,
        }
    }
}

/// The capabilities that the needs call for.
pub open spec fn required_for(
    h: HardRequirementsModel,
    mobility: Seq<Mobility>,
    communication: Seq<Communication>,
) -> Set<Seq<char>> {
    Set::new(
        |a: Seq<char>|
            {
                ||| mobility.contains(Mobility::Wheelchair) && a == h.wheelchair
                ||| communication.contains(Communication::Hearing) && a == h.hearing
                ||| communication.contains(Communication::Speech) && a == h.speech
            },
    )
}

impl HardRequirements {
    /// The capabilities that a point must have for the given needs.
    pub fn required_access_for(
        &self,
        mobility: &[Mobility],
        communication: &[Communication],
    ) -> (required: TextSet)
        ensures
            required@ == required_for(self@, mobility@, communication@),
    {
        let mut required = TextSet::new();
        let ghost none = Seq::<Communication>::empty();
        let mut i: usize = 0;
        assert(required@ =~= required_for(self@, mobility@.take(0), none));
        while i < mobility.len()
            invariant
                i <= mobility@.len(),
                none == Seq::<Communication>::empty(),
                required@ == required_for(self@, mobility@.take(i as int), none),
            decreases mobility@.len() - i,
        {
            let ghost seen = mobility@.take(i as int);
            let ghost now = mobility@.take(i + 1);
            match mobility[i] {
                Mobility::Wheelchair => {
                    required.insert(self.wheelchair.clone());
                },
                Mobility::Homebound => {},
                Mobility::Ambulatory => {},
            }
            proof {
                assert(now =~= seen.push(mobility@[i as int]));
                lemma_push_contains(seen, mobility@[i as int], Mobility::Wheelchair);
                assert(required@ =~= required_for(self@, now, none));
            }
            i = i + 1;
        }
        assert(mobility@.take(i as int) =~= mobility@);
        let mut k: usize = 0;
        assert(communication@.take(0) =~= none);
        while k < communication.len()
            invariant
                k <= communication@.len(),
                required@ == required_for(self@, mobility@, communication@.take(k as int)),
            decreases communication@.len() - k,
        {
            let ghost seen = communication@.take(k as int);
            let ghost now = communication@.take(k + 1);
            match communication[k] {
                Communication::Hearing => {
                    required.insert(self.hearing.clone());
                },
                Communication::Speech => {
                    required.insert(self.speech.clone());
                },
                Communication::Unaided => {},
            }
            proof {
                assert(now =~= seen.push(communication@[k as int]));
                lemma_push_contains(seen, communication@[k as int], Communication::Hearing);
                lemma_push_contains(seen, communication@[k as int], Communication::Speech);
                assert(required@ =~= required_for(self@, mobility@, now));
            }
            k = k + 1;
        }
        assert(communication@.take(k as int) =~= communication@);
        required
    }
}

proof fn lemma_push_contains<A>(s: Seq<A>, e: A, x: A)
    ensures
        s.push(e).contains(x) == (s.contains(x) || e == x),
{
    if s.contains(x) {
        let i = choose|i: int| 0 <= i < s.len() && s[i] == x;
        assert(s.push(e)[i] == x);
    }
    assert(s.push(e)[s.len() as int] == e);
}

/// A temporary closure over the half-open interval from `from` to `to`.
#[derive(Debug, Clone)]
pub struct Closure {
    pub event_id: String,
    pub point_id: String,
    pub from: Timestamp,
    pub to: Timestamp,
}

impl View for Closure {
    type V = ClosureModel;

    open spec fn view(&self) -> ClosureModel {
        ClosureModel {
            event_id: self.event_id@,
            point_id: self.point_id@,
            from: self.from@,
            to: self.to@,
        }
    }
}

/// Who is visited at home, for which service, and when there are appointments.
#[derive(Debug, Clone)]
pub struct HomeService {
    pub allowed_service: String,
    pub allowed_mobility: TextSet,
    pub reason: String,
    pub slots: Vec<HomeServiceSlot>,
}

pub struct HomeServiceModel {
    pub allowed_service: Seq<char>,
    pub allowed_mobility: Set<Seq<char>>,
    pub reason: Seq<char>,
    pub slots: Seq<HomeServiceSlotModel>,
}

impl View for HomeService {
    type V = HomeServiceModel;

    open spec fn view(&self) -> HomeServiceModel {
        HomeServiceModel {
            allowed_service: self.allowed_service@,
            allowed_mobility: self.allowed_mobility@,
            reason: self.reason@,
            slots: views(self.slots@),
        }
    }
}

/// An appointment slot for home visits.
#[derive(Debug, Clone)]
pub struct HomeServiceSlot {
    pub slot_id: String,
    pub grid: [i64; 2],
    pub capacity: u32,
    pub barrier_penalty: i64,
}

pub struct HomeServiceSlotModel {
    pub slot_id: Seq<char>,
    pub grid: (int, int),
    pub capacity: u32,
    pub barrier_penalty: int,
}

impl View for HomeServiceSlot {
    type V = HomeServiceSlotModel;

    open spec fn view(&self) -> HomeServiceSlotModel {
        HomeServiceSlotModel {
            slot_id: self.slot_id@,
            grid: (self.grid@[0] as int, self.grid@[1] as int),
            capacity: self.capacity,
            barrier_penalty: self.barrier_penalty as int,
        }
    }
}

/// How an applicant gets about.
#[derive(Debug, Clone, Copy, PartialEq, Eq)]
pub enum Mobility {
    Wheelchair,
    Homebound,
    Ambulatory,
}

/// What an applicant needs for communication.
#[derive(Debug, Clone, Copy, PartialEq, Eq)]
pub enum Communication {
    Hearing,
    Speech,
    Unaided,
}

/// What an applicant asks for.
#[derive(Debug, Clone)]
pub struct RouteRequest {
    pub origin_grid: [i64; 2],
    pub service: String,
    pub mobility: Vec<Mobility>,
    pub communication: Vec<Communication>,
    pub request_time: Option<Timestamp>,
}

pub struct RouteRequestModel {
    pub origin_grid: (int, int),
    pub service: Seq<char>,
    pub mobility: Seq<Mobility>,
    pub communication: Seq<Communication>,
    pub request_time: Option<(int, int)>,
}

impl View for RouteRequest {
    type V = RouteRequestModel;

    open spec fn view(&self) -> RouteRequestModel {
        RouteRequestModel {
            origin_grid: (self.origin_grid@[0] as int, self.origin_grid@[1] as int),
            service: self.service@,
            mobility: self.mobility@,
            communication: self.communication@,
            request_time: match self.request_time {
                Some(t) => Some(t@),
                None => None,
            },
        }
    }
}

/// Several requests that are answered from one version of the catalog.
#[derive(Debug, Clone)]
pub struct BatchRouteRequest {
    pub requests: Vec<RouteRequest>,
}

/// The answer to a request.
#[derive(Debug)]
pub struct RouteResponse {
    pub snapshot_id: String,
    pub catalog_version: String,
    pub candidates: Vec<Candidate>,
    pub exclusions: Vec<Exclusion>,
    pub home_service: Option<HomeServiceOutcome>,
}

pub struct RouteResponseModel {
    pub snapshot_id: Seq<char>,
    pub catalog_version: Seq<char>,
    pub candidates: Seq<CandidateModel>,
    pub exclusions: Seq<ExclusionModel>,
    pub home_service: Option<HomeServiceOutcomeModel>,
}

impl View for RouteResponse {
    type V = RouteResponseModel;

    open spec fn view(&self) -> RouteResponseModel {
        RouteResponseModel {
            snapshot_id: self.snapshot_id@,
            catalog_version: self.catalog_version@,
            candidates: views(self.candidates@),
            exclusions: views(self.exclusions@),
            home_service: match self.home_service {
                Some(h) => Some(h@),
                None => None,
            },
        }
    }
}

impl Clone for RouteResponse {
    fn clone(&self) -> (r: Self)
        ensures
            r@ == self@,
    {
        let r = RouteResponse {
            snapshot_id: self.snapshot_id.clone(),
            catalog_version: self.catalog_version.clone(),
            candidates: self.candidates.clone(),
            exclusions: self.exclusions.clone(),
            home_service: match &self.home_service {
                Some(h) => Some(h.clone()),
                None => None,
            },
        };
        proof {
            assert forall|i: int| 0 <= i < self.candidates@.len() implies #[trigger] views(
                r.candidates@,
            )[i] == views(self.candidates@)[i] by {
                assert(cloned::<Candidate>(self.candidates@[i], r.candidates@[i]));
            }
            assert(views(r.candidates@) =~= views(self.candidates@));
            assert forall|i: int| 0 <= i < self.exclusions@.len() implies #[trigger] views(
                r.exclusions@,
            )[i] == views(self.exclusions@)[i] by {
                assert(cloned::<Exclusion>(self.exclusions@[i], r.exclusions@[i]));
            }
            assert(views(r.exclusions@) =~= views(self.exclusions@));
        }
        r
    }
}

/// A point that the applicant can be sent to.
#[derive(Debug)]
pub struct Candidate {
    pub point_id: String,
    pub total_cost: i64,
    pub distance: i64,
    pub barrier_penalty: i64,
}

pub struct CandidateModel {
    pub point_id: Seq<char>,
    pub total_cost: int,
    pub distance: int,
    pub barrier_penalty: int,
}

impl View for Candidate {
    type V = CandidateModel;

    open spec fn view(&self) -> CandidateModel {
        CandidateModel {
            point_id: self.point_id@,
            total_cost: self.total_cost as int,
            distance: self.distance as int,
            barrier_penalty: self.barrier_penalty as int,
        }
    }
}

impl Clone for Candidate {
    fn clone(&self) -> (r: Self)
        ensures
            r@ == self@,
    {
        Candidate {
            point_id: self.point_id.clone(),
            total_cost: self.total_cost,
            distance: self.distance,
            barrier_penalty: self.barrier_penalty,
        }
    }
}

impl Order for CandidateModel {
    /// By total cost, then by point id.
    open spec fn at_most(self, other: Self) -> bool {
        self.total_cost < other.total_cost || (self.total_cost == other.total_cost
            && self.point_id.at_most(other.point_id))
    }

    proof fn at_most_total(a: Self, b: Self) {
        Seq::<char>::at_most_total(a.point_id, b.point_id);
    }

    proof fn at_most_transitive(a: Self, b: Self, c: Self) {
        if a.total_cost == b.total_cost && b.total_cost == c.total_cost {
            Seq::<char>::at_most_transitive(a.point_id, b.point_id, c.point_id);
        }
    }
}

impl Ranked for Candidate {
    fn is_at_most(&self, other: &Self) -> (r: bool) {
        self.total_cost < other.total_cost || (self.total_cost == other.total_cost
            && self.point_id.is_at_most(&other.point_id))
    }
}

/// A point that the applicant cannot be sent to, and why.
#[derive(Debug)]
pub struct Exclusion {
    pub point_id: String,
    pub reason: String,
    pub detail: String,
}

pub struct ExclusionModel {
    pub point_id: Seq<char>,
    pub reason: Seq<char>,
    pub detail: Seq<char>,
}

impl View for Exclusion {
    type V = ExclusionModel;

    open spec fn view(&self) -> ExclusionModel {
        ExclusionModel { point_id: self.point_id@, reason: self.reason@, detail: self.detail@ }
    }
}

impl Clone for Exclusion {
    fn clone(&self) -> (r: Self)
        ensures
            r@ == self@,
    {
        Exclusion {
            point_id: self.point_id.clone(),
            reason: self.reason.clone(),
            detail: self.detail.clone(),
        }
    }
}

impl Order for ExclusionModel {
    /// By point id.
    open spec fn at_most(self, other: Self) -> bool {
        self.point_id.at_most(other.point_id)
    }

    proof fn at_most_total(a: Self, b: Self) {
        Seq::<char>::at_most_total(a.point_id, b.point_id);
    }

    proof fn at_most_transitive(a: Self, b: Self, c: Self) {
        Seq::<char>::at_most_transitive(a.point_id, b.point_id, c.point_id);
    }
}

impl Ranked for Exclusion {
    fn is_at_most(&self, other: &Self) -> (r: bool) {
        self.point_id.is_at_most(&other.point_id)
    }
}

/// An appointment slot that an applicant may be given.
#[derive(Debug)]
pub struct HomeOption {
    pub slot_id: String,
    pub total_cost: i64,
    pub distance: i64,
    pub barrier_penalty: i64,
    pub grid: [i64; 2],
}

pub struct HomeOptionModel {
    pub slot_id: Seq<char>,
    pub total_cost: int,
    pub distance: int,
    pub barrier_penalty: int,
    pub grid: (int, int),
}

impl View for HomeOption {
    type V = HomeOptionModel;

    open spec fn view(&self) -> HomeOptionModel {
        HomeOptionModel {
            slot_id: self.slot_id@,
            total_cost: self.total_cost as int,
            distance: self.distance as int,
            barrier_penalty: self.barrier_penalty as int,
            grid: (self.grid@[0] as int, self.grid@[1] as int),
        }
    }
}

impl Clone for HomeOption {
    fn clone(&self) -> (r: Self)
        ensures
            r@ == self@,
    {
        HomeOption {
            slot_id: self.slot_id.clone(),
            total_cost: self.total_cost,
            distance: self.distance,
            barrier_penalty: self.barrier_penalty,
            grid: self.grid,
        }
    }
}

impl Order for HomeOptionModel {
    /// By total cost, then by slot id.
    open spec fn at_most(self, other: Self) -> bool {
        self.total_cost < other.total_cost || (self.total_cost == other.total_cost
            && self.slot_id.at_most(other.slot_id))
    }

    proof fn at_most_total(a: Self, b: Self) {
        Seq::<char>::at_most_total(a.slot_id, b.slot_id);
    }

    proof fn at_most_transitive(a: Self, b: Self, c: Self) {
        if a.total_cost == b.total_cost && b.total_cost == c.total_cost {
            Seq::<char>::at_most_transitive(a.slot_id, b.slot_id, c.slot_id);
        }
    }
}

impl Ranked for HomeOption {
    fn is_at_most(&self, other: &Self) -> (r: bool) {
        self.total_cost < other.total_cost || (self.total_cost == other.total_cost
            && self.slot_id.is_at_most(&other.slot_id))
    }
}

/// Something that an evaluation calls attention to.
#[derive(Debug, Clone)]
pub struct Notice {
    pub code: String,
}

impl View for Notice {
    type V = Seq<char>;

    open spec fn view(&self) -> Seq<char> {
        self.code@
    }
}

/// What came of home service for an entitled applicant: a reserved slot, or
/// the reason why there is none.
#[derive(Debug)]
pub struct HomeServiceOutcome {
    pub eligible: bool,
    pub reason: String,
    pub slot: Option<HomeOption>,
    pub no_capacity: Option<NoCapacity>,
}

pub struct HomeServiceOutcomeModel {
    pub eligible: bool,
    pub reason: Seq<char>,
    pub slot: Option<HomeOptionModel>,
    pub no_capacity: Option<NoCapacityModel>,
}

impl View for HomeServiceOutcome {
    type V = HomeServiceOutcomeModel;

    open spec fn view(&self) -> HomeServiceOutcomeModel {
        HomeServiceOutcomeModel {
            eligible: self.eligible,
            reason: self.reason@,
            slot: match self.slot {
                Some(s) => Some(s@),
                None => None,
            },
            no_capacity: match self.no_capacity {
                Some(n) => Some(n@),
                None => None,
            },
        }
    }
}

impl Clone for HomeServiceOutcome {
    fn clone(&self) -> (r: Self)
        ensures
            r@ == self@,
    {
        HomeServiceOutcome {
            eligible: self.eligible,
            reason: self.reason.clone(),
            slot: match &self.slot {
                Some(s) => Some(s.clone()),
                None => None,
            },
            no_capacity: match &self.no_capacity {
                Some(n) => Some(n.clone()),
                None => None,
            },
        }
    }
}

/// Why no slot could be reserved.
#[derive(Debug)]
pub struct NoCapacity {
    pub code: String,
    pub message: String,
}

pub struct NoCapacityModel {
    pub code: Seq<char>,
    pub message: Seq<char>,
}

impl View for NoCapacity {
    type V = NoCapacityModel;

    open spec fn view(&self) -> NoCapacityModel {
        NoCapacityModel { code: self.code@, message: self.message@ }
    }
}

impl Clone for NoCapacity {
    fn clone(&self) -> (r: Self)
        ensures
            r@ == self@,
    {
        NoCapacity {
            code: self.code.clone(),
            message: self.message.clone(),
        }
    }
}

/// The answers to several requests.
#[derive(Debug, Clone)]
pub struct BatchRouteResponse {
    pub results: Vec<RouteResponse>,
}

/// An answer as it was kept.
#[derive(Debug, Clone)]
pub struct SnapshotRecord {
    pub id: String,
    pub catalog_version: String,
    pub payload: String,
    pub created_at: Timestamp,
}

/// A catalog in figures.
#[derive(Debug, Clone)]
pub struct CatalogSummary {
    pub catalog_version: String,
    pub point_count: usize,
    pub closure_count: usize,
    pub imported_at: Timestamp,
}

} // verus!
