//! The catalog as it is listed, and its normal form.
//!
//! Normalizing sorts every collection, so that a catalog does not depend on the
//! order in which points, events and capabilities were listed.

use crate::catalog::{first_repeat, point_ids, ClosureModel, PointModel};
use crate::distance::{distance, distance_fits, grid_distance};
use crate::grouping::{group, grouped, list_views, Placed};
use crate::instant::{no_later, within, Timestamp};
use crate::keyed::{text_views, TextMap, TextSet};
use crate::models::ServicePointModel;
use crate::order::{lemma_views_push, sort, sorted, views, Order, Ranked};
use crate::text::copied;
use vstd::prelude::*;
use vstd::string::*;

verus! {

/// A place on the grid.
#[derive(Debug, Clone, Copy, PartialEq, Eq)]
pub struct Grid {
    pub x: i64,
    pub y: i64,
}

impl View for Grid {
    type V = (int, int);

    open spec fn view(&self) -> (int, int) {
        (self.x as int, self.y as int)
    }
}

impl Grid {
    /// The Manhattan distance to another place.
    pub fn manhattan(&self, other: &Grid) -> (r: i64)
        requires
            distance_fits(self@, other@),
        ensures
            r == grid_distance(self@, other@),
    {
        distance(self.x, self.y, other.x, other.y)
    }
}

/// A catalog as it is listed.
#[derive(Debug, Clone)]
pub struct RawCatalog {
    pub catalog_version: String,
    pub cost_formula: String,
    pub points: Vec<RawPoint>,
    /// The capability that each need calls for.
    pub hard_requirements: TextMap<String>,
    pub tie_break: Vec<String>,
    pub closures: Vec<RawClosure>,
    pub degradations: Vec<RawDegradation>,
    pub home_service: Option<RawHomeService>,
}

pub struct RawCatalogModel {
    pub catalog_version: Seq<char>,
    pub cost_formula: Seq<char>,
    pub points: Seq<PointModel>,
    pub hard_requirements: Map<Seq<char>, Seq<char>>,
    pub tie_break: Seq<Seq<char>>,
    pub closures: Seq<ClosureModel>,
    pub degradations: Seq<DegradationModel>,
    pub home_service: Option<RawHomeServiceModel>,
}

impl View for RawCatalog {
    type V = RawCatalogModel;

    open spec fn view(&self) -> RawCatalogModel {
        RawCatalogModel {
            catalog_version: self.catalog_version@,
            cost_formula: self.cost_formula@,
            points: views(self.points@),
            hard_requirements: text_views(self.hard_requirements@),
            tie_break: views(self.tie_break@),
            closures: views(self.closures@),
            degradations: views(self.degradations@),
            home_service: match self.home_service {
                Some(h) => Some(h@),
                None => None,
            },
        }
    }
}

/// A service point as it is listed.
#[derive(Debug, Clone)]
pub struct RawPoint {
    pub id: String,
    pub grid: [i64; 2],
    pub services: Vec<String>,
    pub access: Vec<String>,
    pub barrier_penalty: i64,
}

impl View for RawPoint {
    type V = PointModel;

    open spec fn view(&self) -> PointModel {
        PointModel {
            id: self.id@,
            grid: (self.grid@[0] as int, self.grid@[1] as int),
            services: views(self.services@),
            access: views(self.access@),
            barrier_penalty: self.barrier_penalty as int,
        }
    }
}

/// A temporary closure as it is listed.
#[derive(Debug, Clone)]
pub struct RawClosure {
    pub event_id: String,
    pub point_id: String,
    pub from: Timestamp,
    pub to: Timestamp,
}

impl View for RawClosure {
    type V = ClosureModel;

    open spec fn view(&self) -> ClosureModel {
        ClosureModel {
            event_id: self.event_id@,
            point_id: self.point_id@,
            from: self.from@,
            to: self.to@,
        }
    }
}

/// A temporary loss of a capability as it is listed.
#[derive(Debug, Clone)]
pub struct RawDegradation {
    pub event_id: String,
    pub point_id: String,
    /// The capability that is lost while the event lasts.
    pub capability: String,
    pub from: Timestamp,
    pub to: Timestamp,
}

impl View for RawDegradation {
    type V = DegradationModel;

    open spec fn view(&self) -> DegradationModel {
        DegradationModel {
            event_id: self.event_id@,
            point_id: self.point_id@,
            capability: self.capability@,
            from: self.from@,
            to: self.to@,
        }
    }
}

/// Home visits as they are listed.
#[derive(Debug, Clone)]
pub struct RawHomeService {
    pub allowed_service: String,
    pub allowed_mobility: Vec<String>,
    pub reason: String,
    pub slots: Vec<RawHomeSlot>,
}

pub struct RawHomeServiceModel {
    pub allowed_service: Seq<char>,
    pub allowed_mobility: Seq<Seq<char>>,
    pub reason: Seq<char>,
    pub slots: Seq<HomeSlotModel>,
}

impl View for RawHomeService {
    type V = RawHomeServiceModel;

    open spec fn view(&self) -> RawHomeServiceModel {
        RawHomeServiceModel {
            allowed_service: self.allowed_service@,
            allowed_mobility: views(self.allowed_mobility@),
            reason: self.reason@,
            slots: views(self.slots@),
        }
    }
}

/// An appointment slot as it is listed.
#[derive(Debug, Clone)]
pub struct RawHomeSlot {
    pub slot_id: String,
    pub cost: i64,
    pub capacity: i64,
}

impl View for RawHomeSlot {
    type V = HomeSlotModel;

    open spec fn view(&self) -> HomeSlotModel {
        HomeSlotModel {
            slot_id: self.slot_id@,
            cost: self.cost as int,
            capacity: self.capacity as int,
        }
    }
}

/// A service point.
#[derive(Debug, Clone, PartialEq, Eq)]
pub struct Point {
    pub id: String,
    pub grid: Grid,
    pub services: TextSet,
    pub access: TextSet,
    pub barrier_penalty: i64,
}

impl View for Point {
    type V = ServicePointModel;

    open spec fn view(&self) -> ServicePointModel {
        ServicePointModel {
            id: self.id@,
            grid: self.grid@,
            services: self.services@,
            access: self.access@,
            barrier_penalty: self.barrier_penalty as int,
        }
    }
}

/// A temporary closure over the half-open interval from `from` to `to`: the
/// point is closed at `from` and open again at `to`.
#[derive(Debug, Clone, PartialEq, Eq)]
pub struct Closure {
    pub event_id: String,
    pub point_id: String,
    pub from: Timestamp,
    pub to: Timestamp,
}

impl View for Closure {
    type V = ClosureModel;

    open spec fn view(&self) -> ClosureModel {
        ClosureModel {
            event_id: self.event_id@,
            point_id: self.point_id@,
            from: self.from@,
            to: self.to@,
        }
    }
}

impl Order for ClosureModel {
    /// By event id.
    open spec fn at_most(self, other: Self) -> bool {
        self.event_id.at_most(other.event_id)
    }

    proof fn at_most_total(a: Self, b: Self) {
        Seq::<char>::at_most_total(a.event_id, b.event_id);
    }

    proof fn at_most_transitive(a: Self, b: Self, c: Self) {
        Seq::<char>::at_most_transitive(a.event_id, b.event_id, c.event_id);
    }
}

impl Ranked for Closure {
    fn is_at_most(&self, other: &Self) -> (r: bool) {
        self.event_id.is_at_most(&other.event_id)
    }
}

impl Placed for Closure {
    open spec fn place(m: ClosureModel) -> Seq<char> {
        m.point_id
    }

    fn place_of(&self) -> (r: &String) {
        &self.point_id
    }

    fn duplicate(&self) -> (r: Self) {
        Closure {
            event_id: self.event_id.clone(),
            point_id: self.point_id.clone(),
            from: self.from,
            to: self.to,
        }
    }
}

impl Closure {
    /// Whether the point is closed at `at`.
    pub fn covers(&self, at: Timestamp) -> (r: bool)
        ensures
            r == within(self@.from, self@.to, at@),
    {
        at.is_within(&self.from, &self.to)
    }
}

/// A temporary loss of a capability over the half-open interval from `from` to
/// `to`, while the point stays open.
#[derive(Debug, Clone, PartialEq, Eq)]
pub struct Degradation {
    pub event_id: String,
    pub point_id: String,
    pub capability: String,
    pub from: Timestamp,
    pub to: Timestamp,
}

pub struct DegradationModel {
    pub event_id: Seq<char>,
    pub point_id: Seq<char>,
    pub capability: Seq<char>,
    pub from: (int, int),
    pub to: (int, int),
}

impl View for Degradation {
    type V = DegradationModel;

    open spec fn view(&self) -> DegradationModel {
        DegradationModel {
            event_id: self.event_id@,
            point_id: self.point_id@,
            capability: self.capability@,
            from: self.from@,
            to: self.to@,
        }
    }
}

impl Order for DegradationModel {
    /// By event id.
    open spec fn at_most(self, other: Self) -> bool {
        self.event_id.at_most(other.event_id)
    }

    proof fn at_most_total(a: Self, b: Self) {
        Seq::<char>::at_most_total(a.event_id, b.event_id);
    }

    proof fn at_most_transitive(a: Self, b: Self, c: Self) {
        Seq::<char>::at_most_transitive(a.event_id, b.event_id, c.event_id);
    }
}

impl Ranked for Degradation {
    fn is_at_most(&self, other: &Self) -> (r: bool) {
        self.event_id.is_at_most(&other.event_id)
    }
}

impl Placed for Degradation {
    open spec fn place(m: DegradationModel) -> Seq<char> {
        m.point_id
    }

    fn place_of(&self) -> (r: &String) {
        &self.point_id
    }

    fn duplicate(&self) -> (r: Self) {
        Degradation {
            event_id: self.event_id.clone(),
            point_id: self.point_id.clone(),
            capability: self.capability.clone(),
            from: self.from,
            to: self.to,
        }
    }
}

impl Degradation {
    /// Whether the capability is lost at `at`.
    pub fn covers(&self, at: Timestamp) -> (r: bool)
        ensures
            r == within(self@.from, self@.to, at@),
    {
        at.is_within(&self.from, &self.to)
    }
}

/// Who is visited at home, for which service, and when there are appointments.
#[derive(Debug, Clone, PartialEq, Eq)]
pub struct HomeService {
    pub allowed_service: String,
    pub allowed_mobility: TextSet,
    pub reason: String,
    /// By cost, then by slot id.
    pub slots: Vec<HomeSlot>,
}

pub struct HomeServiceModel {
    pub allowed_service: Seq<char>,
    pub allowed_mobility: Set<Seq<char>>,
    pub reason: Seq<char>,
    pub slots: Seq<HomeSlotModel>,
}

impl View for HomeService {
    type V = HomeServiceModel;

    open spec fn view(&self) -> HomeServiceModel {
        HomeServiceModel {
            allowed_service: self.allowed_service@,
            allowed_mobility: self.allowed_mobility@,
            reason: self.reason@,
            slots: views(self.slots@),
        }
    }
}

/// An appointment slot.
#[derive(Debug, Clone, PartialEq, Eq)]
pub struct HomeSlot {
    pub slot_id: String,
    pub cost: i64,
    pub capacity: i64,
}

pub struct HomeSlotModel {
    pub slot_id: Seq<char>,
    pub cost: int,
    pub capacity: int,
}

impl View for HomeSlot {
    type V = HomeSlotModel;

    open spec fn view(&self) -> HomeSlotModel {
        HomeSlotModel {
            slot_id: self.slot_id@,
            cost: self.cost as int,
            capacity: self.capacity as int,
        }
    }
}

impl Order for HomeSlotModel {
    /// By cost, then by slot id.
    open spec fn at_most(self, other: Self) -> bool {
        self.cost < other.cost || (self.cost == other.cost && self.slot_id.at_most(other.slot_id))
    }

    proof fn at_most_total(a: Self, b: Self) {
        Seq::<char>::at_most_total(a.slot_id, b.slot_id);
    }

    proof fn at_most_transitive(a: Self, b: Self, c: Self) {
        if a.cost == b.cost && b.cost == c.cost {
            Seq::<char>::at_most_transitive(a.slot_id, b.slot_id, c.slot_id);
        }
    }
}

impl Ranked for HomeSlot {
    fn is_at_most(&self, other: &Self) -> (r: bool) {
        self.cost < other.cost || (self.cost == other.cost && self.slot_id.is_at_most(
            &other.slot_id,
        ))
    }
}

/// A catalog in normal form.
#[derive(Debug, Clone, PartialEq, Eq)]
pub struct Catalog {
    pub version: String,
    pub cost_formula: String,
    pub points: TextMap<Point>,
    pub hard_requirements: TextMap<String>,
    pub tie_break: Vec<String>,
    pub closures_by_point: TextMap<Vec<Closure>>,
    pub degradations_by_point: TextMap<Vec<Degradation>>,
    pub home_service: Option<HomeService>,
}

pub struct CatalogModel {
    pub version: Seq<char>,
    pub cost_formula: Seq<char>,
    pub points: Map<Seq<char>, ServicePointModel>,
    pub hard_requirements: Map<Seq<char>, Seq<char>>,
    pub tie_break: Seq<Seq<char>>,
    pub closures_by_point: Map<Seq<char>, Seq<ClosureModel>>,
    pub degradations_by_point: Map<Seq<char>, Seq<DegradationModel>>,
    pub home_service: Option<HomeServiceModel>,
}

/// The models of the points in a map.
pub open spec fn point_views(m: Map<Seq<char>, Point>) -> Map<Seq<char>, ServicePointModel> {
    m.map_values(|p: Point| p@)
}

impl View for Catalog {
    type V = CatalogModel;

    open spec fn view(&self) -> CatalogModel {
        CatalogModel {
            version: self.version@,
            cost_formula: self.cost_formula@,
            points: point_views(self.points@),
            hard_requirements: text_views(self.hard_requirements@),
            tie_break: views(self.tie_break@),
            closures_by_point: list_views(self.closures_by_point@),
            degradations_by_point: list_views(self.degradations_by_point@),
            home_service: match self.home_service {
                Some(h) => Some(h@),
                None => None,
            },
        }
    }
}

/// A listed point in normal form.
pub open spec fn normal_point(p: PointModel) -> ServicePointModel {
    ServicePointModel {
        id: p.id,
        grid: p.grid,
        services: p.services.to_set(),
        access: p.access.to_set(),
        barrier_penalty: p.barrier_penalty,
    }
}

/// The listed points by id.
pub open spec fn point_table(points: Seq<PointModel>) -> Map<Seq<char>, ServicePointModel>
    decreases points.len(),
{
    if points.len() == 0 {
        Map::empty()
    } else {
        point_table(points.drop_last()).insert(points.last().id, normal_point(points.last()))
    }
}

/// Home visits in normal form.
pub open spec fn normal_home(h: RawHomeServiceModel) -> HomeServiceModel {
    HomeServiceModel {
        allowed_service: h.allowed_service,
        allowed_mobility: h.allowed_mobility.to_set(),
        reason: h.reason,
        slots: sorted(h.slots),
    }
}

/// A listed catalog in normal form.
pub open spec fn normalized(raw: RawCatalogModel) -> CatalogModel {
    CatalogModel {
        version: raw.catalog_version,
        cost_formula: raw.cost_formula,
        points: point_table(raw.points),
        hard_requirements: raw.hard_requirements,
        tie_break: raw.tie_break,
        closures_by_point: grouped::<Closure>(raw.closures),
        degradations_by_point: grouped::<Degradation>(raw.degradations),
        home_service: match raw.home_service {
            Some(h) => Some(normal_home(h)),
            None => None,
        },
    }
}

/// The first closure from `from` on that ends before it begins.
pub open spec fn first_inverted_closure(closures: Seq<ClosureModel>, from: int) -> Option<int>
    decreases closures.len() - from,
{
    if from < 0 || from >= closures.len() {
        None
    } else if !no_later(closures[from].from, closures[from].to) {
        Some(from)
    } else {
        first_inverted_closure(closures, from + 1)
    }
}

/// The first degradation from `from` on that ends before it begins.
pub open spec fn first_inverted_degradation(
    degradations: Seq<DegradationModel>,
    from: int,
) -> Option<int>
    decreases degradations.len() - from,
{
    if from < 0 || from >= degradations.len() {
        None
    } else if !no_later(degradations[from].from, degradations[from].to) {
        Some(from)
    } else {
        first_inverted_degradation(degradations, from + 1)
    }
}

/// Why a listed catalog has no normal form, if it has none.
pub open spec fn raw_fault(raw: RawCatalogModel) -> Option<Seq<char>> {
    let ids = point_ids(raw.points);
    if let Some(i) = first_repeat(ids, 0) {
        Some("duplicate point id: "@ + ids[i])
    } else if let Some(i) = first_inverted_closure(raw.closures, 0) {
        Some("closure "@ + raw.closures[i].event_id + " has to < from"@)
    } else if let Some(i) = first_inverted_degradation(raw.degradations, 0) {
        Some("degradation "@ + raw.degradations[i].event_id + " has to < from"@)
    } else {
        None
    }
}

/// The table of points holds the ids of the points.
pub proof fn lemma_point_table_keys(points: Seq<PointModel>, id: Seq<char>)
    ensures
        point_table(points).contains_key(id) == point_ids(points).contains(id),
    decreases points.len(),
{
    let ids = point_ids(points);
    if points.len() > 0 {
        let front = points.drop_last();
        lemma_point_table_keys(front, id);
        let front_ids = point_ids(front);
        if front_ids.contains(id) {
            let i = choose|i: int| 0 <= i < front_ids.len() && front_ids[i] == id;
            assert(ids[i] == id);
        }
        if ids.contains(id) {
            let i = choose|i: int| 0 <= i < ids.len() && ids[i] == id;
            if i < front_ids.len() {
                assert(front_ids[i] == id);
            }
        }
        assert(ids[points.len() - 1] == points.last().id);
    }
}

/// The points by id, or the error for the first that repeats an id.
fn table_points(points: &Vec<RawPoint>) -> (r: Result<TextMap<Point>, String>)
    ensures
        match r {
            Ok(m) => {
                &&& first_repeat(point_ids(views(points@)), 0) is None
                &&& point_views(m@) == point_table(views(points@))
            },
            Err(m) => {
                &&& first_repeat(point_ids(views(points@)), 0) is Some
                &&& m@ == "duplicate point id: "@ + point_ids(views(points@))[first_repeat(
                    point_ids(views(points@)),
                    0,
                )->Some_0]
            },
        },
{
    let ghost all = views(points@);
    let ghost ids = point_ids(all);
    let mut table: TextMap<Point> = TextMap::new();
    let mut i: usize = 0;
    proof {
        assert(all.take(0) =~= Seq::empty());
        assert(point_views(table@) =~= point_table(all.take(0)));
    }
    while i < points.len()
        invariant
            i <= points@.len(),
            all == views(points@),
            ids == point_ids(all),
            first_repeat(ids, 0) == first_repeat(ids, i as int),
            point_views(table@) == point_table(all.take(i as int)),
        decreases points@.len() - i,
    {
        let p = &points[i];
        let ghost seen = all.take(i as int);
        let ghost now = all.take(i + 1);
        proof {
            assert(all[i as int] == p@);
            lemma_point_table_keys(seen, p.id@);
            assert(point_ids(seen) =~= ids.take(i as int));
            assert(point_views(table@).contains_key(p.id@) == table@.contains_key(p.id@));
            assert(now.drop_last() =~= seen);
        }
        if table.contains_key(p.id.as_str()) {
            return Err("duplicate point id: ".to_owned().concat(p.id.as_str()));
        }
        let point = Point {
            id: p.id.clone(),
            grid: Grid { x: p.grid[0], y: p.grid[1] },
            services: TextSet::of(copied(&p.services)),
            access: TextSet::of(copied(&p.access)),
            barrier_penalty: p.barrier_penalty,
        };
        let ghost had = table@;
        table.insert(p.id.clone(), point);
        proof {
            assert(point@ == normal_point(p@));
            assert(point_views(table@) =~= point_views(had).insert(p.id@, point@));
        }
        i = i + 1;
    }
    assert(all.take(i as int) =~= all);
    Ok(table)
}

/// The listed closures, or the error for the first that ends before it begins.
fn take_closures(closures: &Vec<RawClosure>) -> (r: Result<Vec<Closure>, String>)
    ensures
        match r {
            Ok(v) => {
                &&& first_inverted_closure(views(closures@), 0) is None
                &&& views(v@) == views(closures@)
            },
            Err(m) => {
                &&& first_inverted_closure(views(closures@), 0) is Some
                &&& m@ == "closure "@ + views(closures@)[first_inverted_closure(
                    views(closures@),
                    0,
                )->Some_0].event_id + " has to < from"@
            },
        },
{
    let ghost all = views(closures@);
    let mut r: Vec<Closure> = Vec::new();
    let mut i: usize = 0;
    assert(views(r@) =~= all.take(0));
    while i < closures.len()
        invariant
            i <= closures@.len(),
            all == views(closures@),
            first_inverted_closure(all, 0) == first_inverted_closure(all, i as int),
            views(r@) == all.take(i as int),
        decreases closures@.len() - i,
    {
        let c = &closures[i];
        assert(all[i as int] == c@);
        if !c.from.is_no_later_than(&c.to) {
            let mut m = "closure ".to_owned();
            m.append(c.event_id.as_str());
            m.append(" has to < from");
            return Err(m);
        }
        let entry = Closure {
            event_id: c.event_id.clone(),
            point_id: c.point_id.clone(),
            from: c.from,
            to: c.to,
        };
        proof {
            lemma_views_push(r@, entry);
        }
        r.push(entry);
        i = i + 1;
        assert(views(r@) =~= all.take(i as int));
    }
    assert(views(r@) =~= all);
    Ok(r)
}

/// The listed degradations, or the error for the first that ends before it
/// begins.
fn take_degradations(degradations: &Vec<RawDegradation>) -> (r: Result<Vec<Degradation>, String>)
    ensures
        match r {
            Ok(v) => {
                &&& first_inverted_degradation(views(degradations@), 0) is None
                &&& views(v@) == views(degradations@)
            },
            Err(m) => {
                &&& first_inverted_degradation(views(degradations@), 0) is Some
                &&& m@ == "degradation "@ + views(degradations@)[first_inverted_degradation(
                    views(degradations@),
                    0,
                )->Some_0].event_id + " has to < from"@
            },
        },
{
    let ghost all = views(degradations@);
    let mut r: Vec<Degradation> = Vec::new();
    let mut i: usize = 0;
    assert(views(r@) =~= all.take(0));
    while i < degradations.len()
        invariant
            i <= degradations@.len(),
            all == views(degradations@),
            first_inverted_degradation(all, 0) == first_inverted_degradation(all, i as int),
            views(r@) == all.take(i as int),
        decreases degradations@.len() - i,
    {
        let d = &degradations[i];
        assert(all[i as int] == d@);
        if !d.from.is_no_later_than(&d.to) {
            let mut m = "degradation ".to_owned();
            m.append(d.event_id.as_str());
            m.append(" has to < from");
            return Err(m);
        }
        let entry = Degradation {
            event_id: d.event_id.clone(),
            point_id: d.point_id.clone(),
            capability: d.capability.clone(),
            from: d.from,
            to: d.to,
        };
        proof {
            lemma_views_push(r@, entry);
        }
        r.push(entry);
        i = i + 1;
        assert(views(r@) =~= all.take(i as int));
    }
    assert(views(r@) =~= all);
    Ok(r)
}

/// Home visits in normal form.
fn normalize_home(h: &RawHomeService) -> (r: HomeService)
    ensures
        r@ == normal_home(h@),
{
    let ghost all = views(h.slots@);
    let mut slots: Vec<HomeSlot> = Vec::new();
    let mut i: usize = 0;
    assert(views(slots@) =~= all.take(0));
    while i < h.slots.len()
        invariant
            i <= h.slots@.len(),
            all == views(h.slots@),
            views(slots@) == all.take(i as int),
        decreases h.slots@.len() - i,
    {
        let s = &h.slots[i];
        let slot = HomeSlot { slot_id: s.slot_id.clone(), cost: s.cost, capacity: s.capacity };
        proof {
            assert(all[i as int] == s@);
            lemma_views_push(slots@, slot);
        }
        slots.push(slot);
        i = i + 1;
        assert(views(slots@) =~= all.take(i as int));
    }
    assert(views(slots@) =~= all);
    HomeService {
        allowed_service: h.allowed_service.clone(),
        allowed_mobility: TextSet::of(copied(&h.allowed_mobility)),
        reason: h.reason.clone(),
        slots: sort(slots),
    }
}

impl Catalog {
    /// The normal form of a listed catalog.
    pub fn normalize(raw: &RawCatalog) -> (r: Result<Catalog, String>)
        ensures
            match r {
                Ok(c) => raw_fault(raw@) is None && c@ == normalized(raw@),
                Err(m) => raw_fault(raw@) == Some(m@),
            },
    {
        let points = match table_points(&raw.points) {
            Ok(points) => points,
            Err(m) => {
                return Err(m);
            },
        };
        let closures = match take_closures(&raw.closures) {
            Ok(closures) => closures,
            Err(m) => {
                return Err(m);
            },
        };
        let degradations = match take_degradations(&raw.degradations) {
            Ok(degradations) => degradations,
            Err(m) => {
                return Err(m);
            },
        };
        let home_service = match &raw.home_service {
            Some(h) => Some(normalize_home(h)),
            None => None,
        };
        let hard_requirements = raw.hard_requirements.clone();
        assert(text_views(hard_requirements@) =~= text_views(raw.hard_requirements@)) by {
            assert forall|k: Seq<char>| #[trigger]
                raw.hard_requirements@.contains_key(k) implies hard_requirements@[k]@
                == raw.hard_requirements@[k]@ by {
                assert(cloned::<String>(raw.hard_requirements@[k], hard_requirements@[k]));
            }
        }
        Ok(
            Catalog {
                version: raw.catalog_version.clone(),
                cost_formula: raw.cost_formula.clone(),
                points,
                hard_requirements,
                tie_break: copied(&raw.tie_break),
                closures_by_point: group(&closures),
                degradations_by_point: group(&degradations),
                home_service,
            },
        )
    }

    /// The normal form of a listed catalog.
    pub fn from_raw(raw: RawCatalog) -> (r: Result<Catalog, String>)
        ensures
            match r {
                Ok(c) => raw_fault(raw@) is None && c@ == normalized(raw@),
                Err(m) => raw_fault(raw@) == Some(m@),
            },
    {
        Self::normalize(&raw)
    }

    /// The normal form of a catalog in a JSON text, given what parsing the text
    /// came to.
    pub fn from_json(parsed: Result<RawCatalog, String>) -> (r: Result<Catalog, String>)
        ensures
            match r {
                Ok(c) => {
                    &&& parsed is Ok
                    &&& raw_fault(parsed->Ok_0@) is None
                    &&& c@ == normalized(parsed->Ok_0@)
                },
                Err(m) => match parsed {
                    Ok(raw) => raw_fault(raw@) == Some(m@),
                    Err(e) => m@ == "invalid catalog json: "@ + e@,
                },
            },
    {
        match parsed {
            Ok(raw) => Self::from_raw(raw),
            Err(e) => Err("invalid catalog json: ".to_owned().concat(e.as_str())),
        }
    }
}

} // verus!
