//! The catalog in its plain form, and what makes one acceptable.

use crate::error::{AppError, AppResult};
use crate::instant::{no_later, rfc3339_reading, within, Timestamp};
use crate::keyed::{text_views, TextMap};
use crate::order::views;
use crate::text::{blank, is_blank, trim, trimmed};
use vstd::prelude::*;
use vstd::string::*;

verus! {

/// A service point.
#[derive(Debug, Clone)]
pub struct Point {
    pub id: String,
    pub grid: [i32; 2],
    pub services: Vec<String>,
    pub access: Vec<String>,
    pub barrier_penalty: i32,
}

pub struct PointModel {
    pub id: Seq<char>,
    pub grid: (int, int),
    pub services: Seq<Seq<char>>,
    pub access: Seq<Seq<char>>,
    pub barrier_penalty: int,
}

impl View for Point {
    type V = PointModel;

    open spec fn view(&self) -> PointModel {
        PointModel {
            id: self.id@,
            grid: (self.grid@[0] as int, self.grid@[1] as int),
            services: views(self.services@),
            access: views(self.access@),
            barrier_penalty: self.barrier_penalty as int,
        }
    }
}

/// A temporary closure over the half-open interval from `from` to `to`.
#[derive(Debug, Clone)]
pub struct Closure {
    pub event_id: String,
    pub point_id: String,
    pub from: Timestamp,
    pub to: Timestamp,
}

pub struct ClosureModel {
    pub event_id: Seq<char>,
    pub point_id: Seq<char>,
    pub from: (int, int),
    pub to: (int, int),
}

impl View for Closure {
    type V = ClosureModel;

    open spec fn view(&self) -> ClosureModel {
        ClosureModel {
            event_id: self.event_id@,
            point_id: self.point_id@,
            from: self.from@,
            to: self.to@,
        }
    }
}

impl ClosureModel {
    /// The closure closes the point `id` at the instant `at`.
    pub open spec fn closes(self, id: Seq<char>, at: (int, int)) -> bool {
        self.point_id == id && within(self.from, self.to, at)
    }
}

/// A temporary loss of capabilities over the half-open interval from `from` to
/// `to`, while the point stays open.
#[derive(Debug, Clone)]
pub struct Degradation {
    pub event_id: String,
    pub point_id: String,
    pub from: Timestamp,
    pub to: Timestamp,
    pub removed_access: Vec<String>,
}

pub struct DegradationModel {
    pub event_id: Seq<char>,
    pub point_id: Seq<char>,
    pub from: (int, int),
    pub to: (int, int),
    pub removed_access: Seq<Seq<char>>,
}

impl View for Degradation {
    type V = DegradationModel;

    open spec fn view(&self) -> DegradationModel {
        DegradationModel {
            event_id: self.event_id@,
            point_id: self.point_id@,
            from: self.from@,
            to: self.to@,
            removed_access: views(self.removed_access@),
        }
    }
}

impl DegradationModel {
    /// The degradation takes the capability `access` from the point `id` at the
    /// instant `at`.
    pub open spec fn removes(self, id: Seq<char>, access: Seq<char>, at: (int, int)) -> bool {
        self.point_id == id && within(self.from, self.to, at) && self.removed_access.contains(
            access,
        )
    }
}

/// Who is visited at home, and for which service.
#[derive(Debug, Clone)]
pub struct HomeServiceConfig {
    pub allowed_service: String,
    pub allowed_mobility: Vec<String>,
    pub reason: String,
}

pub struct HomeServiceConfigModel {
    pub allowed_service: Seq<char>,
    pub allowed_mobility: Seq<Seq<char>>,
    pub reason: Seq<char>,
}

impl View for HomeServiceConfig {
    type V = HomeServiceConfigModel;

    open spec fn view(&self) -> HomeServiceConfigModel {
        HomeServiceConfigModel {
            allowed_service: self.allowed_service@,
            allowed_mobility: views(self.allowed_mobility@),
            reason: self.reason@,
        }
    }
}

/// One version of the catalog.
#[derive(Debug, Clone)]
pub struct Catalog {
    pub catalog_version: String,
    pub cost_formula: String,
    pub points: Vec<Point>,
    pub hard_requirements: TextMap<String>,
    pub tie_break: Vec<String>,
    pub closures: Vec<Closure>,
    pub degradations: Vec<Degradation>,
    pub home_service: HomeServiceConfig,
}

pub struct CatalogModel {
    pub catalog_version: Seq<char>,
    pub cost_formula: Seq<char>,
    pub points: Seq<PointModel>,
    pub hard_requirements: Map<Seq<char>, Seq<char>>,
    pub tie_break: Seq<Seq<char>>,
    pub closures: Seq<ClosureModel>,
    pub degradations: Seq<DegradationModel>,
    pub home_service: HomeServiceConfigModel,
}

impl View for Catalog {
    type V = CatalogModel;

    open spec fn view(&self) -> CatalogModel {
        CatalogModel {
            catalog_version: self.catalog_version@,
            cost_formula: self.cost_formula@,
            points: views(self.points@),
            hard_requirements: text_views(self.hard_requirements@),
            tie_break: views(self.tie_break@),
            closures: views(self.closures@),
            degradations: views(self.degradations@),
            home_service: self.home_service@,
        }
    }
}

/// The ids of the points of a list, in the same order.
pub open spec fn point_ids(points: Seq<PointModel>) -> Seq<Seq<char>> {
    Seq::new(points.len(), |i: int| points[i].id)
}

/// The first place from `from` on whose text also stands further ahead.
pub open spec fn first_repeat(list: Seq<Seq<char>>, from: int) -> Option<int>
    decreases list.len() - from,
{
    if from < 0 || from >= list.len() {
        None
    } else if list.take(from).contains(list[from]) {
        Some(from)
    } else {
        first_repeat(list, from + 1)
    }
}

/// What is wrong with a closure in a catalog with the points `ids`, if
/// anything is.
pub open spec fn closure_fault(ids: Seq<Seq<char>>, c: ClosureModel) -> Option<Seq<char>> {
    if no_later(c.to, c.from) {
        Some("closure "@ + c.event_id + " has to <= from"@)
    } else if !ids.contains(c.point_id) {
        Some("closure "@ + c.event_id + " references unknown point "@ + c.point_id)
    } else {
        None
    }
}

/// What is wrong with the first faulty closure from `from` on.
pub open spec fn first_closure_fault(
    ids: Seq<Seq<char>>,
    closures: Seq<ClosureModel>,
    from: int,
) -> Option<Seq<char>>
    decreases closures.len() - from,
{
    if from < 0 || from >= closures.len() {
        None
    } else if closure_fault(ids, closures[from]) is Some {
        closure_fault(ids, closures[from])
    } else {
        first_closure_fault(ids, closures, from + 1)
    }
}

/// Why a catalog cannot be accepted, if it cannot.
pub open spec fn catalog_fault(c: CatalogModel) -> Option<Seq<char>> {
    let ids = point_ids(c.points);
    if is_blank(c.catalog_version) {
        Some("catalogVersion must not be empty"@)
    } else if c.points.len() == 0 {
        Some("catalog must contain at least one point"@)
    } else if first_repeat(ids, 0) is Some {
        Some("duplicate point id: "@ + ids[first_repeat(ids, 0)->Some_0])
    } else {
        first_closure_fault(ids, c.closures, 0)
    }
}

/// Whether a point with the id `id` stands among the first `n` points.
fn lists_point(points: &Vec<Point>, n: usize, id: &String) -> (r: bool)
    requires
        n <= points@.len(),
    ensures
        r == point_ids(views(points@)).take(n as int).contains(id@),
{
    let ghost ids = point_ids(views(points@)).take(n as int);
    let mut i: usize = 0;
    while i < n
        invariant
            i <= n <= points@.len(),
            ids == point_ids(views(points@)).take(n as int),
            forall|j: int| 0 <= j < i ==> #[trigger] ids[j] != id@,
        decreases n - i,
    {
        if points[i].id == *id {
            assert(ids[i as int] == id@);
            return true;
        }
        i = i + 1;
    }
    false
}

/// Accepts a catalog, or says what is wrong with it.
pub fn validate_catalog(catalog: &Catalog) -> (r: AppResult<()>)
    ensures
        match r {
            Ok(()) => catalog_fault(catalog@) is None,
            Err(AppError::BadRequest(m)) => catalog_fault(catalog@) == Some(m@),
            Err(_) => false,
        },
{
    if blank(catalog.catalog_version.as_str()) {
        return Err(AppError::BadRequest("catalogVersion must not be empty".to_owned()));
    }
    if catalog.points.len() == 0 {
        return Err(AppError::BadRequest("catalog must contain at least one point".to_owned()));
    }
    let ghost ids = point_ids(catalog@.points);
    let mut i: usize = 0;
    while i < catalog.points.len()
        invariant
            i <= catalog.points@.len(),
            ids == point_ids(catalog@.points),
            first_repeat(ids, 0) == first_repeat(ids, i as int),
            !is_blank(catalog@.catalog_version),
            catalog@.points.len() > 0,
        decreases catalog.points@.len() - i,
    {
        if lists_point(&catalog.points, i, &catalog.points[i].id) {
            let mut m = "duplicate point id: ".to_owned();
            m.append(catalog.points[i].id.as_str());
            return Err(AppError::BadRequest(m));
        }
        i = i + 1;
    }
    let mut k: usize = 0;
    while k < catalog.closures.len()
        invariant
            k <= catalog.closures@.len(),
            ids == point_ids(catalog@.points),
            first_repeat(ids, 0) is None,
            first_closure_fault(ids, catalog@.closures, 0) == first_closure_fault(
                ids,
                catalog@.closures,
                k as int,
            ),
            !is_blank(catalog@.catalog_version),
            catalog@.points.len() > 0,
        decreases catalog.closures@.len() - k,
    {
        let c = &catalog.closures[k];
        assert(catalog@.closures[k as int] == c@);
        if c.to.is_no_later_than(&c.from) {
            let mut m = "closure ".to_owned();
            m.append(c.event_id.as_str());
            m.append(" has to <= from");
            return Err(AppError::BadRequest(m));
        }
        assert(ids.take(ids.len() as int) =~= ids);
        if !lists_point(&catalog.points, catalog.points.len(), &c.point_id) {
            let mut m = "closure ".to_owned();
            m.append(c.event_id.as_str());
            m.append(" references unknown point ");
            m.append(c.point_id.as_str());
            return Err(AppError::BadRequest(m));
        }
        k = k + 1;
    }
    Ok(())
}

/// The catalog that a JSON text holds, given what parsing the text came to.
pub fn parse_catalog(parsed: Result<Catalog, String>) -> (r: AppResult<Catalog>)
    ensures
        match r {
            Ok(c) => parsed is Ok && c == parsed->Ok_0 && catalog_fault(c@) is None,
            Err(AppError::Serde(m)) => parsed is Err && m == parsed->Err_0,
            Err(AppError::BadRequest(m)) => parsed is Ok && catalog_fault(parsed->Ok_0@) == Some(
                m@,
            ),
            Err(_) => false,
        },
{
    match parsed {
        Ok(catalog) => match validate_catalog(&catalog) {
            Ok(()) => Ok(catalog),
            Err(e) => Err(e),
        },
        Err(m) => Err(AppError::Serde(m)),
    }
}

/// The instant that a text names, with or without white space around it.
pub fn parse_rfc3339(s: &str) -> (r: AppResult<Timestamp>)
    ensures
        match r {
            Ok(t) => {
                &&& rfc3339_reading(trimmed(s@)) is Ok
                &&& rfc3339_reading(trimmed(s@))->Ok_0 == t@
            },
            Err(AppError::TimeParse(m)) => {
                &&& rfc3339_reading(trimmed(s@)) is Err
                &&& rfc3339_reading(trimmed(s@))->Err_0 == m@
            },
            Err(_) => false,
        },
{
    match Timestamp::from_rfc3339(trim(s)) {
        Ok(t) => Ok(t),
        Err(m) => Err(AppError::TimeParse(m)),
    }
}

} // verus!
