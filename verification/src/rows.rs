//! The rows in which a catalog is stored, and the catalog that rows hold.

use crate::catalog::ClosureModel;
use crate::grouping::{group, grouped};
use crate::instant::{rfc3339_reading, Timestamp};
use crate::json::{json_list_reading, read_list};
use crate::keyed::{text_views, TextMap, TextSet};
use crate::model::{
    point_views, Catalog, CatalogModel, Closure, Degradation, DegradationModel, Grid, HomeService,
    HomeServiceModel, HomeSlot, HomeSlotModel, Point, RawHomeSlot,
};
use crate::models::ServicePointModel;
use crate::order::{lemma_views_push, sort, sorted, views};
use crate::text::copied;
use vstd::prelude::*;
use vstd::string::*;

verus! {

/// A point, without its services and capabilities.
#[derive(Debug, Clone)]
pub struct PointRow {
    pub id: String,
    pub grid_x: i64,
    pub grid_y: i64,
    pub barrier_penalty: i64,
}

pub struct PointRowModel {
    pub id: Seq<char>,
    pub grid: (int, int),
    pub barrier_penalty: int,
}

impl View for PointRow {
    type V = PointRowModel;

    open spec fn view(&self) -> PointRowModel {
        PointRowModel {
            id: self.id@,
            grid: (self.grid_x as int, self.grid_y as int),
            barrier_penalty: self.barrier_penalty as int,
        }
    }
}

/// A key with a value: a point with a service or a capability, or a need with
/// the capability that it calls for.
#[derive(Debug, Clone)]
pub struct PairRow {
    pub key: String,
    pub value: String,
}

impl View for PairRow {
    type V = (Seq<char>, Seq<char>);

    open spec fn view(&self) -> (Seq<char>, Seq<char>) {
        (self.key@, self.value@)
    }
}

/// A closure, with its instants as RFC 3339 text.
#[derive(Debug, Clone)]
pub struct ClosureRow {
    pub event_id: String,
    pub point_id: String,
    pub from_ts: String,
    pub to_ts: String,
}

pub struct ClosureRowModel {
    pub event_id: Seq<char>,
    pub point_id: Seq<char>,
    pub from_ts: Seq<char>,
    pub to_ts: Seq<char>,
}

impl View for ClosureRow {
    type V = ClosureRowModel;

    open spec fn view(&self) -> ClosureRowModel {
        ClosureRowModel {
            event_id: self.event_id@,
            point_id: self.point_id@,
            from_ts: self.from_ts@,
            to_ts: self.to_ts@,
        }
    }
}

/// A degradation, with its instants as RFC 3339 text.
#[derive(Debug, Clone)]
pub struct DegradationRow {
    pub event_id: String,
    pub point_id: String,
    pub capability: String,
    pub from_ts: String,
    pub to_ts: String,
}

pub struct DegradationRowModel {
    pub event_id: Seq<char>,
    pub point_id: Seq<char>,
    pub capability: Seq<char>,
    pub from_ts: Seq<char>,
    pub to_ts: Seq<char>,
}

impl View for DegradationRow {
    type V = DegradationRowModel;

    open spec fn view(&self) -> DegradationRowModel {
        DegradationRowModel {
            event_id: self.event_id@,
            point_id: self.point_id@,
            capability: self.capability@,
            from_ts: self.from_ts@,
            to_ts: self.to_ts@,
        }
    }
}

/// Home visits, without who is entitled to them and without slots.
#[derive(Debug, Clone)]
pub struct HomeRow {
    pub allowed_service: String,
    pub reason: String,
}

pub struct HomeRowModel {
    pub allowed_service: Seq<char>,
    pub reason: Seq<char>,
}

impl View for HomeRow {
    type V = HomeRowModel;

    open spec fn view(&self) -> HomeRowModel {
        HomeRowModel { allowed_service: self.allowed_service@, reason: self.reason@ }
    }
}

/// All rows of one version of the catalog.
#[derive(Debug, Clone)]
pub struct CatalogRows {
    pub cost_formula: String,
    /// The tie-break rules as a JSON list.
    pub tie_break: String,
    pub points: Vec<PointRow>,
    pub services: Vec<PairRow>,
    pub access: Vec<PairRow>,
    pub hard_requirements: Vec<PairRow>,
    pub closures: Vec<ClosureRow>,
    pub degradations: Vec<DegradationRow>,
    pub home: Option<HomeRow>,
    pub home_mobility: Vec<String>,
    pub home_slots: Vec<RawHomeSlot>,
}

pub struct RowsModel {
    pub cost_formula: Seq<char>,
    pub tie_break: Seq<char>,
    pub points: Seq<PointRowModel>,
    pub services: Seq<(Seq<char>, Seq<char>)>,
    pub access: Seq<(Seq<char>, Seq<char>)>,
    pub hard_requirements: Seq<(Seq<char>, Seq<char>)>,
    pub closures: Seq<ClosureRowModel>,
    pub degradations: Seq<DegradationRowModel>,
    pub home: Option<HomeRowModel>,
    pub home_mobility: Seq<Seq<char>>,
    pub home_slots: Seq<HomeSlotModel>,
}

impl View for CatalogRows {
    type V = RowsModel;

    open spec fn view(&self) -> RowsModel {
        RowsModel {
            cost_formula: self.cost_formula@,
            tie_break: self.tie_break@,
            points: views(self.points@),
            services: views(self.services@),
            access: views(self.access@),
            hard_requirements: views(self.hard_requirements@),
            closures: views(self.closures@),
            degradations: views(self.degradations@),
            home: match self.home {
                Some(h) => Some(h@),
                None => None,
            },
            home_mobility: views(self.home_mobility@),
            home_slots: views(self.home_slots@),
        }
    }
}

// What rows hold.

/// The rows of points by id; of rows with the same id the last counts.
pub open spec fn row_table(rows: Seq<PointRowModel>) -> Map<Seq<char>, PointRowModel>
    decreases rows.len(),
{
    if rows.len() == 0 {
        Map::empty()
    } else {
        row_table(rows.drop_last()).insert(rows.last().id, rows.last())
    }
}

/// The values that stand with a key.
pub open spec fn values_of(pairs: Seq<(Seq<char>, Seq<char>)>, key: Seq<char>) -> Set<Seq<char>> {
    Set::new(|v: Seq<char>| pairs.contains((key, v)))
}

/// The points that rows hold.
pub open spec fn built_points(rows: RowsModel) -> Map<Seq<char>, ServicePointModel> {
    let table = row_table(rows.points);
    Map::new(
        |id: Seq<char>| table.contains_key(id),
        |id: Seq<char>|
            ServicePointModel {
                id: table[id].id,
                grid: table[id].grid,
                services: values_of(rows.services, id),
                access: values_of(rows.access, id),
                barrier_penalty: table[id].barrier_penalty,
            },
    )
}

/// Pairs as a map; of pairs with the same key the last counts.
pub open spec fn pair_table(pairs: Seq<(Seq<char>, Seq<char>)>) -> Map<Seq<char>, Seq<char>>
    decreases pairs.len(),
{
    if pairs.len() == 0 {
        Map::empty()
    } else {
        pair_table(pairs.drop_last()).insert(pairs.last().0, pairs.last().1)
    }
}

/// The closure in a row, or the message of the error in its first faulty
/// instant.
pub open spec fn closure_in(row: ClosureRowModel) -> Result<ClosureModel, Seq<char>> {
    match rfc3339_reading(row.from_ts) {
        Err(m) => Err(m),
        Ok(from) => match rfc3339_reading(row.to_ts) {
            Err(m) => Err(m),
            Ok(to) => Ok(
                ClosureModel { event_id: row.event_id, point_id: row.point_id, from, to },
            ),
        },
    }
}

/// The closures in rows, or the message of the first error.
pub open spec fn closures_in(rows: Seq<ClosureRowModel>) -> Result<Seq<ClosureModel>, Seq<char>>
    decreases rows.len(),
{
    if rows.len() == 0 {
        Ok(Seq::empty())
    } else {
        match closures_in(rows.drop_last()) {
            Err(m) => Err(m),
            Ok(front) => match closure_in(rows.last()) {
                Err(m) => Err(m),
                Ok(c) => Ok(front.push(c)),
            },
        }
    }
}

/// The degradation in a row, or the message of the error in its first faulty
/// instant.
pub open spec fn degradation_in(row: DegradationRowModel) -> Result<DegradationModel, Seq<char>> {
    match rfc3339_reading(row.from_ts) {
        Err(m) => Err(m),
        Ok(from) => match rfc3339_reading(row.to_ts) {
            Err(m) => Err(m),
            Ok(to) => Ok(
                DegradationModel {
                    event_id: row.event_id,
                    point_id: row.point_id,
                    capability: row.capability,
                    from,
                    to,
                },
            ),
        },
    }
}

/// The degradations in rows, or the message of the first error.
pub open spec fn degradations_in(rows: Seq<DegradationRowModel>) -> Result<
    Seq<DegradationModel>,
    Seq<char>,
>
    decreases rows.len(),
{
    if rows.len() == 0 {
        Ok(Seq::empty())
    } else {
        match degradations_in(rows.drop_last()) {
            Err(m) => Err(m),
            Ok(front) => match degradation_in(rows.last()) {
                Err(m) => Err(m),
                Ok(d) => Ok(front.push(d)),
            },
        }
    }
}

/// Home visits in rows.
pub open spec fn built_home(rows: RowsModel) -> Option<HomeServiceModel> {
    match rows.home {
        Some(h) => Some(
            HomeServiceModel {
                allowed_service: h.allowed_service,
                allowed_mobility: rows.home_mobility.to_set(),
                reason: h.reason,
                slots: sorted(rows.home_slots),
            },
        ),
        None => None,
    }
}

/// The tie-break rules in rows: none, where they are not a JSON list.
pub open spec fn built_tie_break(rows: RowsModel) -> Seq<Seq<char>> {
    match json_list_reading(rows.tie_break) {
        Some(list) => list,
        None => Seq::empty(),
    }
}

/// The catalog that rows hold, or the message of the first error in the
/// instants of closures, then of degradations.
pub open spec fn built(version: Seq<char>, rows: RowsModel) -> Result<CatalogModel, Seq<char>> {
    match closures_in(rows.closures) {
        Err(m) => Err(m),
        Ok(closures) => match degradations_in(rows.degradations) {
            Err(m) => Err(m),
            Ok(degradations) => Ok(
                CatalogModel {
                    version,
                    cost_formula: rows.cost_formula,
                    points: built_points(rows),
                    hard_requirements: pair_table(rows.hard_requirements),
                    tie_break: built_tie_break(rows),
                    closures_by_point: grouped::<Closure>(closures),
                    degradations_by_point: grouped::<Degradation>(degradations),
                    home_service: built_home(rows),
                },
            ),
        },
    }
}

/// The rows of points, each without services and capabilities.
fn read_points(rows: &Vec<PointRow>) -> (r: TextMap<Point>)
    ensures
        r@.dom() == row_table(views(rows@)).dom(),
        forall|id: Seq<char>| #[trigger]
            r@.contains_key(id) ==> {
                let row = row_table(views(rows@))[id];
                r@[id]@ == (ServicePointModel {
                    id: row.id,
                    grid: row.grid,
                    services: Set::empty(),
                    access: Set::empty(),
                    barrier_penalty: row.barrier_penalty,
                })
            },
{
    let ghost all = views(rows@);
    let mut r: TextMap<Point> = TextMap::new();
    let mut i: usize = 0;
    assert(all.take(0) =~= Seq::empty());
    assert(r@.dom() =~= row_table(all.take(0)).dom());
    while i < rows.len()
        invariant
            i <= rows@.len(),
            all == views(rows@),
            r@.dom() == row_table(all.take(i as int)).dom(),
            forall|id: Seq<char>| #[trigger]
                r@.contains_key(id) ==> {
                    let row = row_table(all.take(i as int))[id];
                    r@[id]@ == (ServicePointModel {
                        id: row.id,
                        grid: row.grid,
                        services: Set::empty(),
                        access: Set::empty(),
                        barrier_penalty: row.barrier_penalty,
                    })
                },
        decreases rows@.len() - i,
    {
        let row = &rows[i];
        proof {
            assert(all[i as int] == row@);
            assert(all.take(i + 1).drop_last() =~= all.take(i as int));
        }
        let point = Point {
            id: row.id.clone(),
            grid: Grid { x: row.grid_x, y: row.grid_y },
            services: TextSet::new(),
            access: TextSet::new(),
            barrier_penalty: row.barrier_penalty,
        };
        let ghost had = r@;
        r.insert(row.id.clone(), point);
        assert(r@.dom() =~= row_table(all.take(i + 1)).dom());
        i = i + 1;
    }
    assert(all.take(i as int) =~= all);
    r
}

proof fn lemma_values_push(
    pairs: Seq<(Seq<char>, Seq<char>)>,
    pair: (Seq<char>, Seq<char>),
    key: Seq<char>,
)
    ensures
        values_of(pairs.push(pair), key) == if pair.0 == key {
            values_of(pairs, key).insert(pair.1)
        } else {
            values_of(pairs, key)
        },
{
    let next = pairs.push(pair);
    assert forall|v: Seq<char>| next.contains((key, v)) == (pairs.contains((key, v)) || pair == (
        key,
        v,
    )) by {
        if pairs.contains((key, v)) {
            let i = choose|i: int| 0 <= i < pairs.len() && pairs[i] == (key, v);
            assert(next[i] == (key, v));
        }
        if next.contains((key, v)) {
            let i = choose|i: int| 0 <= i < next.len() && next[i] == (key, v);
            if i < pairs.len() {
                assert(pairs[i] == (key, v));
            }
        }
        assert(next[pairs.len() as int] == pair);
    }
    if pair.0 == key {
        assert(values_of(next, key) =~= values_of(pairs, key).insert(pair.1));
    } else {
        assert(values_of(next, key) =~= values_of(pairs, key));
    }
}

/// A point with some services and capabilities.
spec fn furnished(
    p: ServicePointModel,
    services: Set<Seq<char>>,
    access: Set<Seq<char>>,
) -> ServicePointModel {
    ServicePointModel { services, access, ..p }
}

/// Gives every point its services.
fn add_services(points: TextMap<Point>, rows: &Vec<PairRow>) -> (r: TextMap<Point>)
    requires
        forall|id: Seq<char>| #[trigger]
            points@.contains_key(id) ==> points@[id]@.services == Set::<Seq<char>>::empty(),
    ensures
        r@.dom() == points@.dom(),
        forall|id: Seq<char>| #[trigger]
            r@.contains_key(id) ==> r@[id]@ == furnished(
                points@[id]@,
                values_of(views(rows@), id),
                points@[id]@.access,
            ),
{
    let ghost all = views(rows@);
    let ghost given = points@;
    let mut r = points;
    let mut i: usize = 0;
    assert forall|id: Seq<char>| #[trigger] r@.contains_key(id) implies r@[id]@ == furnished(
        given[id]@,
        values_of(all.take(0), id),
        given[id]@.access,
    ) by {
        assert(values_of(all.take(0), id) =~= Set::empty());
    }
    while i < rows.len()
        invariant
            i <= rows@.len(),
            all == views(rows@),
            given == points@,
            r@.dom() == given.dom(),
            forall|id: Seq<char>| #[trigger]
                r@.contains_key(id) ==> r@[id]@ == furnished(
                    given[id]@,
                    values_of(all.take(i as int), id),
                    given[id]@.access,
                ),
        decreases rows@.len() - i,
    {
        let row = &rows[i];
        let ghost seen = all.take(i as int);
        let ghost before = r@;
        match r.take(row.key.as_str()) {
            Some(p) => {
                let mut point = p;
                point.services.insert(row.value.clone());
                r.insert(row.key.clone(), point);
            },
            None => {},
        }
        proof {
            assert(all.take(i + 1) =~= seen.push(row@));
            assert(r@.dom() =~= given.dom());
            assert forall|id: Seq<char>| #[trigger] r@.contains_key(id) implies r@[id]@
                == furnished(given[id]@, values_of(all.take(i + 1), id), given[id]@.access) by {
                assert(before.contains_key(id));
                lemma_values_push(seen, row@, id);
            }
        }
        i = i + 1;
    }
    assert(all.take(i as int) =~= all);
    r
}

/// Gives every point its capabilities.
fn add_access(points: TextMap<Point>, rows: &Vec<PairRow>) -> (r: TextMap<Point>)
    requires
        forall|id: Seq<char>| #[trigger]
            points@.contains_key(id) ==> points@[id]@.access == Set::<Seq<char>>::empty(),
    ensures
        r@.dom() == points@.dom(),
        forall|id: Seq<char>| #[trigger]
            r@.contains_key(id) ==> r@[id]@ == furnished(
                points@[id]@,
                points@[id]@.services,
                values_of(views(rows@), id),
            ),
{
    let ghost all = views(rows@);
    let ghost given = points@;
    let mut r = points;
    let mut i: usize = 0;
    assert forall|id: Seq<char>| #[trigger] r@.contains_key(id) implies r@[id]@ == furnished(
        given[id]@,
        given[id]@.services,
        values_of(all.take(0), id),
    ) by {
        assert(values_of(all.take(0), id) =~= Set::empty());
    }
    while i < rows.len()
        invariant
            i <= rows@.len(),
            all == views(rows@),
            given == points@,
            r@.dom() == given.dom(),
            forall|id: Seq<char>| #[trigger]
                r@.contains_key(id) ==> r@[id]@ == furnished(
                    given[id]@,
                    given[id]@.services,
                    values_of(all.take(i as int), id),
                ),
        decreases rows@.len() - i,
    {
        let row = &rows[i];
        let ghost seen = all.take(i as int);
        let ghost before = r@;
        match r.take(row.key.as_str()) {
            Some(p) => {
                let mut point = p;
                point.access.insert(row.value.clone());
                r.insert(row.key.clone(), point);
            },
            None => {},
        }
        proof {
            assert(all.take(i + 1) =~= seen.push(row@));
            assert(r@.dom() =~= given.dom());
            assert forall|id: Seq<char>| #[trigger] r@.contains_key(id) implies r@[id]@
                == furnished(given[id]@, given[id]@.services, values_of(all.take(i + 1), id)) by {
                assert(before.contains_key(id));
                lemma_values_push(seen, row@, id);
            }
        }
        i = i + 1;
    }
    assert(all.take(i as int) =~= all);
    r
}

/// Pairs as a map.
fn read_pairs(rows: &Vec<PairRow>) -> (r: TextMap<String>)
    ensures
        text_views(r@) == pair_table(views(rows@)),
{
    let ghost all = views(rows@);
    let mut r: TextMap<String> = TextMap::new();
    let mut i: usize = 0;
    assert(all.take(0) =~= Seq::empty());
    assert(text_views(r@) =~= pair_table(all.take(0)));
    while i < rows.len()
        invariant
            i <= rows@.len(),
            all == views(rows@),
            text_views(r@) == pair_table(all.take(i as int)),
        decreases rows@.len() - i,
    {
        let row = &rows[i];
        let ghost had = r@;
        proof {
            assert(all[i as int] == row@);
            assert(all.take(i + 1).drop_last() =~= all.take(i as int));
        }
        r.insert(row.key.clone(), row.value.clone());
        assert(text_views(r@) =~= text_views(had).insert(row.key@, row.value@));
        i = i + 1;
    }
    assert(all.take(i as int) =~= all);
    r
}

proof fn lemma_closures_error(rows: Seq<ClosureRowModel>, n: int)
    requires
        0 <= n <= rows.len(),
        closures_in(rows.take(n)) is Err,
    ensures
        closures_in(rows) == closures_in(rows.take(n)),
    decreases rows.len() - n,
{
    if n < rows.len() {
        assert(rows.take(n + 1).drop_last() =~= rows.take(n));
        lemma_closures_error(rows, n + 1);
    } else {
        assert(rows.take(n) =~= rows);
    }
}

/// The closures in rows, or the message of the first error.
fn read_closures(rows: &Vec<ClosureRow>) -> (r: Result<Vec<Closure>, String>)
    ensures
        match r {
            Ok(v) => {
                &&& closures_in(views(rows@)) is Ok
                &&& closures_in(views(rows@))->Ok_0 == views(v@)
            },
            Err(m) => closures_in(views(rows@)) is Err && closures_in(views(rows@))->Err_0 == m@,
        },
{
    let ghost all = views(rows@);
    let mut r: Vec<Closure> = Vec::new();
    let mut i: usize = 0;
    assert(views(r@) =~= Seq::empty());
    while i < rows.len()
        invariant
            i <= rows@.len(),
            all == views(rows@),
            closures_in(all.take(i as int)) is Ok,
            closures_in(all.take(i as int))->Ok_0 == views(r@),
        decreases rows@.len() - i,
    {
        let row = &rows[i];
        proof {
            assert(all[i as int] == row@);
            assert(all.take(i + 1).drop_last() =~= all.take(i as int));
        }
        let from = match Timestamp::from_rfc3339(row.from_ts.as_str()) {
            Ok(t) => t,
            Err(m) => {
                proof {
                    lemma_closures_error(all, i + 1);
                }
                return Err(m);
            },
        };
        let to = match Timestamp::from_rfc3339(row.to_ts.as_str()) {
            Ok(t) => t,
            Err(m) => {
                proof {
                    lemma_closures_error(all, i + 1);
                }
                return Err(m);
            },
        };
        let entry = Closure {
            event_id: row.event_id.clone(),
            point_id: row.point_id.clone(),
            from,
            to,
        };
        proof {
            lemma_views_push(r@, entry);
        }
        r.push(entry);
        i = i + 1;
    }
    assert(all.take(i as int) =~= all);
    Ok(r)
}

proof fn lemma_degradations_error(rows: Seq<DegradationRowModel>, n: int)
    requires
        0 <= n <= rows.len(),
        degradations_in(rows.take(n)) is Err,
    ensures
        degradations_in(rows) == degradations_in(rows.take(n)),
    decreases rows.len() - n,
{
    if n < rows.len() {
        assert(rows.take(n + 1).drop_last() =~= rows.take(n));
        lemma_degradations_error(rows, n + 1);
    } else {
        assert(rows.take(n) =~= rows);
    }
}

/// The degradations in rows, or the message of the first error.
fn read_degradations(rows: &Vec<DegradationRow>) -> (r: Result<Vec<Degradation>, String>)
    ensures
        match r {
            Ok(v) => {
                &&& degradations_in(views(rows@)) is Ok
                &&& degradations_in(views(rows@))->Ok_0 == views(v@)
            },
            Err(m) => degradations_in(views(rows@)) is Err && degradations_in(views(rows@))->Err_0
                == m@,
        },
{
    let ghost all = views(rows@);
    let mut r: Vec<Degradation> = Vec::new();
    let mut i: usize = 0;
    assert(views(r@) =~= Seq::empty());
    while i < rows.len()
        invariant
            i <= rows@.len(),
            all == views(rows@),
            degradations_in(all.take(i as int)) is Ok,
            degradations_in(all.take(i as int))->Ok_0 == views(r@),
        decreases rows@.len() - i,
    {
        let row = &rows[i];
        proof {
            assert(all[i as int] == row@);
            assert(all.take(i + 1).drop_last() =~= all.take(i as int));
        }
        let from = match Timestamp::from_rfc3339(row.from_ts.as_str()) {
            Ok(t) => t,
            Err(m) => {
                proof {
                    lemma_degradations_error(all, i + 1);
                }
                return Err(m);
            },
        };
        let to = match Timestamp::from_rfc3339(row.to_ts.as_str()) {
            Ok(t) => t,
            Err(m) => {
                proof {
                    lemma_degradations_error(all, i + 1);
                }
                return Err(m);
            },
        };
        let entry = Degradation {
            event_id: row.event_id.clone(),
            point_id: row.point_id.clone(),
            capability: row.capability.clone(),
            from,
            to,
        };
        proof {
            lemma_views_push(r@, entry);
        }
        r.push(entry);
        i = i + 1;
    }
    assert(all.take(i as int) =~= all);
    Ok(r)
}

fn read_slots(rows: &Vec<RawHomeSlot>) -> (r: Vec<HomeSlot>)
    ensures
        views(r@) == sorted(views(rows@)),
{
    let ghost all = views(rows@);
    let mut slots: Vec<HomeSlot> = Vec::new();
    let mut i: usize = 0;
    assert(views(slots@) =~= all.take(0));
    while i < rows.len()
        invariant
            i <= rows@.len(),
            all == views(rows@),
            views(slots@) == all.take(i as int),
        decreases rows@.len() - i,
    {
        let row = &rows[i];
        let slot = HomeSlot {
            slot_id: row.slot_id.clone(),
            cost: row.cost,
            capacity: row.capacity,
        };
        proof {
            assert(all[i as int] == row@);
            lemma_views_push(slots@, slot);
        }
        slots.push(slot);
        i = i + 1;
        assert(views(slots@) =~= all.take(i as int));
    }
    assert(views(slots@) =~= all);
    sort(slots)
}

/// The catalog that the rows of a version hold; see `built`.
pub fn build_catalog(version: &str, rows: &CatalogRows) -> (r: Result<Catalog, String>)
    ensures
        match r {
            Ok(c) => built(version@, rows@) is Ok && built(version@, rows@)->Ok_0 == c@,
            Err(m) => built(version@, rows@) is Err && built(version@, rows@)->Err_0 == m@,
        },
{
    let tie_break: Vec<String> = match read_list(rows.tie_break.as_str()) {
        Some(list) => list,
        None => Vec::new(),
    };
    assert(views(tie_break@) =~= built_tie_break(rows@));
    let points = add_access(add_services(read_points(&rows.points), &rows.services), &rows.access);
    proof {
        let table = row_table(rows@.points);
        assert forall|id: Seq<char>| #[trigger] point_views(points@).contains_key(id) implies
            point_views(points@)[id] == built_points(rows@)[id] by {
            assert(points@.contains_key(id));
            assert(table.dom().contains(id));
        }
        assert(point_views(points@).dom() =~= built_points(rows@).dom());
        assert(point_views(points@) =~= built_points(rows@));
    }
    let closures = match read_closures(&rows.closures) {
        Ok(v) => v,
        Err(m) => {
            return Err(m);
        },
    };
    let degradations = match read_degradations(&rows.degradations) {
        Ok(v) => v,
        Err(m) => {
            return Err(m);
        },
    };
    let home_service = match &rows.home {
        Some(h) => Some(
            HomeService {
                allowed_service: h.allowed_service.clone(),
                allowed_mobility: TextSet::of(copied(&rows.home_mobility)),
                reason: h.reason.clone(),
                slots: read_slots(&rows.home_slots),
            },
        ),
        None => None,
    };
    Ok(
        Catalog {
            version: version.to_owned(),
            cost_formula: rows.cost_formula.clone(),
            points,
            hard_requirements: read_pairs(&rows.hard_requirements),
            tie_break,
            closures_by_point: group(&closures),
            degradations_by_point: group(&degradations),
            home_service,
        },
    )
}

} // verus!
