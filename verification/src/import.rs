//! The rows that an import writes, from which the catalog is read back.

use crate::catalog::{point_ids, ClosureModel, PointModel};
use crate::instant::{four_digit_year, rfc3339_text};
use crate::json::{json_list, write_list};
use crate::keyed::{ascending_list, lemma_finite_set_is_listed, TextMap};
use crate::model::{
    normalized, point_table, raw_fault, DegradationModel, RawCatalog, RawCatalogModel, RawClosure,
    RawDegradation, RawHomeSlot, RawPoint,
};
use crate::model_laws::{law_faultless_catalogs, law_points_stand_under_their_ids};
use crate::order::{lemma_views_push, views};
use crate::rows::{
    built, built_points, closure_in, closures_in, degradation_in, degradations_in, pair_table,
    row_table, values_of, CatalogRows, ClosureRow, ClosureRowModel, DegradationRow,
    DegradationRowModel, HomeRow, HomeRowModel, PairRow, PointRow, PointRowModel, RowsModel,
};
use crate::text::copied;
use vstd::prelude::*;

verus! {

/// The row of a point.
pub open spec fn point_row(p: PointModel) -> PointRowModel {
    PointRowModel { id: p.id, grid: p.grid, barrier_penalty: p.barrier_penalty }
}

/// The rows of points.
pub open spec fn point_rows(points: Seq<PointModel>) -> Seq<PointRowModel> {
    Seq::new(points.len(), |i: int| point_row(points[i]))
}

/// A key with each of some values.
pub open spec fn pairs_with(key: Seq<char>, values: Seq<Seq<char>>) -> Seq<
    (Seq<char>, Seq<char>),
> {
    Seq::new(values.len(), |i: int| (key, values[i]))
}

/// Every point with each of its services.
pub open spec fn service_pairs(points: Seq<PointModel>) -> Seq<(Seq<char>, Seq<char>)>
    decreases points.len(),
{
    if points.len() == 0 {
        Seq::empty()
    } else {
        service_pairs(points.drop_last()) + pairs_with(points.last().id, points.last().services)
    }
}

/// Every point with each of its capabilities.
pub open spec fn access_pairs(points: Seq<PointModel>) -> Seq<(Seq<char>, Seq<char>)>
    decreases points.len(),
{
    if points.len() == 0 {
        Seq::empty()
    } else {
        access_pairs(points.drop_last()) + pairs_with(points.last().id, points.last().access)
    }
}

/// The entries of a map in ascending order of the keys.
pub open spec fn map_pairs(m: Map<Seq<char>, Seq<char>>) -> Seq<(Seq<char>, Seq<char>)> {
    let keys = ascending_list(m.dom());
    Seq::new(keys.len(), |i: int| (keys[i], m[keys[i]]))
}

/// The row of a closure.
pub open spec fn closure_row(c: ClosureModel) -> ClosureRowModel {
    ClosureRowModel {
        event_id: c.event_id,
        point_id: c.point_id,
        from_ts: rfc3339_text(c.from.0, c.from.1),
        to_ts: rfc3339_text(c.to.0, c.to.1),
    }
}

/// The rows of closures.
pub open spec fn closure_rows(closures: Seq<ClosureModel>) -> Seq<ClosureRowModel> {
    Seq::new(closures.len(), |i: int| closure_row(closures[i]))
}

/// The row of a degradation.
pub open spec fn degradation_row(d: DegradationModel) -> DegradationRowModel {
    DegradationRowModel {
        event_id: d.event_id,
        point_id: d.point_id,
        capability: d.capability,
        from_ts: rfc3339_text(d.from.0, d.from.1),
        to_ts: rfc3339_text(d.to.0, d.to.1),
    }
}

/// The rows of degradations.
pub open spec fn degradation_rows(degradations: Seq<DegradationModel>) -> Seq<DegradationRowModel> {
    Seq::new(degradations.len(), |i: int| degradation_row(degradations[i]))
}

/// The rows of a listed catalog.
pub open spec fn rows_of(raw: RawCatalogModel) -> RowsModel {
    RowsModel {
        cost_formula: raw.cost_formula,
        tie_break: json_list(raw.tie_break),
        points: point_rows(raw.points),
        services: service_pairs(raw.points),
        access: access_pairs(raw.points),
        hard_requirements: map_pairs(raw.hard_requirements),
        closures: closure_rows(raw.closures),
        degradations: degradation_rows(raw.degradations),
        home: match raw.home_service {
            Some(h) => Some(HomeRowModel { allowed_service: h.allowed_service, reason: h.reason }),
            None => None,
        },
        home_mobility: match raw.home_service {
            Some(h) => h.allowed_mobility,
            None => Seq::empty(),
        },
        home_slots: match raw.home_service {
            Some(h) => h.slots,
            None => Seq::empty(),
        },
    }
}

/// All events of a listed catalog lie in years of four digits.
pub open spec fn dated(raw: RawCatalogModel) -> bool {
    &&& forall|i: int|
        0 <= i < raw.closures.len() ==> four_digit_year((#[trigger] raw.closures[i]).from.0)
            && four_digit_year(raw.closures[i].to.0)
    &&& forall|i: int|
        0 <= i < raw.degradations.len() ==> four_digit_year(
            (#[trigger] raw.degradations[i]).from.0,
        ) && four_digit_year(raw.degradations[i].to.0)
}

proof fn lemma_row_table(points: Seq<PointModel>)
    ensures
        row_table(point_rows(points)).dom() == point_table(points).dom(),
        forall|id: Seq<char>| #[trigger]
            point_table(points).contains_key(id) ==> {
                &&& row_table(point_rows(points))[id].id == point_table(points)[id].id
                &&& row_table(point_rows(points))[id].grid == point_table(points)[id].grid
                &&& row_table(point_rows(points))[id].barrier_penalty == point_table(
                    points,
                )[id].barrier_penalty
            },
    decreases points.len(),
{
    let rows = point_rows(points);
    if points.len() > 0 {
        let front = points.drop_last();
        lemma_row_table(front);
        assert(rows.drop_last() =~= point_rows(front));
        assert(row_table(rows).dom() =~= point_table(points).dom());
    } else {
        assert(row_table(rows).dom() =~= point_table(points).dom());
    }
}

proof fn lemma_pairs_with(key: Seq<char>, values: Seq<Seq<char>>, k: Seq<char>, v: Seq<char>)
    ensures
        pairs_with(key, values).contains((k, v)) == (k == key && values.contains(v)),
{
    let pairs = pairs_with(key, values);
    if pairs.contains((k, v)) {
        let i = choose|i: int| 0 <= i < pairs.len() && pairs[i] == (k, v);
        assert(values[i] == v);
    }
    if k == key && values.contains(v) {
        let i = choose|i: int| 0 <= i < values.len() && values[i] == v;
        assert(pairs[i] == (k, v));
    }
}

proof fn lemma_concat_contains<A>(a: Seq<A>, b: Seq<A>, x: A)
    ensures
        (a + b).contains(x) == (a.contains(x) || b.contains(x)),
{
    let s = a + b;
    if a.contains(x) {
        let i = choose|i: int| 0 <= i < a.len() && a[i] == x;
        assert(s[i] == x);
    }
    if b.contains(x) {
        let i = choose|i: int| 0 <= i < b.len() && b[i] == x;
        assert(s[a.len() + i] == x);
    }
    if s.contains(x) {
        let i = choose|i: int| 0 <= i < s.len() && s[i] == x;
        if i < a.len() {
            assert(a[i] == x);
        } else {
            assert(b[i - a.len()] == x);
        }
    }
}

pub proof fn lemma_service_pairs(points: Seq<PointModel>, id: Seq<char>, v: Seq<char>)
    ensures
        service_pairs(points).contains((id, v)) <==> exists|i: int|
            0 <= i < points.len() && (#[trigger] points[i]).id == id && points[i].services.contains(
                v,
            ),
    decreases points.len(),
{
    if points.len() > 0 {
        let front = points.drop_last();
        let last = points.last();
        lemma_service_pairs(front, id, v);
        lemma_pairs_with(last.id, last.services, id, v);
        lemma_concat_contains(
            service_pairs(front),
            pairs_with(last.id, last.services),
            (id, v),
        );
        if service_pairs(front).contains((id, v)) {
            let i = choose|i: int|
                0 <= i < front.len() && (#[trigger] front[i]).id == id
                    && front[i].services.contains(v);
            assert(points[i].id == id && points[i].services.contains(v));
        }
        if last.id == id && last.services.contains(v) {
            assert(points[points.len() - 1].id == id);
        }
        if exists|i: int|
            0 <= i < points.len() && (#[trigger] points[i]).id == id && points[i].services.contains(
                v,
            ) {
            let i = choose|i: int|
                0 <= i < points.len() && (#[trigger] points[i]).id == id
                    && points[i].services.contains(v);
            if i < front.len() {
                assert(front[i].id == id && front[i].services.contains(v));
            }
        }
    }
}

pub proof fn lemma_access_pairs(points: Seq<PointModel>, id: Seq<char>, v: Seq<char>)
    ensures
        access_pairs(points).contains((id, v)) <==> exists|i: int|
            0 <= i < points.len() && (#[trigger] points[i]).id == id && points[i].access.contains(v),
    decreases points.len(),
{
    if points.len() > 0 {
        let front = points.drop_last();
        let last = points.last();
        lemma_access_pairs(front, id, v);
        lemma_pairs_with(last.id, last.access, id, v);
        lemma_concat_contains(access_pairs(front), pairs_with(last.id, last.access), (id, v));
        if access_pairs(front).contains((id, v)) {
            let i = choose|i: int|
                0 <= i < front.len() && (#[trigger] front[i]).id == id && front[i].access.contains(
                    v,
                );
            assert(points[i].id == id && points[i].access.contains(v));
        }
        if last.id == id && last.access.contains(v) {
            assert(points[points.len() - 1].id == id);
        }
        if exists|i: int|
            0 <= i < points.len() && (#[trigger] points[i]).id == id && points[i].access.contains(
                v,
            ) {
            let i = choose|i: int|
                0 <= i < points.len() && (#[trigger] points[i]).id == id
                    && points[i].access.contains(v);
            if i < front.len() {
                assert(front[i].id == id && front[i].access.contains(v));
            }
        }
    }
}

/// The points of a listed catalog are read back from their rows.
pub proof fn lemma_points_read_back(raw: RawCatalogModel)
    requires
        point_ids(raw.points).no_duplicates(),
    ensures
        built_points(rows_of(raw)) == point_table(raw.points),
{
    let points = raw.points;
    let rows = rows_of(raw);
    let ids = point_ids(points);
    let table = point_table(points);
    lemma_row_table(points);
    assert forall|id: Seq<char>| #[trigger] table.contains_key(id) implies built_points(rows)[id]
        == table[id] by {
        crate::model::lemma_point_table_keys(points, id);
        let i = choose|i: int| 0 <= i < ids.len() && ids[i] == id;
        law_points_stand_under_their_ids(points, i);
        let p = points[i];
        assert forall|v: Seq<char>| values_of(rows.services, id).contains(v)
            == p.services.to_set().contains(v) by {
            lemma_service_pairs(points, id, v);
            assert(p.services.to_set().contains(v) == p.services.contains(v));
            if service_pairs(points).contains((id, v)) {
                let j = choose|j: int|
                    0 <= j < points.len() && (#[trigger] points[j]).id == id
                        && points[j].services.contains(v);
                assert(ids[i] == ids[j]);
            }
        }
        assert(values_of(rows.services, id) =~= p.services.to_set());
        assert forall|v: Seq<char>| values_of(rows.access, id).contains(v)
            == p.access.to_set().contains(v) by {
            lemma_access_pairs(points, id, v);
            assert(p.access.to_set().contains(v) == p.access.contains(v));
            if access_pairs(points).contains((id, v)) {
                let j = choose|j: int|
                    0 <= j < points.len() && (#[trigger] points[j]).id == id
                        && points[j].access.contains(v);
                assert(ids[i] == ids[j]);
            }
        }
        assert(values_of(rows.access, id) =~= p.access.to_set());
    }
    assert forall|id: Seq<char>| built_points(rows).contains_key(id) == #[trigger] table.contains_key(
        id,
    ) by {
        assert(row_table(rows.points).dom().contains(id) == table.dom().contains(id));
    }
    assert(built_points(rows) =~= table);
}

proof fn lemma_pair_table(pairs: Seq<(Seq<char>, Seq<char>)>, m: Map<Seq<char>, Seq<char>>)
    requires
        forall|i: int| 0 <= i < pairs.len() ==> (#[trigger] pairs[i]).1 == m[pairs[i].0],
    ensures
        forall|k: Seq<char>| #[trigger]
            pair_table(pairs).contains_key(k) <==> exists|i: int|
                0 <= i < pairs.len() && (#[trigger] pairs[i]).0 == k,
        forall|k: Seq<char>| #[trigger]
            pair_table(pairs).contains_key(k) ==> pair_table(pairs)[k] == m[k],
    decreases pairs.len(),
{
    if pairs.len() > 0 {
        let front = pairs.drop_last();
        assert forall|i: int| 0 <= i < front.len() implies (#[trigger] front[i]).1
            == m[front[i].0] by {
            assert(front[i] == pairs[i]);
        }
        lemma_pair_table(front, m);
        assert(pairs[pairs.len() - 1].1 == m[pairs[pairs.len() - 1].0]);
        assert forall|k: Seq<char>| #[trigger]
            pair_table(pairs).contains_key(k) <==> exists|i: int|
                0 <= i < pairs.len() && (#[trigger] pairs[i]).0 == k by {
            if pair_table(front).contains_key(k) {
                let i = choose|i: int| 0 <= i < front.len() && (#[trigger] front[i]).0 == k;
                assert(pairs[i].0 == k);
            }
            if exists|i: int| 0 <= i < pairs.len() && (#[trigger] pairs[i]).0 == k {
                let i = choose|i: int| 0 <= i < pairs.len() && (#[trigger] pairs[i]).0 == k;
                if i < front.len() {
                    assert(front[i].0 == k);
                }
            }
        }
        assert forall|k: Seq<char>| #[trigger] pair_table(pairs).contains_key(k) implies pair_table(
            pairs,
        )[k] == m[k] by {
            if k != pairs.last().0 {
                assert(pair_table(front).contains_key(k));
            }
        }
    }
}

/// A finite map is read back from its entries.
proof fn lemma_map_read_back(m: Map<Seq<char>, Seq<char>>)
    requires
        m.dom().finite(),
    ensures
        pair_table(map_pairs(m)) == m,
{
    let keys = ascending_list(m.dom());
    let pairs = map_pairs(m);
    lemma_finite_set_is_listed(m.dom());
    lemma_pair_table(pairs, m);
    assert forall|k: Seq<char>| #[trigger] pair_table(pairs).contains_key(k) == m.contains_key(k) by {
        if m.contains_key(k) {
            assert(m.dom().contains(k));
            assert(keys.contains(k));
            let i = choose|i: int| 0 <= i < keys.len() && keys[i] == k;
            assert(pairs[i].0 == k);
        }
        if pair_table(pairs).contains_key(k) {
            let i = choose|i: int| 0 <= i < pairs.len() && (#[trigger] pairs[i]).0 == k;
            assert(keys.contains(keys[i]));
        }
    }
    assert(pair_table(pairs) =~= m);
}

/// Rows whose instants can be read hold the closures that were written.
proof fn lemma_closures_read_back(closures: Seq<ClosureModel>)
    requires
        forall|i: int|
            0 <= i < closures.len() ==> closure_in(closure_row(#[trigger] closures[i])) is Ok
                && closure_in(closure_row(closures[i]))->Ok_0 == closures[i],
    ensures
        closures_in(closure_rows(closures)) is Ok,
        closures_in(closure_rows(closures))->Ok_0 == closures,
    decreases closures.len(),
{
    let rows = closure_rows(closures);
    if closures.len() > 0 {
        let front = closures.drop_last();
        assert forall|i: int| 0 <= i < front.len() implies closure_in(
            closure_row(#[trigger] front[i]),
        ) is Ok && closure_in(closure_row(front[i]))->Ok_0 == front[i] by {
            assert(front[i] == closures[i]);
        }
        lemma_closures_read_back(front);
        assert(rows.drop_last() =~= closure_rows(front));
        assert(closure_in(closure_row(closures[closures.len() - 1])) is Ok);
        assert(closures =~= front.push(closures.last()));
    } else {
        assert(closures =~= Seq::empty());
    }
}

/// Rows whose instants can be read hold the degradations that were written.
proof fn lemma_degradations_read_back(degradations: Seq<DegradationModel>)
    requires
        forall|i: int|
            0 <= i < degradations.len() ==> degradation_in(
                degradation_row(#[trigger] degradations[i]),
            ) is Ok && degradation_in(degradation_row(degradations[i]))->Ok_0 == degradations[i],
    ensures
        degradations_in(degradation_rows(degradations)) is Ok,
        degradations_in(degradation_rows(degradations))->Ok_0 == degradations,
    decreases degradations.len(),
{
    let rows = degradation_rows(degradations);
    if degradations.len() > 0 {
        let front = degradations.drop_last();
        assert forall|i: int| 0 <= i < front.len() implies degradation_in(
            degradation_row(#[trigger] front[i]),
        ) is Ok && degradation_in(degradation_row(front[i]))->Ok_0 == front[i] by {
            assert(front[i] == degradations[i]);
        }
        lemma_degradations_read_back(front);
        assert(rows.drop_last() =~= degradation_rows(front));
        assert(degradation_in(degradation_row(degradations[degradations.len() - 1])) is Ok);
        assert(degradations =~= front.push(degradations.last()));
    } else {
        assert(degradations =~= Seq::empty());
    }
}

fn plan_points(points: &Vec<RawPoint>) -> (r: Vec<PointRow>)
    ensures
        views(r@) == point_rows(views(points@)),
{
    let ghost goal = point_rows(views(points@));
    let mut r: Vec<PointRow> = Vec::new();
    let mut i: usize = 0;
    assert(views(r@) =~= goal.take(0));
    while i < points.len()
        invariant
            i <= points@.len(),
            goal == point_rows(views(points@)),
            views(r@) == goal.take(i as int),
        decreases points@.len() - i,
    {
        let p = &points[i];
        let row = PointRow {
            id: p.id.clone(),
            grid_x: p.grid[0],
            grid_y: p.grid[1],
            barrier_penalty: p.barrier_penalty,
        };
        proof {
            assert(row@ == goal[i as int]);
            lemma_views_push(r@, row);
        }
        r.push(row);
        i = i + 1;
        assert(views(r@) =~= goal.take(i as int));
    }
    assert(views(r@) =~= goal);
    r
}

/// Adds a key with each of some values to a list of pairs.
fn add_pairs(pairs: &mut Vec<PairRow>, key: &String, values: &Vec<String>)
    ensures
        views(final(pairs)@) == views(old(pairs)@) + pairs_with(key@, views(values@)),
{
    let ghost base = views(pairs@);
    let ghost more = pairs_with(key@, views(values@));
    let mut i: usize = 0;
    assert(views(pairs@) =~= base + more.take(0));
    while i < values.len()
        invariant
            i <= values@.len(),
            more == pairs_with(key@, views(values@)),
            views(pairs@) == base + more.take(i as int),
        decreases values@.len() - i,
    {
        let row = PairRow { key: key.clone(), value: values[i].clone() };
        proof {
            assert(row@ == more[i as int]);
            lemma_views_push(pairs@, row);
        }
        pairs.push(row);
        i = i + 1;
        assert(views(pairs@) =~= base + more.take(i as int));
    }
    assert(more.take(i as int) =~= more);
}

fn plan_services(points: &Vec<RawPoint>) -> (r: Vec<PairRow>)
    ensures
        views(r@) == service_pairs(views(points@)),
{
    let ghost all = views(points@);
    let mut r: Vec<PairRow> = Vec::new();
    let mut i: usize = 0;
    assert(all.take(0) =~= Seq::empty());
    assert(views(r@) =~= service_pairs(all.take(0)));
    while i < points.len()
        invariant
            i <= points@.len(),
            all == views(points@),
            views(r@) == service_pairs(all.take(i as int)),
        decreases points@.len() - i,
    {
        proof {
            assert(all[i as int] == points@[i as int]@);
            assert(all.take(i + 1).drop_last() =~= all.take(i as int));
        }
        add_pairs(&mut r, &points[i].id, &points[i].services);
        i = i + 1;
    }
    assert(all.take(i as int) =~= all);
    r
}

fn plan_access(points: &Vec<RawPoint>) -> (r: Vec<PairRow>)
    ensures
        views(r@) == access_pairs(views(points@)),
{
    let ghost all = views(points@);
    let mut r: Vec<PairRow> = Vec::new();
    let mut i: usize = 0;
    assert(all.take(0) =~= Seq::empty());
    assert(views(r@) =~= access_pairs(all.take(0)));
    while i < points.len()
        invariant
            i <= points@.len(),
            all == views(points@),
            views(r@) == access_pairs(all.take(i as int)),
        decreases points@.len() - i,
    {
        proof {
            assert(all[i as int] == points@[i as int]@);
            assert(all.take(i + 1).drop_last() =~= all.take(i as int));
        }
        add_pairs(&mut r, &points[i].id, &points[i].access);
        i = i + 1;
    }
    assert(all.take(i as int) =~= all);
    r
}

fn plan_requirements(m: &TextMap<String>) -> (r: Vec<PairRow>)
    ensures
        views(r@) == map_pairs(crate::keyed::text_views(m@)),
        crate::keyed::text_views(m@).dom().finite(),
{
    let ghost texts = crate::keyed::text_views(m@);
    let n: usize = m.len();
    let ghost keys = m.keys();
    let ghost goal = map_pairs(texts);
    proof {
        assert(texts.dom() =~= m@.dom());
        assert(keys == ascending_list(texts.dom()));
    }
    let mut r: Vec<PairRow> = Vec::new();
    let mut i: usize = 0;
    assert(views(r@) =~= goal.take(0));
    while i < n
        invariant
            i <= n == keys.len(),
            keys == m.keys(),
            texts == crate::keyed::text_views(m@),
            keys == ascending_list(texts.dom()),
            goal == map_pairs(texts),
            views(r@) == goal.take(i as int),
        decreases n - i,
    {
        let row = PairRow { key: m.key_at(i).clone(), value: m.value_at(i).clone() };
        proof {
            assert(row@ == goal[i as int]);
            lemma_views_push(r@, row);
        }
        r.push(row);
        i = i + 1;
        assert(views(r@) =~= goal.take(i as int));
    }
    assert(views(r@) =~= goal);
    r
}

fn plan_closures(closures: &Vec<RawClosure>) -> (r: Vec<ClosureRow>)
    ensures
        views(r@) == closure_rows(views(closures@)),
        forall|i: int|
            0 <= i < closures@.len() && four_digit_year(
                (#[trigger] views(closures@)[i]).from.0,
            ) && four_digit_year(views(closures@)[i].to.0) ==> closure_in(
                closure_row(views(closures@)[i]),
            ) is Ok && closure_in(closure_row(views(closures@)[i]))->Ok_0 == views(closures@)[i],
{
    let ghost all = views(closures@);
    let ghost goal = closure_rows(all);
    let mut r: Vec<ClosureRow> = Vec::new();
    let mut i: usize = 0;
    assert(views(r@) =~= goal.take(0));
    while i < closures.len()
        invariant
            i <= closures@.len(),
            all == views(closures@),
            goal == closure_rows(all),
            views(r@) == goal.take(i as int),
            forall|j: int|
                0 <= j < i && four_digit_year((#[trigger] all[j]).from.0) && four_digit_year(
                    all[j].to.0,
                ) ==> closure_in(closure_row(all[j])) is Ok && closure_in(
                    closure_row(all[j]),
                )->Ok_0 == all[j],
        decreases closures@.len() - i,
    {
        let c = &closures[i];
        let row = ClosureRow {
            event_id: c.event_id.clone(),
            point_id: c.point_id.clone(),
            from_ts: c.from.to_rfc3339(),
            to_ts: c.to.to_rfc3339(),
        };
        proof {
            assert(all[i as int] == c@);
            assert(row@ == goal[i as int]);
            lemma_views_push(r@, row);
        }
        r.push(row);
        i = i + 1;
        assert(views(r@) =~= goal.take(i as int));
    }
    assert(views(r@) =~= goal);
    r
}

fn plan_degradations(degradations: &Vec<RawDegradation>) -> (r: Vec<DegradationRow>)
    ensures
        views(r@) == degradation_rows(views(degradations@)),
        forall|i: int|
            0 <= i < degradations@.len() && four_digit_year(
                (#[trigger] views(degradations@)[i]).from.0,
            ) && four_digit_year(views(degradations@)[i].to.0) ==> degradation_in(
                degradation_row(views(degradations@)[i]),
            ) is Ok && degradation_in(degradation_row(views(degradations@)[i]))->Ok_0 == views(
                degradations@,
            )[i],
{
    let ghost all = views(degradations@);
    let ghost goal = degradation_rows(all);
    let mut r: Vec<DegradationRow> = Vec::new();
    let mut i: usize = 0;
    assert(views(r@) =~= goal.take(0));
    while i < degradations.len()
        invariant
            i <= degradations@.len(),
            all == views(degradations@),
            goal == degradation_rows(all),
            views(r@) == goal.take(i as int),
            forall|j: int|
                0 <= j < i && four_digit_year((#[trigger] all[j]).from.0) && four_digit_year(
                    all[j].to.0,
                ) ==> degradation_in(degradation_row(all[j])) is Ok && degradation_in(
                    degradation_row(all[j]),
                )->Ok_0 == all[j],
        decreases degradations@.len() - i,
    {
        let d = &degradations[i];
        let row = DegradationRow {
            event_id: d.event_id.clone(),
            point_id: d.point_id.clone(),
            capability: d.capability.clone(),
            from_ts: d.from.to_rfc3339(),
            to_ts: d.to.to_rfc3339(),
        };
        proof {
            assert(all[i as int] == d@);
            assert(row@ == goal[i as int]);
            lemma_views_push(r@, row);
        }
        r.push(row);
        i = i + 1;
        assert(views(r@) =~= goal.take(i as int));
    }
    assert(views(r@) =~= goal);
    r
}

fn plan_slots(slots: &Vec<RawHomeSlot>) -> (r: Vec<RawHomeSlot>)
    ensures
        views(r@) == views(slots@),
{
    let ghost goal = views(slots@);
    let mut r: Vec<RawHomeSlot> = Vec::new();
    let mut i: usize = 0;
    assert(views(r@) =~= goal.take(0));
    while i < slots.len()
        invariant
            i <= slots@.len(),
            goal == views(slots@),
            views(r@) == goal.take(i as int),
        decreases slots@.len() - i,
    {
        let s = &slots[i];
        let row = RawHomeSlot { slot_id: s.slot_id.clone(), cost: s.cost, capacity: s.capacity };
        proof {
            assert(row@ == goal[i as int]);
            lemma_views_push(r@, row);
        }
        r.push(row);
        i = i + 1;
        assert(views(r@) =~= goal.take(i as int));
    }
    assert(views(r@) =~= goal);
    r
}

/// The rows of a listed catalog. Where the catalog has no fault and its events
/// lie in years of four digits, its normal form is read back from them.
pub fn plan_rows(raw: &RawCatalog) -> (rows: CatalogRows)
    ensures
        rows@ == rows_of(raw@),
        raw_fault(raw@) is None && dated(raw@) ==> built(raw@.catalog_version, rows@) is Ok
            && built(raw@.catalog_version, rows@)->Ok_0 == normalized(raw@),
{
    let (home, home_mobility, home_slots) = match &raw.home_service {
        Some(h) => (
            Some(
                HomeRow { allowed_service: h.allowed_service.clone(), reason: h.reason.clone() },
            ),
            copied(&h.allowed_mobility),
            plan_slots(&h.slots),
        ),
        None => (None, Vec::new(), Vec::new()),
    };
    proof {
        assert(views(home_mobility@) =~= rows_of(raw@).home_mobility);
        assert(views(home_slots@) =~= rows_of(raw@).home_slots);
    }
    let rows = CatalogRows {
        cost_formula: raw.cost_formula.clone(),
        tie_break: write_list(&raw.tie_break),
        points: plan_points(&raw.points),
        services: plan_services(&raw.points),
        access: plan_access(&raw.points),
        hard_requirements: plan_requirements(&raw.hard_requirements),
        closures: plan_closures(&raw.closures),
        degradations: plan_degradations(&raw.degradations),
        home,
        home_mobility,
        home_slots,
    };
    proof {
        if raw_fault(raw@) is None && dated(raw@) {
            law_faultless_catalogs(raw@);
            lemma_points_read_back(raw@);
            lemma_map_read_back(raw@.hard_requirements);
            lemma_closures_read_back(raw@.closures);
            lemma_degradations_read_back(raw@.degradations);
        }
    }
    rows
}

} // verus!
