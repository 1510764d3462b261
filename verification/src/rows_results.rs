//! What the rows of a listed catalog hold, and what the catalog holds that is
//! built from rows, told from the listing and from the rows alone.

use crate::catalog::point_ids;
use crate::grouping::grouped;
use crate::import::{
    access_pairs, lemma_access_pairs, lemma_points_read_back, lemma_service_pairs, map_pairs,
    rows_of, service_pairs,
};
use crate::instant::{rfc3339_reading, rfc3339_text};
use crate::json::json_list_reading;
use crate::keyed::{ascending_list, lemma_finite_set_is_listed, lemma_keys_are_finite};
use crate::model::{
    lemma_point_table_keys, point_table, raw_fault, Catalog, Closure, Degradation, RawCatalog,
    RawPoint,
};
use crate::model_laws::{law_faultless_catalogs, law_points_stand_under_their_ids};
use crate::model_results::{holds_slots, lemma_group_holds, lemma_slots};
use crate::order::{views, Order};
use crate::routing_results::{lemma_lists, lists};
use crate::rows::{
    built, closure_in, closures_in, degradation_in, degradations_in, pair_table, row_table,
    values_of, CatalogRows, ClosureRow, DegradationRow, PairRow, PointRow,
};
use crate::store_laws::{
    lemma_closures_in, lemma_degradations_in, lemma_pair_table, lemma_row_table,
};
use crate::text::{lemma_text_lt_connected, text_lt};
use vstd::prelude::*;

verus! {

/// A key stands with a value in some row.
pub open spec fn pairs(rows: Vec<PairRow>, key: Seq<char>, value: Seq<char>) -> bool {
    exists|i: int|
        0 <= i < rows@.len() && (#[trigger] rows@[i]).key@ == key && rows@[i].value@ == value
}

proof fn lemma_pairs(rows: Vec<PairRow>, key: Seq<char>, value: Seq<char>)
    ensures
        views(rows@).contains((key, value)) == pairs(rows, key, value),
{
    let all = views(rows@);
    if all.contains((key, value)) {
        let i = choose|i: int| 0 <= i < all.len() && all[i] == (key, value);
        assert(all[i] == rows@[i]@);
        assert(rows@[i].key@ == key);
    }
    if pairs(rows, key, value) {
        let i = choose|i: int|
            0 <= i < rows@.len() && (#[trigger] rows@[i]).key@ == key && rows@[i].value@ == value;
        assert(all[i] == rows@[i]@);
    }
}

/// A listed point and the point in a catalog are the same, field by field.
pub open spec fn is_kept(raw: RawPoint, c: Catalog) -> bool {
    let n = c.points@[raw.id@];
    &&& c.points@.contains_key(raw.id@)
    &&& n.id@ == raw.id@
    &&& n.grid.x == raw.grid@[0]
    &&& n.grid.y == raw.grid@[1]
    &&& n.barrier_penalty == raw.barrier_penalty
    &&& forall|s: Seq<char>| #[trigger] n.services@.contains(s) == lists(raw.services, s)
    &&& forall|a: Seq<char>| #[trigger] n.access@.contains(a) == lists(raw.access, a)
}

/// In the catalog that is built from the rows of a listing, every listed point
/// stands under its id, with its place, its penalty, its services and its
/// capabilities, and no other point is there.
pub proof fn law_stored_points_are_kept(
    raw: RawCatalog,
    rows: CatalogRows,
    version: Seq<char>,
    c: Catalog,
)
    requires
        raw_fault(raw@) is None,
        rows@ == rows_of(raw@),
        built(version, rows@) is Ok,
        built(version, rows@)->Ok_0 == c@,
    ensures
        forall|i: int| 0 <= i < raw.points@.len() ==> is_kept(#[trigger] raw.points@[i], c),
        forall|id: Seq<char>| #[trigger]
            c.points@.contains_key(id) ==> exists|i: int|
                0 <= i < raw.points@.len() && (#[trigger] raw.points@[i]).id@ == id,
{
    let all = raw@.points;
    law_faultless_catalogs(raw@);
    lemma_points_read_back(raw@);
    assert(c@.points == point_table(all));
    assert forall|i: int| 0 <= i < raw.points@.len() implies is_kept(
        #[trigger] raw.points@[i],
        c,
    ) by {
        let p = raw.points@[i];
        assert(all[i] == p@);
        law_points_stand_under_their_ids(all, i);
        assert(c@.points.contains_key(p.id@));
        assert(c.points@.contains_key(p.id@));
        let n = c.points@[p.id@];
        assert(c@.points[p.id@] == n@);
        assert(n@.grid == p@.grid);
        assert forall|s: Seq<char>| #[trigger] n.services@.contains(s) == lists(p.services, s) by {
            lemma_lists(p.services, s);
            assert(p@.services.to_set().contains(s) == p@.services.contains(s));
        }
        assert forall|a: Seq<char>| #[trigger] n.access@.contains(a) == lists(p.access, a) by {
            lemma_lists(p.access, a);
            assert(p@.access.to_set().contains(a) == p@.access.contains(a));
        }
    }
    assert forall|id: Seq<char>| #[trigger] c.points@.contains_key(id) implies exists|i: int|
        0 <= i < raw.points@.len() && (#[trigger] raw.points@[i]).id@ == id by {
        assert(c@.points.contains_key(id));
        lemma_point_table_keys(all, id);
        let ids = point_ids(all);
        let i = choose|i: int| 0 <= i < ids.len() && ids[i] == id;
        assert(all[i] == raw.points@[i]@);
    }
}

/// A listed point offers a service under an id.
pub open spec fn offers(raw: RawCatalog, id: Seq<char>, s: Seq<char>) -> bool {
    exists|i: int|
        0 <= i < raw.points@.len() && (#[trigger] raw.points@[i]).id@ == id && lists(
            raw.points@[i].services,
            s,
        )
}

/// A listed point has a capability under an id.
pub open spec fn provides(raw: RawCatalog, id: Seq<char>, a: Seq<char>) -> bool {
    exists|i: int|
        0 <= i < raw.points@.len() && (#[trigger] raw.points@[i]).id@ == id && lists(
            raw.points@[i].access,
            a,
        )
}

/// Every listed point has a row, in the order of the listing, with its id, the
/// two coordinates of its place and its penalty; its services and capabilities
/// stand with its id, and no others do.
pub proof fn law_points_are_written(raw: RawCatalog, rows: CatalogRows)
    requires
        rows@ == rows_of(raw@),
    ensures
        rows.points@.len() == raw.points@.len(),
        forall|i: int|
            0 <= i < raw.points@.len() ==> {
                let row = #[trigger] rows.points@[i];
                let p = raw.points@[i];
                &&& row.id@ == p.id@
                &&& row.grid_x == p.grid@[0]
                &&& row.grid_y == p.grid@[1]
                &&& row.barrier_penalty == p.barrier_penalty
            },
        forall|id: Seq<char>, s: Seq<char>| #[trigger]
            pairs(rows.services, id, s) == offers(raw, id, s),
        forall|id: Seq<char>, a: Seq<char>| #[trigger]
            pairs(rows.access, id, a) == provides(raw, id, a),
{
    let all = raw@.points;
    assert(rows@.points.len() == rows.points@.len());
    assert forall|i: int| 0 <= i < raw.points@.len() implies {
        let row = #[trigger] rows.points@[i];
        let p = raw.points@[i];
        &&& row.id@ == p.id@
        &&& row.grid_x == p.grid@[0]
        &&& row.grid_y == p.grid@[1]
        &&& row.barrier_penalty == p.barrier_penalty
    } by {
        assert(rows@.points[i] == rows.points@[i]@);
        assert(all[i] == raw.points@[i]@);
        assert(rows.points@[i]@.grid == raw.points@[i]@.grid);
    }
    assert forall|id: Seq<char>, s: Seq<char>| #[trigger]
        pairs(rows.services, id, s) == offers(raw, id, s) by {
        lemma_pairs(rows.services, id, s);
        lemma_service_pairs(all, id, s);
        if service_pairs(all).contains((id, s)) {
            let i = choose|i: int|
                0 <= i < all.len() && (#[trigger] all[i]).id == id && all[i].services.contains(s);
            assert(all[i] == raw.points@[i]@);
            lemma_lists(raw.points@[i].services, s);
        }
        if offers(raw, id, s) {
            let i = choose|i: int|
                0 <= i < raw.points@.len() && (#[trigger] raw.points@[i]).id@ == id && lists(
                    raw.points@[i].services,
                    s,
                );
            assert(all[i] == raw.points@[i]@);
            lemma_lists(raw.points@[i].services, s);
        }
    }
    assert forall|id: Seq<char>, a: Seq<char>| #[trigger]
        pairs(rows.access, id, a) == provides(raw, id, a) by {
        lemma_pairs(rows.access, id, a);
        lemma_access_pairs(all, id, a);
        if access_pairs(all).contains((id, a)) {
            let i = choose|i: int|
                0 <= i < all.len() && (#[trigger] all[i]).id == id && all[i].access.contains(a);
            assert(all[i] == raw.points@[i]@);
            lemma_lists(raw.points@[i].access, a);
        }
        if provides(raw, id, a) {
            let i = choose|i: int|
                0 <= i < raw.points@.len() && (#[trigger] raw.points@[i]).id@ == id && lists(
                    raw.points@[i].access,
                    a,
                );
            assert(all[i] == raw.points@[i]@);
            lemma_lists(raw.points@[i].access, a);
        }
    }
}

/// The rows of events are those of the listing, in its order, with the texts of
/// their instants.
pub proof fn law_events_are_written(raw: RawCatalog, rows: CatalogRows)
    requires
        rows@ == rows_of(raw@),
    ensures
        rows.closures@.len() == raw.closures@.len(),
        forall|i: int|
            0 <= i < raw.closures@.len() ==> {
                let row = #[trigger] rows.closures@[i];
                let x = raw.closures@[i];
                &&& row.event_id@ == x.event_id@
                &&& row.point_id@ == x.point_id@
                &&& row.from_ts@ == rfc3339_text(x.from@.0, x.from@.1)
                &&& row.to_ts@ == rfc3339_text(x.to@.0, x.to@.1)
            },
        rows.degradations@.len() == raw.degradations@.len(),
        forall|i: int|
            0 <= i < raw.degradations@.len() ==> {
                let row = #[trigger] rows.degradations@[i];
                let x = raw.degradations@[i];
                &&& row.event_id@ == x.event_id@
                &&& row.point_id@ == x.point_id@
                &&& row.capability@ == x.capability@
                &&& row.from_ts@ == rfc3339_text(x.from@.0, x.from@.1)
                &&& row.to_ts@ == rfc3339_text(x.to@.0, x.to@.1)
            },
{
    assert(rows@.closures.len() == rows.closures@.len());
    assert(rows@.degradations.len() == rows.degradations@.len());
    assert forall|i: int| 0 <= i < raw.closures@.len() implies {
        let row = #[trigger] rows.closures@[i];
        let x = raw.closures@[i];
        &&& row.event_id@ == x.event_id@
        &&& row.point_id@ == x.point_id@
        &&& row.from_ts@ == rfc3339_text(x.from@.0, x.from@.1)
        &&& row.to_ts@ == rfc3339_text(x.to@.0, x.to@.1)
    } by {
        assert(rows@.closures[i] == rows.closures@[i]@);
        assert(raw@.closures[i] == raw.closures@[i]@);
    }
    assert forall|i: int| 0 <= i < raw.degradations@.len() implies {
        let row = #[trigger] rows.degradations@[i];
        let x = raw.degradations@[i];
        &&& row.event_id@ == x.event_id@
        &&& row.point_id@ == x.point_id@
        &&& row.capability@ == x.capability@
        &&& row.from_ts@ == rfc3339_text(x.from@.0, x.from@.1)
        &&& row.to_ts@ == rfc3339_text(x.to@.0, x.to@.1)
    } by {
        assert(rows@.degradations[i] == rows.degradations@[i]@);
        assert(raw@.degradations[i] == raw.degradations@[i]@);
    }
}

/// The rows hold the formula, what each need calls for, and home visits, as they
/// are listed.
pub proof fn law_rules_are_written(raw: RawCatalog, rows: CatalogRows)
    requires
        rows@ == rows_of(raw@),
    ensures
        rows.cost_formula@ == raw.cost_formula@,
        forall|n: Seq<char>, a: Seq<char>| #[trigger]
            pairs(rows.hard_requirements, n, a) == (raw.hard_requirements@.contains_key(n)
                && raw.hard_requirements@[n]@ == a),
        rows.home is Some <==> raw.home_service is Some,
        raw.home_service is Some ==> {
            let h = raw.home_service->Some_0;
            &&& rows.home->Some_0.allowed_service@ == h.allowed_service@
            &&& rows.home->Some_0.reason@ == h.reason@
            &&& forall|m: Seq<char>| #[trigger]
                lists(rows.home_mobility, m) == lists(h.allowed_mobility, m)
            &&& rows.home_slots@.len() == h.slots@.len()
            &&& forall|i: int|
                0 <= i < h.slots@.len() ==> {
                    let row = #[trigger] rows.home_slots@[i];
                    let s = h.slots@[i];
                    row.slot_id@ == s.slot_id@ && row.cost == s.cost && row.capacity == s.capacity
                }
        },
        raw.home_service is None ==> rows.home_mobility@.len() == 0 && rows.home_slots@.len() == 0,
{
    let texts = raw@.hard_requirements;
    lemma_keys_are_finite(raw.hard_requirements);
    assert(texts.dom() =~= raw.hard_requirements@.dom());
    lemma_finite_set_is_listed(texts.dom());
    let keys = ascending_list(texts.dom());
    let goal = map_pairs(texts);
    assert forall|n: Seq<char>, a: Seq<char>| #[trigger]
        pairs(rows.hard_requirements, n, a) == (raw.hard_requirements@.contains_key(n)
            && raw.hard_requirements@[n]@ == a) by {
        lemma_pairs(rows.hard_requirements, n, a);
        if goal.contains((n, a)) {
            let i = choose|i: int| 0 <= i < goal.len() && goal[i] == (n, a);
            assert(keys.contains(keys[i]));
            assert(texts.dom().contains(n));
        }
        if raw.hard_requirements@.contains_key(n) && raw.hard_requirements@[n]@ == a {
            assert(texts.dom().contains(n));
            assert(keys.contains(n));
            let i = choose|i: int| 0 <= i < keys.len() && keys[i] == n;
            assert(goal[i] == (n, a));
        }
    }
    assert(rows@.home_mobility.len() == rows.home_mobility@.len());
    assert(rows@.home_slots.len() == rows.home_slots@.len());
    if raw.home_service is Some {
        let h = raw.home_service->Some_0;
        assert(raw@.home_service == Some(h@));
        assert(rows.home is Some);
        assert(rows@.home->Some_0 == rows.home->Some_0@);
        assert forall|m: Seq<char>| #[trigger]
            lists(rows.home_mobility, m) == lists(h.allowed_mobility, m) by {
            lemma_lists(rows.home_mobility, m);
            lemma_lists(h.allowed_mobility, m);
        }
        assert forall|i: int| 0 <= i < h.slots@.len() implies {
            let row = #[trigger] rows.home_slots@[i];
            let s = h.slots@[i];
            row.slot_id@ == s.slot_id@ && row.cost == s.cost && row.capacity == s.capacity
        } by {
            assert(rows@.home_slots[i] == rows.home_slots@[i]@);
            assert(h@.slots[i] == h.slots@[i]@);
        }
    } else {
        assert(rows@.home is None);
    }
}

/// A row of points and the point in a catalog are the same, field by field, with
/// the services and the capabilities that stand with the id.
pub open spec fn is_built(row: PointRow, rows: CatalogRows, c: Catalog) -> bool {
    let n = c.points@[row.id@];
    &&& c.points@.contains_key(row.id@)
    &&& n.id@ == row.id@
    &&& n.grid.x == row.grid_x
    &&& n.grid.y == row.grid_y
    &&& n.barrier_penalty == row.barrier_penalty
    &&& forall|s: Seq<char>| #[trigger]
        n.services@.contains(s) == pairs(rows.services, row.id@, s)
    &&& forall|a: Seq<char>| #[trigger] n.access@.contains(a) == pairs(rows.access, row.id@, a)
}

/// Every point of the catalog that rows hold is that of a row; every row is that
/// of a point, where no two rows have the same id.
pub proof fn law_built_points_are_the_rows(version: Seq<char>, rows: CatalogRows, c: Catalog)
    requires
        built(version, rows@) is Ok,
        built(version, rows@)->Ok_0 == c@,
    ensures
        forall|id: Seq<char>| #[trigger]
            c.points@.contains_key(id) ==> exists|i: int|
                0 <= i < rows.points@.len() && (#[trigger] rows.points@[i]).id@ == id && is_built(
                    rows.points@[i],
                    rows,
                    c,
                ),
        forall|i: int|
            0 <= i < rows.points@.len() && (forall|j: int|
                0 <= j < rows.points@.len() && j != i ==> (#[trigger] rows.points@[j]).id@
                    != rows.points@[i].id@) ==> is_built(#[trigger] rows.points@[i], rows, c),
{
    let all = rows@.points;
    let table = row_table(all);
    lemma_row_table(all);
    assert forall|id: Seq<char>| #[trigger] c.points@.contains_key(id) implies exists|i: int|
        0 <= i < rows.points@.len() && (#[trigger] rows.points@[i]).id@ == id && is_built(
            rows.points@[i],
            rows,
            c,
        ) by {
        assert(c@.points.contains_key(id));
        assert(table.contains_key(id));
        let i = choose|i: int| 0 <= i < all.len() && all[i] == table[id];
        assert(all[i] == rows.points@[i]@);
        lemma_built_point(version, rows, c, i);
        assert(rows.points@[i].id@ == id);
    }
    assert forall|i: int|
        0 <= i < rows.points@.len() && (forall|j: int|
            0 <= j < rows.points@.len() && j != i ==> (#[trigger] rows.points@[j]).id@
                != rows.points@[i].id@) implies is_built(#[trigger] rows.points@[i], rows, c) by {
        let id = rows.points@[i].id@;
        assert(all[i] == rows.points@[i]@);
        assert(all.contains(all[i]));
        assert(table.contains_key(id));
        let j = choose|j: int| 0 <= j < all.len() && all[j] == table[id];
        assert(all[j] == rows.points@[j]@);
        assert(rows.points@[j].id@ == id);
        lemma_built_point(version, rows, c, i);
    }
}

proof fn lemma_built_point(version: Seq<char>, rows: CatalogRows, c: Catalog, i: int)
    requires
        built(version, rows@) is Ok,
        built(version, rows@)->Ok_0 == c@,
        0 <= i < rows.points@.len(),
        row_table(rows@.points).contains_key(rows.points@[i].id@),
        row_table(rows@.points)[rows.points@[i].id@] == rows.points@[i]@,
    ensures
        is_built(rows.points@[i], rows, c),
{
    let row = rows.points@[i];
    let id = row.id@;
    assert(c@.points.contains_key(id));
    assert(c.points@.contains_key(id));
    let n = c.points@[id];
    assert(c@.points[id] == n@);
    assert(n@.grid == row@.grid);
    assert forall|s: Seq<char>| #[trigger] n.services@.contains(s) == pairs(
        rows.services,
        id,
        s,
    ) by {
        lemma_pairs(rows.services, id, s);
        assert(values_of(rows@.services, id).contains(s) == rows@.services.contains((id, s)));
    }
    assert forall|a: Seq<char>| #[trigger] n.access@.contains(a) == pairs(rows.access, id, a) by {
        lemma_pairs(rows.access, id, a);
        assert(values_of(rows@.access, id).contains(a) == rows@.access.contains((id, a)));
    }
}

/// A closure is the one in a row, with the instants that its texts stand for.
pub open spec fn reads_closure(row: ClosureRow, x: Closure) -> bool {
    &&& x.event_id@ == row.event_id@
    &&& x.point_id@ == row.point_id@
    &&& rfc3339_reading(row.from_ts@) is Ok
    &&& rfc3339_reading(row.from_ts@)->Ok_0 == x.from@
    &&& rfc3339_reading(row.to_ts@) is Ok
    &&& rfc3339_reading(row.to_ts@)->Ok_0 == x.to@
}

/// A degradation is the one in a row, with the instants that its texts stand for.
pub open spec fn reads_degradation(row: DegradationRow, x: Degradation) -> bool {
    &&& x.event_id@ == row.event_id@
    &&& x.point_id@ == row.point_id@
    &&& x.capability@ == row.capability@
    &&& rfc3339_reading(row.from_ts@) is Ok
    &&& rfc3339_reading(row.from_ts@)->Ok_0 == x.from@
    &&& rfc3339_reading(row.to_ts@) is Ok
    &&& rfc3339_reading(row.to_ts@)->Ok_0 == x.to@
}

/// The closures of a point in the catalog that rows hold are those in the rows
/// with the id of the point, by event id.
pub proof fn law_built_closures_are_the_rows(
    version: Seq<char>,
    rows: CatalogRows,
    c: Catalog,
    id: Seq<char>,
)
    requires
        built(version, rows@) is Ok,
        built(version, rows@)->Ok_0 == c@,
    ensures
        forall|i: int|
            0 <= i < rows.closures@.len() && (#[trigger] rows.closures@[i]).point_id@ == id
                ==> c.closures_by_point@.contains_key(id) && exists|k: int|
                0 <= k < c.closures_by_point@[id]@.len() && reads_closure(
                    rows.closures@[i],
                    #[trigger] c.closures_by_point@[id]@[k],
                ),
        c.closures_by_point@.contains_key(id) ==> {
            let list = c.closures_by_point@[id]@;
            &&& list.len() > 0
            &&& forall|k: int|
                0 <= k < list.len() ==> (#[trigger] list[k]).point_id@ == id && exists|i: int|
                    0 <= i < rows.closures@.len() && reads_closure(
                        #[trigger] rows.closures@[i],
                        list[k],
                    )
            &&& forall|m: int, n: int|
                0 <= m < n < list.len() ==> (#[trigger] list[m]).event_id@ == (
                #[trigger] list[n]).event_id@ || text_lt(list[m].event_id@, list[n].event_id@)
        },
{
    let all = rows@.closures;
    let read = closures_in(all)->Ok_0;
    lemma_closures_in(all);
    lemma_group_holds::<Closure>(read, id);
    assert(c@.closures_by_point == grouped::<Closure>(read));
    assert(c@.closures_by_point.contains_key(id) == c.closures_by_point@.contains_key(id));
    assert forall|i: int|
        0 <= i < rows.closures@.len() && (#[trigger] rows.closures@[i]).point_id@ == id implies
        c.closures_by_point@.contains_key(id) && exists|k: int|
        0 <= k < c.closures_by_point@[id]@.len() && reads_closure(
            rows.closures@[i],
            #[trigger] c.closures_by_point@[id]@[k],
        ) by {
        assert(all[i] == rows.closures@[i]@);
        assert(closure_in(all[i])->Ok_0 == read[i]);
        assert(<Closure as crate::grouping::Placed>::place(read[i]) == id);
        assert(crate::grouping::has_entry::<Closure>(read, id));
        let list = c.closures_by_point@[id]@;
        let g = views(list);
        assert(c@.closures_by_point[id] == g);
        assert(read.contains(read[i]));
        assert(g.contains(read[i]));
        let k = choose|k: int| 0 <= k < g.len() && g[k] == read[i];
        assert(g[k] == list[k]@);
        assert(reads_closure(rows.closures@[i], list[k]));
    }
    if c.closures_by_point@.contains_key(id) {
        let list = c.closures_by_point@[id]@;
        let g = views(list);
        assert(c@.closures_by_point[id] == g);
        let e = choose|e: int|
            0 <= e < read.len() && <Closure as crate::grouping::Placed>::place(#[trigger] read[e])
                == id;
        assert(read.contains(read[e]));
        assert(g.contains(read[e]));
        assert forall|k: int| 0 <= k < list.len() implies (#[trigger] list[k]).point_id@ == id
            && exists|i: int|
            0 <= i < rows.closures@.len() && reads_closure(
                #[trigger] rows.closures@[i],
                list[k],
            ) by {
            assert(g[k] == list[k]@);
            assert(g.contains(g[k]));
            let i = choose|i: int| 0 <= i < read.len() && read[i] == g[k];
            assert(all[i] == rows.closures@[i]@);
            assert(closure_in(all[i]) is Ok);
            assert(closure_in(all[i])->Ok_0 == read[i]);
            assert(reads_closure(rows.closures@[i], list[k]));
        }
        assert forall|m: int, n: int| 0 <= m < n < list.len() implies (
        #[trigger] list[m]).event_id@ == (#[trigger] list[n]).event_id@ || text_lt(
            list[m].event_id@,
            list[n].event_id@,
        ) by {
            assert(g[m] == list[m]@ && g[n] == list[n]@);
            assert(g[m].at_most(g[n]));
            lemma_text_lt_connected(g[m].event_id, g[n].event_id);
        }
    }
}

/// The degradations of a point in the catalog that rows hold are those in the
/// rows with the id of the point, by event id.
pub proof fn law_built_degradations_are_the_rows(
    version: Seq<char>,
    rows: CatalogRows,
    c: Catalog,
    id: Seq<char>,
)
    requires
        built(version, rows@) is Ok,
        built(version, rows@)->Ok_0 == c@,
    ensures
        forall|i: int|
            0 <= i < rows.degradations@.len() && (#[trigger] rows.degradations@[i]).point_id@ == id
                ==> c.degradations_by_point@.contains_key(id) && exists|k: int|
                0 <= k < c.degradations_by_point@[id]@.len() && reads_degradation(
                    rows.degradations@[i],
                    #[trigger] c.degradations_by_point@[id]@[k],
                ),
        c.degradations_by_point@.contains_key(id) ==> {
            let list = c.degradations_by_point@[id]@;
            &&& list.len() > 0
            &&& forall|k: int|
                0 <= k < list.len() ==> (#[trigger] list[k]).point_id@ == id && exists|i: int|
                    0 <= i < rows.degradations@.len() && reads_degradation(
                        #[trigger] rows.degradations@[i],
                        list[k],
                    )
            &&& forall|m: int, n: int|
                0 <= m < n < list.len() ==> (#[trigger] list[m]).event_id@ == (
                #[trigger] list[n]).event_id@ || text_lt(list[m].event_id@, list[n].event_id@)
        },
{
    let all = rows@.degradations;
    let read = degradations_in(all)->Ok_0;
    lemma_degradations_in(all);
    lemma_group_holds::<Degradation>(read, id);
    assert(c@.degradations_by_point == grouped::<Degradation>(read));
    assert(c@.degradations_by_point.contains_key(id) == c.degradations_by_point@.contains_key(id));
    assert forall|i: int|
        0 <= i < rows.degradations@.len() && (#[trigger] rows.degradations@[i]).point_id@
            == id implies c.degradations_by_point@.contains_key(id) && exists|k: int|
        0 <= k < c.degradations_by_point@[id]@.len() && reads_degradation(
            rows.degradations@[i],
            #[trigger] c.degradations_by_point@[id]@[k],
        ) by {
        assert(all[i] == rows.degradations@[i]@);
        assert(degradation_in(all[i])->Ok_0 == read[i]);
        assert(<Degradation as crate::grouping::Placed>::place(read[i]) == id);
        assert(crate::grouping::has_entry::<Degradation>(read, id));
        let list = c.degradations_by_point@[id]@;
        let g = views(list);
        assert(c@.degradations_by_point[id] == g);
        assert(read.contains(read[i]));
        assert(g.contains(read[i]));
        let k = choose|k: int| 0 <= k < g.len() && g[k] == read[i];
        assert(g[k] == list[k]@);
        assert(reads_degradation(rows.degradations@[i], list[k]));
    }
    if c.degradations_by_point@.contains_key(id) {
        let list = c.degradations_by_point@[id]@;
        let g = views(list);
        assert(c@.degradations_by_point[id] == g);
        let e = choose|e: int|
            0 <= e < read.len() && <Degradation as crate::grouping::Placed>::place(
                #[trigger] read[e],
            ) == id;
        assert(read.contains(read[e]));
        assert(g.contains(read[e]));
        assert forall|k: int| 0 <= k < list.len() implies (#[trigger] list[k]).point_id@ == id
            && exists|i: int|
            0 <= i < rows.degradations@.len() && reads_degradation(
                #[trigger] rows.degradations@[i],
                list[k],
            ) by {
            assert(g[k] == list[k]@);
            assert(g.contains(g[k]));
            let i = choose|i: int| 0 <= i < read.len() && read[i] == g[k];
            assert(all[i] == rows.degradations@[i]@);
            assert(degradation_in(all[i]) is Ok);
            assert(degradation_in(all[i])->Ok_0 == read[i]);
            assert(reads_degradation(rows.degradations@[i], list[k]));
        }
        assert forall|m: int, n: int| 0 <= m < n < list.len() implies (
        #[trigger] list[m]).event_id@ == (#[trigger] list[n]).event_id@ || text_lt(
            list[m].event_id@,
            list[n].event_id@,
        ) by {
            assert(g[m] == list[m]@ && g[n] == list[n]@);
            assert(g[m].at_most(g[n]));
            lemma_text_lt_connected(g[m].event_id, g[n].event_id);
        }
    }
}

/// The catalog that rows hold has the version that is asked for, the formula of
/// the rows, what each need calls for, the tie-break rules, if they are a JSON
/// list, and the home visits of the rows.
pub proof fn law_built_rules_are_the_rows(version: Seq<char>, rows: CatalogRows, c: Catalog)
    requires
        built(version, rows@) is Ok,
        built(version, rows@)->Ok_0 == c@,
    ensures
        c.version@ == version,
        c.cost_formula@ == rows.cost_formula@,
        json_list_reading(rows.tie_break@) is Some ==> views(c.tie_break@) == json_list_reading(
            rows.tie_break@,
        )->Some_0,
        json_list_reading(rows.tie_break@) is None ==> c.tie_break@.len() == 0,
        forall|n: Seq<char>| #[trigger]
            c.hard_requirements@.contains_key(n) ==> pairs(
                rows.hard_requirements,
                n,
                c.hard_requirements@[n]@,
            ),
        forall|n: Seq<char>, a: Seq<char>| #[trigger]
            pairs(rows.hard_requirements, n, a) ==> c.hard_requirements@.contains_key(n),
        c.home_service is Some <==> rows.home is Some,
        rows.home is Some ==> {
            let h = c.home_service->Some_0;
            &&& h.allowed_service@ == rows.home->Some_0.allowed_service@
            &&& h.reason@ == rows.home->Some_0.reason@
            &&& forall|m: Seq<char>| #[trigger]
                h.allowed_mobility@.contains(m) == lists(rows.home_mobility, m)
            &&& holds_slots(rows.home_slots, h.slots)
        },
{
    assert(views(c.tie_break@).len() == c.tie_break@.len());
    assert(c@.tie_break == views(c.tie_break@));
    let all = rows@.hard_requirements;
    let table = pair_table(all);
    lemma_pair_table(all);
    assert forall|n: Seq<char>| #[trigger] c.hard_requirements@.contains_key(n) implies pairs(
        rows.hard_requirements,
        n,
        c.hard_requirements@[n]@,
    ) by {
        assert(c@.hard_requirements.contains_key(n));
        assert(c@.hard_requirements[n] == c.hard_requirements@[n]@);
        assert(table.contains_key(n));
        lemma_pairs(rows.hard_requirements, n, table[n]);
    }
    assert forall|n: Seq<char>, a: Seq<char>| #[trigger]
        pairs(rows.hard_requirements, n, a) implies c.hard_requirements@.contains_key(n) by {
        lemma_pairs(rows.hard_requirements, n, a);
        assert(all.contains((n, a)));
        assert(table.contains_key((n, a).0));
        assert(c@.hard_requirements.contains_key(n));
    }
    if rows.home is Some {
        let h = c.home_service->Some_0;
        assert(rows@.home == Some(rows.home->Some_0@));
        assert(c@.home_service is Some);
        assert(c@.home_service == Some(h@));
        assert forall|m: Seq<char>| #[trigger]
            h.allowed_mobility@.contains(m) == lists(rows.home_mobility, m) by {
            lemma_lists(rows.home_mobility, m);
            assert(rows@.home_mobility.to_set().contains(m) == rows@.home_mobility.contains(m));
        }
        lemma_slots(rows.home_slots, h.slots);
    } else {
        assert(rows@.home is None);
    }
}

/// Rows hold a catalog if and only if the texts of all instants can be read.
pub proof fn law_readable_rows_hold_a_catalog(version: Seq<char>, rows: CatalogRows)
    ensures
        built(version, rows@) is Ok <==> {
            &&& forall|i: int|
                0 <= i < rows.closures@.len() ==> rfc3339_reading(
                    (#[trigger] rows.closures@[i]).from_ts@,
                ) is Ok && rfc3339_reading(rows.closures@[i].to_ts@) is Ok
            &&& forall|i: int|
                0 <= i < rows.degradations@.len() ==> rfc3339_reading(
                    (#[trigger] rows.degradations@[i]).from_ts@,
                ) is Ok && rfc3339_reading(rows.degradations@[i].to_ts@) is Ok
        },
{
    lemma_closures_in(rows@.closures);
    lemma_degradations_in(rows@.degradations);
    if built(version, rows@) is Ok {
        assert forall|i: int| 0 <= i < rows.closures@.len() implies rfc3339_reading(
            (#[trigger] rows.closures@[i]).from_ts@,
        ) is Ok && rfc3339_reading(rows.closures@[i].to_ts@) is Ok by {
            assert(rows@.closures[i] == rows.closures@[i]@);
            assert(closure_in(rows@.closures[i]) is Ok);
        }
        assert forall|i: int| 0 <= i < rows.degradations@.len() implies rfc3339_reading(
            (#[trigger] rows.degradations@[i]).from_ts@,
        ) is Ok && rfc3339_reading(rows.degradations@[i].to_ts@) is Ok by {
            assert(rows@.degradations[i] == rows.degradations@[i]@);
            assert(degradation_in(rows@.degradations[i]) is Ok);
        }
    } else {
        if closures_in(rows@.closures) is Err {
            let i = choose|i: int|
                0 <= i < rows@.closures.len() && closure_in(#[trigger] rows@.closures[i]) is Err;
            assert(rows@.closures[i] == rows.closures@[i]@);
        } else {
            let i = choose|i: int|
                0 <= i < rows@.degradations.len() && degradation_in(
                    #[trigger] rows@.degradations[i],
                ) is Err;
            assert(rows@.degradations[i] == rows.degradations@[i]@);
        }
    }
}

} // verus!
