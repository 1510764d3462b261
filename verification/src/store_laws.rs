//! What holds of stored catalogs.

use crate::catalog::ClosureModel;
use crate::grouping::{grouped, lemma_entry_added, lemma_entry_replaced, lemma_grouped, Placed};
use crate::instant::{no_later, rfc3339_reading, within};
use crate::model::{CatalogModel, Closure, Degradation, DegradationModel, HomeSlotModel};
use crate::model_laws::lemma_groups_agree;
use crate::order::{
    in_order, law_sorted_ignores_input_order, lemma_mapped_multiset, Order,
};
use crate::planner::{closures_of, degradations_of};
use crate::rows::{
    built, built_points, closure_in, closures_in, degradation_in, degradations_in, pair_table,
    row_table, values_of, ClosureRowModel, DegradationRowModel, PointRowModel, RowsModel,
};
use crate::store::{clamped, imported, loaded, rebuilt, StoreModel};
use vstd::prelude::*;

verus! {

/// The same rows, each list in its own order.
pub open spec fn same_rows(a: RowsModel, b: RowsModel) -> bool {
    &&& a.cost_formula == b.cost_formula
    &&& a.tie_break == b.tie_break
    &&& a.points.to_multiset() == b.points.to_multiset()
    &&& a.services.to_multiset() == b.services.to_multiset()
    &&& a.access.to_multiset() == b.access.to_multiset()
    &&& a.hard_requirements.to_multiset() == b.hard_requirements.to_multiset()
    &&& a.closures.to_multiset() == b.closures.to_multiset()
    &&& a.degradations.to_multiset() == b.degradations.to_multiset()
    &&& a.home == b.home
    &&& a.home_mobility.to_multiset() == b.home_mobility.to_multiset()
    &&& a.home_slots.to_multiset() == b.home_slots.to_multiset()
}

/// No two rows of a table share the key of the table.
pub open spec fn keyed_rows(rows: RowsModel) -> bool {
    &&& forall|x: PointRowModel, y: PointRowModel|
        rows.points.contains(x) && rows.points.contains(y) && x.id == y.id ==> x == y
    &&& forall|x: (Seq<char>, Seq<char>), y: (Seq<char>, Seq<char>)|
        rows.hard_requirements.contains(x) && rows.hard_requirements.contains(y) && x.0 == y.0
            ==> x == y
    &&& forall|x: ClosureRowModel, y: ClosureRowModel|
        rows.closures.contains(x) && rows.closures.contains(y) && x.event_id == y.event_id ==> x
            == y
    &&& forall|x: DegradationRowModel, y: DegradationRowModel|
        rows.degradations.contains(x) && rows.degradations.contains(y) && x.event_id == y.event_id
            ==> x == y
    &&& forall|x: HomeSlotModel, y: HomeSlotModel|
        rows.home_slots.contains(x) && rows.home_slots.contains(y) && x.slot_id == y.slot_id ==> x
            == y
}

proof fn lemma_same_members<A>(a: Seq<A>, b: Seq<A>, x: A)
    requires
        a.to_multiset() == b.to_multiset(),
    ensures
        a.contains(x) == b.contains(x),
{
    broadcast use vstd::seq_lib::group_to_multiset_ensures;

    assert(a.contains(x) == (a.to_multiset().count(x) > 0));
    assert(b.contains(x) == (b.to_multiset().count(x) > 0));
}

pub proof fn lemma_row_table(rows: Seq<PointRowModel>)
    ensures
        forall|id: Seq<char>| #[trigger]
            row_table(rows).contains_key(id) ==> rows.contains(row_table(rows)[id]) && row_table(
                rows,
            )[id].id == id,
        forall|x: PointRowModel| #[trigger]
            rows.contains(x) ==> row_table(rows).contains_key(x.id),
    decreases rows.len(),
{
    if rows.len() > 0 {
        let front = rows.drop_last();
        lemma_row_table(front);
        assert forall|id: Seq<char>| #[trigger] row_table(rows).contains_key(id) implies
            rows.contains(row_table(rows)[id]) && row_table(rows)[id].id == id by {
            if id == rows.last().id {
                assert(rows[rows.len() - 1] == rows.last());
            } else {
                let x = row_table(front)[id];
                assert(row_table(front).contains_key(id));
                assert(front.contains(x));
                let i = choose|i: int| 0 <= i < front.len() && front[i] == x;
                assert(rows[i] == x);
            }
        }
        assert forall|x: PointRowModel| #[trigger] rows.contains(x) implies row_table(
            rows,
        ).contains_key(x.id) by {
            let i = choose|i: int| 0 <= i < rows.len() && rows[i] == x;
            if i < front.len() {
                assert(front[i] == x);
                assert(front.contains(x));
            }
        }
    }
}

pub proof fn lemma_pair_table(pairs: Seq<(Seq<char>, Seq<char>)>)
    ensures
        forall|k: Seq<char>| #[trigger]
            pair_table(pairs).contains_key(k) ==> pairs.contains((k, pair_table(pairs)[k])),
        forall|x: (Seq<char>, Seq<char>)| #[trigger]
            pairs.contains(x) ==> pair_table(pairs).contains_key(x.0),
    decreases pairs.len(),
{
    if pairs.len() > 0 {
        let front = pairs.drop_last();
        lemma_pair_table(front);
        assert forall|k: Seq<char>| #[trigger] pair_table(pairs).contains_key(k) implies
            pairs.contains((k, pair_table(pairs)[k])) by {
            if k == pairs.last().0 {
                assert(pairs[pairs.len() - 1] == (k, pair_table(pairs)[k]));
            } else {
                let x = (k, pair_table(front)[k]);
                assert(pair_table(front).contains_key(k));
                assert(front.contains(x));
                let i = choose|i: int| 0 <= i < front.len() && front[i] == x;
                assert(pairs[i] == x);
            }
        }
        assert forall|x: (Seq<char>, Seq<char>)| #[trigger] pairs.contains(x) implies pair_table(
            pairs,
        ).contains_key(x.0) by {
            let i = choose|i: int| 0 <= i < pairs.len() && pairs[i] == x;
            if i < front.len() {
                assert(front[i] == x);
                assert(front.contains(x));
            }
        }
    }
}

proof fn lemma_points_agree(a: RowsModel, b: RowsModel)
    requires
        same_rows(a, b),
        keyed_rows(a),
    ensures
        built_points(a) == built_points(b),
{
    lemma_row_table(a.points);
    lemma_row_table(b.points);
    let s = row_table(a.points);
    let t = row_table(b.points);
    assert forall|id: Seq<char>| #[trigger] s.contains_key(id) == t.contains_key(id) by {
        if s.contains_key(id) {
            lemma_same_members(a.points, b.points, s[id]);
            assert(b.points.contains(s[id]));
        }
        if t.contains_key(id) {
            lemma_same_members(a.points, b.points, t[id]);
            assert(a.points.contains(t[id]));
        }
    }
    assert forall|id: Seq<char>| #[trigger] s.contains_key(id) implies s[id] == t[id] by {
        assert(t.contains_key(id));
        lemma_same_members(a.points, b.points, t[id]);
    }
    assert forall|id: Seq<char>| #[trigger] values_of(a.services, id) == values_of(
        b.services,
        id,
    ) by {
        assert forall|v: Seq<char>| values_of(a.services, id).contains(v) == values_of(
            b.services,
            id,
        ).contains(v) by {
            lemma_same_members(a.services, b.services, (id, v));
        }
        assert(values_of(a.services, id) =~= values_of(b.services, id));
    }
    assert forall|id: Seq<char>| #[trigger] values_of(a.access, id) == values_of(b.access, id) by {
        assert forall|v: Seq<char>| values_of(a.access, id).contains(v) == values_of(
            b.access,
            id,
        ).contains(v) by {
            lemma_same_members(a.access, b.access, (id, v));
        }
        assert(values_of(a.access, id) =~= values_of(b.access, id));
    }
    assert forall|id: Seq<char>| #[trigger] built_points(a).contains_key(id) implies built_points(
        a,
    )[id] == built_points(b)[id] by {
        assert(s.contains_key(id));
        assert(values_of(a.services, id) == values_of(b.services, id));
        assert(values_of(a.access, id) == values_of(b.access, id));
    }
    assert forall|id: Seq<char>| #[trigger] built_points(a).contains_key(id) == built_points(
        b,
    ).contains_key(id) by {
        assert(s.contains_key(id) == t.contains_key(id));
    }
    assert(built_points(a) =~= built_points(b));
}

proof fn lemma_pairs_agree(a: Seq<(Seq<char>, Seq<char>)>, b: Seq<(Seq<char>, Seq<char>)>)
    requires
        a.to_multiset() == b.to_multiset(),
        forall|x: (Seq<char>, Seq<char>), y: (Seq<char>, Seq<char>)|
            a.contains(x) && a.contains(y) && x.0 == y.0 ==> x == y,
    ensures
        pair_table(a) == pair_table(b),
{
    lemma_pair_table(a);
    lemma_pair_table(b);
    let s = pair_table(a);
    let t = pair_table(b);
    assert forall|k: Seq<char>| #[trigger] s.contains_key(k) == t.contains_key(k) by {
        if s.contains_key(k) {
            lemma_same_members(a, b, (k, s[k]));
            assert(b.contains((k, s[k])));
        }
        if t.contains_key(k) {
            lemma_same_members(a, b, (k, t[k]));
            assert(a.contains((k, t[k])));
        }
    }
    assert forall|k: Seq<char>| #[trigger] s.contains_key(k) implies s[k] == t[k] by {
        assert(t.contains_key(k));
        lemma_same_members(a, b, (k, t[k]));
        assert(a.contains((k, s[k])) && a.contains((k, t[k])));
    }
    assert(s =~= t);
}

/// Rows that can all be read hold one closure each.
pub proof fn lemma_closures_in(rows: Seq<ClosureRowModel>)
    ensures
        closures_in(rows) is Ok <==> forall|i: int|
            0 <= i < rows.len() ==> closure_in(#[trigger] rows[i]) is Ok,
        closures_in(rows) is Ok ==> closures_in(rows)->Ok_0.len() == rows.len() && forall|i: int|
            0 <= i < rows.len() ==> closure_in(#[trigger] rows[i])->Ok_0 == closures_in(
                rows,
            )->Ok_0[i],
    decreases rows.len(),
{
    if rows.len() > 0 {
        let front = rows.drop_last();
        lemma_closures_in(front);
        if closures_in(rows) is Ok {
            assert forall|i: int| 0 <= i < rows.len() implies closure_in(
                #[trigger] rows[i],
            ) is Ok && closure_in(rows[i])->Ok_0 == closures_in(rows)->Ok_0[i] by {
                if i < front.len() {
                    assert(front[i] == rows[i]);
                    assert(closure_in(front[i]) is Ok);
                }
            }
        }
        if forall|i: int| 0 <= i < rows.len() ==> closure_in(#[trigger] rows[i]) is Ok {
            assert forall|i: int| 0 <= i < front.len() implies closure_in(
                #[trigger] front[i],
            ) is Ok by {
                assert(front[i] == rows[i]);
            }
            assert(closure_in(rows[rows.len() - 1]) is Ok);
        }
    }
}

/// Rows that can all be read hold one degradation each.
pub proof fn lemma_degradations_in(rows: Seq<DegradationRowModel>)
    ensures
        degradations_in(rows) is Ok <==> forall|i: int|
            0 <= i < rows.len() ==> degradation_in(#[trigger] rows[i]) is Ok,
        degradations_in(rows) is Ok ==> degradations_in(rows)->Ok_0.len() == rows.len() && forall|
            i: int,
        |
            0 <= i < rows.len() ==> degradation_in(#[trigger] rows[i])->Ok_0 == degradations_in(
                rows,
            )->Ok_0[i],
    decreases rows.len(),
{
    if rows.len() > 0 {
        let front = rows.drop_last();
        lemma_degradations_in(front);
        if degradations_in(rows) is Ok {
            assert forall|i: int| 0 <= i < rows.len() implies degradation_in(
                #[trigger] rows[i],
            ) is Ok && degradation_in(rows[i])->Ok_0 == degradations_in(rows)->Ok_0[i] by {
                if i < front.len() {
                    assert(front[i] == rows[i]);
                    assert(degradation_in(front[i]) is Ok);
                }
            }
        }
        if forall|i: int| 0 <= i < rows.len() ==> degradation_in(#[trigger] rows[i]) is Ok {
            assert forall|i: int| 0 <= i < front.len() implies degradation_in(
                #[trigger] front[i],
            ) is Ok by {
                assert(front[i] == rows[i]);
            }
            assert(degradation_in(rows[rows.len() - 1]) is Ok);
        }
    }
}

proof fn lemma_closures_agree(a: Seq<ClosureRowModel>, b: Seq<ClosureRowModel>)
    requires
        a.to_multiset() == b.to_multiset(),
        closures_in(a) is Ok,
        forall|x: ClosureRowModel, y: ClosureRowModel|
            a.contains(x) && a.contains(y) && x.event_id == y.event_id ==> x == y,
    ensures
        closures_in(b) is Ok,
        grouped::<Closure>(closures_in(a)->Ok_0) == grouped::<Closure>(closures_in(b)->Ok_0),
{
    lemma_closures_in(a);
    lemma_closures_in(b);
    let read = |row: ClosureRowModel| closure_in(row)->Ok_0;
    assert forall|i: int| 0 <= i < b.len() implies closure_in(#[trigger] b[i]) is Ok by {
        lemma_same_members(a, b, b[i]);
        assert(b.contains(b[i]));
        let j = choose|j: int| 0 <= j < a.len() && a[j] == b[i];
        assert(closure_in(a[j]) is Ok);
    }
    let x = closures_in(a)->Ok_0;
    let y = closures_in(b)->Ok_0;
    assert(x =~= a.map_values(read));
    assert(y =~= b.map_values(read));
    lemma_mapped_multiset(a, b, read);
    assert forall|p: ClosureModel, q: ClosureModel|
        x.contains(p) && x.contains(q) && <Closure as Placed>::place(p) == <Closure as Placed>::place(
            q,
        ) && #[trigger] p.at_most(q) && q.at_most(p) implies p == q by {
        let i = choose|i: int| 0 <= i < x.len() && x[i] == p;
        let j = choose|j: int| 0 <= j < x.len() && x[j] == q;
        crate::text::lemma_text_at_most_antisymmetric(p.event_id, q.event_id);
        assert(closure_in(a[i])->Ok_0 == p && closure_in(a[j])->Ok_0 == q);
        assert(closure_in(a[i]) is Ok && closure_in(a[j]) is Ok);
        assert(a.contains(a[i]) && a.contains(a[j]));
        assert(a[i].event_id == a[j].event_id);
    }
    lemma_groups_agree::<Closure>(x, y);
}

proof fn lemma_degradations_agree(a: Seq<DegradationRowModel>, b: Seq<DegradationRowModel>)
    requires
        a.to_multiset() == b.to_multiset(),
        degradations_in(a) is Ok,
        forall|x: DegradationRowModel, y: DegradationRowModel|
            a.contains(x) && a.contains(y) && x.event_id == y.event_id ==> x == y,
    ensures
        degradations_in(b) is Ok,
        grouped::<Degradation>(degradations_in(a)->Ok_0) == grouped::<Degradation>(
            degradations_in(b)->Ok_0,
        ),
{
    lemma_degradations_in(a);
    lemma_degradations_in(b);
    let read = |row: DegradationRowModel| degradation_in(row)->Ok_0;
    assert forall|i: int| 0 <= i < b.len() implies degradation_in(#[trigger] b[i]) is Ok by {
        lemma_same_members(a, b, b[i]);
        assert(b.contains(b[i]));
        let j = choose|j: int| 0 <= j < a.len() && a[j] == b[i];
        assert(degradation_in(a[j]) is Ok);
    }
    let x = degradations_in(a)->Ok_0;
    let y = degradations_in(b)->Ok_0;
    assert(x =~= a.map_values(read));
    assert(y =~= b.map_values(read));
    lemma_mapped_multiset(a, b, read);
    assert forall|p: DegradationModel, q: DegradationModel|
        x.contains(p) && x.contains(q) && <Degradation as Placed>::place(p) == <Degradation as Placed>::place(
            q,
        ) && #[trigger] p.at_most(q) && q.at_most(p) implies p == q by {
        let i = choose|i: int| 0 <= i < x.len() && x[i] == p;
        let j = choose|j: int| 0 <= j < x.len() && x[j] == q;
        crate::text::lemma_text_at_most_antisymmetric(p.event_id, q.event_id);
        assert(degradation_in(a[i])->Ok_0 == p && degradation_in(a[j])->Ok_0 == q);
        assert(degradation_in(a[i]) is Ok && degradation_in(a[j]) is Ok);
        assert(a.contains(a[i]) && a.contains(a[j]));
        assert(a[i].event_id == a[j].event_id);
    }
    lemma_groups_agree::<Degradation>(x, y);
}

/// The order in which rows are read does not show in the catalog that they
/// hold, where the keys of the tables are kept and the instants can be read.
pub proof fn law_row_order_does_not_show(version: Seq<char>, a: RowsModel, b: RowsModel)
    requires
        same_rows(a, b),
        keyed_rows(a),
        built(version, a) is Ok,
    ensures
        built(version, b) == built(version, a),
{
    lemma_points_agree(a, b);
    lemma_pairs_agree(a.hard_requirements, b.hard_requirements);
    lemma_closures_agree(a.closures, b.closures);
    lemma_degradations_agree(a.degradations, b.degradations);
    assert forall|m: Seq<char>| a.home_mobility.to_set().contains(m)
        == b.home_mobility.to_set().contains(m) by {
        lemma_same_members(a.home_mobility, b.home_mobility, m);
        assert(a.home_mobility.to_set().contains(m) == a.home_mobility.contains(m));
        assert(b.home_mobility.to_set().contains(m) == b.home_mobility.contains(m));
    }
    assert(a.home_mobility.to_set() =~= b.home_mobility.to_set());
    assert forall|x: HomeSlotModel, y: HomeSlotModel|
        a.home_slots.contains(x) && a.home_slots.contains(y) && #[trigger] x.at_most(y)
            && y.at_most(x) implies x == y by {
        crate::text::lemma_text_at_most_antisymmetric(x.slot_id, y.slot_id);
    }
    law_sorted_ignores_input_order(a.home_slots, b.home_slots);
}

/// Building a version anew, or taking up an imported one, changes no other
/// version; the version itself is what its rows hold.
pub proof fn law_other_versions_are_kept(
    state: StoreModel,
    version: Seq<char>,
    rows: RowsModel,
    activate: bool,
    other: Seq<char>,
)
    requires
        built(version, rows) is Ok,
        other != version,
    ensures
        rebuilt(state, version, rows) is Ok,
        imported(state, version, rows, activate) is Ok,
        rebuilt(state, version, rows)->Ok_0.versions[version] == built(version, rows)->Ok_0,
        imported(state, version, rows, activate)->Ok_0.versions[version] == built(
            version,
            rows,
        )->Ok_0,
        rebuilt(state, version, rows)->Ok_0.versions.contains_key(other)
            == state.versions.contains_key(other),
        imported(state, version, rows, activate)->Ok_0.versions.contains_key(other)
            == state.versions.contains_key(other),
        state.versions.contains_key(other) ==> rebuilt(state, version, rows)->Ok_0.versions[other]
            == state.versions[other],
        state.versions.contains_key(other) ==> imported(
            state,
            version,
            rows,
            activate,
        )->Ok_0.versions[other] == state.versions[other],
        rebuilt(state, version, rows)->Ok_0.active == state.active,
        activate ==> imported(state, version, rows, activate)->Ok_0.active == Some(version),
        !activate ==> imported(state, version, rows, activate)->Ok_0.active == state.active,
{
}

/// A closure whose row is added joins the closures of its point once the version
/// is built anew; everything else in the catalog stays as it was.
pub proof fn law_started_closures_count(version: Seq<char>, rows: RowsModel, row: ClosureRowModel)
    requires
        built(version, rows) is Ok,
        closure_in(row) is Ok,
    ensures
        ({
            let next = RowsModel { closures: rows.closures.push(row), ..rows };
            let before = built(version, rows)->Ok_0;
            let after = built(version, next)->Ok_0;
            &&& built(version, next) is Ok
            &&& after == (CatalogModel { closures_by_point: after.closures_by_point, ..before })
            &&& closures_of(after, row.point_id).to_multiset() == closures_of(
                before,
                row.point_id,
            ).to_multiset().insert(closure_in(row)->Ok_0)
            &&& forall|id: Seq<char>|
                id != row.point_id ==> #[trigger] closures_of(after, id) == closures_of(before, id)
            &&& forall|id: Seq<char>| in_order(#[trigger] closures_of(after, id))
        }),
{
    let next = RowsModel { closures: rows.closures.push(row), ..rows };
    let x = closure_in(row)->Ok_0;
    let had = closures_in(rows.closures)->Ok_0;
    assert(next.closures.drop_last() =~= rows.closures);
    assert(closures_in(next.closures)->Ok_0 == had.push(x));
    let before = built(version, rows)->Ok_0;
    let after = built(version, next)->Ok_0;
    assert forall|id: Seq<char>|
        {
            &&& id != row.point_id ==> #[trigger] closures_of(after, id) == closures_of(before, id)
            &&& id == row.point_id ==> closures_of(after, id).to_multiset() == closures_of(
                before,
                id,
            ).to_multiset().insert(x)
            &&& in_order(closures_of(after, id))
        } by {
        lemma_grouped::<Closure>(had, id);
        lemma_grouped::<Closure>(had.push(x), id);
        lemma_entry_added::<Closure>(had, x, id);
    }
}

/// A degradation whose row is added joins the degradations of its point once the
/// version is built anew; everything else in the catalog stays as it was.
pub proof fn law_started_degradations_count(
    version: Seq<char>,
    rows: RowsModel,
    row: DegradationRowModel,
)
    requires
        built(version, rows) is Ok,
        degradation_in(row) is Ok,
    ensures
        ({
            let next = RowsModel { degradations: rows.degradations.push(row), ..rows };
            let before = built(version, rows)->Ok_0;
            let after = built(version, next)->Ok_0;
            &&& built(version, next) is Ok
            &&& after == (CatalogModel { degradations_by_point: after.degradations_by_point, ..before })
            &&& degradations_of(after, row.point_id).to_multiset() == degradations_of(
                before,
                row.point_id,
            ).to_multiset().insert(degradation_in(row)->Ok_0)
            &&& forall|id: Seq<char>|
                id != row.point_id ==> #[trigger] degradations_of(after, id) == degradations_of(
                    before,
                    id,
                )
            &&& forall|id: Seq<char>| in_order(#[trigger] degradations_of(after, id))
        }),
{
    let next = RowsModel { degradations: rows.degradations.push(row), ..rows };
    let x = degradation_in(row)->Ok_0;
    let had = degradations_in(rows.degradations)->Ok_0;
    assert(next.degradations.drop_last() =~= rows.degradations);
    assert(degradations_in(next.degradations)->Ok_0 == had.push(x));
    let before = built(version, rows)->Ok_0;
    let after = built(version, next)->Ok_0;
    assert forall|id: Seq<char>|
        {
            &&& id != row.point_id ==> #[trigger] degradations_of(after, id) == degradations_of(
                before,
                id,
            )
            &&& id == row.point_id ==> degradations_of(after, id).to_multiset() == degradations_of(
                before,
                id,
            ).to_multiset().insert(x)
            &&& in_order(degradations_of(after, id))
        } by {
        lemma_grouped::<Degradation>(had, id);
        lemma_grouped::<Degradation>(had.push(x), id);
        lemma_entry_added::<Degradation>(had, x, id);
    }
}

/// A closure whose stored end is replaced by the text of `t` lasts until `t` once
/// the version is built anew; everything else in the catalog stays as it was.
pub proof fn law_ended_closures_end(
    version: Seq<char>,
    rows: RowsModel,
    i: int,
    to_ts: Seq<char>,
    t: (int, int),
)
    requires
        built(version, rows) is Ok,
        0 <= i < rows.closures.len(),
        rfc3339_reading(to_ts) is Ok,
        rfc3339_reading(to_ts)->Ok_0 == t,
    ensures
        ({
            let row = rows.closures[i];
            let next = RowsModel {
                closures: rows.closures.update(i, ClosureRowModel { to_ts, ..row }),
                ..rows
            };
            let before = built(version, rows)->Ok_0;
            let after = built(version, next)->Ok_0;
            let event = closure_in(row)->Ok_0;
            &&& closure_in(row) is Ok
            &&& built(version, next) is Ok
            &&& after == (CatalogModel { closures_by_point: after.closures_by_point, ..before })
            &&& closures_of(before, row.point_id).contains(event)
            &&& closures_of(after, row.point_id).to_multiset() == closures_of(
                before,
                row.point_id,
            ).to_multiset().remove(event).insert(ClosureModel { to: t, ..event })
            &&& forall|id: Seq<char>|
                id != row.point_id ==> #[trigger] closures_of(after, id) == closures_of(before, id)
            &&& forall|id: Seq<char>| in_order(#[trigger] closures_of(after, id))
        }),
{
    let row = rows.closures[i];
    let changed = ClosureRowModel { to_ts, ..row };
    let list = rows.closures.update(i, changed);
    let next = RowsModel { closures: list, ..rows };
    let had = closures_in(rows.closures)->Ok_0;
    lemma_closures_in(rows.closures);
    lemma_closures_in(list);
    assert(closure_in(rows.closures[i]) is Ok);
    let event = closure_in(row)->Ok_0;
    let x = ClosureModel { to: t, ..event };
    assert(closure_in(changed) is Ok && closure_in(changed)->Ok_0 == x);
    assert forall|j: int| 0 <= j < list.len() implies closure_in(#[trigger] list[j]) is Ok by {
        if j != i {
            assert(closure_in(rows.closures[j]) is Ok);
        }
    }
    let now = closures_in(list)->Ok_0;
    assert forall|j: int| 0 <= j < list.len() implies #[trigger] now[j] == had.update(i, x)[j] by {
        assert(closure_in(list[j])->Ok_0 == now[j]);
        if j != i {
            assert(closure_in(rows.closures[j])->Ok_0 == had[j]);
        }
    }
    assert(now =~= had.update(i, x));
    assert(had[i] == event);
    let before = built(version, rows)->Ok_0;
    let after = built(version, next)->Ok_0;
    assert forall|id: Seq<char>|
        {
            &&& id != row.point_id ==> #[trigger] closures_of(after, id) == closures_of(before, id)
            &&& id == row.point_id ==> closures_of(before, id).contains(event) && closures_of(
                after,
                id,
            ).to_multiset() == closures_of(before, id).to_multiset().remove(event).insert(x)
            &&& in_order(closures_of(after, id))
        } by {
        lemma_grouped::<Closure>(had, id);
        lemma_grouped::<Closure>(now, id);
        lemma_entry_replaced::<Closure>(had, i, x, id);
    }
    assert(in_order(closures_of(after, row.point_id)));
}

/// A degradation whose stored end is replaced by the text of `t` lasts until `t`
/// once the version is built anew; everything else in the catalog stays as it
/// was.
pub proof fn law_ended_degradations_end(
    version: Seq<char>,
    rows: RowsModel,
    i: int,
    to_ts: Seq<char>,
    t: (int, int),
)
    requires
        built(version, rows) is Ok,
        0 <= i < rows.degradations.len(),
        rfc3339_reading(to_ts) is Ok,
        rfc3339_reading(to_ts)->Ok_0 == t,
    ensures
        ({
            let row = rows.degradations[i];
            let next = RowsModel {
                degradations: rows.degradations.update(i, DegradationRowModel { to_ts, ..row }),
                ..rows
            };
            let before = built(version, rows)->Ok_0;
            let after = built(version, next)->Ok_0;
            let event = degradation_in(row)->Ok_0;
            &&& degradation_in(row) is Ok
            &&& built(version, next) is Ok
            &&& after == (CatalogModel { degradations_by_point: after.degradations_by_point, ..before })
            &&& degradations_of(before, row.point_id).contains(event)
            &&& degradations_of(after, row.point_id).to_multiset() == degradations_of(
                before,
                row.point_id,
            ).to_multiset().remove(event).insert(DegradationModel { to: t, ..event })
            &&& forall|id: Seq<char>|
                id != row.point_id ==> #[trigger] degradations_of(after, id) == degradations_of(
                    before,
                    id,
                )
            &&& forall|id: Seq<char>| in_order(#[trigger] degradations_of(after, id))
        }),
{
    let row = rows.degradations[i];
    let changed = DegradationRowModel { to_ts, ..row };
    let list = rows.degradations.update(i, changed);
    let next = RowsModel { degradations: list, ..rows };
    let had = degradations_in(rows.degradations)->Ok_0;
    lemma_degradations_in(rows.degradations);
    lemma_degradations_in(list);
    assert(degradation_in(rows.degradations[i]) is Ok);
    let event = degradation_in(row)->Ok_0;
    let x = DegradationModel { to: t, ..event };
    assert(degradation_in(changed) is Ok && degradation_in(changed)->Ok_0 == x);
    assert forall|j: int| 0 <= j < list.len() implies degradation_in(#[trigger] list[j]) is Ok by {
        if j != i {
            assert(degradation_in(rows.degradations[j]) is Ok);
        }
    }
    let now = degradations_in(list)->Ok_0;
    assert forall|j: int| 0 <= j < list.len() implies #[trigger] now[j] == had.update(i, x)[j] by {
        assert(degradation_in(list[j])->Ok_0 == now[j]);
        if j != i {
            assert(degradation_in(rows.degradations[j])->Ok_0 == had[j]);
        }
    }
    assert(now =~= had.update(i, x));
    assert(had[i] == event);
    let before = built(version, rows)->Ok_0;
    let after = built(version, next)->Ok_0;
    assert forall|id: Seq<char>|
        {
            &&& id != row.point_id ==> #[trigger] degradations_of(after, id) == degradations_of(
                before,
                id,
            )
            &&& id == row.point_id ==> degradations_of(before, id).contains(event) && degradations_of(
                after,
                id,
            ).to_multiset() == degradations_of(before, id).to_multiset().remove(event).insert(x)
            &&& in_order(degradations_of(after, id))
        } by {
        lemma_grouped::<Degradation>(had, id);
        lemma_grouped::<Degradation>(now, id);
        lemma_entry_replaced::<Degradation>(had, i, x, id);
    }
    assert(in_order(degradations_of(after, row.point_id)));
}

/// An event that is ended at an instant is not in force from that instant on,
/// and is in force before it as it was, if it had not ended already.
pub proof fn law_ended_events_are_over(
    from: (int, int),
    to: (int, int),
    at: (int, int),
    when: (int, int),
)
    ensures
        no_later(at, when) ==> !within(from, clamped(from, at), when),
        !no_later(at, when) && no_later(at, to) ==> within(from, clamped(from, at), when)
            == within(from, to, when),
        no_later(from, clamped(from, at)),
{
}

/// What is stored: the rows of every version, and which version is active.
pub struct DatabaseModel {
    pub versions: Map<Seq<char>, RowsModel>,
    pub active: Option<Seq<char>>,
}

/// Every version in memory is what its stored rows hold, and the same version
/// is active.
pub open spec fn mirrors(state: StoreModel, db: DatabaseModel) -> bool {
    &&& state.active == db.active
    &&& state.versions.dom() == db.versions.dom()
    &&& forall|v: Seq<char>| #[trigger]
        db.versions.contains_key(v) ==> {
            &&& keyed_rows(db.versions[v])
            &&& built(v, db.versions[v]) is Ok
            &&& built(v, db.versions[v])->Ok_0 == state.versions[v]
        }
}

/// A listing of all that is stored, in whatever order versions and rows come.
pub open spec fn lists(entries: Seq<(Seq<char>, RowsModel)>, db: DatabaseModel) -> bool {
    &&& forall|i: int|
        0 <= i < entries.len() ==> db.versions.contains_key((#[trigger] entries[i]).0) && same_rows(
            db.versions[entries[i].0],
            entries[i].1,
        )
    &&& forall|v: Seq<char>| #[trigger]
        db.versions.contains_key(v) ==> exists|i: int|
            0 <= i < entries.len() && (#[trigger] entries[i]).0 == v
}

proof fn lemma_loaded(entries: Seq<(Seq<char>, RowsModel)>, state: StoreModel, db: DatabaseModel)
    requires
        mirrors(state, db),
        forall|i: int|
            0 <= i < entries.len() ==> db.versions.contains_key((#[trigger] entries[i]).0)
                && same_rows(db.versions[entries[i].0], entries[i].1),
    ensures
        loaded(entries) is Ok,
        forall|v: Seq<char>| #[trigger]
            loaded(entries)->Ok_0.contains_key(v) <==> exists|i: int|
                0 <= i < entries.len() && (#[trigger] entries[i]).0 == v,
        forall|v: Seq<char>| #[trigger]
            loaded(entries)->Ok_0.contains_key(v) ==> loaded(entries)->Ok_0[v]
                == state.versions[v],
    decreases entries.len(),
{
    if entries.len() > 0 {
        let front = entries.drop_last();
        let last = entries[entries.len() - 1];
        assert forall|i: int| 0 <= i < front.len() implies db.versions.contains_key(
            (#[trigger] front[i]).0,
        ) && same_rows(db.versions[front[i].0], front[i].1) by {
            assert(front[i] == entries[i]);
        }
        lemma_loaded(front, state, db);
        assert(db.versions.contains_key(last.0));
        law_row_order_does_not_show(last.0, db.versions[last.0], last.1);
        let before = loaded(front)->Ok_0;
        let after = loaded(entries)->Ok_0;
        assert(after == before.insert(last.0, state.versions[last.0]));
        assert forall|v: Seq<char>| #[trigger] after.contains_key(v) <==> exists|i: int|
            0 <= i < entries.len() && (#[trigger] entries[i]).0 == v by {
            if before.contains_key(v) {
                let i = choose|i: int| 0 <= i < front.len() && (#[trigger] front[i]).0 == v;
                assert(entries[i].0 == v);
            }
            if exists|i: int| 0 <= i < entries.len() && (#[trigger] entries[i]).0 == v {
                let i = choose|i: int| 0 <= i < entries.len() && (#[trigger] entries[i]).0 == v;
                if i < front.len() {
                    assert(front[i].0 == v);
                }
            }
        }
    }
}

/// Reading everything back changes nothing: where memory mirrors what is
/// stored, the versions that are loaded from a listing of it are those that
/// are in memory.
pub proof fn law_reloading_changes_nothing(
    entries: Seq<(Seq<char>, RowsModel)>,
    state: StoreModel,
    db: DatabaseModel,
)
    requires
        mirrors(state, db),
        lists(entries, db),
    ensures
        loaded(entries) is Ok,
        loaded(entries)->Ok_0 == state.versions,
        db.active == state.active,
{
    lemma_loaded(entries, state, db);
    let found = loaded(entries)->Ok_0;
    assert forall|v: Seq<char>| found.contains_key(v) == state.versions.contains_key(v) by {
        assert(state.versions.dom().contains(v) == db.versions.dom().contains(v));
        if found.contains_key(v) {
            let i = choose|i: int| 0 <= i < entries.len() && (#[trigger] entries[i]).0 == v;
            assert(db.versions.contains_key(entries[i].0));
        }
        if state.versions.contains_key(v) {
            assert(db.versions.contains_key(v));
        }
    }
    assert(found =~= state.versions);
}

/// A change of what is stored: a version is imported, the rows of a version
/// are rewritten because an event starts or ends, or a version is activated.
pub enum Change {
    Import { version: Seq<char>, rows: RowsModel, activate: bool },
    Rewrite { version: Seq<char>, rows: RowsModel },
    Activate { version: Seq<char> },
}

/// The store after a change, if the change succeeds.
pub open spec fn followed(state: StoreModel, change: Change) -> Option<StoreModel> {
    match change {
        Change::Import { version, rows, activate } => match imported(
            state,
            version,
            rows,
            activate,
        ) {
            Ok(next) => Some(next),
            Err(_) => None,
        },
        Change::Rewrite { version, rows } => match rebuilt(state, version, rows) {
            Ok(next) => Some(next),
            Err(_) => None,
        },
        Change::Activate { version } => if state.versions.contains_key(version) {
            Some(StoreModel { versions: state.versions, active: Some(version) })
        } else {
            None
        },
    }
}

/// What is stored after a change.
pub open spec fn written(db: DatabaseModel, change: Change) -> DatabaseModel {
    match change {
        Change::Import { version, rows, activate } => DatabaseModel {
            versions: db.versions.insert(version, rows),
            active: if activate {
                Some(version)
            } else {
                db.active
            },
        },
        Change::Rewrite { version, rows } => DatabaseModel {
            versions: db.versions.insert(version, rows),
            active: db.active,
        },
        Change::Activate { version } => DatabaseModel {
            versions: db.versions,
            active: Some(version),
        },
    }
}

/// The keys of the tables are kept by a change.
pub open spec fn keeps_keys(change: Change) -> bool {
    match change {
        Change::Import { version, rows, activate } => keyed_rows(rows),
        Change::Rewrite { version, rows } => keyed_rows(rows),
        Change::Activate { version } => true,
    }
}

/// Memory goes on mirroring what is stored through every change that succeeds.
pub proof fn law_changes_are_mirrored(state: StoreModel, db: DatabaseModel, change: Change)
    requires
        mirrors(state, db),
        keeps_keys(change),
        followed(state, change) is Some,
    ensures
        mirrors(followed(state, change)->Some_0, written(db, change)),
{
    let next = followed(state, change)->Some_0;
    let stored = written(db, change);
    assert(next.versions.dom() =~= stored.versions.dom());
    assert forall|v: Seq<char>| #[trigger] stored.versions.contains_key(v) implies keyed_rows(
        stored.versions[v],
    ) && built(v, stored.versions[v]) is Ok && built(v, stored.versions[v])->Ok_0
        == next.versions[v] by {
        if db.versions.contains_key(v) {
            assert(keyed_rows(db.versions[v]));
        }
    }
}

/// The store after a series of changes, if all of them succeed.
pub open spec fn followed_all(state: StoreModel, changes: Seq<Change>) -> Option<StoreModel>
    decreases changes.len(),
{
    if changes.len() == 0 {
        Some(state)
    } else {
        match followed_all(state, changes.drop_last()) {
            Some(before) => followed(before, changes.last()),
            None => None,
        }
    }
}

/// What is stored after a series of changes.
pub open spec fn written_all(db: DatabaseModel, changes: Seq<Change>) -> DatabaseModel
    decreases changes.len(),
{
    if changes.len() == 0 {
        db
    } else {
        written(written_all(db, changes.drop_last()), changes.last())
    }
}

/// After any series of changes that succeed, the store that is built anew from
/// what is stored is the store as it was.
pub proof fn law_stores_survive_a_restart(
    state: StoreModel,
    db: DatabaseModel,
    changes: Seq<Change>,
    entries: Seq<(Seq<char>, RowsModel)>,
)
    requires
        mirrors(state, db),
        forall|i: int| 0 <= i < changes.len() ==> keeps_keys(#[trigger] changes[i]),
        followed_all(state, changes) is Some,
        lists(entries, written_all(db, changes)),
    ensures
        loaded(entries) is Ok,
        followed_all(state, changes)->Some_0 == (StoreModel {
            versions: loaded(entries)->Ok_0,
            active: written_all(db, changes).active,
        }),
{
    lemma_series_is_mirrored(state, db, changes);
    law_reloading_changes_nothing(
        entries,
        followed_all(state, changes)->Some_0,
        written_all(db, changes),
    );
}

proof fn lemma_series_is_mirrored(state: StoreModel, db: DatabaseModel, changes: Seq<Change>)
    requires
        mirrors(state, db),
        forall|i: int| 0 <= i < changes.len() ==> keeps_keys(#[trigger] changes[i]),
        followed_all(state, changes) is Some,
    ensures
        mirrors(followed_all(state, changes)->Some_0, written_all(db, changes)),
    decreases changes.len(),
{
    if changes.len() > 0 {
        let front = changes.drop_last();
        assert forall|i: int| 0 <= i < front.len() implies keeps_keys(#[trigger] front[i]) by {
            assert(front[i] == changes[i]);
        }
        lemma_series_is_mirrored(state, db, front);
        assert(keeps_keys(changes[changes.len() - 1]));
        law_changes_are_mirrored(
            followed_all(state, front)->Some_0,
            written_all(db, front),
            changes.last(),
        );
    }
}

/// An empty store mirrors an empty database.
pub proof fn law_empty_stores_are_mirrored(state: StoreModel, db: DatabaseModel)
    requires
        state.versions == Map::<Seq<char>, CatalogModel>::empty(),
        state.active is None,
        db.versions == Map::<Seq<char>, RowsModel>::empty(),
        db.active is None,
    ensures
        mirrors(state, db),
{
    assert(state.versions.dom() =~= db.versions.dom());
}

} // verus!
