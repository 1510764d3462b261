//! What holds of every normal form.

use crate::catalog::{first_repeat, point_ids, ClosureModel, PointModel};
use crate::grouping::{belongs, grouped, has_entry, Placed};
use crate::instant::{no_later, within};
use crate::model::{
    first_inverted_closure, first_inverted_degradation, lemma_point_table_keys, normal_home,
    normal_point, normalized, point_table, raw_fault, Closure, Degradation, DegradationModel,
    RawCatalogModel,
};
use crate::models::ServicePointModel;
use crate::order::{
    law_sorted_ignores_input_order, lemma_selection_multiset, ranks_apart, sorted, Order,
};
use vstd::prelude::*;

verus! {

/// The listed points in normal form, in the same order.
pub open spec fn normal_points(points: Seq<PointModel>) -> Seq<ServicePointModel> {
    Seq::new(points.len(), |i: int| normal_point(points[i]))
}

/// Both list the same catalog, each in its own order.
pub open spec fn same_listing(a: RawCatalogModel, b: RawCatalogModel) -> bool {
    &&& a.catalog_version == b.catalog_version
    &&& a.cost_formula == b.cost_formula
    &&& a.tie_break == b.tie_break
    &&& a.hard_requirements == b.hard_requirements
    &&& normal_points(a.points).to_multiset() == normal_points(b.points).to_multiset()
    &&& a.closures.to_multiset() == b.closures.to_multiset()
    &&& a.degradations.to_multiset() == b.degradations.to_multiset()
    &&& match (a.home_service, b.home_service) {
        (Some(g), Some(h)) => {
            &&& g.allowed_service == h.allowed_service
            &&& g.allowed_mobility.to_set() == h.allowed_mobility.to_set()
            &&& g.reason == h.reason
            &&& g.slots.to_multiset() == h.slots.to_multiset()
        },
        (None, None) => true,
        _ => false,
    }
}

/// No two events of one point, and no two slots, share an id.
pub open spec fn distinct_events(raw: RawCatalogModel) -> bool {
    &&& forall|x: ClosureModel, y: ClosureModel|
        raw.closures.contains(x) && raw.closures.contains(y) && x.point_id == y.point_id
            && #[trigger] x.at_most(y) && y.at_most(x) ==> x == y
    &&& forall|x: DegradationModel, y: DegradationModel|
        raw.degradations.contains(x) && raw.degradations.contains(y) && x.point_id == y.point_id
            && #[trigger] x.at_most(y) && y.at_most(x) ==> x == y
    &&& raw.home_service is Some ==> ranks_apart(raw.home_service->Some_0.slots)
}

proof fn lemma_first_repeat(list: Seq<Seq<char>>, from: int)
    requires
        0 <= from <= list.len(),
    ensures
        first_repeat(list, from) is None <==> forall|i: int|
            from <= i < list.len() ==> !list.take(i).contains(#[trigger] list[i]),
    decreases list.len() - from,
{
    if from < list.len() && !list.take(from).contains(list[from]) {
        lemma_first_repeat(list, from + 1);
    }
}

/// There is no repeated text if and only if no two places hold the same.
proof fn lemma_no_repeat(list: Seq<Seq<char>>)
    ensures
        first_repeat(list, 0) is None <==> list.no_duplicates(),
{
    lemma_first_repeat(list, 0);
    if first_repeat(list, 0) is None {
        assert forall|i: int, j: int| 0 <= i < j < list.len() implies list[i] != list[j] by {
            assert(!list.take(j).contains(list[j]));
            assert(list.take(j)[i] == list[i]);
        }
    }
    if list.no_duplicates() {
        assert forall|i: int| 0 <= i < list.len() implies !list.take(i).contains(
            #[trigger] list[i],
        ) by {
            if list.take(i).contains(list[i]) {
                let j = choose|j: int| 0 <= j < i && list.take(i)[j] == list[i];
                assert(list[j] == list[i]);
            }
        }
    }
}

/// Under every id stands the point that has it.
pub proof fn law_points_stand_under_their_ids(points: Seq<PointModel>, i: int)
    requires
        point_ids(points).no_duplicates(),
        0 <= i < points.len(),
    ensures
        point_table(points).contains_key(points[i].id),
        point_table(points)[points[i].id] == normal_point(points[i]),
    decreases points.len(),
{
    let front = points.drop_last();
    let ids = point_ids(points);
    if i < front.len() {
        assert(point_ids(front) =~= ids.drop_last());
        assert(point_ids(front).no_duplicates()) by {
            assert forall|p: int, q: int|
                0 <= p < front.len() && 0 <= q < front.len() && p != q implies point_ids(front)[p]
                != point_ids(front)[q] by {
                assert(ids[p] != ids[q]);
            }
        }
        law_points_stand_under_their_ids(front, i);
        assert(front[i] == points[i]);
        assert(ids[i] != ids[points.len() - 1]);
    }
}

proof fn lemma_distinct_ids_carry_over(a: Seq<PointModel>, b: Seq<PointModel>)
    requires
        normal_points(a).to_multiset() == normal_points(b).to_multiset(),
        point_ids(a).no_duplicates(),
    ensures
        point_ids(b).no_duplicates(),
{
    broadcast use vstd::seq_lib::group_to_multiset_ensures;

    let x = normal_points(a);
    let y = normal_points(b);
    let ids = point_ids(a);
    assert(x.no_duplicates()) by {
        assert forall|i: int, j: int|
            0 <= i < x.len() && 0 <= j < x.len() && i != j implies x[i] != x[j] by {
            assert(ids[i] != ids[j]);
        }
    }
    x.lemma_multiset_has_no_duplicates();
    y.lemma_multiset_has_no_duplicates_conv();
    assert forall|i: int, j: int|
        0 <= i < b.len() && 0 <= j < b.len() && i != j implies point_ids(b)[i] != point_ids(
        b,
    )[j] by {
        if b[i].id == b[j].id {
            assert(y.contains(y[i]) && y.contains(y[j]));
            assert(x.to_multiset().count(y[i]) > 0 && x.to_multiset().count(y[j]) > 0);
            let p = choose|p: int| 0 <= p < x.len() && x[p] == y[i];
            let q = choose|q: int| 0 <= q < x.len() && x[q] == y[j];
            assert(ids[p] == ids[q]);
            assert(y[i] == y[j]);
        }
    }
}

proof fn lemma_tables_agree(a: Seq<PointModel>, b: Seq<PointModel>)
    requires
        normal_points(a).to_multiset() == normal_points(b).to_multiset(),
        point_ids(a).no_duplicates(),
        point_ids(b).no_duplicates(),
    ensures
        forall|k: Seq<char>| #[trigger]
            point_table(a).contains_key(k) ==> point_table(b).contains_key(k) && point_table(b)[k]
                == point_table(a)[k],
{
    broadcast use vstd::seq_lib::group_to_multiset_ensures;

    let x = normal_points(a);
    let y = normal_points(b);
    assert forall|k: Seq<char>| #[trigger] point_table(a).contains_key(k) implies point_table(
        b,
    ).contains_key(k) && point_table(b)[k] == point_table(a)[k] by {
        lemma_point_table_keys(a, k);
        let i = choose|i: int| 0 <= i < point_ids(a).len() && point_ids(a)[i] == k;
        law_points_stand_under_their_ids(a, i);
        assert(x.contains(x[i]));
        assert(y.to_multiset().count(x[i]) > 0);
        let j = choose|j: int| 0 <= j < y.len() && y[j] == x[i];
        law_points_stand_under_their_ids(b, j);
    }
}

pub proof fn lemma_groups_agree<T: Placed>(a: Seq<T::V>, b: Seq<T::V>) where <T as View>::V: Order
    requires
        a.to_multiset() == b.to_multiset(),
        forall|x: T::V, y: T::V|
            a.contains(x) && a.contains(y) && T::place(x) == T::place(y) && #[trigger] x.at_most(y)
                && y.at_most(x) ==> x == y,
    ensures
        grouped::<T>(a) == grouped::<T>(b),
{
    broadcast use vstd::seq_lib::group_to_multiset_ensures;

    let same = |m: T::V| m;
    assert forall|k: Seq<char>| #[trigger] has_entry::<T>(a, k) == has_entry::<T>(b, k) by {
        if has_entry::<T>(a, k) {
            let i = choose|i: int| 0 <= i < a.len() && T::place(#[trigger] a[i]) == k;
            assert(a.contains(a[i]));
            assert(b.to_multiset().count(a[i]) > 0);
            let j = choose|j: int| 0 <= j < b.len() && b[j] == a[i];
            assert(T::place(b[j]) == k);
        }
        if has_entry::<T>(b, k) {
            let i = choose|i: int| 0 <= i < b.len() && T::place(#[trigger] b[i]) == k;
            assert(b.contains(b[i]));
            assert(a.to_multiset().count(b[i]) > 0);
            let j = choose|j: int| 0 <= j < a.len() && a[j] == b[i];
            assert(T::place(a[j]) == k);
        }
    }
    assert forall|k: Seq<char>| sorted(#[trigger] a.filter(belongs::<T>(k))) == sorted(
        b.filter(belongs::<T>(k)),
    ) by {
        let x = a.filter(belongs::<T>(k));
        let y = b.filter(belongs::<T>(k));
        lemma_selection_multiset(a, b, belongs::<T>(k), same);
        assert(x.map_values(same) =~= x);
        assert(y.map_values(same) =~= y);
        assert forall|p: T::V, q: T::V|
            x.contains(p) && x.contains(q) && #[trigger] p.at_most(q) && q.at_most(
                p,
            ) implies p == q by {
            a.lemma_filter_contains_rev(belongs::<T>(k), p);
            a.lemma_filter_contains_rev(belongs::<T>(k), q);
            broadcast use vstd::seq_lib::group_filter_ensures;

            assert(belongs::<T>(k)(p) && belongs::<T>(k)(q));
        }
        law_sorted_ignores_input_order(x, y);
    }
    assert forall|k: Seq<char>| #[trigger] grouped::<T>(a).contains_key(k) implies grouped::<T>(
        b,
    ).contains_key(k) && grouped::<T>(b)[k] == grouped::<T>(a)[k] by {
        assert(has_entry::<T>(a, k) == has_entry::<T>(b, k));
        assert(sorted(a.filter(belongs::<T>(k))) == sorted(b.filter(belongs::<T>(k))));
    }
    assert forall|k: Seq<char>| #[trigger] grouped::<T>(b).contains_key(k) implies grouped::<T>(
        a,
    ).contains_key(k) by {
        assert(has_entry::<T>(a, k) == has_entry::<T>(b, k));
    }
    assert(grouped::<T>(a) =~= grouped::<T>(b));
}

proof fn lemma_inverted_closure(s: Seq<ClosureModel>, from: int)
    requires
        0 <= from <= s.len(),
    ensures
        first_inverted_closure(s, from) is None <==> forall|i: int|
            from <= i < s.len() ==> no_later((#[trigger] s[i]).from, s[i].to),
    decreases s.len() - from,
{
    if from < s.len() && no_later(s[from].from, s[from].to) {
        lemma_inverted_closure(s, from + 1);
    }
}

proof fn lemma_inverted_degradation(s: Seq<DegradationModel>, from: int)
    requires
        0 <= from <= s.len(),
    ensures
        first_inverted_degradation(s, from) is None <==> forall|i: int|
            from <= i < s.len() ==> no_later((#[trigger] s[i]).from, s[i].to),
    decreases s.len() - from,
{
    if from < s.len() && no_later(s[from].from, s[from].to) {
        lemma_inverted_degradation(s, from + 1);
    }
}

/// A listed catalog has a normal form if and only if no two points share an id
/// and no event ends before it begins.
pub proof fn law_faultless_catalogs(raw: RawCatalogModel)
    ensures
        raw_fault(raw) is None <==> {
            &&& point_ids(raw.points).no_duplicates()
            &&& forall|i: int|
                0 <= i < raw.closures.len() ==> no_later(
                    (#[trigger] raw.closures[i]).from,
                    raw.closures[i].to,
                )
            &&& forall|i: int|
                0 <= i < raw.degradations.len() ==> no_later(
                    (#[trigger] raw.degradations[i]).from,
                    raw.degradations[i].to,
                )
        },
{
    lemma_no_repeat(point_ids(raw.points));
    lemma_inverted_closure(raw.closures, 0);
    lemma_inverted_degradation(raw.degradations, 0);
}

/// The order in which points, services, capabilities, events and slots are
/// listed does not show in the normal form, where no two events of one point
/// and no two slots share an id.
pub proof fn law_normal_form_ignores_input_order(a: RawCatalogModel, b: RawCatalogModel)
    requires
        same_listing(a, b),
        raw_fault(a) is None,
        distinct_events(a),
    ensures
        raw_fault(b) is None,
        normalized(a) == normalized(b),
{
    broadcast use vstd::seq_lib::group_to_multiset_ensures;

    law_faultless_catalogs(a);
    law_faultless_catalogs(b);
    lemma_distinct_ids_carry_over(a.points, b.points);
    lemma_tables_agree(a.points, b.points);
    lemma_tables_agree(b.points, a.points);
    assert(point_table(a.points) =~= point_table(b.points));
    lemma_groups_agree::<Closure>(a.closures, b.closures);
    lemma_groups_agree::<Degradation>(a.degradations, b.degradations);
    assert forall|i: int| 0 <= i < b.closures.len() implies no_later(
        (#[trigger] b.closures[i]).from,
        b.closures[i].to,
    ) by {
        assert(b.closures.contains(b.closures[i]));
        assert(a.closures.to_multiset().count(b.closures[i]) > 0);
        let j = choose|j: int| 0 <= j < a.closures.len() && a.closures[j] == b.closures[i];
        assert(no_later(a.closures[j].from, a.closures[j].to));
    }
    assert forall|i: int| 0 <= i < b.degradations.len() implies no_later(
        (#[trigger] b.degradations[i]).from,
        b.degradations[i].to,
    ) by {
        assert(b.degradations.contains(b.degradations[i]));
        assert(a.degradations.to_multiset().count(b.degradations[i]) > 0);
        let j = choose|j: int|
            0 <= j < a.degradations.len() && a.degradations[j] == b.degradations[i];
        assert(no_later(a.degradations[j].from, a.degradations[j].to));
    }
    if a.home_service is Some {
        let g = a.home_service->Some_0;
        let h = b.home_service->Some_0;
        law_sorted_ignores_input_order(g.slots, h.slots);
        assert(normal_home(g) == normal_home(h));
    }
}

/// An event that lasts is in force at its first instant and no longer at its
/// last; one that ends as it begins is never in force.
pub proof fn law_events_are_half_open(from: (int, int), to: (int, int), at: (int, int))
    ensures
        !no_later(to, from) ==> within(from, to, from),
        !within(from, to, to),
        from == to ==> !within(from, to, at),
{
}

} // verus!
