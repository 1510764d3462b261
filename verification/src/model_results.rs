//! What the normal form of a listed catalog holds, told from the listing alone.

use crate::catalog::{first_repeat, point_ids, ClosureModel};
use crate::grouping::{belongs, grouped, has_entry, Placed};
use crate::instant::Timestamp;
use crate::model::{
    first_inverted_closure, first_inverted_degradation, lemma_point_table_keys, normalized,
    raw_fault, Catalog, Closure, Degradation, DegradationModel, HomeSlot, RawCatalog, RawClosure,
    RawDegradation, RawHomeSlot,
};
use crate::model_laws::{law_faultless_catalogs, law_points_stand_under_their_ids};
use crate::order::{
    in_order, lemma_selection_keeps, lemma_selection_source, lemma_sorted, lemma_sorted_contains,
    sorted, views, Order,
};
use crate::routing_results::{lemma_lists, lists};
use crate::text::{lemma_text_lt_connected, text_lt};
use vstd::prelude::*;

verus! {

/// `a` is before `b`.
pub open spec fn is_before(a: Timestamp, b: Timestamp) -> bool {
    a@.0 < b@.0 || (a@.0 == b@.0 && a@.1 < b@.1)
}

/// Every listed point stands under its id, with its place, its penalty, its
/// services and its capabilities, and no other point is there.
pub proof fn law_listed_points_are_kept(raw: RawCatalog, c: Catalog)
    requires
        raw_fault(raw@) is None,
        c@ == normalized(raw@),
    ensures
        forall|i: int|
            0 <= i < raw.points@.len() ==> {
                let p = #[trigger] raw.points@[i];
                let n = c.points@[p.id@];
                &&& c.points@.contains_key(p.id@)
                &&& n.id@ == p.id@
                &&& n.grid.x == p.grid@[0]
                &&& n.grid.y == p.grid@[1]
                &&& n.barrier_penalty == p.barrier_penalty
                &&& forall|s: Seq<char>| #[trigger]
                    n.services@.contains(s) == lists(p.services, s)
                &&& forall|a: Seq<char>| #[trigger] n.access@.contains(a) == lists(p.access, a)
            },
        forall|id: Seq<char>| #[trigger]
            c.points@.contains_key(id) ==> exists|i: int|
                0 <= i < raw.points@.len() && (#[trigger] raw.points@[i]).id@ == id,
{
    let all = raw@.points;
    law_faultless_catalogs(raw@);
    assert forall|i: int| 0 <= i < raw.points@.len() implies {
        let p = #[trigger] raw.points@[i];
        let n = c.points@[p.id@];
        &&& c.points@.contains_key(p.id@)
        &&& n.id@ == p.id@
        &&& n.grid.x == p.grid@[0]
        &&& n.grid.y == p.grid@[1]
        &&& n.barrier_penalty == p.barrier_penalty
        &&& forall|s: Seq<char>| #[trigger] n.services@.contains(s) == lists(p.services, s)
        &&& forall|a: Seq<char>| #[trigger] n.access@.contains(a) == lists(p.access, a)
    } by {
        let p = raw.points@[i];
        assert(all[i] == p@);
        law_points_stand_under_their_ids(all, i);
        assert(c@.points.contains_key(p.id@));
        assert(c.points@.contains_key(p.id@));
        let n = c.points@[p.id@];
        assert(c@.points[p.id@] == n@);
        assert(n@.grid == p@.grid);
        assert forall|s: Seq<char>| #[trigger] n.services@.contains(s) == lists(p.services, s) by {
            lemma_lists(p.services, s);
            assert(p@.services.to_set().contains(s) == p@.services.contains(s));
        }
        assert forall|a: Seq<char>| #[trigger] n.access@.contains(a) == lists(p.access, a) by {
            lemma_lists(p.access, a);
            assert(p@.access.to_set().contains(a) == p@.access.contains(a));
        }
    }
    assert forall|id: Seq<char>| #[trigger] c.points@.contains_key(id) implies exists|i: int|
        0 <= i < raw.points@.len() && (#[trigger] raw.points@[i]).id@ == id by {
        assert(c@.points.contains_key(id));
        lemma_point_table_keys(all, id);
        let ids = point_ids(all);
        let i = choose|i: int| 0 <= i < ids.len() && ids[i] == id;
        assert(all[i] == raw.points@[i]@);
    }
}

/// The version, the formula, the tie-break rules and what each need calls for
/// are those of the listing.
pub proof fn law_listed_rules_are_kept(raw: RawCatalog, c: Catalog)
    requires
        c@ == normalized(raw@),
    ensures
        c.version@ == raw.catalog_version@,
        c.cost_formula@ == raw.cost_formula@,
        c.tie_break@.len() == raw.tie_break@.len(),
        forall|i: int|
            0 <= i < raw.tie_break@.len() ==> (#[trigger] c.tie_break@[i])@
                == raw.tie_break@[i]@,
        forall|n: Seq<char>| #[trigger]
            c.hard_requirements@.contains_key(n) == raw.hard_requirements@.contains_key(n),
        forall|n: Seq<char>| #[trigger]
            raw.hard_requirements@.contains_key(n) ==> c.hard_requirements@[n]@
                == raw.hard_requirements@[n]@,
{
    assert(views(c.tie_break@) == views(raw.tie_break@));
    assert(views(c.tie_break@).len() == c.tie_break@.len());
    assert(views(raw.tie_break@).len() == raw.tie_break@.len());
    assert forall|i: int| 0 <= i < raw.tie_break@.len() implies (#[trigger] c.tie_break@[i])@
        == raw.tie_break@[i]@ by {
        assert(views(c.tie_break@)[i] == c.tie_break@[i]@);
        assert(views(raw.tie_break@)[i] == raw.tie_break@[i]@);
    }
    assert forall|n: Seq<char>| #[trigger]
        c.hard_requirements@.contains_key(n) == raw.hard_requirements@.contains_key(n) by {
        assert(c@.hard_requirements.contains_key(n) == raw@.hard_requirements.contains_key(n));
    }
    assert forall|n: Seq<char>| #[trigger] raw.hard_requirements@.contains_key(n) implies
        c.hard_requirements@[n]@ == raw.hard_requirements@[n]@ by {
        assert(c@.hard_requirements[n] == raw@.hard_requirements[n]);
    }
}

/// What stands under a key in a grouped list.
pub proof fn lemma_group_holds<T: Placed>(s: Seq<T::V>, k: Seq<char>) where <T as View>::V: Order
    ensures
        grouped::<T>(s).contains_key(k) == has_entry::<T>(s, k),
        has_entry::<T>(s, k) ==> {
            let g = grouped::<T>(s)[k];
            &&& in_order(g)
            &&& g.to_multiset() == s.filter(belongs::<T>(k)).to_multiset()
            &&& forall|x: T::V| #[trigger] g.contains(x) == (s.contains(x) && T::place(x) == k)
        },
{
    let some = s.filter(belongs::<T>(k));
    lemma_sorted(some);
    if has_entry::<T>(s, k) {
        let g = grouped::<T>(s)[k];
        let same = |m: T::V| m;
        assert(some.map_values(same) =~= some);
        assert forall|x: T::V| #[trigger] g.contains(x) == (s.contains(x) && T::place(x) == k) by {
            lemma_sorted_contains(some, x);
            if some.contains(x) {
                let i = lemma_selection_source(s, belongs::<T>(k), same, x);
                assert(s.contains(s[i]));
            }
            if s.contains(x) && T::place(x) == k {
                let i = choose|i: int| 0 <= i < s.len() && s[i] == x;
                lemma_selection_keeps(s, belongs::<T>(k), same, i);
            }
        }
    }
}

/// A closure as listed and in normal form.
pub open spec fn same_closure(x: RawClosure, y: Closure) -> bool {
    &&& y.event_id@ == x.event_id@
    &&& y.point_id@ == x.point_id@
    &&& y.from@ == x.from@
    &&& y.to@ == x.to@
}

/// A degradation as listed and in normal form.
pub open spec fn same_degradation(x: RawDegradation, y: Degradation) -> bool {
    &&& y.event_id@ == x.event_id@
    &&& y.point_id@ == x.point_id@
    &&& y.capability@ == x.capability@
    &&& y.from@ == x.from@
    &&& y.to@ == x.to@
}

/// The closures under an id are the listed ones of the point with that id, by
/// event id; there is a list if and only if there is a closure.
pub proof fn law_listed_closures_are_kept(raw: RawCatalog, c: Catalog, id: Seq<char>)
    requires
        c@ == normalized(raw@),
    ensures
        c.closures_by_point@.contains_key(id) <==> exists|i: int|
            0 <= i < raw.closures@.len() && (#[trigger] raw.closures@[i]).point_id@ == id,
        c.closures_by_point@.contains_key(id) ==> {
            let list = c.closures_by_point@[id]@;
            &&& forall|i: int|
                0 <= i < raw.closures@.len() && (#[trigger] raw.closures@[i]).point_id@ == id
                    ==> exists|k: int|
                    0 <= k < list.len() && same_closure(raw.closures@[i], #[trigger] list[k])
            &&& forall|k: int|
                0 <= k < list.len() ==> (#[trigger] list[k]).point_id@ == id && exists|i: int|
                    0 <= i < raw.closures@.len() && same_closure(
                        #[trigger] raw.closures@[i],
                        list[k],
                    )
            &&& forall|m: int, n: int|
                0 <= m < n < list.len() ==> (#[trigger] list[m]).event_id@ == (
                #[trigger] list[n]).event_id@ || text_lt(list[m].event_id@, list[n].event_id@)
            &&& views(list).to_multiset() == views(raw.closures@).filter(
                |x: ClosureModel| x.point_id == id,
            ).to_multiset()
        },
{
    let all = raw@.closures;
    lemma_group_holds::<Closure>(all, id);
    assert(c@.closures_by_point == grouped::<Closure>(all));
    assert(c@.closures_by_point.contains_key(id) == c.closures_by_point@.contains_key(id));
    if has_entry::<Closure>(all, id) {
        let i = choose|i: int| 0 <= i < all.len() && Closure::place(#[trigger] all[i]) == id;
        assert(all[i] == raw.closures@[i]@);
    }
    if exists|i: int|
        0 <= i < raw.closures@.len() && (#[trigger] raw.closures@[i]).point_id@ == id {
        let i = choose|i: int|
            0 <= i < raw.closures@.len() && (#[trigger] raw.closures@[i]).point_id@ == id;
        assert(all[i] == raw.closures@[i]@);
        assert(Closure::place(all[i]) == id);
    }
    if c.closures_by_point@.contains_key(id) {
        let list = c.closures_by_point@[id]@;
        let g = views(list);
        assert(c@.closures_by_point[id] == g);
        assert forall|i: int|
            0 <= i < raw.closures@.len() && (#[trigger] raw.closures@[i]).point_id@
                == id implies exists|k: int|
            0 <= k < list.len() && same_closure(raw.closures@[i], #[trigger] list[k]) by {
            assert(all[i] == raw.closures@[i]@);
            assert(all.contains(all[i]));
            assert(g.contains(all[i]));
            let k = choose|k: int| 0 <= k < g.len() && g[k] == all[i];
            assert(g[k] == list[k]@);
        }
        assert forall|k: int| 0 <= k < list.len() implies (#[trigger] list[k]).point_id@ == id
            && exists|i: int|
            0 <= i < raw.closures@.len() && same_closure(
                #[trigger] raw.closures@[i],
                list[k],
            ) by {
            assert(g[k] == list[k]@);
            assert(g.contains(g[k]));
            let i = choose|i: int| 0 <= i < all.len() && all[i] == g[k];
            assert(all[i] == raw.closures@[i]@);
        }
        assert forall|m: int, n: int| 0 <= m < n < list.len() implies (
        #[trigger] list[m]).event_id@ == (#[trigger] list[n]).event_id@ || text_lt(
            list[m].event_id@,
            list[n].event_id@,
        ) by {
            assert(g[m] == list[m]@ && g[n] == list[n]@);
            assert(g[m].at_most(g[n]));
            lemma_text_lt_connected(g[m].event_id, g[n].event_id);
        }
        assert(belongs::<Closure>(id) =~= (|x: ClosureModel| x.point_id == id));
    }
}

/// The degradations under an id are the listed ones of the point with that id,
/// by event id; there is a list if and only if there is a degradation.
pub proof fn law_listed_degradations_are_kept(raw: RawCatalog, c: Catalog, id: Seq<char>)
    requires
        c@ == normalized(raw@),
    ensures
        c.degradations_by_point@.contains_key(id) <==> exists|i: int|
            0 <= i < raw.degradations@.len() && (#[trigger] raw.degradations@[i]).point_id@ == id,
        c.degradations_by_point@.contains_key(id) ==> {
            let list = c.degradations_by_point@[id]@;
            &&& forall|i: int|
                0 <= i < raw.degradations@.len() && (#[trigger] raw.degradations@[i]).point_id@
                    == id ==> exists|k: int|
                    0 <= k < list.len() && same_degradation(
                        raw.degradations@[i],
                        #[trigger] list[k],
                    )
            &&& forall|k: int|
                0 <= k < list.len() ==> (#[trigger] list[k]).point_id@ == id && exists|i: int|
                    0 <= i < raw.degradations@.len() && same_degradation(
                        #[trigger] raw.degradations@[i],
                        list[k],
                    )
            &&& forall|m: int, n: int|
                0 <= m < n < list.len() ==> (#[trigger] list[m]).event_id@ == (
                #[trigger] list[n]).event_id@ || text_lt(list[m].event_id@, list[n].event_id@)
            &&& views(list).to_multiset() == views(raw.degradations@).filter(
                |x: DegradationModel| x.point_id == id,
            ).to_multiset()
        },
{
    let all = raw@.degradations;
    lemma_group_holds::<Degradation>(all, id);
    assert(c@.degradations_by_point == grouped::<Degradation>(all));
    assert(c@.degradations_by_point.contains_key(id) == c.degradations_by_point@.contains_key(id));
    if has_entry::<Degradation>(all, id) {
        let i = choose|i: int| 0 <= i < all.len() && Degradation::place(#[trigger] all[i]) == id;
        assert(all[i] == raw.degradations@[i]@);
    }
    if exists|i: int|
        0 <= i < raw.degradations@.len() && (#[trigger] raw.degradations@[i]).point_id@ == id {
        let i = choose|i: int|
            0 <= i < raw.degradations@.len() && (#[trigger] raw.degradations@[i]).point_id@ == id;
        assert(all[i] == raw.degradations@[i]@);
        assert(Degradation::place(all[i]) == id);
    }
    if c.degradations_by_point@.contains_key(id) {
        let list = c.degradations_by_point@[id]@;
        let g = views(list);
        assert(c@.degradations_by_point[id] == g);
        assert forall|i: int|
            0 <= i < raw.degradations@.len() && (#[trigger] raw.degradations@[i]).point_id@
                == id implies exists|k: int|
            0 <= k < list.len() && same_degradation(raw.degradations@[i], #[trigger] list[k]) by {
            assert(all[i] == raw.degradations@[i]@);
            assert(all.contains(all[i]));
            assert(g.contains(all[i]));
            let k = choose|k: int| 0 <= k < g.len() && g[k] == all[i];
            assert(g[k] == list[k]@);
        }
        assert forall|k: int| 0 <= k < list.len() implies (#[trigger] list[k]).point_id@ == id
            && exists|i: int|
            0 <= i < raw.degradations@.len() && same_degradation(
                #[trigger] raw.degradations@[i],
                list[k],
            ) by {
            assert(g[k] == list[k]@);
            assert(g.contains(g[k]));
            let i = choose|i: int| 0 <= i < all.len() && all[i] == g[k];
            assert(all[i] == raw.degradations@[i]@);
        }
        assert forall|m: int, n: int| 0 <= m < n < list.len() implies (
        #[trigger] list[m]).event_id@ == (#[trigger] list[n]).event_id@ || text_lt(
            list[m].event_id@,
            list[n].event_id@,
        ) by {
            assert(g[m] == list[m]@ && g[n] == list[n]@);
            assert(g[m].at_most(g[n]));
            lemma_text_lt_connected(g[m].event_id, g[n].event_id);
        }
        assert(belongs::<Degradation>(id) =~= (|x: DegradationModel| x.point_id == id));
    }
}

/// A slot as listed and in normal form.
pub open spec fn same_slot(x: RawHomeSlot, y: HomeSlot) -> bool {
    &&& y.slot_id@ == x.slot_id@
    &&& y.cost == x.cost
    &&& y.capacity == x.capacity
}

/// Sorted slots are the listed ones, the cheapest first and, at the same cost, by
/// slot id.
pub open spec fn holds_slots(listed: Vec<RawHomeSlot>, slots: Vec<HomeSlot>) -> bool {
    &&& slots@.len() == listed@.len()
    &&& forall|i: int|
        0 <= i < listed@.len() ==> exists|k: int|
            0 <= k < slots@.len() && same_slot(#[trigger] listed@[i], #[trigger] slots@[k])
    &&& forall|k: int|
        0 <= k < slots@.len() ==> exists|i: int|
            0 <= i < listed@.len() && same_slot(#[trigger] listed@[i], #[trigger] slots@[k])
    &&& forall|m: int, n: int|
        0 <= m < n < slots@.len() ==> {
            let x = #[trigger] slots@[m];
            let y = #[trigger] slots@[n];
            x.cost < y.cost || (x.cost == y.cost && (x.slot_id@ == y.slot_id@ || text_lt(
                x.slot_id@,
                y.slot_id@,
            )))
        }
}

pub proof fn lemma_slots(listed: Vec<RawHomeSlot>, slots: Vec<HomeSlot>)
    requires
        views(slots@) == sorted(views(listed@)),
    ensures
        holds_slots(listed, slots),
{
    let all = views(listed@);
    let s = views(slots@);
    lemma_sorted(all);
    assert forall|i: int| 0 <= i < listed@.len() implies exists|k: int|
        0 <= k < slots@.len() && same_slot(#[trigger] listed@[i], #[trigger] slots@[k]) by {
        assert(all[i] == listed@[i]@);
        assert(all.contains(all[i]));
        lemma_sorted_contains(all, all[i]);
        let k = choose|k: int| 0 <= k < s.len() && s[k] == all[i];
        assert(s[k] == slots@[k]@);
        assert(same_slot(listed@[i], slots@[k]));
    }
    assert forall|k: int| 0 <= k < slots@.len() implies exists|i: int|
        0 <= i < listed@.len() && same_slot(#[trigger] listed@[i], #[trigger] slots@[k]) by {
        assert(s[k] == slots@[k]@);
        assert(s.contains(s[k]));
        lemma_sorted_contains(all, s[k]);
        let i = choose|i: int| 0 <= i < all.len() && all[i] == s[k];
        assert(all[i] == listed@[i]@);
        assert(same_slot(listed@[i], slots@[k]));
    }
    assert forall|m: int, n: int| 0 <= m < n < slots@.len() implies {
        let x = #[trigger] slots@[m];
        let y = #[trigger] slots@[n];
        x.cost < y.cost || (x.cost == y.cost && (x.slot_id@ == y.slot_id@ || text_lt(
            x.slot_id@,
            y.slot_id@,
        )))
    } by {
        assert(s[m] == slots@[m]@ && s[n] == slots@[n]@);
        assert(s[m].at_most(s[n]));
        lemma_text_lt_connected(s[m].slot_id, s[n].slot_id);
    }
}

/// Home visits are those of the listing, with the slots by cost and then by id.
pub proof fn law_listed_home_visits_are_kept(raw: RawCatalog, c: Catalog)
    requires
        c@ == normalized(raw@),
    ensures
        c.home_service is Some <==> raw.home_service is Some,
        raw.home_service is Some ==> {
            let h = raw.home_service->Some_0;
            let n = c.home_service->Some_0;
            &&& n.allowed_service@ == h.allowed_service@
            &&& n.reason@ == h.reason@
            &&& forall|m: Seq<char>| #[trigger]
                n.allowed_mobility@.contains(m) == lists(h.allowed_mobility, m)
            &&& holds_slots(h.slots, n.slots)
        },
{
    if raw.home_service is Some {
        let h = raw.home_service->Some_0;
        let n = c.home_service->Some_0;
        assert(c@.home_service == Some(n@));
        assert forall|m: Seq<char>| #[trigger]
            n.allowed_mobility@.contains(m) == lists(h.allowed_mobility, m) by {
            lemma_lists(h.allowed_mobility, m);
            assert(h@.allowed_mobility.to_set().contains(m) == h@.allowed_mobility.contains(m));
        }
        lemma_slots(h.slots, n.slots);
    }
}

/// The point with the number `i` has the id of an earlier one.
pub open spec fn repeats(raw: RawCatalog, i: int) -> bool {
    &&& 0 <= i < raw.points@.len()
    &&& exists|j: int| 0 <= j < i && (#[trigger] raw.points@[j]).id@ == raw.points@[i].id@
}

/// The closure with the number `i` ends before it begins.
pub open spec fn ends_early(raw: RawCatalog, i: int) -> bool {
    0 <= i < raw.closures@.len() && is_before(raw.closures@[i].to, raw.closures@[i].from)
}

/// The degradation with the number `i` ends before it begins.
pub open spec fn recovers_early(raw: RawCatalog, i: int) -> bool {
    0 <= i < raw.degradations@.len() && is_before(
        raw.degradations@[i].to,
        raw.degradations@[i].from,
    )
}

proof fn lemma_repeat_place(raw: RawCatalog, from: int)
    requires
        0 <= from <= raw.points@.len(),
    ensures
        match first_repeat(point_ids(raw@.points), from) {
            Some(i) => from <= i && repeats(raw, i) && forall|j: int|
                from <= j < i ==> !#[trigger] repeats(raw, j),
            None => forall|j: int| from <= j ==> !#[trigger] repeats(raw, j),
        },
    decreases raw.points@.len() - from,
{
    let ids = point_ids(raw@.points);
    if from < raw.points@.len() {
        let front = ids.take(from);
        assert(ids[from] == raw.points@[from].id@);
        if front.contains(ids[from]) {
            let j = choose|j: int| 0 <= j < front.len() && front[j] == ids[from];
            assert(raw@.points[j] == raw.points@[j]@);
            assert(repeats(raw, from));
        } else {
            lemma_repeat_place(raw, from + 1);
            if repeats(raw, from) {
                let j = choose|j: int|
                    0 <= j < from && (#[trigger] raw.points@[j]).id@ == raw.points@[from].id@;
                assert(raw@.points[j] == raw.points@[j]@);
                assert(front[j] == ids[from]);
            }
        }
    }
}

proof fn lemma_early_end(raw: RawCatalog, from: int)
    requires
        0 <= from <= raw.closures@.len(),
    ensures
        match first_inverted_closure(raw@.closures, from) {
            Some(i) => from <= i && ends_early(raw, i) && forall|j: int|
                from <= j < i ==> !#[trigger] ends_early(raw, j),
            None => forall|j: int| from <= j ==> !#[trigger] ends_early(raw, j),
        },
    decreases raw.closures@.len() - from,
{
    if from < raw.closures@.len() {
        assert(raw@.closures[from] == raw.closures@[from]@);
        lemma_early_end(raw, from + 1);
    }
}

proof fn lemma_early_recovery(raw: RawCatalog, from: int)
    requires
        0 <= from <= raw.degradations@.len(),
    ensures
        match first_inverted_degradation(raw@.degradations, from) {
            Some(i) => from <= i && recovers_early(raw, i) && forall|j: int|
                from <= j < i ==> !#[trigger] recovers_early(raw, j),
            None => forall|j: int| from <= j ==> !#[trigger] recovers_early(raw, j),
        },
    decreases raw.degradations@.len() - from,
{
    if from < raw.degradations@.len() {
        assert(raw@.degradations[from] == raw.degradations@[from]@);
        lemma_early_recovery(raw, from + 1);
    }
}

/// A listing is refused if and only if a point has the id of an earlier one or
/// an event ends before it begins. The error names the first such point or else
/// the first such closure or else the first such degradation.
pub proof fn law_faults_are_named(raw: RawCatalog)
    ensures
        raw_fault(raw@) is None <==> {
            &&& forall|i: int| !#[trigger] repeats(raw, i)
            &&& forall|i: int| !#[trigger] ends_early(raw, i)
            &&& forall|i: int| !#[trigger] recovers_early(raw, i)
        },
        forall|i: int|
            #[trigger] repeats(raw, i) && (forall|j: int| 0 <= j < i ==> !repeats(raw, j))
                ==> raw_fault(raw@) == Some("duplicate point id: "@ + raw.points@[i].id@),
        forall|i: int|
            {
                &&& #[trigger] ends_early(raw, i)
                &&& forall|j: int| 0 <= j < i ==> !ends_early(raw, j)
                &&& forall|j: int| !repeats(raw, j)
            } ==> raw_fault(raw@) == Some(
                "closure "@ + raw.closures@[i].event_id@ + " has to < from"@,
            ),
        forall|i: int|
            {
                &&& #[trigger] recovers_early(raw, i)
                &&& forall|j: int| 0 <= j < i ==> !recovers_early(raw, j)
                &&& forall|j: int| !repeats(raw, j)
                &&& forall|j: int| !ends_early(raw, j)
            } ==> raw_fault(raw@) == Some(
                "degradation "@ + raw.degradations@[i].event_id@ + " has to < from"@,
            ),
{
    lemma_repeat_place(raw, 0);
    lemma_early_end(raw, 0);
    lemma_early_recovery(raw, 0);
    let ids = point_ids(raw@.points);
    assert forall|i: int| 0 <= i < raw.points@.len() implies #[trigger] ids[i]
        == raw.points@[i].id@ by {
        assert(raw@.points[i] == raw.points@[i]@);
    }
    assert forall|i: int| 0 <= i < raw.closures@.len() implies #[trigger] raw@.closures[i]
        == raw.closures@[i]@ by {}
    assert forall|i: int| 0 <= i < raw.degradations@.len() implies #[trigger] raw@.degradations[i]
        == raw.degradations@[i]@ by {}
}

} // verus!
