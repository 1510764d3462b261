//! What a result of routing over a catalog in normal form holds, told from the
//! catalog and the request alone.

use crate::distance::cost_fits;
use crate::instant::Timestamp;
use crate::keyed::{ascending_list, lemma_finite_set_is_listed, lemma_keys_are_finite};
use crate::model::{Catalog, Closure, Degradation, Point};
use crate::order::{
    lemma_selection_keeps, lemma_selection_places, lemma_selection_source, lemma_sorted_contains,
    sorted, views, Order,
};
use crate::planner::{
    access_reasons, admitted, asked_at, candidate_at, candidates_for, closed_reason,
    closure_reasons, closures_of, costs_fit, degradation_reasons, degradations_of,
    degraded_reason, effective_access, exclusion_at, exclusions_for, home_visit_for, hurts,
    in_force, lacks, missing_reason, needs, points_in_order, reasons_against, refused,
    request_costs_fit, required, routed, service_reasons, RouteRequest, RouteResult,
};
use crate::planner_laws::{
    is_closed, law_admitted_points_serve, law_answers_are_ordered, law_every_point_is_answered,
    lemma_closed, serves,
};
use crate::routing_laws::lemma_required_is_finite;
use crate::routing_results::{lasts, lemma_ascends, lemma_lists, lists};
use crate::text::{lemma_text_lt_connected, text_lt};
use crate::text_laws::law_a_common_beginning_does_not_show;
use vstd::math::abs;
use vstd::prelude::*;

verus! {

/// The applicant has a need: that of mobility, or one of communication.
pub open spec fn has_need(q: RouteRequest, n: Seq<char>) -> bool {
    (q.mobility is Some && q.mobility->Some_0@ == n) || lists(q.communication, n)
}

/// Some need of the applicant calls for a capability.
pub open spec fn calls_for(c: Catalog, q: RouteRequest, a: Seq<char>) -> bool {
    exists|n: Seq<char>|
        {
            &&& #[trigger] c.hard_requirements@.contains_key(n)
            &&& c.hard_requirements@[n]@ == a
            &&& has_need(q, n)
        }
}

/// `x` is a closure of the point that is in force.
pub open spec fn closes(c: Catalog, x: Closure, p: Point, at: Timestamp) -> bool {
    &&& c.closures_by_point@.contains_key(p.id@)
    &&& c.closures_by_point@[p.id@]@.contains(x)
    &&& lasts(x.from, x.to, at)
}

/// `x` is a degradation of the point that is in force and takes a capability.
pub open spec fn takes(
    c: Catalog,
    x: Degradation,
    p: Point,
    a: Seq<char>,
    at: Timestamp,
) -> bool {
    &&& c.degradations_by_point@.contains_key(p.id@)
    &&& c.degradations_by_point@[p.id@]@.contains(x)
    &&& lasts(x.from, x.to, at)
    &&& x.capability@ == a
}

pub open spec fn is_shut(c: Catalog, p: Point, at: Timestamp) -> bool {
    exists|x: Closure| #[trigger] closes(c, x, p, at)
}

pub open spec fn is_lost(c: Catalog, p: Point, a: Seq<char>, at: Timestamp) -> bool {
    exists|x: Degradation| #[trigger] takes(c, x, p, a, at)
}

/// The applicant can be sent to a point: it offers the service, it has each
/// capability that is called for and has not lost it, and it is not shut.
pub open spec fn is_open_to(c: Catalog, q: RouteRequest, at: Timestamp, p: Point) -> bool {
    &&& p.services@.contains(q.service@)
    &&& forall|a: Seq<char>| #[trigger]
        calls_for(c, q, a) ==> p.access@.contains(a) && !is_lost(c, p, a, at)
    &&& !is_shut(c, p, at)
}

proof fn lemma_calls(c: Catalog, q: RouteRequest, a: Seq<char>)
    ensures
        required(c@, q@).contains(a) == calls_for(c, q, a),
        ascending_list(required(c@, q@)).contains(a) == calls_for(c, q, a),
{
    let h = c@.hard_requirements;
    let all = needs(q@);
    let skip: int = if q.mobility is Some {
        1
    } else {
        0
    };
    if required(c@, q@).contains(a) {
        let i = choose|i: int|
            0 <= i < all.len() && h.contains_key(#[trigger] all[i]) && h[all[i]] == a;
        let n = all[i];
        if i >= skip {
            assert(q@.communication[i - skip] == n);
            assert(q@.communication.contains(n));
            lemma_lists(q.communication, n);
        }
        assert(has_need(q, n));
        assert(c.hard_requirements@.contains_key(n));
    }
    if calls_for(c, q, a) {
        let n = choose|n: Seq<char>|
            {
                &&& #[trigger] c.hard_requirements@.contains_key(n)
                &&& c.hard_requirements@[n]@ == a
                &&& has_need(q, n)
            };
        if q.mobility is Some && q.mobility->Some_0@ == n {
            assert(all[0] == n);
            assert(h.contains_key(all[0]));
        } else {
            lemma_lists(q.communication, n);
            let i = choose|i: int| 0 <= i < q@.communication.len() && q@.communication[i] == n;
            assert(all[skip + i] == n);
            assert(h.contains_key(all[skip + i]));
        }
    }
    lemma_required_is_finite(h, all);
    lemma_finite_set_is_listed(required(c@, q@));
}

proof fn lemma_shut(c: Catalog, p: Point, at: Timestamp)
    ensures
        is_closed(c@, at@, p@) == is_shut(c, p, at),
{
    let all = closures_of(c@, p@.id);
    if is_closed(c@, at@, p@) {
        let i = choose|i: int| 0 <= i < all.len() && in_force(at@)(#[trigger] all[i]);
        let list = c.closures_by_point@[p.id@]@;
        assert(all == views(list));
        assert(list.contains(list[i]));
        assert(closes(c, list[i], p, at));
    }
    if is_shut(c, p, at) {
        let x = choose|x: Closure| #[trigger] closes(c, x, p, at);
        let list = c.closures_by_point@[p.id@]@;
        let i = choose|i: int| 0 <= i < list.len() && list[i] == x;
        assert(all == views(list));
        assert(in_force(at@)(all[i]));
    }
}

proof fn lemma_effective(c: Catalog, p: Point, a: Seq<char>, at: Timestamp)
    ensures
        effective_access(c@, at@, p@).contains(a) == (p.access@.contains(a) && !is_lost(
            c,
            p,
            a,
            at,
        )),
{
    let all = degradations_of(c@, p@.id);
    if is_lost(c, p, a, at) {
        let x = choose|x: Degradation| #[trigger] takes(c, x, p, a, at);
        let list = c.degradations_by_point@[p.id@]@;
        let i = choose|i: int| 0 <= i < list.len() && list[i] == x;
        assert(all == views(list));
        assert(all[i] == x@);
    } else {
        assert forall|i: int| 0 <= i < all.len() implies {
            let d = #[trigger] all[i];
            d.capability == a ==> !crate::instant::within(d.from, d.to, at@)
        } by {
            let list = c.degradations_by_point@[p.id@]@;
            assert(all == views(list));
            assert(list.contains(list[i]));
            assert(!takes(c, list[i], p, a, at));
        }
    }
}

proof fn lemma_open(c: Catalog, q: RouteRequest, at: Timestamp, p: Point)
    ensures
        serves(c@, q@, at@, p@) == is_open_to(c, q, at, p),
{
    lemma_shut(c, p, at);
    if serves(c@, q@, at@, p@) {
        assert forall|a: Seq<char>| #[trigger] calls_for(c, q, a) implies p.access@.contains(a)
            && !is_lost(c, p, a, at) by {
            lemma_calls(c, q, a);
            lemma_effective(c, p, a, at);
            assert(required(c@, q@).contains(a));
        }
    }
    if is_open_to(c, q, at, p) {
        assert forall|a: Seq<char>| required(c@, q@).contains(a) implies effective_access(
            c@,
            at@,
            p@,
        ).contains(a) by {
            lemma_calls(c, q, a);
            lemma_effective(c, p, a, at);
        }
    }
}

/// The point behind an element of the list of points.
proof fn lemma_point_place(c: Catalog, i: int) -> (id: Seq<char>)
    requires
        0 <= i < points_in_order(c@).len(),
    ensures
        c.points@.contains_key(id),
        points_in_order(c@)[i] == c.points@[id]@,
{
    lemma_keys_are_finite(c.points);
    assert(c@.points.dom() =~= c.points@.dom());
    lemma_finite_set_is_listed(c@.points.dom());
    let ids = ascending_list(c@.points.dom());
    assert(ids.contains(ids[i]));
    ids[i]
}

/// A candidate is a point of the catalog to which the applicant can be sent, at
/// a distance that is the way across plus the way along, with the penalty of the
/// point, at a total that is the distance plus the penalty, and with the
/// capabilities that the point has left, each once and ascending.
pub proof fn law_candidates_are_open_points(
    c: Catalog,
    q: RouteRequest,
    at: Timestamp,
    r: RouteResult,
    k: int,
)
    requires
        r@ == routed(c@, q@, at@),
        0 <= k < r.candidates@.len(),
    ensures
        ({
            let x = r.candidates@[k];
            &&& exists|id: Seq<char>|
                {
                    &&& #[trigger] c.points@.contains_key(id)
                    &&& is_open_to(c, q, at, c.points@[id])
                    &&& x.point_id@ == c.points@[id].id@
                    &&& x.cost.distance == abs(q.origin@[0] - c.points@[id].grid.x) + abs(
                        q.origin@[1] - c.points@[id].grid.y,
                    )
                    &&& x.cost.barrier_penalty == c.points@[id].barrier_penalty
                    &&& x.cost.total == x.cost.distance + x.cost.barrier_penalty
                    &&& forall|a: Seq<char>| #[trigger]
                        lists(x.access, a) == (c.points@[id].access@.contains(a) && !is_lost(
                            c,
                            c.points@[id],
                            a,
                            at,
                        ))
                }
            &&& forall|m: int, n: int|
                0 <= m < n < x.access@.len() ==> text_lt(
                    (#[trigger] x.access@[m])@,
                    (#[trigger] x.access@[n])@,
                )
        }),
{
    let x = r.candidates@[k];
    let points = points_in_order(c@);
    let offer = candidate_at(c@, q@, at@);
    let open = admitted(c@, q@, at@);
    let kept = points.filter(open).map_values(offer);
    assert(r@.candidates == sorted(kept));
    assert(views(r.candidates@)[k] == x@);
    assert(sorted(kept).contains(x@));
    lemma_sorted_contains(kept, x@);
    let i = lemma_selection_source(points, open, offer, x@);
    let id = lemma_point_place(c, i);
    let p = c.points@[id];
    law_admitted_points_serve(c@, q@, at@, p@);
    lemma_open(c, q, at, p);
    let left = effective_access(c@, at@, p@);
    assert(left.subset_of(p@.access));
    lemma_set_is_finite(p);
    vstd::set_lib::lemma_set_subset_finite(p@.access, left);
    lemma_finite_set_is_listed(left);
    assert(x@.access == ascending_list(left));
    assert forall|a: Seq<char>| #[trigger] lists(x.access, a) == (p.access@.contains(a)
        && !is_lost(c, p, a, at)) by {
        lemma_lists(x.access, a);
        lemma_effective(c, p, a, at);
    }
    lemma_ascends(x.access);
    assert(c.points@.contains_key(id));
}

proof fn lemma_set_is_finite(p: Point)
    ensures
        p@.access.finite(),
{
    crate::keyed::lemma_members_are_finite(p.access);
}

/// Every point to which the applicant can be sent is a candidate, every other
/// point is excluded, and there is nothing else in the result.
pub proof fn law_every_point_is_offered_or_excluded(
    c: Catalog,
    q: RouteRequest,
    at: Timestamp,
    r: RouteResult,
    id: Seq<char>,
)
    requires
        r@ == routed(c@, q@, at@),
        c.points@.contains_key(id),
    ensures
        is_open_to(c, q, at, c.points@[id]) ==> exists|k: int|
            0 <= k < r.candidates@.len() && (#[trigger] r.candidates@[k]).point_id@
                == c.points@[id].id@,
        !is_open_to(c, q, at, c.points@[id]) ==> exists|k: int|
            0 <= k < r.exclusions@.len() && (#[trigger] r.exclusions@[k]).point_id@
                == c.points@[id].id@,
        r.candidates@.len() + r.exclusions@.len() == c.points@.dom().len(),
        r.catalog_version@ == c.version@,
{
    let p = c.points@[id];
    lemma_keys_are_finite(c.points);
    assert(c@.points.dom() =~= c.points@.dom());
    lemma_open(c, q, at, p);
    law_every_point_is_answered(c@, q@, at@, id);
    assert(r@.candidates == candidates_for(c@, q@, at@));
    assert(r@.exclusions == exclusions_for(c@, q@, at@));
    if is_open_to(c, q, at, p) {
        let x = candidate_at(c@, q@, at@)(p@);
        let k = choose|k: int| 0 <= k < r@.candidates.len() && r@.candidates[k] == x;
        assert(views(r.candidates@)[k] == r.candidates@[k]@);
    } else {
        let x = exclusion_at(c@, q@, at@)(p@);
        let k = choose|k: int| 0 <= k < r@.exclusions.len() && r@.exclusions[k] == x;
        assert(views(r.exclusions@)[k] == r.exclusions@[k]@);
    }
    crate::keyed::lemma_ascending_list_length(c@.points.dom());
}

/// Of two candidates the cheaper stands first and, at the same cost, the one
/// whose id comes first; excluded points stand by id.
pub proof fn law_cheaper_candidates_stand_first(
    c: Catalog,
    q: RouteRequest,
    at: Timestamp,
    r: RouteResult,
)
    requires
        r@ == routed(c@, q@, at@),
    ensures
        forall|m: int, n: int|
            0 <= m < n < r.candidates@.len() ==> {
                let x = #[trigger] r.candidates@[m];
                let y = #[trigger] r.candidates@[n];
                x.cost.total < y.cost.total || (x.cost.total == y.cost.total && (x.point_id@
                    == y.point_id@ || text_lt(x.point_id@, y.point_id@)))
            },
        forall|m: int, n: int|
            0 <= m < n < r.exclusions@.len() ==> {
                let x = #[trigger] r.exclusions@[m];
                let y = #[trigger] r.exclusions@[n];
                x.point_id@ == y.point_id@ || text_lt(x.point_id@, y.point_id@)
            },
{
    law_answers_are_ordered(c@, q@, at@);
    let all = candidates_for(c@, q@, at@);
    let left = exclusions_for(c@, q@, at@);
    assert(r@.candidates == all);
    assert(r@.exclusions == left);
    assert forall|m: int, n: int| 0 <= m < n < r.candidates@.len() implies {
        let x = #[trigger] r.candidates@[m];
        let y = #[trigger] r.candidates@[n];
        x.cost.total < y.cost.total || (x.cost.total == y.cost.total && (x.point_id@
            == y.point_id@ || text_lt(x.point_id@, y.point_id@)))
    } by {
        assert(views(r.candidates@)[m] == r.candidates@[m]@);
        assert(views(r.candidates@)[n] == r.candidates@[n]@);
        assert(all[m].at_most(all[n]));
        lemma_text_lt_connected(all[m].point_id, all[n].point_id);
    }
    assert forall|m: int, n: int| 0 <= m < n < r.exclusions@.len() implies {
        let x = #[trigger] r.exclusions@[m];
        let y = #[trigger] r.exclusions@[n];
        x.point_id@ == y.point_id@ || text_lt(x.point_id@, y.point_id@)
    } by {
        assert(views(r.exclusions@)[m] == r.exclusions@[m]@);
        assert(views(r.exclusions@)[n] == r.exclusions@[n]@);
        assert(left[m].at_most(left[n]));
        lemma_text_lt_connected(left[m].point_id, left[n].point_id);
    }
}

/// A home visit is granted if and only if the catalog has home visits for the
/// service asked for and for the applicant's mobility; it comes with the
/// configured reason.
pub proof fn law_home_visits_are_for_the_entitled(
    c: Catalog,
    q: RouteRequest,
    at: Timestamp,
    r: RouteResult,
)
    requires
        r@ == routed(c@, q@, at@),
    ensures
        r.home_service is Some <==> {
            &&& c.home_service is Some
            &&& c.home_service->Some_0.allowed_service@ == q.service@
            &&& q.mobility is Some
            &&& c.home_service->Some_0.allowed_mobility@.contains(q.mobility->Some_0@)
        },
        r.home_service is Some ==> r.home_service->Some_0.reason@
            == c.home_service->Some_0.reason@,
{
    assert(r@.home_service == home_visit_for(c@, q@));
}

/// What is told of an excluded point, in this order: that the service is
/// lacking, each capability that is called for and that the point never has,
/// each degradation that costs the applicant a capability, unless the point is
/// shut, and each closure. Nothing else is told, and nothing is left out.
pub open spec fn told(
    c: Catalog,
    q: RouteRequest,
    at: Timestamp,
    p: Point,
    reasons: Vec<String>,
) -> bool {
    exists|a: int, b: int, d: int|
        #[trigger] told_in_parts(c, q, at, p, reasons, a, b, d)
}

/// A text names a capability that is called for and that the point never has.
pub open spec fn tells_missing(c: Catalog, q: RouteRequest, p: Point, text: Seq<char>) -> bool {
    exists|t: Seq<char>| #[trigger]
        calls_for(c, q, t) && !p.access@.contains(t) && text == "MISSING_ACCESS:"@ + t
}

/// A text names a degradation that takes a capability which is called for.
pub open spec fn tells_degraded(
    c: Catalog,
    q: RouteRequest,
    at: Timestamp,
    p: Point,
    text: Seq<char>,
) -> bool {
    exists|x: Degradation|
        {
            &&& #[trigger] takes(c, x, p, x.capability@, at)
            &&& calls_for(c, q, x.capability@)
            &&& p.access@.contains(x.capability@)
            &&& text == "DEGRADED:"@ + x.event_id@ + ":"@ + x.capability@
        }
}

/// A text names a closure of the point.
pub open spec fn tells_closed(c: Catalog, at: Timestamp, p: Point, text: Seq<char>) -> bool {
    exists|x: Closure| #[trigger] closes(c, x, p, at) && text == "CLOSED:"@ + x.event_id@
}

pub open spec fn told_in_parts(
    c: Catalog,
    q: RouteRequest,
    at: Timestamp,
    p: Point,
    reasons: Vec<String>,
    a: int,
    b: int,
    d: int,
) -> bool {
    &&& 0 <= a <= b <= d <= reasons@.len()
    &&& a == (if p.services@.contains(q.service@) {
        0int
    } else {
        1int
    })
    &&& a == 1 ==> reasons@[0]@ == "MISSING_SERVICE"@
    &&& forall|j: int| a <= j < b ==> tells_missing(c, q, p, (#[trigger] reasons@[j])@)
    &&& forall|t: Seq<char>| #[trigger]
        calls_for(c, q, t) && !p.access@.contains(t) ==> exists|j: int|
            a <= j < b && (#[trigger] reasons@[j])@ == "MISSING_ACCESS:"@ + t
    &&& forall|j: int|
        b <= j < d ==> !is_shut(c, p, at) && tells_degraded(
            c,
            q,
            at,
            p,
            (#[trigger] reasons@[j])@,
        )
    &&& forall|x: Degradation| #[trigger]
        takes(c, x, p, x.capability@, at) && calls_for(c, q, x.capability@) && p.access@.contains(
            x.capability@,
        ) && !is_shut(c, p, at) ==> exists|j: int|
            b <= j < d && (#[trigger] reasons@[j])@ == "DEGRADED:"@ + x.event_id@ + ":"@
                + x.capability@
    &&& forall|j: int|
        d <= j < reasons@.len() ==> tells_closed(c, at, p, (#[trigger] reasons@[j])@)
    &&& forall|x: Closure| #[trigger]
        closes(c, x, p, at) ==> exists|j: int|
            d <= j < reasons@.len() && (#[trigger] reasons@[j])@ == "CLOSED:"@ + x.event_id@
}

proof fn lemma_told(c: Catalog, q: RouteRequest, at: Timestamp, p: Point, reasons: Vec<String>)
    requires
        views(reasons@) == reasons_against(c@, q@, at@, p@),
    ensures
        told(c, q, at, p, reasons),
{
    let needed = required(c@, q@);
    let list = ascending_list(needed);
    let first = service_reasons(q@, p@);
    let second = access_reasons(needed, p@);
    let third = degradation_reasons(c@, needed, at@, p@);
    let fourth = closure_reasons(c@, at@, p@);
    let all = reasons_against(c@, q@, at@, p@);
    let a = first.len() as int;
    let b = a + second.len();
    let d = b + third.len();
    assert(views(reasons@).len() == reasons@.len());
    assert(all.len() == d + fourth.len());
    assert forall|j: int| 0 <= j < all.len() implies reasons@[j]@ == #[trigger] all[j] by {
        assert(views(reasons@)[j] == reasons@[j]@);
    }
    if a == 1 {
        assert(all[0] == first[0]);
    }
    assert forall|j: int| a <= j < b implies tells_missing(
        c,
        q,
        p,
        (#[trigger] reasons@[j])@,
    ) by {
        let y = second[j - a];
        assert(second.contains(y));
        let i = lemma_selection_source(list, lacks(p@), missing_reason(), y);
        assert(list.contains(list[i]));
        lemma_calls(c, q, list[i]);
        assert(all[j] == y);
        assert(calls_for(c, q, list[i]));
        assert(reasons@[j]@ == "MISSING_ACCESS:"@ + list[i]);
    }
    assert forall|t: Seq<char>| #[trigger]
        calls_for(c, q, t) && !p.access@.contains(t) implies exists|j: int|
        a <= j < b && (#[trigger] reasons@[j])@ == "MISSING_ACCESS:"@ + t by {
        lemma_calls(c, q, t);
        let i = choose|i: int| 0 <= i < list.len() && list[i] == t;
        lemma_selection_keeps(list, lacks(p@), missing_reason(), i);
        let y = missing_reason()(t);
        let m = choose|m: int| 0 <= m < second.len() && second[m] == y;
        assert(all[a + m] == y);
        assert(reasons@[a + m]@ == y);
    }
    lemma_closed(c@, at@, p@);
    lemma_shut(c, p, at);
    let events = degradations_of(c@, p@.id);
    let keep = hurts(needed, at@, p@);
    assert forall|j: int| b <= j < d implies !is_shut(c, p, at) && tells_degraded(
        c,
        q,
        at,
        p,
        (#[trigger] reasons@[j])@,
    ) by {
        let y = third[j - b];
        assert(third.contains(y));
        let i = lemma_selection_source(events, keep, degraded_reason(), y);
        let stored = c.degradations_by_point@[p.id@]@;
        assert(events == views(stored));
        let x = stored[i];
        assert(stored.contains(x));
        lemma_calls(c, q, x.capability@);
        assert(all[j] == y);
        assert(takes(c, x, p, x.capability@, at));
        assert(reasons@[j]@ == "DEGRADED:"@ + x.event_id@ + ":"@ + x.capability@);
    }
    assert forall|x: Degradation| #[trigger]
        takes(c, x, p, x.capability@, at) && calls_for(c, q, x.capability@) && p.access@.contains(
            x.capability@,
        ) && !is_shut(c, p, at) implies exists|j: int|
        b <= j < d && (#[trigger] reasons@[j])@ == "DEGRADED:"@ + x.event_id@ + ":"@
            + x.capability@ by {
        let stored = c.degradations_by_point@[p.id@]@;
        assert(events == views(stored));
        let i = choose|i: int| 0 <= i < stored.len() && stored[i] == x;
        assert(events[i] == x@);
        lemma_calls(c, q, x.capability@);
        lemma_selection_keeps(events, keep, degraded_reason(), i);
        let y = degraded_reason()(events[i]);
        let m = choose|m: int| 0 <= m < third.len() && third[m] == y;
        assert(all[b + m] == y);
        assert(reasons@[b + m]@ == y);
    }
    let shut = closures_of(c@, p@.id);
    assert forall|j: int| d <= j < reasons@.len() implies tells_closed(
        c,
        at,
        p,
        (#[trigger] reasons@[j])@,
    ) by {
        let y = fourth[j - d];
        assert(fourth.contains(y));
        let i = lemma_selection_source(shut, in_force(at@), closed_reason(), y);
        let stored = c.closures_by_point@[p.id@]@;
        assert(shut == views(stored));
        let x = stored[i];
        assert(stored.contains(x));
        assert(all[j] == y);
        assert(closes(c, x, p, at));
        assert(reasons@[j]@ == "CLOSED:"@ + x.event_id@);
    }
    assert forall|x: Closure| #[trigger] closes(c, x, p, at) implies exists|j: int|
        d <= j < reasons@.len() && (#[trigger] reasons@[j])@ == "CLOSED:"@ + x.event_id@ by {
        let stored = c.closures_by_point@[p.id@]@;
        assert(shut == views(stored));
        let i = choose|i: int| 0 <= i < stored.len() && stored[i] == x;
        assert(shut[i] == x@);
        lemma_selection_keeps(shut, in_force(at@), closed_reason(), i);
        let y = closed_reason()(shut[i]);
        let m = choose|m: int| 0 <= m < fourth.len() && fourth[m] == y;
        assert(all[d + m] == y);
        assert(reasons@[d + m]@ == y);
    }
    assert(told_in_parts(c, q, at, p, reasons, a, b, d));
}

/// An excluded point is one to which the applicant cannot be sent, and comes
/// with everything that speaks against it and nothing that does not, each thing
/// once and in order.
pub proof fn law_excluded_points_are_told_why(
    c: Catalog,
    q: RouteRequest,
    at: Timestamp,
    r: RouteResult,
    k: int,
)
    requires
        r@ == routed(c@, q@, at@),
        0 <= k < r.exclusions@.len(),
    ensures
        r.exclusions@[k].reasons@.len() > 0,
        exists|id: Seq<char>|
            {
                &&& #[trigger] c.points@.contains_key(id)
                &&& !is_open_to(c, q, at, c.points@[id])
                &&& r.exclusions@[k].point_id@ == c.points@[id].id@
                &&& told(c, q, at, c.points@[id], r.exclusions@[k].reasons)
                &&& told_once(c, q, at, c.points@[id], r.exclusions@[k].reasons)
            },
{
    let x = r.exclusions@[k];
    let points = points_in_order(c@);
    let refusal = exclusion_at(c@, q@, at@);
    let shut = refused(c@, q@, at@);
    let left = points.filter(shut).map_values(refusal);
    assert(r@.exclusions == sorted(left));
    assert(views(r.exclusions@)[k] == x@);
    assert(sorted(left).contains(x@));
    lemma_sorted_contains(left, x@);
    let i = lemma_selection_source(points, shut, refusal, x@);
    let id = lemma_point_place(c, i);
    let p = c.points@[id];
    law_admitted_points_serve(c@, q@, at@, p@);
    lemma_open(c, q, at, p);
    assert(x@.reasons == reasons_against(c@, q@, at@, p@));
    lemma_told(c, q, at, p, x.reasons);
    lemma_told_once(c, q, at, p, x.reasons);
    assert(c.points@.contains_key(id));
}

/// A request can be answered at an instant if and only if the distance of every
/// point to which the applicant can be sent, and its sum with the penalty, can
/// be computed in 64 bits.
pub proof fn law_costs_that_can_be_computed(c: Catalog, q: RouteRequest, at: Timestamp)
    ensures
        costs_fit(c@, q@, at@) <==> forall|id: Seq<char>| #[trigger]
            c.points@.contains_key(id) && is_open_to(c, q, at, c.points@[id]) ==> {
                let p = c.points@[id];
                let way = abs(q.origin@[0] - p.grid.x) + abs(q.origin@[1] - p.grid.y);
                &&& way <= 0x7fff_ffff_ffff_ffff
                &&& -0x8000_0000_0000_0000 <= way + p.barrier_penalty <= 0x7fff_ffff_ffff_ffff
            },
        request_costs_fit(c@, q@) <==> match q.at {
            Some(t) => costs_fit(c@, q@, t@),
            None => forall|t: (int, int)| #[trigger] costs_fit(c@, q@, t),
        },
{
    assert forall|id: Seq<char>| #[trigger] c.points@.contains_key(id) implies
        c@.points.contains_key(id) && c@.points[id] == c.points@[id]@ && (reasons_against(
        c@,
        q@,
        at@,
        c@.points[id],
    ).len() == 0 <==> is_open_to(c, q, at, c.points@[id])) by {
        let p = c.points@[id];
        law_admitted_points_serve(c@, q@, at@, p@);
        lemma_open(c, q, at, p);
        assert(c@.points.contains_key(id));
        assert(admitted(c@, q@, at@)(p@) == (reasons_against(c@, q@, at@, p@).len() == 0));
    }
    if costs_fit(c@, q@, at@) {
        assert forall|id: Seq<char>| #[trigger]
            c.points@.contains_key(id) && is_open_to(c, q, at, c.points@[id]) implies {
            let p = c.points@[id];
            let way = abs(q.origin@[0] - p.grid.x) + abs(q.origin@[1] - p.grid.y);
            &&& way <= 0x7fff_ffff_ffff_ffff
            &&& -0x8000_0000_0000_0000 <= way + p.barrier_penalty <= 0x7fff_ffff_ffff_ffff
        } by {
            assert(c@.points.contains_key(id));
        }
    }
    if forall|id: Seq<char>| #[trigger]
        c.points@.contains_key(id) && is_open_to(c, q, at, c.points@[id]) ==> {
            let p = c.points@[id];
            let way = abs(q.origin@[0] - p.grid.x) + abs(q.origin@[1] - p.grid.y);
            &&& way <= 0x7fff_ffff_ffff_ffff
            &&& -0x8000_0000_0000_0000 <= way + p.barrier_penalty <= 0x7fff_ffff_ffff_ffff
        } {
        assert forall|id: Seq<char>| #[trigger]
            c@.points.contains_key(id) && reasons_against(
                c@,
                q@,
                at@,
                c@.points[id],
            ).len() == 0 implies cost_fits(
            q@.origin,
            c@.points[id].grid,
            c@.points[id].barrier_penalty,
        ) by {
            assert(c.points@.contains_key(id));
            assert(is_open_to(c, q, at, c.points@[id]));
        }
    }
}

/// A request that names an instant is answered at that instant.
pub proof fn law_named_instants_are_kept(q: RouteRequest, at: Timestamp)
    requires
        asked_at(q@, at@),
    ensures
        q.at is Some ==> at@ == q.at->Some_0@,
{
}

/// Ever later places in a list of a length.
pub open spec fn are_places(places: Seq<int>, n: nat) -> bool {
    &&& forall|k: int| 0 <= k < places.len() ==> 0 <= #[trigger] places[k] < n
    &&& forall|i: int, k: int|
        0 <= i < k < places.len() ==> #[trigger] places[i] < #[trigger] places[k]
}

/// Texts tell the closures in force of a list, each once, in the order of the
/// list.
pub open spec fn tell_closures(list: Seq<Closure>, at: Timestamp, texts: Seq<Seq<char>>) -> bool {
    exists|places: Seq<int>|
        {
            &&& #[trigger] are_places(places, list.len())
            &&& places.len() == texts.len()
            &&& forall|k: int|
                0 <= k < places.len() ==> lasts(
                    list[#[trigger] places[k]].from,
                    list[places[k]].to,
                    at,
                ) && texts[k] == "CLOSED:"@ + list[places[k]].event_id@
            &&& forall|i: int|
                0 <= i < list.len() && lasts((#[trigger] list[i]).from, list[i].to, at)
                    ==> places.contains(i)
        }
}

/// Texts tell the degradations of a list that cost the applicant a capability,
/// each once, in the order of the list.
pub open spec fn tell_degradations(
    c: Catalog,
    q: RouteRequest,
    p: Point,
    list: Seq<Degradation>,
    at: Timestamp,
    texts: Seq<Seq<char>>,
) -> bool {
    exists|places: Seq<int>|
        {
            &&& #[trigger] are_places(places, list.len())
            &&& places.len() == texts.len()
            &&& forall|k: int|
                0 <= k < places.len() ==> costs(c, q, p, list[#[trigger] places[k]], at)
                    && texts[k] == "DEGRADED:"@ + list[places[k]].event_id@ + ":"@
                    + list[places[k]].capability@
            &&& forall|i: int|
                0 <= i < list.len() && costs(c, q, p, #[trigger] list[i], at) ==> places.contains(i)
        }
}

/// A degradation is in force and takes a capability that the point has and that
/// is called for.
pub open spec fn costs(
    c: Catalog,
    q: RouteRequest,
    p: Point,
    x: Degradation,
    at: Timestamp,
) -> bool {
    &&& lasts(x.from, x.to, at)
    &&& calls_for(c, q, x.capability@)
    &&& p.access@.contains(x.capability@)
}

/// The closures of a point.
pub open spec fn closures_at(c: Catalog, p: Point) -> Seq<Closure> {
    if c.closures_by_point@.contains_key(p.id@) {
        c.closures_by_point@[p.id@]@
    } else {
        Seq::empty()
    }
}

/// The degradations of a point.
pub open spec fn degradations_at(c: Catalog, p: Point) -> Seq<Degradation> {
    if c.degradations_by_point@.contains_key(p.id@) {
        c.degradations_by_point@[p.id@]@
    } else {
        Seq::empty()
    }
}

/// What speaks against a point, in four parts: whether the service is lacking;
/// the capabilities that it never has, ascending; what it has lost, in the order
/// of the events and only if it is not shut; and its closures, in the order of
/// the events.
pub open spec fn told_in_order(
    c: Catalog,
    q: RouteRequest,
    at: Timestamp,
    p: Point,
    reasons: Seq<Seq<char>>,
    lacking: Seq<Seq<char>>,
    lost: Seq<Seq<char>>,
    shut: Seq<Seq<char>>,
) -> bool {
    &&& p.services@.contains(q.service@) ==> reasons == lacking + lost + shut
    &&& !p.services@.contains(q.service@) ==> reasons == seq!["MISSING_SERVICE"@] + lacking + lost
        + shut
    &&& forall|k: int| 0 <= k < lacking.len() ==> tells_missing(c, q, p, #[trigger] lacking[k])
    &&& forall|i: int, k: int|
        0 <= i < k < lacking.len() ==> text_lt(#[trigger] lacking[i], #[trigger] lacking[k])
    &&& forall|t: Seq<char>| #[trigger]
        calls_for(c, q, t) && !p.access@.contains(t) ==> lacking.contains("MISSING_ACCESS:"@ + t)
    &&& tell_closures(closures_at(c, p), at, shut)
    &&& shut.len() > 0 ==> lost.len() == 0
    &&& shut.len() == 0 ==> tell_degradations(c, q, p, degradations_at(c, p), at, lost)
}

/// What speaks against a point, each thing once and in order.
pub open spec fn told_once(
    c: Catalog,
    q: RouteRequest,
    at: Timestamp,
    p: Point,
    reasons: Vec<String>,
) -> bool {
    exists|lacking: Seq<Seq<char>>, lost: Seq<Seq<char>>, shut: Seq<Seq<char>>| #[trigger]
        told_in_order(c, q, at, p, views(reasons@), lacking, lost, shut)
}

proof fn lemma_told_once(c: Catalog, q: RouteRequest, at: Timestamp, p: Point, reasons: Vec<String>)
    requires
        views(reasons@) == reasons_against(c@, q@, at@, p@),
    ensures
        told_once(c, q, at, p, reasons),
{
    let needed = required(c@, q@);
    let first = service_reasons(q@, p@);
    let lacking = access_reasons(needed, p@);
    let lost = degradation_reasons(c@, needed, at@, p@);
    let shut = closure_reasons(c@, at@, p@);
    lemma_lacking(c, q, p);
    lemma_tell_closures(c, p, at);
    if shut.len() == 0 {
        lemma_tell_degradations(c, q, p, at);
    }
    if p.services@.contains(q.service@) {
        assert(first + lacking + lost + shut =~= lacking + lost + shut);
    }
    assert(told_in_order(c, q, at, p, views(reasons@), lacking, lost, shut));
}

proof fn lemma_lacking(c: Catalog, q: RouteRequest, p: Point)
    ensures
        ({
            let lacking = access_reasons(required(c@, q@), p@);
            &&& forall|k: int|
                0 <= k < lacking.len() ==> tells_missing(c, q, p, #[trigger] lacking[k])
            &&& forall|i: int, k: int|
                0 <= i < k < lacking.len() ==> text_lt(
                    #[trigger] lacking[i],
                    #[trigger] lacking[k],
                )
            &&& forall|t: Seq<char>| #[trigger]
                calls_for(c, q, t) && !p.access@.contains(t) ==> lacking.contains(
                    "MISSING_ACCESS:"@ + t,
                )
        }),
{
    let needed = required(c@, q@);
    let list = ascending_list(needed);
    let lacking = access_reasons(needed, p@);
    lemma_required_is_finite(c@.hard_requirements, needs(q@));
    lemma_finite_set_is_listed(needed);
    let places = lemma_selection_places(list, lacks(p@), missing_reason());
    assert forall|k: int| 0 <= k < lacking.len() implies tells_missing(
        c,
        q,
        p,
        #[trigger] lacking[k],
    ) by {
        let t = list[places[k]];
        assert(list.contains(t));
        lemma_calls(c, q, t);
        assert(calls_for(c, q, t));
    }
    assert forall|i: int, k: int| 0 <= i < k < lacking.len() implies text_lt(
        #[trigger] lacking[i],
        #[trigger] lacking[k],
    ) by {
        assert(places[i] < places[k]);
        law_a_common_beginning_does_not_show(
            "MISSING_ACCESS:"@,
            list[places[i]],
            list[places[k]],
        );
    }
    assert forall|t: Seq<char>| #[trigger]
        calls_for(c, q, t) && !p.access@.contains(t) implies lacking.contains(
        "MISSING_ACCESS:"@ + t,
    ) by {
        lemma_calls(c, q, t);
        let i = choose|i: int| 0 <= i < list.len() && list[i] == t;
        lemma_selection_keeps(list, lacks(p@), missing_reason(), i);
    }
}

proof fn lemma_tell_closures(c: Catalog, p: Point, at: Timestamp)
    ensures
        tell_closures(closures_at(c, p), at, closure_reasons(c@, at@, p@)),
{
    let list = closures_at(c, p);
    let all = closures_of(c@, p@.id);
    assert(c@.closures_by_point.contains_key(p.id@) == c.closures_by_point@.contains_key(p.id@));
    assert(all =~= views(list));
    let places = lemma_selection_places(all, in_force(at@), closed_reason());
    assert forall|i: int| 0 <= i < list.len() implies in_force(at@)(all[i]) == lasts(
        (#[trigger] list[i]).from,
        list[i].to,
        at,
    ) by {
        assert(all[i] == list[i]@);
    }
    let texts = closure_reasons(c@, at@, p@);
    assert forall|k: int| 0 <= k < places.len() implies lasts(
        list[#[trigger] places[k]].from,
        list[places[k]].to,
        at,
    ) && texts[k] == "CLOSED:"@ + list[places[k]].event_id@ by {
        assert(all[places[k]] == list[places[k]]@);
    }
    assert forall|i: int|
        0 <= i < list.len() && lasts((#[trigger] list[i]).from, list[i].to, at) implies
        places.contains(i) by {
        assert(in_force(at@)(all[i]));
    }
    assert(are_places(places, list.len()));
}

proof fn lemma_tell_degradations(c: Catalog, q: RouteRequest, p: Point, at: Timestamp)
    requires
        closure_reasons(c@, at@, p@).len() == 0,
    ensures
        tell_degradations(
            c,
            q,
            p,
            degradations_at(c, p),
            at,
            degradation_reasons(c@, required(c@, q@), at@, p@),
        ),
{
    let needed = required(c@, q@);
    let list = degradations_at(c, p);
    let all = degradations_of(c@, p@.id);
    assert(c@.degradations_by_point.contains_key(p.id@) == c.degradations_by_point@.contains_key(
        p.id@,
    ));
    assert(all =~= views(list));
    let keep = hurts(needed, at@, p@);
    let places = lemma_selection_places(all, keep, degraded_reason());
    assert forall|i: int| 0 <= i < list.len() implies keep(all[i]) == costs(
        c,
        q,
        p,
        #[trigger] list[i],
        at,
    ) by {
        assert(all[i] == list[i]@);
        lemma_calls(c, q, list[i].capability@);
    }
    let texts = degradation_reasons(c@, needed, at@, p@);
    assert forall|k: int| 0 <= k < places.len() implies costs(
        c,
        q,
        p,
        list[#[trigger] places[k]],
        at,
    ) && texts[k] == "DEGRADED:"@ + list[places[k]].event_id@ + ":"@
        + list[places[k]].capability@ by {
        assert(all[places[k]] == list[places[k]]@);
    }
    assert forall|i: int| 0 <= i < list.len() && costs(c, q, p, #[trigger] list[i], at) implies
        places.contains(i) by {
        assert(keep(all[i]));
    }
    assert(are_places(places, list.len()));
}

} // verus!
