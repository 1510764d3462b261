//! What a result of routing over a catalog in its plain form holds, told from
//! the catalog and the request alone.

use crate::catalog::{Catalog, Point};
use crate::instant::{rfc3339_text, Timestamp};
use crate::keyed::{ascending, ascending_list, lemma_finite_set_is_listed};
use crate::order::{
    lemma_gathered_keeps, lemma_gathered_source, lemma_selection_keeps, lemma_selection_places,
    lemma_selection_source, lemma_sorted, lemma_sorted_contains, sorted, views, Order,
};
use crate::routing::{
    access_reasons, admitted, candidate_at, candidates_for, closing, closure_reasons, cost_fits,
    costs_fit, degradation_reasons, degraded_reason, effective_access, excluded_for,
    exclusions_for, home_service_for, lacks, loses, missing_access, reasons_against, reasons_by,
    refused, required_access, required_list, routed, service_reasons, temporarily_closed,
    ExclusionReason, ReasonModel, RouteRequest, RouteResult,
};
use crate::routing_laws::{
    law_admitted_points_serve, law_answers_are_ordered, law_every_point_is_answered,
    lemma_required_is_finite, serves,
};
use crate::text::{lemma_text_lt_connected, lemma_text_lt_irreflexive, text_lt};
use vstd::math::abs;
use vstd::prelude::*;

verus! {

/// A text is in a list.
pub open spec fn lists(list: Vec<String>, a: Seq<char>) -> bool {
    exists|i: int| 0 <= i < list@.len() && #[trigger] list@[i]@ == a
}

/// `at` is not before `from` and is before `to`.
pub open spec fn lasts(from: Timestamp, to: Timestamp, at: Timestamp) -> bool {
    &&& from@.0 < at@.0 || (from@.0 == at@.0 && from@.1 <= at@.1)
    &&& at@.0 < to@.0 || (at@.0 == to@.0 && at@.1 < to@.1)
}

/// Some need of the applicant, of mobility or of communication, calls for a
/// capability.
pub open spec fn calls_for(c: Catalog, q: RouteRequest, a: Seq<char>) -> bool {
    exists|n: Seq<char>|
        {
            &&& #[trigger] c.hard_requirements@.contains_key(n)
            &&& c.hard_requirements@[n]@ == a
            &&& lists(q.mobility, n) || lists(q.communication, n)
        }
}

/// The closure with the number `i` closes a point.
pub open spec fn closes(c: Catalog, i: int, p: Point, at: Timestamp) -> bool {
    &&& 0 <= i < c.closures@.len()
    &&& c.closures@[i].point_id@ == p.id@
    &&& lasts(c.closures@[i].from, c.closures@[i].to, at)
}

/// The degradation with the number `i` takes a capability from a point.
pub open spec fn takes(c: Catalog, i: int, p: Point, a: Seq<char>, at: Timestamp) -> bool {
    &&& 0 <= i < c.degradations@.len()
    &&& c.degradations@[i].point_id@ == p.id@
    &&& lasts(c.degradations@[i].from, c.degradations@[i].to, at)
    &&& lists(c.degradations@[i].removed_access, a)
}

pub open spec fn is_shut(c: Catalog, p: Point, at: Timestamp) -> bool {
    exists|i: int| #[trigger] closes(c, i, p, at)
}

pub open spec fn is_lost(c: Catalog, p: Point, a: Seq<char>, at: Timestamp) -> bool {
    exists|i: int| #[trigger] takes(c, i, p, a, at)
}

/// The applicant can be sent to a point: it offers the service, it has each
/// capability that is called for and has not lost it, and it is not shut.
pub open spec fn is_open_to(c: Catalog, q: RouteRequest, at: Timestamp, p: Point) -> bool {
    &&& lists(p.services, q.service@)
    &&& forall|a: Seq<char>| #[trigger]
        calls_for(c, q, a) ==> lists(p.access, a) && !is_lost(c, p, a, at)
    &&& !is_shut(c, p, at)
}

pub proof fn lemma_lists(list: Vec<String>, a: Seq<char>)
    ensures
        views(list@).contains(a) == lists(list, a),
{
    if views(list@).contains(a) {
        let i = choose|i: int| 0 <= i < views(list@).len() && views(list@)[i] == a;
        assert(list@[i]@ == a);
    }
    if lists(list, a) {
        let i = choose|i: int| 0 <= i < list@.len() && #[trigger] list@[i]@ == a;
        assert(views(list@)[i] == a);
    }
}

proof fn lemma_calls(c: Catalog, q: RouteRequest, a: Seq<char>)
    ensures
        required_access(c@.hard_requirements, q@.mobility + q@.communication).contains(a)
            == calls_for(c, q, a),
        required_list(c@, q@).contains(a) == calls_for(c, q, a),
{
    let h = c@.hard_requirements;
    let needs = q@.mobility + q@.communication;
    if required_access(h, needs).contains(a) {
        let i = choose|i: int|
            0 <= i < needs.len() && h.contains_key(#[trigger] needs[i]) && h[needs[i]] == a;
        let n = needs[i];
        if i < q@.mobility.len() {
            assert(q@.mobility[i] == n);
            assert(q@.mobility.contains(n));
            lemma_lists(q.mobility, n);
        } else {
            assert(q@.communication[i - q@.mobility.len()] == n);
            assert(q@.communication.contains(n));
            lemma_lists(q.communication, n);
        }
        assert(c.hard_requirements@.contains_key(n));
    }
    if calls_for(c, q, a) {
        let n = choose|n: Seq<char>|
            {
                &&& #[trigger] c.hard_requirements@.contains_key(n)
                &&& c.hard_requirements@[n]@ == a
                &&& lists(q.mobility, n) || lists(q.communication, n)
            };
        lemma_lists(q.mobility, n);
        lemma_lists(q.communication, n);
        if lists(q.mobility, n) {
            let i = choose|i: int| 0 <= i < q@.mobility.len() && q@.mobility[i] == n;
            assert(needs[i] == n);
            assert(h.contains_key(needs[i]));
        } else {
            let i = choose|i: int| 0 <= i < q@.communication.len() && q@.communication[i] == n;
            assert(needs[q@.mobility.len() + i] == n);
            assert(h.contains_key(needs[q@.mobility.len() + i]));
        }
    }
    lemma_required_is_finite(h, needs);
    lemma_finite_set_is_listed(required_access(h, needs));
}

proof fn lemma_closes(c: Catalog, i: int, p: Point, at: Timestamp)
    requires
        0 <= i < c.closures@.len(),
    ensures
        c@.closures[i].closes(p@.id, at@) == closes(c, i, p, at),
{
}

proof fn lemma_takes(c: Catalog, i: int, p: Point, a: Seq<char>, at: Timestamp)
    requires
        0 <= i < c.degradations@.len(),
    ensures
        c@.degradations[i].removes(p@.id, a, at@) == takes(c, i, p, a, at),
{
    lemma_lists(c.degradations@[i].removed_access, a);
}

proof fn lemma_effective(c: Catalog, p: Point, a: Seq<char>, at: Timestamp)
    ensures
        effective_access(c@, p@, at@).contains(a) == (lists(p.access, a) && !is_lost(c, p, a, at)),
{
    lemma_lists(p.access, a);
    if is_lost(c, p, a, at) {
        let i = choose|i: int| #[trigger] takes(c, i, p, a, at);
        lemma_takes(c, i, p, a, at);
    } else {
        assert forall|i: int| 0 <= i < c@.degradations.len() implies !(
        #[trigger] c@.degradations[i]).removes(p@.id, a, at@) by {
            lemma_takes(c, i, p, a, at);
        }
    }
}

proof fn lemma_open(c: Catalog, q: RouteRequest, at: Timestamp, p: Point)
    ensures
        serves(c@, q@, at@, p@) == is_open_to(c, q, at, p),
{
    lemma_lists(p.services, q.service@);
    let needed = required_access(c@.hard_requirements, q@.mobility + q@.communication);
    if serves(c@, q@, at@, p@) {
        assert forall|a: Seq<char>| #[trigger] calls_for(c, q, a) implies lists(p.access, a)
            && !is_lost(c, p, a, at) by {
            lemma_calls(c, q, a);
            lemma_effective(c, p, a, at);
            assert(needed.contains(a));
        }
        if is_shut(c, p, at) {
            let i = choose|i: int| #[trigger] closes(c, i, p, at);
            lemma_closes(c, i, p, at);
        }
    }
    if is_open_to(c, q, at, p) {
        assert forall|a: Seq<char>| needed.contains(a) implies effective_access(
            c@,
            p@,
            at@,
        ).contains(a) by {
            lemma_calls(c, q, a);
            lemma_effective(c, p, a, at);
        }
        assert forall|i: int| 0 <= i < c@.closures.len() implies !(#[trigger] c@.closures[i]).closes(
            p@.id,
            at@,
        ) by {
            lemma_closes(c, i, p, at);
        }
    }
}

/// A candidate is a point to which the applicant can be sent, with its place and
/// its penalty, at a distance that is the way across plus the way along, at a
/// cost that is the distance plus the penalty, and with the services that it
/// offers and the capabilities that it has left, each once and ascending.
pub proof fn law_candidates_are_open_points(
    c: Catalog,
    q: RouteRequest,
    at: Timestamp,
    r: RouteResult,
    k: int,
)
    requires
        r@ == routed(c@, q@, at@),
        0 <= k < r.candidates@.len(),
    ensures
        ({
            let x = r.candidates@[k];
            &&& x.rank == k + 1
            &&& exists|i: int|
                {
                    &&& 0 <= i < c.points@.len()
                    &&& is_open_to(c, q, at, #[trigger] c.points@[i])
                    &&& x.point_id@ == c.points@[i].id@
                    &&& x.grid@[0] == c.points@[i].grid@[0]
                    &&& x.grid@[1] == c.points@[i].grid@[1]
                    &&& x.cost.barrier_penalty == c.points@[i].barrier_penalty
                    &&& x.cost.distance == abs(q.origin_grid@[0] - c.points@[i].grid@[0]) + abs(
                        q.origin_grid@[1] - c.points@[i].grid@[1],
                    )
                    &&& x.total_cost == x.cost.distance + x.cost.barrier_penalty
                    &&& forall|s: Seq<char>| #[trigger]
                        lists(x.services, s) == lists(c.points@[i].services, s)
                    &&& forall|a: Seq<char>| #[trigger]
                        lists(x.access, a) == (lists(c.points@[i].access, a) && !is_lost(
                            c,
                            c.points@[i],
                            a,
                            at,
                        ))
                }
            &&& forall|m: int, n: int|
                0 <= m < n < x.services@.len() ==> text_lt(
                    (#[trigger] x.services@[m])@,
                    (#[trigger] x.services@[n])@,
                )
            &&& forall|m: int, n: int|
                0 <= m < n < x.access@.len() ==> text_lt(
                    (#[trigger] x.access@[m])@,
                    (#[trigger] x.access@[n])@,
                )
        }),
{
    let x = r.candidates@[k];
    let all = candidates_for(c@, q@, at@);
    assert(r@.candidates == all);
    assert(views(r.candidates@)[k] == x@);
    assert(all[k] == x@);
    let kept = c@.points.filter(admitted(c@, q@, at@)).map_values(candidate_at(c@, q@, at@));
    let y = sorted(kept)[k];
    assert(sorted(kept).contains(y));
    lemma_sorted_contains(kept, y);
    let i = lemma_selection_source(
        c@.points,
        admitted(c@, q@, at@),
        candidate_at(c@, q@, at@),
        y,
    );
    let p = c.points@[i];
    assert(c@.points[i] == p@);
    law_admitted_points_serve(c@, q@, at@, p@);
    lemma_open(c, q, at, p);
    vstd::seq_lib::seq_to_set_is_finite(p@.services);
    vstd::seq_lib::seq_to_set_is_finite(p@.access);
    lemma_finite_set_is_listed(p@.services.to_set());
    assert(effective_access(c@, p@, at@).subset_of(p@.access.to_set())) by {
        assert forall|a: Seq<char>| effective_access(c@, p@, at@).contains(
            a,
        ) implies p@.access.to_set().contains(a) by {}
    }
    vstd::set_lib::lemma_set_subset_finite(p@.access.to_set(), effective_access(c@, p@, at@));
    lemma_finite_set_is_listed(effective_access(c@, p@, at@));
    assert(x@.services == ascending_list(p@.services.to_set()));
    assert(x@.access == ascending_list(effective_access(c@, p@, at@)));
    assert forall|s: Seq<char>| #[trigger] lists(x.services, s) == lists(p.services, s) by {
        lemma_lists(x.services, s);
        lemma_lists(p.services, s);
        assert(p@.services.to_set().contains(s) == p@.services.contains(s));
    }
    assert forall|a: Seq<char>| #[trigger] lists(x.access, a) == (lists(p.access, a) && !is_lost(
        c,
        p,
        a,
        at,
    )) by {
        lemma_lists(x.access, a);
        lemma_effective(c, p, a, at);
    }
    lemma_ascends(x.services);
    lemma_ascends(x.access);
    assert(is_open_to(c, q, at, c.points@[i]));
}

pub proof fn lemma_ascends(list: Vec<String>)
    requires
        ascending(views(list@)),
    ensures
        forall|m: int, n: int|
            0 <= m < n < list@.len() ==> text_lt(
                (#[trigger] list@[m])@,
                (#[trigger] list@[n])@,
            ),
{
    assert forall|m: int, n: int| 0 <= m < n < list@.len() implies text_lt(
        (#[trigger] list@[m])@,
        (#[trigger] list@[n])@,
    ) by {
        assert(views(list@)[m] == list@[m]@ && views(list@)[n] == list@[n]@);
    }
}

/// Every point to which the applicant can be sent is a candidate, every other
/// point is excluded, and there is nothing else in the result.
pub proof fn law_every_point_is_offered_or_excluded(
    c: Catalog,
    q: RouteRequest,
    at: Timestamp,
    r: RouteResult,
    i: int,
)
    requires
        r@ == routed(c@, q@, at@),
        0 <= i < c.points@.len(),
    ensures
        is_open_to(c, q, at, c.points@[i]) ==> exists|k: int|
            0 <= k < r.candidates@.len() && (#[trigger] r.candidates@[k]).point_id@
                == c.points@[i].id@,
        !is_open_to(c, q, at, c.points@[i]) ==> exists|k: int|
            0 <= k < r.excluded@.len() && (#[trigger] r.excluded@[k]).point_id@
                == c.points@[i].id@,
        r.candidates@.len() + r.excluded@.len() == c.points@.len(),
        views(r.tie_break@) == views(c.tie_break@),
{
    let p = c.points@[i];
    assert(c@.points[i] == p@);
    lemma_open(c, q, at, p);
    law_every_point_is_answered(c@, q@, at@, i);
    if is_open_to(c, q, at, p) {
        let k = choose|k: int|
            0 <= k < candidates_for(c@, q@, at@).len() && (#[trigger] candidates_for(
                c@,
                q@,
                at@,
            )[k]).point_id == p@.id;
        assert(views(r.candidates@)[k] == r.candidates@[k]@);
    } else {
        let k = choose|k: int|
            0 <= k < exclusions_for(c@, q@, at@).len() && (#[trigger] exclusions_for(
                c@,
                q@,
                at@,
            )[k]).point_id == p@.id;
        assert(views(r.excluded@)[k] == r.excluded@[k]@);
    }
}

/// Of two candidates the cheaper stands first and, at the same cost, the one
/// whose id comes first; excluded points stand by id.
pub proof fn law_cheaper_candidates_stand_first(
    c: Catalog,
    q: RouteRequest,
    at: Timestamp,
    r: RouteResult,
)
    requires
        r@ == routed(c@, q@, at@),
    ensures
        forall|m: int, n: int|
            0 <= m < n < r.candidates@.len() ==> {
                let x = #[trigger] r.candidates@[m];
                let y = #[trigger] r.candidates@[n];
                x.total_cost < y.total_cost || (x.total_cost == y.total_cost && (x.point_id@
                    == y.point_id@ || text_lt(x.point_id@, y.point_id@)))
            },
        forall|m: int, n: int|
            0 <= m < n < r.excluded@.len() ==> {
                let x = #[trigger] r.excluded@[m];
                let y = #[trigger] r.excluded@[n];
                x.point_id@ == y.point_id@ || text_lt(x.point_id@, y.point_id@)
            },
{
    law_answers_are_ordered(c@, q@, at@);
    let all = candidates_for(c@, q@, at@);
    let left = exclusions_for(c@, q@, at@);
    assert forall|m: int, n: int| 0 <= m < n < r.candidates@.len() implies {
        let x = #[trigger] r.candidates@[m];
        let y = #[trigger] r.candidates@[n];
        x.total_cost < y.total_cost || (x.total_cost == y.total_cost && (x.point_id@
            == y.point_id@ || text_lt(x.point_id@, y.point_id@)))
    } by {
        assert(views(r.candidates@)[m] == r.candidates@[m]@);
        assert(views(r.candidates@)[n] == r.candidates@[n]@);
        assert(all[m].at_most(all[n]));
        lemma_text_lt_connected(all[m].point_id, all[n].point_id);
    }
    assert forall|m: int, n: int| 0 <= m < n < r.excluded@.len() implies {
        let x = #[trigger] r.excluded@[m];
        let y = #[trigger] r.excluded@[n];
        x.point_id@ == y.point_id@ || text_lt(x.point_id@, y.point_id@)
    } by {
        assert(views(r.excluded@)[m] == r.excluded@[m]@);
        assert(views(r.excluded@)[n] == r.excluded@[n]@);
        assert(left[m].at_most(left[n]));
        lemma_text_lt_connected(left[m].point_id, left[n].point_id);
    }
}

/// Home service is granted if and only if the service asked for is the one that
/// is allowed and some mobility code of the applicant is an allowed one; it
/// comes with the configured reason.
pub proof fn law_home_service_is_for_the_entitled(
    c: Catalog,
    q: RouteRequest,
    at: Timestamp,
    r: RouteResult,
)
    requires
        r@ == routed(c@, q@, at@),
    ensures
        r.home_service is Some <==> {
            &&& q.service@ == c.home_service.allowed_service@
            &&& exists|m: Seq<char>|
                #[trigger] lists(q.mobility, m) && lists(c.home_service.allowed_mobility, m)
        },
        r.home_service is Some ==> r.home_service->Some_0.eligible
            && r.home_service->Some_0.reason@ == c.home_service.reason@,
{
    let allowed = c.home_service.allowed_mobility;
    if home_service_for(c@, q@) is Some {
        let i = choose|i: int|
            0 <= i < q@.mobility.len() && c@.home_service.allowed_mobility.contains(
                #[trigger] q@.mobility[i],
            );
        let m = q@.mobility[i];
        assert(q@.mobility.contains(m));
        lemma_lists(q.mobility, m);
        lemma_lists(allowed, m);
        assert(lists(q.mobility, m) && lists(allowed, m));
    }
    if exists|m: Seq<char>| #[trigger] lists(q.mobility, m) && lists(allowed, m) {
        let m = choose|m: Seq<char>| #[trigger] lists(q.mobility, m) && lists(allowed, m);
        lemma_lists(q.mobility, m);
        lemma_lists(allowed, m);
        let i = choose|i: int| 0 <= i < q@.mobility.len() && q@.mobility[i] == m;
        assert(c@.home_service.allowed_mobility.contains(q@.mobility[i]));
    }
}

/// Further mobility codes never take home service away.
pub proof fn law_further_needs_keep_home_service(
    c: Catalog,
    q: RouteRequest,
    w: RouteRequest,
    at: Timestamp,
    r: RouteResult,
    s: RouteResult,
)
    requires
        r@ == routed(c@, q@, at@),
        s@ == routed(c@, w@, at@),
        w.service@ == q.service@,
        forall|m: Seq<char>| #[trigger] lists(q.mobility, m) ==> lists(w.mobility, m),
        r.home_service is Some,
    ensures
        s.home_service is Some,
        s.home_service->Some_0.reason@ == r.home_service->Some_0.reason@,
{
    law_home_service_is_for_the_entitled(c, q, at, r);
    law_home_service_is_for_the_entitled(c, w, at, s);
    let m = choose|m: Seq<char>|
        #[trigger] lists(q.mobility, m) && lists(c.home_service.allowed_mobility, m);
    assert(lists(w.mobility, m));
}

/// A reason against a point holds of it.
pub open spec fn holds_of(
    c: Catalog,
    q: RouteRequest,
    at: Timestamp,
    p: Point,
    x: ExclusionReason,
) -> bool {
    match x {
        ExclusionReason::MissingService { service } => {
            &&& service@ == q.service@
            &&& !lists(p.services, q.service@)
        },
        ExclusionReason::MissingAccess { required } => {
            &&& calls_for(c, q, required@)
            &&& !lists(p.access, required@)
        },
        ExclusionReason::CapabilityDegraded { event_id, access, from, to } => {
            &&& !is_shut(c, p, at)
            &&& calls_for(c, q, access@)
            &&& lists(p.access, access@)
            &&& exists|i: int|
                {
                    &&& #[trigger] takes(c, i, p, access@, at)
                    &&& event_id@ == c.degradations@[i].event_id@
                    &&& from@ == rfc3339_text(
                        c.degradations@[i].from@.0,
                        c.degradations@[i].from@.1,
                    )
                    &&& to@ == rfc3339_text(c.degradations@[i].to@.0, c.degradations@[i].to@.1)
                }
        },
        ExclusionReason::TemporarilyClosed { event_id, from, to } => exists|i: int|
            {
                &&& #[trigger] closes(c, i, p, at)
                &&& event_id@ == c.closures@[i].event_id@
                &&& from@ == rfc3339_text(c.closures@[i].from@.0, c.closures@[i].from@.1)
                &&& to@ == rfc3339_text(c.closures@[i].to@.0, c.closures@[i].to@.1)
            },
    }
}

pub open spec fn tells_lacking(x: ExclusionReason, a: Seq<char>) -> bool {
    match x {
        ExclusionReason::MissingAccess { required } => required@ == a,
        _ => false,
    }
}

pub open spec fn tells_lost(x: ExclusionReason, event: Seq<char>, a: Seq<char>) -> bool {
    match x {
        ExclusionReason::CapabilityDegraded { event_id, access, from, to } => event_id@ == event
            && access@ == a,
        _ => false,
    }
}

pub open spec fn tells_closed(x: ExclusionReason, event: Seq<char>) -> bool {
    match x {
        ExclusionReason::TemporarilyClosed { event_id, from, to } => event_id@ == event,
        _ => false,
    }
}

/// What is told of an excluded point: only reasons that hold of it, and every
/// one that does.
pub open spec fn told(
    c: Catalog,
    q: RouteRequest,
    at: Timestamp,
    p: Point,
    reasons: Seq<ExclusionReason>,
) -> bool {
    &&& forall|j: int|
        0 <= j < reasons.len() ==> holds_of(c, q, at, p, #[trigger] reasons[j])
    &&& !lists(p.services, q.service@) ==> exists|j: int|
        0 <= j < reasons.len() && (#[trigger] reasons[j]) is MissingService
    &&& forall|a: Seq<char>| #[trigger]
        calls_for(c, q, a) && !lists(p.access, a) ==> exists|j: int|
            0 <= j < reasons.len() && tells_lacking(#[trigger] reasons[j], a)
    &&& forall|i: int, a: Seq<char>| #[trigger]
        takes(c, i, p, a, at) && calls_for(c, q, a) && lists(p.access, a) && !is_shut(c, p, at)
            ==> exists|j: int|
            0 <= j < reasons.len() && tells_lost(
                #[trigger] reasons[j],
                c.degradations@[i].event_id@,
                a,
            )
    &&& forall|i: int| #[trigger]
        closes(c, i, p, at) ==> exists|j: int|
            0 <= j < reasons.len() && tells_closed(
                #[trigger] reasons[j],
                c.closures@[i].event_id@,
            )
}

/// The place of a reason in the fixed order of kinds: a lacking service, then
/// lacking capabilities, then lost ones, then closures.
pub open spec fn place_of(x: ExclusionReason) -> int {
    match x {
        ExclusionReason::MissingService { .. } => 1,
        ExclusionReason::MissingAccess { .. } => 2,
        ExclusionReason::CapabilityDegraded { .. } => 3,
        ExclusionReason::TemporarilyClosed { .. } => 4,
    }
}

proof fn lemma_reason_holds(
    c: Catalog,
    q: RouteRequest,
    at: Timestamp,
    p: Point,
    x: ExclusionReason,
)
    requires
        reasons_against(c@, q@, at@, p@).contains(x@),
    ensures
        holds_of(c, q, at, p, x),
{
    let required = required_list(c@, q@);
    let first = service_reasons(q@, p@);
    let second = access_reasons(required, p@);
    let third = degradation_reasons(c@, required, p@, at@);
    let fourth = closure_reasons(c@.closures, p@, at@);
    let all = reasons_against(c@, q@, at@, p@);
    let j = choose|j: int| 0 <= j < all.len() && all[j] == x@;
    let n1 = first.len();
    let n2 = n1 + second.len();
    let n3 = n2 + third.len();
    lemma_shut(c, p, at);
    if j < n1 {
        assert(first[j] == x@);
        lemma_lists(p.services, q.service@);
    } else if j < n2 {
        assert(second[j - n1] == x@);
        assert(second.contains(x@));
        let i = lemma_selection_source(required, lacks(p@), missing_access(), x@);
        assert(required.contains(required[i]));
        lemma_calls(c, q, required[i]);
        lemma_lists(p.access, required[i]);
    } else if j < n3 {
        assert(third[j - n2] == x@);
        assert(third.contains(x@));
        let f = reasons_by(required, p@, at@);
        let m = lemma_gathered_source(c@.degradations, f, x@);
        let d = c@.degradations[m];
        let i = lemma_selection_source(required, loses(d, p@, at@), degraded_reason(d), x@);
        assert(required.contains(required[i]));
        lemma_calls(c, q, required[i]);
        lemma_lists(p.access, required[i]);
        lemma_takes(c, m, p, required[i], at);
        assert(d == c.degradations@[m]@);
        assert(takes(c, m, p, required[i], at));
    } else {
        assert(fourth[j - n3] == x@);
        assert(fourth.contains(x@));
        let i = lemma_selection_source(
            c@.closures,
            closing(p@, at@),
            temporarily_closed(),
            x@,
        );
        lemma_closes(c, i, p, at);
        assert(c@.closures[i] == c.closures@[i]@);
        assert(closes(c, i, p, at));
    }
}

proof fn lemma_shut(c: Catalog, p: Point, at: Timestamp)
    ensures
        closure_reasons(c@.closures, p@, at@).len() > 0 <==> is_shut(c, p, at),
{
    let shut = closure_reasons(c@.closures, p@, at@);
    if shut.len() > 0 {
        assert(shut.contains(shut[0]));
        let i = lemma_selection_source(
            c@.closures,
            closing(p@, at@),
            temporarily_closed(),
            shut[0],
        );
        lemma_closes(c, i, p, at);
        assert(closes(c, i, p, at));
    }
    if is_shut(c, p, at) {
        let i = choose|i: int| #[trigger] closes(c, i, p, at);
        lemma_closes(c, i, p, at);
        lemma_selection_keeps(c@.closures, closing(p@, at@), temporarily_closed(), i);
    }
}

/// A reason that is among those against a point is told.
proof fn lemma_told_place(all: Seq<ReasonModel>, reasons: Seq<ExclusionReason>, x: ReasonModel) -> (j:
    int)
    requires
        views(reasons) == sorted(all),
        all.contains(x),
    ensures
        0 <= j < reasons.len(),
        reasons[j]@ == x,
{
    lemma_sorted_contains(all, x);
    let j = choose|j: int| 0 <= j < sorted(all).len() && sorted(all)[j] == x;
    assert(views(reasons)[j] == reasons[j]@);
    j
}

proof fn lemma_told(
    c: Catalog,
    q: RouteRequest,
    at: Timestamp,
    p: Point,
    reasons: Seq<ExclusionReason>,
)
    requires
        views(reasons) == sorted(reasons_against(c@, q@, at@, p@)),
    ensures
        told(c, q, at, p, reasons),
{
    let required = required_list(c@, q@);
    let first = service_reasons(q@, p@);
    let second = access_reasons(required, p@);
    let third = degradation_reasons(c@, required, p@, at@);
    let fourth = closure_reasons(c@.closures, p@, at@);
    let all = reasons_against(c@, q@, at@, p@);
    let n1 = first.len();
    let n2 = n1 + second.len();
    let n3 = n2 + third.len();
    assert forall|j: int| 0 <= j < reasons.len() implies holds_of(
        c,
        q,
        at,
        p,
        #[trigger] reasons[j],
    ) by {
        assert(views(reasons)[j] == reasons[j]@);
        assert(sorted(all).contains(reasons[j]@));
        lemma_sorted_contains(all, reasons[j]@);
        lemma_reason_holds(c, q, at, p, reasons[j]);
    }
    lemma_lists(p.services, q.service@);
    if !lists(p.services, q.service@) {
        assert(all[0] == first[0]);
        let j = lemma_told_place(all, reasons, first[0]);
    }
    assert forall|a: Seq<char>| #[trigger]
        calls_for(c, q, a) && !lists(p.access, a) implies exists|j: int|
        0 <= j < reasons.len() && tells_lacking(#[trigger] reasons[j], a) by {
        lemma_calls(c, q, a);
        lemma_lists(p.access, a);
        let i = choose|i: int| 0 <= i < required.len() && required[i] == a;
        lemma_selection_keeps(required, lacks(p@), missing_access(), i);
        let x = missing_access()(a);
        let m = choose|m: int| 0 <= m < second.len() && second[m] == x;
        assert(all[n1 + m] == x);
        let j = lemma_told_place(all, reasons, x);
        assert(reasons[j]@ == x);
    }
    lemma_shut(c, p, at);
    assert forall|i: int, a: Seq<char>| #[trigger]
        takes(c, i, p, a, at) && calls_for(c, q, a) && lists(p.access, a) && !is_shut(
            c,
            p,
            at,
        ) implies exists|j: int|
        0 <= j < reasons.len() && tells_lost(
                #[trigger] reasons[j],
                c.degradations@[i].event_id@,
                a,
            ) by {
        lemma_calls(c, q, a);
        lemma_lists(p.access, a);
        lemma_takes(c, i, p, a, at);
        let d = c@.degradations[i];
        assert(d == c.degradations@[i]@);
        let f = reasons_by(required, p@, at@);
        let m = choose|m: int| 0 <= m < required.len() && required[m] == a;
        lemma_selection_keeps(required, loses(d, p@, at@), degraded_reason(d), m);
        let x = degraded_reason(d)(a);
        lemma_gathered_keeps(c@.degradations, f, i, x);
        let k = choose|k: int| 0 <= k < third.len() && third[k] == x;
        assert(all[n2 + k] == x);
        let j = lemma_told_place(all, reasons, x);
        assert(reasons[j]@ == x);
    }
    assert forall|i: int| #[trigger] closes(c, i, p, at) implies exists|j: int|
        0 <= j < reasons.len() && tells_closed(
                #[trigger] reasons[j],
                c.closures@[i].event_id@,
            ) by {
        lemma_closes(c, i, p, at);
        lemma_selection_keeps(c@.closures, closing(p@, at@), temporarily_closed(), i);
        let x = temporarily_closed()(c@.closures[i]);
        assert(c@.closures[i] == c.closures@[i]@);
        let k = choose|k: int| 0 <= k < fourth.len() && fourth[k] == x;
        assert(all[n3 + k] == x);
        let j = lemma_told_place(all, reasons, x);
        assert(reasons[j]@ == x);
    }
}

/// An excluded point is one to which the applicant cannot be sent. It comes with
/// everything that speaks against it, and with nothing that does not, in the
/// fixed order of kinds.
pub proof fn law_excluded_points_are_told_why(
    c: Catalog,
    q: RouteRequest,
    at: Timestamp,
    r: RouteResult,
    k: int,
)
    requires
        r@ == routed(c@, q@, at@),
        0 <= k < r.excluded@.len(),
    ensures
        ({
            let x = r.excluded@[k];
            &&& x.reasons@.len() > 0
            &&& exists|i: int|
                {
                    &&& 0 <= i < c.points@.len()
                    &&& !is_open_to(c, q, at, #[trigger] c.points@[i])
                    &&& x.point_id@ == c.points@[i].id@
                    &&& told(c, q, at, c.points@[i], x.reasons@)
                }
            &&& forall|m: int, n: int|
                0 <= m < n < x.reasons@.len() ==> place_of(#[trigger] x.reasons@[m]) <= place_of(
                    #[trigger] x.reasons@[n],
                )
        }),
{
    let x = r.excluded@[k];
    let left = c@.points.filter(refused(c@, q@, at@)).map_values(excluded_for(c@, q@, at@));
    assert(views(r.excluded@)[k] == x@);
    let y = sorted(left)[k];
    assert(y == x@);
    assert(sorted(left).contains(y));
    lemma_sorted_contains(left, y);
    let i = lemma_selection_source(c@.points, refused(c@, q@, at@), excluded_for(c@, q@, at@), y);
    let p = c.points@[i];
    assert(c@.points[i] == p@);
    let all = reasons_against(c@, q@, at@, p@);
    law_admitted_points_serve(c@, q@, at@, p@);
    lemma_open(c, q, at, p);
    lemma_told(c, q, at, p, x.reasons@);
    lemma_sorted(all);
    assert(views(x.reasons@).len() == x.reasons@.len());
    assert(!is_open_to(c, q, at, c.points@[i]));
    assert forall|m: int, n: int| 0 <= m < n < x.reasons@.len() implies place_of(
        #[trigger] x.reasons@[m],
    ) <= place_of(#[trigger] x.reasons@[n]) by {
        assert(views(x.reasons@)[m] == x.reasons@[m]@);
        assert(views(x.reasons@)[n] == x.reasons@[n]@);
        assert(sorted(all)[m].at_most(sorted(all)[n]));
    }
}

/// A request can be answered at an instant if and only if the distance of every
/// point to which the applicant can be sent, and its sum with the penalty, can
/// be computed in 32 bits.
pub proof fn law_costs_that_can_be_computed(c: Catalog, q: RouteRequest, at: Timestamp)
    ensures
        costs_fit(c@, q@, at@) <==> forall|i: int|
            0 <= i < c.points@.len() && is_open_to(c, q, at, #[trigger] c.points@[i]) ==> {
                let p = c.points@[i];
                let way = abs(q.origin_grid@[0] - p.grid@[0]) + abs(
                    q.origin_grid@[1] - p.grid@[1],
                );
                &&& way <= 0x7fff_ffff
                &&& -0x8000_0000 <= way + p.barrier_penalty <= 0x7fff_ffff
            },
{
    assert forall|i: int| 0 <= i < c.points@.len() implies c@.points[i] == c.points@[i]@
        && admitted(c@, q@, at@)(c@.points[i]) == is_open_to(
        c,
        q,
        at,
        #[trigger] c.points@[i],
    ) by {
        law_admitted_points_serve(c@, q@, at@, c.points@[i]@);
        lemma_open(c, q, at, c.points@[i]);
    }
    if costs_fit(c@, q@, at@) {
        assert forall|i: int|
            0 <= i < c.points@.len() && is_open_to(c, q, at, #[trigger] c.points@[i]) implies {
            let p = c.points@[i];
            let way = abs(q.origin_grid@[0] - p.grid@[0]) + abs(q.origin_grid@[1] - p.grid@[1]);
            &&& way <= 0x7fff_ffff
            &&& -0x8000_0000 <= way + p.barrier_penalty <= 0x7fff_ffff
        } by {
            assert(admitted(c@, q@, at@)(c@.points[i]));
        }
    }
    if forall|i: int|
        0 <= i < c.points@.len() && is_open_to(c, q, at, #[trigger] c.points@[i]) ==> {
            let p = c.points@[i];
            let way = abs(q.origin_grid@[0] - p.grid@[0]) + abs(q.origin_grid@[1] - p.grid@[1]);
            &&& way <= 0x7fff_ffff
            &&& -0x8000_0000 <= way + p.barrier_penalty <= 0x7fff_ffff
        } {
        assert forall|i: int|
            0 <= i < c@.points.len() && admitted(c@, q@, at@)(
                #[trigger] c@.points[i],
            ) implies cost_fits(q@, c@.points[i]) by {
            assert(c@.points[i] == c.points@[i]@);
            assert(is_open_to(c, q, at, c.points@[i]));
        }
    }
}

/// The required capabilities are those that some need of the applicant calls
/// for, each once and ascending.
pub proof fn law_required_access_is_what_is_called_for(
    c: Catalog,
    q: RouteRequest,
    required: Vec<String>,
)
    requires
        views(required@) == required_list(c@, q@),
    ensures
        forall|a: Seq<char>| #[trigger] lists(required, a) == calls_for(c, q, a),
        forall|m: int, n: int|
            0 <= m < n < required@.len() ==> text_lt(
                (#[trigger] required@[m])@,
                (#[trigger] required@[n])@,
            ),
{
    assert forall|a: Seq<char>| #[trigger] lists(required, a) == calls_for(c, q, a) by {
        lemma_lists(required, a);
        lemma_calls(c, q, a);
    }
    let needs = q@.mobility + q@.communication;
    lemma_required_is_finite(c@.hard_requirements, needs);
    lemma_finite_set_is_listed(required_access(c@.hard_requirements, needs));
    lemma_ascends(required);
}

/// What stands twice in a list stands twice in every rearrangement of it.
proof fn lemma_twice<A>(a: Seq<A>, b: Seq<A>, m: int, n: int) -> (r: (int, int))
    requires
        a.to_multiset() == b.to_multiset(),
        0 <= m < n < a.len(),
        a[m] == a[n],
    ensures
        0 <= r.0 < r.1 < b.len(),
        b[r.0] == a[m],
        b[r.1] == a[m],
{
    broadcast use vstd::seq_lib::group_to_multiset_ensures;

    let x = a[m];
    assert(a.contains(x));
    assert(b.to_multiset().count(x) > 0);
    let i = choose|i: int| 0 <= i < b.len() && b[i] == x;
    let s = a.remove(n);
    let t = b.remove(i);
    assert(s[m] == x);
    assert(s.contains(x));
    assert(s.to_multiset() =~= t.to_multiset());
    assert(t.to_multiset().count(x) > 0);
    let j = choose|j: int| 0 <= j < t.len() && t[j] == x;
    if j < i {
        assert(b[j] == x);
        (j, i)
    } else {
        assert(b[j + 1] == x);
        (i, j + 1)
    }
}

proof fn lemma_lacking_is_told_once(
    c: Catalog,
    q: RouteRequest,
    at: Timestamp,
    p: Point,
    i: int,
    j: int,
)
    requires
        0 <= i < j < reasons_against(c@, q@, at@, p@).len(),
        reasons_against(c@, q@, at@, p@)[i] == reasons_against(c@, q@, at@, p@)[j],
    ensures
        !(reasons_against(c@, q@, at@, p@)[i] is MissingService),
        !(reasons_against(c@, q@, at@, p@)[i] is MissingAccess),
{
    let required = required_list(c@, q@);
    let first = service_reasons(q@, p@);
    let second = access_reasons(required, p@);
    let third = degradation_reasons(c@, required, p@, at@);
    let fourth = closure_reasons(c@.closures, p@, at@);
    let all = reasons_against(c@, q@, at@, p@);
    let n1 = first.len() as int;
    let n2 = n1 + second.len();
    let n3 = n2 + third.len();
    let x = all[j];
    let places = lemma_selection_places(required, lacks(p@), missing_access());
    if j < n1 {
        assert(first[i] == all[i] && first[j] == all[j]);
    } else if j < n2 {
        assert(second[j - n1] == x);
        assert(x is MissingAccess);
        if i < n1 {
            assert(first[i] == all[i]);
        } else {
            assert(second[i - n1] == all[i]);
            let needs = q@.mobility + q@.communication;
            lemma_required_is_finite(c@.hard_requirements, needs);
            lemma_finite_set_is_listed(required_access(c@.hard_requirements, needs));
            let a = required[places[i - n1]];
            let b = required[places[j - n1]];
            assert(places[i - n1] < places[j - n1]);
            assert(text_lt(a, b));
            lemma_text_lt_irreflexive(a);
        }
    } else if j < n3 {
        assert(third[j - n2] == x);
        assert(third.contains(x));
        let m = lemma_gathered_source(c@.degradations, reasons_by(required, p@, at@), x);
        let d = c@.degradations[m];
        let k = lemma_selection_source(required, loses(d, p@, at@), degraded_reason(d), x);
    } else {
        assert(fourth[j - n3] == x);
        assert(fourth.contains(x));
        let k = lemma_selection_source(
            c@.closures,
            closing(p@, at@),
            temporarily_closed(),
            x,
        );
    }
}

/// Of an excluded point it is told once that the service is lacking, and once of
/// each capability that it is lacking; reasons of one kind stand by their JSON
/// text.
pub proof fn law_reasons_stand_in_order(
    c: Catalog,
    q: RouteRequest,
    at: Timestamp,
    r: RouteResult,
    k: int,
)
    requires
        r@ == routed(c@, q@, at@),
        0 <= k < r.excluded@.len(),
    ensures
        forall|m: int, n: int|
            0 <= m < n < r.excluded@[k].reasons@.len() ==> {
                let x = #[trigger] r.excluded@[k].reasons@[m];
                let y = #[trigger] r.excluded@[k].reasons@[n];
                &&& !(x is MissingService && y is MissingService)
                &&& x is MissingAccess && y is MissingAccess ==> x->required@ != y->required@
                &&& place_of(x) == place_of(y) ==> x@.json() == y@.json() || text_lt(
                    x@.json(),
                    y@.json(),
                )
            },
{
    let e = r.excluded@[k];
    let left = c@.points.filter(refused(c@, q@, at@)).map_values(excluded_for(c@, q@, at@));
    assert(views(r.excluded@)[k] == e@);
    assert(sorted(left)[k] == e@);
    assert(sorted(left).contains(e@));
    lemma_sorted_contains(left, e@);
    let i = lemma_selection_source(
        c@.points,
        refused(c@, q@, at@),
        excluded_for(c@, q@, at@),
        e@,
    );
    let p = c.points@[i];
    assert(c@.points[i] == p@);
    let all = reasons_against(c@, q@, at@, p@);
    lemma_sorted(all);
    let told = views(e.reasons@);
    assert(told == sorted(all));
    assert forall|m: int, n: int| 0 <= m < n < e.reasons@.len() implies {
        let x = #[trigger] e.reasons@[m];
        let y = #[trigger] e.reasons@[n];
        &&& !(x is MissingService && y is MissingService)
        &&& x is MissingAccess && y is MissingAccess ==> x->required@ != y->required@
        &&& place_of(x) == place_of(y) ==> x@.json() == y@.json() || text_lt(x@.json(), y@.json())
    } by {
        let x = e.reasons@[m];
        let y = e.reasons@[n];
        assert(told[m] == x@ && told[n] == y@);
        assert(told[m].at_most(told[n]));
        lemma_text_lt_connected(x@.json(), y@.json());
        if x@ == y@ {
            let (a, b) = lemma_twice(told, all, m, n);
            lemma_lacking_is_told_once(c, q, at, p, a, b);
        }
        if x is MissingService && y is MissingService {
            assert(told.contains(told[m]) && told.contains(told[n]));
            lemma_sorted_contains(all, told[m]);
            lemma_sorted_contains(all, told[n]);
            lemma_reason_holds(c, q, at, p, x);
            lemma_reason_holds(c, q, at, p, y);
        }
    }
}

} // verus!
