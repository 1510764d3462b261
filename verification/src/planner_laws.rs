//! What holds of every routing over a catalog in normal form.

use crate::keyed::{ascending_list, lemma_finite_set_is_listed};
use crate::model::{normalized, raw_fault, CatalogModel, RawCatalogModel};
use crate::model_laws::{distinct_events, law_normal_form_ignores_input_order, same_listing};
use crate::models::ServicePointModel;
use crate::order::{
    in_order, lemma_narrower_selection, lemma_selection_keeps, lemma_selection_parts,
    lemma_selection_source, lemma_sorted, lemma_sorted_contains, sorted, subsequence,
};
use crate::planner::{
    access_reasons, admitted, candidate_at, candidates_for, closed_reason, closure_reasons,
    closures_of, degradation_reasons, degradations_of, degraded_reason, effective_access,
    exclusion_at, exclusions_for, hurts, in_force, lacks, missing_reason, needs, points_in_order,
    reasons_against, refused, required, routed, RouteRequestModel,
};
use crate::routing::required_access;
use crate::routing_laws::lemma_required_is_finite;
use vstd::prelude::*;

verus! {

/// A closure of the point is in force at the instant.
pub open spec fn is_closed(c: CatalogModel, at: (int, int), p: ServicePointModel) -> bool {
    exists|i: int|
        0 <= i < closures_of(c, p.id).len() && in_force(at)(#[trigger] closures_of(c, p.id)[i])
}

/// The point offers what is asked for, has every required capability at the
/// instant, and is open.
pub open spec fn serves(
    c: CatalogModel,
    r: RouteRequestModel,
    at: (int, int),
    p: ServicePointModel,
) -> bool {
    &&& p.services.contains(r.service)
    &&& required(c, r).subset_of(effective_access(c, at, p))
    &&& !is_closed(c, at, p)
}

pub proof fn lemma_closed(c: CatalogModel, at: (int, int), p: ServicePointModel)
    ensures
        closure_reasons(c, at, p).len() > 0 <==> is_closed(c, at, p),
{
    let all = closures_of(c, p.id);
    let shut = closure_reasons(c, at, p);
    if shut.len() > 0 {
        assert(shut.contains(shut[0]));
        let i = lemma_selection_source(all, in_force(at), closed_reason(), shut[0]);
    }
    if is_closed(c, at, p) {
        let i = choose|i: int| 0 <= i < all.len() && in_force(at)(#[trigger] all[i]);
        lemma_selection_keeps(all, in_force(at), closed_reason(), i);
    }
}

/// A point is admitted if and only if it offers the service, has every required
/// capability at the instant and is open.
pub proof fn law_admitted_points_serve(
    c: CatalogModel,
    r: RouteRequestModel,
    at: (int, int),
    p: ServicePointModel,
)
    ensures
        admitted(c, r, at)(p) == serves(c, r, at, p),
        refused(c, r, at)(p) == !serves(c, r, at, p),
{
    let needed = required(c, r);
    let list = ascending_list(needed);
    let lacking = access_reasons(needed, p);
    let events = degradations_of(c, p.id);
    let keep = hurts(needed, at, p);
    let lost = events.filter(keep).map_values(degraded_reason());
    lemma_required_is_finite(c.hard_requirements, needs(r));
    lemma_finite_set_is_listed(needed);
    lemma_closed(c, at, p);
    if lacking.len() > 0 {
        assert(lacking.contains(lacking[0]));
        let i = lemma_selection_source(list, lacks(p), missing_reason(), lacking[0]);
        assert(list.contains(list[i]));
        assert(needed.contains(list[i]) && !effective_access(c, at, p).contains(list[i]));
    }
    if lost.len() > 0 {
        assert(lost.contains(lost[0]));
        let i = lemma_selection_source(events, keep, degraded_reason(), lost[0]);
        assert(needed.contains(events[i].capability));
        assert(!effective_access(c, at, p).contains(events[i].capability));
    }
    if lacking.len() == 0 && lost.len() == 0 {
        assert forall|a: Seq<char>| needed.contains(a) implies effective_access(
            c,
            at,
            p,
        ).contains(a) by {
            assert(list.contains(a));
            let i = choose|i: int| 0 <= i < list.len() && list[i] == a;
            if lacks(p)(a) {
                lemma_selection_keeps(list, lacks(p), missing_reason(), i);
            }
            assert forall|j: int| 0 <= j < events.len() implies {
                let d = #[trigger] events[j];
                d.capability == a ==> !crate::instant::within(d.from, d.to, at)
            } by {
                if keep(events[j]) {
                    lemma_selection_keeps(events, keep, degraded_reason(), j);
                }
            }
        }
        assert(needed.subset_of(effective_access(c, at, p)));
    }
}

/// Hard requirements come before cost: every candidate, whatever it costs, is a
/// point of the catalog that serves the request, and its cost is the distance
/// plus the barrier penalty.
pub proof fn law_candidates_serve(c: CatalogModel, r: RouteRequestModel, at: (int, int), k: int)
    requires
        c.points.dom().finite(),
        0 <= k < candidates_for(c, r, at).len(),
    ensures
        exists|id: Seq<char>|
            {
                &&& #[trigger] c.points.contains_key(id)
                &&& serves(c, r, at, c.points[id])
                &&& candidates_for(c, r, at)[k] == candidate_at(c, r, at)(c.points[id])
            },
{
    let points = points_in_order(c);
    let kept = points.filter(admitted(c, r, at)).map_values(candidate_at(c, r, at));
    let x = sorted(kept)[k];
    assert(sorted(kept).contains(x));
    lemma_sorted_contains(kept, x);
    let i = lemma_selection_source(points, admitted(c, r, at), candidate_at(c, r, at), x);
    law_admitted_points_serve(c, r, at, points[i]);
    let id = ascending_list(c.points.dom())[i];
    assert(ascending_list(c.points.dom()).contains(id));
    lemma_finite_set_is_listed(c.points.dom());
    assert(c.points.contains_key(id));
}

/// Every point of the catalog is answered: it is among the candidates if it
/// serves the request, else among the exclusions, with reasons.
pub proof fn law_every_point_is_answered(
    c: CatalogModel,
    r: RouteRequestModel,
    at: (int, int),
    id: Seq<char>,
)
    requires
        c.points.dom().finite(),
        c.points.contains_key(id),
    ensures
        serves(c, r, at, c.points[id]) ==> candidates_for(c, r, at).contains(
            candidate_at(c, r, at)(c.points[id]),
        ),
        !serves(c, r, at, c.points[id]) ==> exclusions_for(c, r, at).contains(
            exclusion_at(c, r, at)(c.points[id]),
        ) && reasons_against(c, r, at, c.points[id]).len() > 0,
        candidates_for(c, r, at).len() + exclusions_for(c, r, at).len() == points_in_order(c).len(),
{
    let points = points_in_order(c);
    let open = admitted(c, r, at);
    let shut = refused(c, r, at);
    lemma_finite_set_is_listed(c.points.dom());
    let ids = ascending_list(c.points.dom());
    assert(ids.contains(id));
    let i = choose|i: int| 0 <= i < ids.len() && ids[i] == id;
    let p = points[i];
    law_admitted_points_serve(c, r, at, p);
    let kept = points.filter(open).map_values(candidate_at(c, r, at));
    let left = points.filter(shut).map_values(exclusion_at(c, r, at));
    lemma_sorted(kept);
    lemma_sorted(left);
    if open(p) {
        lemma_selection_keeps(points, open, candidate_at(c, r, at), i);
        lemma_sorted_contains(kept, candidate_at(c, r, at)(p));
    } else {
        lemma_selection_keeps(points, shut, exclusion_at(c, r, at), i);
        lemma_sorted_contains(left, exclusion_at(c, r, at)(p));
    }
    assert forall|j: int| 0 <= j < points.len() implies open(#[trigger] points[j]) == !shut(
        points[j],
    ) by {}
    lemma_selection_parts(points, open, shut);
}

/// Candidates stand by cost and, at equal cost, by id; exclusions stand by id.
pub proof fn law_answers_are_ordered(c: CatalogModel, r: RouteRequestModel, at: (int, int))
    ensures
        in_order(candidates_for(c, r, at)),
        in_order(exclusions_for(c, r, at)),
{
    let points = points_in_order(c);
    lemma_sorted(points.filter(admitted(c, r, at)).map_values(candidate_at(c, r, at)));
    lemma_sorted(points.filter(refused(c, r, at)).map_values(exclusion_at(c, r, at)));
}

/// A closure takes precedence over a degradation: while a point is closed, no
/// degradation is given as a reason, and the closures are.
pub proof fn law_closures_take_precedence(
    c: CatalogModel,
    r: RouteRequestModel,
    at: (int, int),
    p: ServicePointModel,
)
    requires
        is_closed(c, at, p),
    ensures
        degradation_reasons(c, required(c, r), at, p).len() == 0,
        closure_reasons(c, at, p).len() > 0,
        refused(c, r, at)(p),
{
    lemma_closed(c, at, p);
}

/// A degradation of a capability that the applicant does not need, or that the
/// point never has, excludes nobody: leaving it out changes no verdict.
pub proof fn law_harmless_degradations_do_not_exclude(
    c: CatalogModel,
    r: RouteRequestModel,
    at: (int, int),
    p: ServicePointModel,
)
    requires
        forall|i: int|
            0 <= i < degradations_of(c, p.id).len() ==> {
                let d = #[trigger] degradations_of(c, p.id)[i];
                !required(c, r).contains(d.capability) || !p.access.contains(d.capability)
            },
    ensures
        degradation_reasons(c, required(c, r), at, p).len() == 0,
{
    let events = degradations_of(c, p.id);
    let keep = hurts(required(c, r), at, p);
    let lost = events.filter(keep).map_values(degraded_reason());
    if lost.len() > 0 {
        assert(lost.contains(lost[0]));
        let i = lemma_selection_source(events, keep, degraded_reason(), lost[0]);
        assert(keep(events[i]));
    }
}

/// The order in which a catalog is listed does not show in any answer.
pub proof fn law_listing_order_does_not_show(
    a: RawCatalogModel,
    b: RawCatalogModel,
    r: RouteRequestModel,
    at: (int, int),
)
    requires
        same_listing(a, b),
        raw_fault(a) is None,
        distinct_events(a),
    ensures
        routed(normalized(a), r, at) == routed(normalized(b), r, at),
{
    law_normal_form_ignores_input_order(a, b);
}

/// Needs that are repeated, or that come in another order, give the same
/// answer.
pub proof fn law_order_of_needs_does_not_show(
    c: CatalogModel,
    r: RouteRequestModel,
    q: RouteRequestModel,
    at: (int, int),
)
    requires
        needs(r).to_set() == needs(q).to_set(),
        r.mobility == q.mobility,
        r.origin == q.origin,
        r.service == q.service,
    ensures
        required(c, r) == required(c, q),
        routed(c, r, at) == routed(c, q, at),
{
    let h = c.hard_requirements;
    let a = needs(r);
    let b = needs(q);
    assert forall|t: Seq<char>| required(c, r).contains(t) == required(c, q).contains(t) by {
        if required_access(h, a).contains(t) {
            let i = choose|i: int|
                0 <= i < a.len() && h.contains_key(#[trigger] a[i]) && h[a[i]] == t;
            assert(a.to_set().contains(a[i]));
            assert(b.contains(a[i]));
            let j = choose|j: int| 0 <= j < b.len() && b[j] == a[i];
            assert(h.contains_key(b[j]));
        }
        if required_access(h, b).contains(t) {
            let i = choose|i: int|
                0 <= i < b.len() && h.contains_key(#[trigger] b[i]) && h[b[i]] == t;
            assert(b.to_set().contains(b[i]));
            assert(a.contains(b[i]));
            let j = choose|j: int| 0 <= j < a.len() && a[j] == b[i];
            assert(h.contains_key(a[j]));
        }
    }
    assert(required(c, r) =~= required(c, q));
    assert forall|p: ServicePointModel| #[trigger] reasons_against(c, r, at, p) == reasons_against(
        c,
        q,
        at,
        p,
    ) by {}
    assert forall|p: ServicePointModel| #[trigger] admitted(c, r, at)(p) == admitted(c, q, at)(
        p,
    ) by {
        assert(reasons_against(c, r, at, p) == reasons_against(c, q, at, p));
    }
    assert(admitted(c, r, at) =~= admitted(c, q, at));
    assert forall|p: ServicePointModel| #[trigger] refused(c, r, at)(p) == refused(c, q, at)(p) by {
        assert(reasons_against(c, r, at, p) == reasons_against(c, q, at, p));
    }
    assert(refused(c, r, at) =~= refused(c, q, at));
    assert forall|p: ServicePointModel| #[trigger] candidate_at(c, r, at)(p) == candidate_at(
        c,
        q,
        at,
    )(p) by {}
    assert(candidate_at(c, r, at) =~= candidate_at(c, q, at));
    assert forall|p: ServicePointModel| #[trigger] exclusion_at(c, r, at)(p) == exclusion_at(
        c,
        q,
        at,
    )(p) by {
        assert(reasons_against(c, r, at, p) == reasons_against(c, q, at, p));
    }
    assert(exclusion_at(c, r, at) =~= exclusion_at(c, q, at));
}

/// Further needs only take candidates away: what is left of them stands in the
/// same order, at the same costs.
pub proof fn law_further_needs_only_exclude(
    c: CatalogModel,
    r: RouteRequestModel,
    q: RouteRequestModel,
    at: (int, int),
)
    requires
        r.origin == q.origin,
        r.service == q.service,
        needs(r).to_set().subset_of(needs(q).to_set()),
    ensures
        subsequence(candidates_for(c, q, at), candidates_for(c, r, at)),
{
    let h = c.hard_requirements;
    let a = needs(r);
    let b = needs(q);
    assert forall|t: Seq<char>| required(c, r).contains(t) implies required(c, q).contains(t) by {
        let i = choose|i: int|
            0 <= i < a.len() && h.contains_key(#[trigger] a[i]) && h[a[i]] == t;
        assert(a.to_set().contains(a[i]));
        assert(b.contains(a[i]));
        let j = choose|j: int| 0 <= j < b.len() && b[j] == a[i];
        assert(h.contains_key(b[j]));
    }
    assert forall|p: ServicePointModel| #[trigger] admitted(c, q, at)(p) implies admitted(
        c,
        r,
        at,
    )(p) by {
        law_admitted_points_serve(c, q, at, p);
        law_admitted_points_serve(c, r, at, p);
    }
    assert(candidate_at(c, q, at) =~= candidate_at(c, r, at));
    lemma_narrower_selection(
        points_in_order(c),
        admitted(c, q, at),
        admitted(c, r, at),
        candidate_at(c, r, at),
    );
}

} // verus!
