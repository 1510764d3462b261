//! What holds of every routing over a catalog in its plain form.

use crate::catalog::{CatalogModel, ClosureModel, DegradationModel, PointModel};
use crate::distance::grid_distance;
use crate::json::{json_text, lemma_json_text_ends};
use crate::keyed::{ascending_list, lemma_finite_set_is_listed};
use crate::order::{
    gathered, in_order, law_sorted_ignores_input_order, lemma_gathered_empty, lemma_gathered_mapped,
    lemma_gathered_multiset, lemma_mapped_multiset, lemma_narrower_selection,
    lemma_selection_keeps, lemma_selection_mapped, lemma_selection_multiset,
    lemma_selection_parts, lemma_selection_source, lemma_sorted, lemma_sorted_contains, sorted,
    subsequence, Order,
};
use crate::routing::{
    access_reasons, admitted, candidate_at, candidates_for, closing, closure_reasons,
    degradation_reasons, degraded_reason, effective_access, excluded_for, exclusions_for,
    home_service_for, lacks, loses, missing_access, reasons_against, reasons_by, refused,
    required_access, required_list, routed, service_reasons, temporarily_closed, CandidateModel,
    ExcludedModel, ReasonModel, RouteRequestModel,
};
use crate::text::lemma_text_at_most_antisymmetric;
use vstd::prelude::*;

verus! {

/// At the instant the point offers what is asked for, has every required
/// capability and is open.
pub open spec fn serves(
    c: CatalogModel,
    r: RouteRequestModel,
    at: (int, int),
    p: PointModel,
) -> bool {
    &&& p.services.contains(r.service)
    &&& required_access(c.hard_requirements, r.mobility + r.communication).subset_of(
        effective_access(c, p, at),
    )
    &&& forall|i: int|
        0 <= i < c.closures.len() ==> !(#[trigger] c.closures[i]).closes(p.id, at)
}

/// A finite list of needs calls for finitely many capabilities.
pub proof fn lemma_required_is_finite(
    hard_requirements: Map<Seq<char>, Seq<char>>,
    needs: Seq<Seq<char>>,
)
    ensures
        required_access(hard_requirements, needs).finite(),
{
    let named = needs.map_values(|n: Seq<char>| hard_requirements[n]);
    let s = required_access(hard_requirements, needs);
    assert forall|a: Seq<char>| s.contains(a) implies named.to_set().contains(a) by {
        let i = choose|i: int|
            0 <= i < needs.len() && hard_requirements.contains_key(#[trigger] needs[i])
                && hard_requirements[needs[i]] == a;
        assert(named[i] == a);
    }
    vstd::seq_lib::seq_to_set_is_finite(named);
    vstd::set_lib::lemma_set_subset_finite(named.to_set(), s);
}

/// A point is admitted if and only if it offers the service, has every
/// required capability, degradations taken into account, and is open.
pub proof fn law_admitted_points_serve(
    c: CatalogModel,
    r: RouteRequestModel,
    at: (int, int),
    p: PointModel,
)
    ensures
        admitted(c, r, at)(p) == serves(c, r, at, p),
        refused(c, r, at)(p) == !serves(c, r, at, p),
{
    let required = required_list(c, r);
    let needed = required_access(c.hard_requirements, r.mobility + r.communication);
    lemma_required_is_finite(c.hard_requirements, r.mobility + r.communication);
    lemma_finite_set_is_listed(needed);
    let lacking = access_reasons(required, p);
    let shut = closure_reasons(c.closures, p, at);
    let f = reasons_by(required, p, at);
    let lost = gathered(c.degradations, f);
    lemma_gathered_empty(c.degradations, f);
    if admitted(c, r, at)(p) {
        assert(lacking.len() == 0 && shut.len() == 0 && lost.len() == 0);
        assert forall|a: Seq<char>| needed.contains(a) implies effective_access(
            c,
            p,
            at,
        ).contains(a) by {
            assert(required.contains(a));
            let i = choose|i: int| 0 <= i < required.len() && required[i] == a;
            if lacks(p)(a) {
                lemma_selection_keeps(required, lacks(p), missing_access(), i);
            }
            assert forall|j: int| 0 <= j < c.degradations.len() implies !(
            #[trigger] c.degradations[j]).removes(p.id, a, at) by {
                let d = c.degradations[j];
                if loses(d, p, at)(a) {
                    lemma_selection_keeps(required, loses(d, p, at), degraded_reason(d), i);
                    assert(f(d).len() == 0);
                }
            }
        }
        assert forall|i: int| 0 <= i < c.closures.len() implies !(#[trigger] c.closures[i]).closes(
            p.id,
            at,
        ) by {
            if closing(p, at)(c.closures[i]) {
                lemma_selection_keeps(c.closures, closing(p, at), temporarily_closed(), i);
            }
        }
    }
    if serves(c, r, at, p) {
        if lacking.len() > 0 {
            assert(lacking.contains(lacking[0]));
            let i = lemma_selection_source(required, lacks(p), missing_access(), lacking[0]);
            assert(required.contains(required[i]));
            assert(effective_access(c, p, at).contains(required[i]));
        }
        assert forall|j: int| 0 <= j < c.degradations.len() implies f(
            #[trigger] c.degradations[j],
        ).len() == 0 by {
            let d = c.degradations[j];
            if f(d).len() > 0 {
                assert(f(d).contains(f(d)[0]));
                let i = lemma_selection_source(
                    required,
                    loses(d, p, at),
                    degraded_reason(d),
                    f(d)[0],
                );
                assert(required.contains(required[i]));
                assert(effective_access(c, p, at).contains(required[i]));
            }
        }
        if shut.len() > 0 {
            assert(shut.contains(shut[0]));
            let i = lemma_selection_source(
                c.closures,
                closing(p, at),
                temporarily_closed(),
                shut[0],
            );
        }
    }
}

/// A point that is closed is reported as closed and not as degraded: without the
/// degradations there would be the same reasons.
pub proof fn law_closures_take_precedence(
    c: CatalogModel,
    r: RouteRequestModel,
    at: (int, int),
    p: PointModel,
    i: int,
)
    requires
        0 <= i < c.closures.len(),
        c.closures[i].closes(p.id, at),
    ensures
        reasons_against(c, r, at, p) == reasons_against(
            CatalogModel { degradations: Seq::empty(), ..c },
            r,
            at,
            p,
        ),
        reasons_against(c, r, at, p).contains(temporarily_closed()(c.closures[i])),
{
    lemma_selection_keeps(c.closures, closing(p, at), temporarily_closed(), i);
    let shut = closure_reasons(c.closures, p, at);
    let k = choose|k: int| 0 <= k < shut.len() && shut[k] == temporarily_closed()(c.closures[i]);
    let all = reasons_against(c, r, at, p);
    assert(all[all.len() - shut.len() + k] == shut[k]);
}

/// A degradation that takes no required capability from a point gives no reason
/// against it.
pub proof fn law_harmless_degradations_do_not_exclude(
    c: CatalogModel,
    r: RouteRequestModel,
    at: (int, int),
    p: PointModel,
    d: DegradationModel,
)
    requires
        forall|a: Seq<char>|
            #[trigger] required_access(c.hard_requirements, r.mobility + r.communication).contains(
                a,
            ) ==> !d.removes(p.id, a, at),
    ensures
        reasons_against(CatalogModel { degradations: c.degradations.push(d), ..c }, r, at, p)
            == reasons_against(c, r, at, p),
{
    let required = required_list(c, r);
    lemma_required_is_finite(c.hard_requirements, r.mobility + r.communication);
    lemma_finite_set_is_listed(
        required_access(c.hard_requirements, r.mobility + r.communication),
    );
    let f = reasons_by(required, p, at);
    if f(d).len() > 0 {
        assert(f(d).contains(f(d)[0]));
        let i = lemma_selection_source(required, loses(d, p, at), degraded_reason(d), f(d)[0]);
        assert(required.contains(required[i]));
    }
    let more = c.degradations.push(d);
    assert(more.drop_last() =~= c.degradations);
    assert(gathered(more, f) =~= gathered(c.degradations, f));
}

/// Hard requirements come before cost: every candidate, whatever it costs, is
/// a point of the catalog that serves the request, and its cost is the distance
/// plus the barrier penalty.
pub proof fn law_candidates_serve(
    c: CatalogModel,
    r: RouteRequestModel,
    at: (int, int),
    k: int,
)
    requires
        0 <= k < candidates_for(c, r, at).len(),
    ensures
        exists|i: int|
            {
                &&& 0 <= i < c.points.len()
                &&& serves(c, r, at, #[trigger] c.points[i])
                &&& candidates_for(c, r, at)[k].point_id == c.points[i].id
                &&& candidates_for(c, r, at)[k].distance == grid_distance(
                    r.origin_grid,
                    c.points[i].grid,
                )
                &&& candidates_for(c, r, at)[k].total_cost == grid_distance(
                    r.origin_grid,
                    c.points[i].grid,
                ) + c.points[i].barrier_penalty
            },
{
    let kept = c.points.filter(admitted(c, r, at)).map_values(candidate_at(c, r, at));
    let x = sorted(kept)[k];
    assert(sorted(kept).contains(x));
    lemma_sorted_contains(kept, x);
    let i = lemma_selection_source(c.points, admitted(c, r, at), candidate_at(c, r, at), x);
    law_admitted_points_serve(c, r, at, c.points[i]);
}

/// Every point of the catalog is answered: it is among the candidates if it
/// serves the request, else among the excluded points, with reasons.
pub proof fn law_every_point_is_answered(
    c: CatalogModel,
    r: RouteRequestModel,
    at: (int, int),
    i: int,
)
    requires
        0 <= i < c.points.len(),
    ensures
        serves(c, r, at, c.points[i]) ==> exists|k: int|
            0 <= k < candidates_for(c, r, at).len() && (#[trigger] candidates_for(
                c,
                r,
                at,
            )[k]).point_id == c.points[i].id,
        !serves(c, r, at, c.points[i]) ==> exists|k: int|
            0 <= k < exclusions_for(c, r, at).len() && (#[trigger] exclusions_for(
                c,
                r,
                at,
            )[k]).point_id == c.points[i].id && exclusions_for(c, r, at)[k].reasons.len() > 0,
        candidates_for(c, r, at).len() + exclusions_for(c, r, at).len() == c.points.len(),
{
    let p = c.points[i];
    let open = admitted(c, r, at);
    let shut = refused(c, r, at);
    law_admitted_points_serve(c, r, at, p);
    let kept = c.points.filter(open).map_values(candidate_at(c, r, at));
    let left = c.points.filter(shut).map_values(excluded_for(c, r, at));
    lemma_sorted(kept);
    lemma_sorted(left);
    if open(p) {
        lemma_selection_keeps(c.points, open, candidate_at(c, r, at), i);
        let x = candidate_at(c, r, at)(p);
        lemma_sorted_contains(kept, x);
        let k = choose|k: int| 0 <= k < sorted(kept).len() && sorted(kept)[k] == x;
        assert(candidates_for(c, r, at)[k].point_id == p.id);
    } else {
        lemma_selection_keeps(c.points, shut, excluded_for(c, r, at), i);
        let x = excluded_for(c, r, at)(p);
        lemma_sorted_contains(left, x);
        lemma_sorted(reasons_against(c, r, at, p));
        let k = choose|k: int| 0 <= k < sorted(left).len() && sorted(left)[k] == x;
        assert(exclusions_for(c, r, at)[k].point_id == p.id);
    }
    assert forall|j: int| 0 <= j < c.points.len() implies open(#[trigger] c.points[j]) == !shut(
        c.points[j],
    ) by {}
    lemma_selection_parts(c.points, open, shut);
}

/// Candidates stand by cost and, at equal cost, by id, and are ranked in that
/// order from one; excluded points stand by id, and their reasons by kind: the
/// service, then capabilities, then degradations, then closures.
pub proof fn law_answers_are_ordered(c: CatalogModel, r: RouteRequestModel, at: (int, int))
    ensures
        in_order(candidates_for(c, r, at)),
        forall|k: int|
            0 <= k < candidates_for(c, r, at).len() ==> (#[trigger] candidates_for(c, r, at)[k]).rank
                == k + 1,
        in_order(exclusions_for(c, r, at)),
        forall|k: int|
            0 <= k < exclusions_for(c, r, at).len() ==> in_order(
                (#[trigger] exclusions_for(c, r, at)[k]).reasons,
            ),
{
    let kept = c.points.filter(admitted(c, r, at)).map_values(candidate_at(c, r, at));
    let left = c.points.filter(refused(c, r, at)).map_values(excluded_for(c, r, at));
    lemma_sorted(kept);
    lemma_sorted(left);
    let s = sorted(kept);
    assert forall|i: int, j: int| 0 <= i <= j < candidates_for(c, r, at).len() implies (
    #[trigger] candidates_for(c, r, at)[i]).at_most(#[trigger] candidates_for(c, r, at)[j]) by {
        assert(s[i].at_most(s[j]));
    }
    assert forall|k: int| 0 <= k < exclusions_for(c, r, at).len() implies in_order(
        (#[trigger] exclusions_for(c, r, at)[k]).reasons,
    ) by {
        let x = sorted(left)[k];
        assert(sorted(left).contains(x));
        lemma_sorted_contains(left, x);
        let i = lemma_selection_source(
            c.points,
            refused(c, r, at),
            excluded_for(c, r, at),
            x,
        );
        lemma_sorted(reasons_against(c, r, at, c.points[i]));
    }
}

/// No two points share an id.
pub open spec fn distinct_ids(points: Seq<PointModel>) -> bool {
    forall|i: int, j: int|
        0 <= i < points.len() && 0 <= j < points.len() && (#[trigger] points[i]).id == (
        #[trigger] points[j]).id ==> i == j
}

/// The order of closures and degradations does not show in what speaks against
/// a point, nor in what the point has left.
proof fn lemma_reasons_ignore_event_order(
    c: CatalogModel,
    d: CatalogModel,
    r: RouteRequestModel,
    at: (int, int),
    p: PointModel,
)
    requires
        c.hard_requirements == d.hard_requirements,
        c.closures.to_multiset() == d.closures.to_multiset(),
        c.degradations.to_multiset() == d.degradations.to_multiset(),
    ensures
        reasons_against(c, r, at, p).to_multiset() == reasons_against(d, r, at, p).to_multiset(),
        reasons_against(c, r, at, p).len() == reasons_against(d, r, at, p).len(),
        effective_access(c, p, at) == effective_access(d, p, at),
{
    broadcast use vstd::seq_lib::group_to_multiset_ensures;

    let required = required_list(c, r);
    lemma_selection_multiset(c.closures, d.closures, closing(p, at), temporarily_closed());
    lemma_gathered_multiset(c.degradations, d.degradations, reasons_by(required, p, at));
    let base = service_reasons(r, p) + access_reasons(required, p);
    let x = closure_reasons(c.closures, p, at);
    let y = closure_reasons(d.closures, p, at);
    assert(x.len() == x.to_multiset().len());
    assert(y.len() == y.to_multiset().len());
    let u = degradation_reasons(c, required, p, at);
    let v = degradation_reasons(d, required, p, at);
    vstd::seq_lib::lemma_multiset_commutative(base, u);
    vstd::seq_lib::lemma_multiset_commutative(base, v);
    vstd::seq_lib::lemma_multiset_commutative(base + u, x);
    vstd::seq_lib::lemma_multiset_commutative(base + v, y);
    assert(reasons_against(c, r, at, p).len() == reasons_against(c, r, at, p).to_multiset().len());
    assert(reasons_against(d, r, at, p).len() == reasons_against(d, r, at, p).to_multiset().len());
    assert forall|a: Seq<char>| effective_access(c, p, at).contains(a) == effective_access(
        d,
        p,
        at,
    ).contains(a) by {
        if effective_access(c, p, at).contains(a) {
            assert forall|i: int| 0 <= i < d.degradations.len() implies !(
            #[trigger] d.degradations[i]).removes(p.id, a, at) by {
                assert(d.degradations.contains(d.degradations[i]));
                assert(c.degradations.to_multiset().count(d.degradations[i]) > 0);
                assert(c.degradations.contains(d.degradations[i]));
            }
        }
        if effective_access(d, p, at).contains(a) {
            assert forall|i: int| 0 <= i < c.degradations.len() implies !(
            #[trigger] c.degradations[i]).removes(p.id, a, at) by {
                assert(c.degradations.contains(c.degradations[i]));
                assert(d.degradations.to_multiset().count(c.degradations[i]) > 0);
                assert(d.degradations.contains(c.degradations[i]));
            }
        }
    }
    assert(effective_access(c, p, at) =~= effective_access(d, p, at));
}

/// Needs that are repeated, or that come in another order or under another
/// heading, call for the same capabilities.
pub proof fn law_repeated_needs_collapse(
    c: CatalogModel,
    r: RouteRequestModel,
    q: RouteRequestModel,
)
    requires
        (r.mobility + r.communication).to_set() == (q.mobility + q.communication).to_set(),
    ensures
        required_list(c, r) == required_list(c, q),
{
    let h = c.hard_requirements;
    let a = r.mobility + r.communication;
    let b = q.mobility + q.communication;
    assert forall|t: Seq<char>| required_access(h, a).contains(t) == required_access(
        h,
        b,
    ).contains(t) by {
        if required_access(h, a).contains(t) {
            let i = choose|i: int|
                0 <= i < a.len() && h.contains_key(#[trigger] a[i]) && h[a[i]] == t;
            assert(a.to_set().contains(a[i]));
            assert(b.contains(a[i]));
            let j = choose|j: int| 0 <= j < b.len() && b[j] == a[i];
            assert(h.contains_key(b[j]));
        }
        if required_access(h, b).contains(t) {
            let i = choose|i: int|
                0 <= i < b.len() && h.contains_key(#[trigger] b[i]) && h[b[i]] == t;
            assert(b.to_set().contains(b[i]));
            assert(a.contains(b[i]));
            let j = choose|j: int| 0 <= j < a.len() && a[j] == b[i];
            assert(h.contains_key(a[j]));
        }
    }
    assert(required_access(h, a) =~= required_access(h, b));
}

proof fn lemma_degraded_is_read_off(a: ReasonModel, b: ReasonModel)
    requires
        a is CapabilityDegraded,
        b is CapabilityDegraded,
        a.json() == b.json(),
    ensures
        a == b,
{
    if let ReasonModel::CapabilityDegraded { event_id: e1, access: a1, from: f1, to: t1 } = a {
        if let ReasonModel::CapabilityDegraded { event_id: e2, access: a2, from: f2, to: t2 } = b {
            let start = "{\"code\":\"CAPABILITY_DEGRADED\",\"eventId\":"@;
            let x3 = ",\"to\":"@ + json_text(t1) + "}"@;
            let y3 = ",\"to\":"@ + json_text(t2) + "}"@;
            let x2 = ",\"from\":"@ + json_text(f1) + x3;
            let y2 = ",\"from\":"@ + json_text(f2) + y3;
            let x1 = ",\"access\":"@ + json_text(a1) + x2;
            let y1 = ",\"access\":"@ + json_text(a2) + y2;
            assert(a.json() =~= start + json_text(e1) + x1);
            assert(b.json() =~= start + json_text(e2) + y1);
            lemma_fields(start, e1, e2, x1, y1);
            lemma_fields(",\"access\":"@, a1, a2, x2, y2);
            lemma_fields(",\"from\":"@, f1, f2, x3, y3);
            lemma_fields(",\"to\":"@, t1, t2, "}"@, "}"@);
        }
    }
}

proof fn lemma_closed_is_read_off(a: ReasonModel, b: ReasonModel)
    requires
        a is TemporarilyClosed,
        b is TemporarilyClosed,
        a.json() == b.json(),
    ensures
        a == b,
{
    if let ReasonModel::TemporarilyClosed { event_id: e1, from: f1, to: t1 } = a {
        if let ReasonModel::TemporarilyClosed { event_id: e2, from: f2, to: t2 } = b {
            let start = "{\"code\":\"TEMPORARILY_CLOSED\",\"eventId\":"@;
            let x2 = ",\"to\":"@ + json_text(t1) + "}"@;
            let y2 = ",\"to\":"@ + json_text(t2) + "}"@;
            let x1 = ",\"from\":"@ + json_text(f1) + x2;
            let y1 = ",\"from\":"@ + json_text(f2) + y2;
            assert(a.json() =~= start + json_text(e1) + x1);
            assert(b.json() =~= start + json_text(e2) + y1);
            lemma_fields(start, e1, e2, x1, y1);
            lemma_fields(",\"from\":"@, f1, f2, x2, y2);
            lemma_fields(",\"to\":"@, t1, t2, "}"@, "}"@);
        }
    }
}

/// Reasons are told apart by their kind and their JSON text.
proof fn lemma_reason_is_read_off(a: ReasonModel, b: ReasonModel)
    requires
        a.kind() == b.kind(),
        a.json() == b.json(),
    ensures
        a == b,
{
    match (a, b) {
        (
            ReasonModel::MissingService { service: s },
            ReasonModel::MissingService { service: t },
        ) => {
            let start = "{\"code\":\"MISSING_SERVICE\",\"service\":"@;
            lemma_fields(start, s, t, "}"@, "}"@);
        },
        (
            ReasonModel::MissingAccess { required: s },
            ReasonModel::MissingAccess { required: t },
        ) => {
            let start = "{\"code\":\"MISSING_ACCESS\",\"required\":"@;
            lemma_fields(start, s, t, "}"@, "}"@);
        },
        (ReasonModel::CapabilityDegraded { .. }, ReasonModel::CapabilityDegraded { .. }) => {
            lemma_degraded_is_read_off(a, b);
        },
        (ReasonModel::TemporarilyClosed { .. }, ReasonModel::TemporarilyClosed { .. }) => {
            lemma_closed_is_read_off(a, b);
        },
        _ => {},
    }
}

/// The same start, a text and what follows can be read off in turn.
proof fn lemma_fields(
    start: Seq<char>,
    s: Seq<char>,
    t: Seq<char>,
    x: Seq<char>,
    y: Seq<char>,
)
    requires
        start + json_text(s) + x == start + json_text(t) + y,
    ensures
        s == t,
        x == y,
{
    let a = start + json_text(s) + x;
    let b = start + json_text(t) + y;
    assert(a.skip(start.len() as int) =~= json_text(s) + x);
    assert(b.skip(start.len() as int) =~= json_text(t) + y);
    lemma_json_text_ends(s, t, x, y);
}

/// The same reasons in another order are the same once sorted.
proof fn lemma_sorted_reasons_agree(a: Seq<ReasonModel>, b: Seq<ReasonModel>)
    requires
        a.to_multiset() == b.to_multiset(),
    ensures
        sorted(a) == sorted(b),
{
    assert forall|p: ReasonModel, q: ReasonModel|
        a.contains(p) && a.contains(q) && #[trigger] p.at_most(q) && q.at_most(p) implies p == q by {
        lemma_text_at_most_antisymmetric(p.json(), q.json());
        lemma_reason_is_read_off(p, q);
    }
    law_sorted_ignores_input_order(a, b);
}

proof fn lemma_listing_order_does_not_show(
    c: CatalogModel,
    d: CatalogModel,
    r: RouteRequestModel,
    at: (int, int),
)
    requires
        c.points.to_multiset() == d.points.to_multiset(),
        c.closures.to_multiset() == d.closures.to_multiset(),
        c.degradations.to_multiset() == d.degradations.to_multiset(),
        c.hard_requirements == d.hard_requirements,
        c.home_service == d.home_service,
        c.tie_break == d.tie_break,
        distinct_ids(c.points),
    ensures
        routed(c, r, at) == routed(d, r, at),
{
    let offer = candidate_at(c, r, at);
    let refusal = excluded_for(c, r, at);
    assert forall|p: PointModel| #[trigger] admitted(c, r, at)(p) == admitted(d, r, at)(p) by {
        lemma_reasons_ignore_event_order(c, d, r, at, p);
    }
    assert(admitted(c, r, at) =~= admitted(d, r, at));
    assert forall|p: PointModel| #[trigger] refused(c, r, at)(p) == refused(d, r, at)(p) by {
        lemma_reasons_ignore_event_order(c, d, r, at, p);
    }
    assert(refused(c, r, at) =~= refused(d, r, at));
    assert forall|p: PointModel| #[trigger] offer(p) == candidate_at(d, r, at)(p) by {
        lemma_reasons_ignore_event_order(c, d, r, at, p);
    }
    assert(offer =~= candidate_at(d, r, at));
    assert forall|p: PointModel| #[trigger] refusal(p) == excluded_for(d, r, at)(p) by {
        lemma_reasons_ignore_event_order(c, d, r, at, p);
        lemma_sorted_reasons_agree(reasons_against(c, r, at, p), reasons_against(d, r, at, p));
    }
    assert(refusal =~= excluded_for(d, r, at));
    let open = admitted(c, r, at);
    let shut = refused(c, r, at);

    let kept = c.points.filter(open).map_values(offer);
    lemma_selection_multiset(c.points, d.points, open, offer);
    assert forall|x: CandidateModel, y: CandidateModel|
        kept.contains(x) && kept.contains(y) && #[trigger] x.at_most(y) && y.at_most(
            x,
        ) implies x == y by {
        let i = lemma_selection_source(c.points, open, offer, x);
        let j = lemma_selection_source(c.points, open, offer, y);
        lemma_text_at_most_antisymmetric(x.point_id, y.point_id);
        assert(c.points[i].id == c.points[j].id);
    }
    law_sorted_ignores_input_order(kept, d.points.filter(open).map_values(offer));

    let left = c.points.filter(shut).map_values(refusal);
    lemma_selection_multiset(c.points, d.points, shut, refusal);
    assert forall|x: ExcludedModel, y: ExcludedModel|
        left.contains(x) && left.contains(y) && #[trigger] x.at_most(y) && y.at_most(
            x,
        ) implies x == y by {
        let i = lemma_selection_source(c.points, shut, refusal, x);
        let j = lemma_selection_source(c.points, shut, refusal, y);
        lemma_text_at_most_antisymmetric(x.point_id, y.point_id);
        assert(c.points[i].id == c.points[j].id);
    }
    law_sorted_ignores_input_order(left, d.points.filter(shut).map_values(refusal));
}

/// A point with its services and its capabilities in ascending order, each
/// once.
pub open spec fn tidy_point() -> spec_fn(PointModel) -> PointModel {
    |p: PointModel|
        PointModel {
            services: ascending_list(p.services.to_set()),
            access: ascending_list(p.access.to_set()),
            ..p
        }
}

/// A degradation with the capabilities that it takes away in ascending order,
/// each once.
pub open spec fn tidy_degradation() -> spec_fn(DegradationModel) -> DegradationModel {
    |d: DegradationModel|
        DegradationModel { removed_access: ascending_list(d.removed_access.to_set()), ..d }
}

/// The same catalog but for the order of its lists, those inside points and
/// degradations included.
pub open spec fn relisted(c: CatalogModel, d: CatalogModel) -> bool {
    &&& c.points.map_values(tidy_point()).to_multiset() == d.points.map_values(
        tidy_point(),
    ).to_multiset()
    &&& c.closures.to_multiset() == d.closures.to_multiset()
    &&& c.degradations.map_values(tidy_degradation()).to_multiset() == d.degradations.map_values(
        tidy_degradation(),
    ).to_multiset()
    &&& c.hard_requirements == d.hard_requirements
    &&& c.home_service == d.home_service
    &&& c.tie_break == d.tie_break
}

/// The same request but for the order of its needs and for repeated needs.
pub open spec fn same_needs(r: RouteRequestModel, q: RouteRequestModel) -> bool {
    &&& r.origin_grid == q.origin_grid
    &&& r.service == q.service
    &&& r.mobility.to_set() == q.mobility.to_set()
    &&& r.communication.to_set() == q.communication.to_set()
}

proof fn lemma_tidy_list(s: Seq<Seq<char>>)
    ensures
        ascending_list(s.to_set()).to_set() == s.to_set(),
        forall|a: Seq<char>| #[trigger]
            ascending_list(s.to_set()).contains(a) == s.contains(a),
{
    vstd::seq_lib::seq_to_set_is_finite(s);
    lemma_finite_set_is_listed(s.to_set());
    assert forall|a: Seq<char>| #[trigger]
        ascending_list(s.to_set()).contains(a) == s.contains(a) by {
        assert(s.to_set().contains(a) == s.contains(a));
    }
}

/// The catalog with all its points and degradations tidy.
spec fn tidied(c: CatalogModel) -> CatalogModel {
    CatalogModel {
        points: c.points.map_values(tidy_point()),
        degradations: c.degradations.map_values(tidy_degradation()),
        ..c
    }
}

proof fn lemma_tidy_removal(d: DegradationModel, id: Seq<char>, a: Seq<char>, at: (int, int))
    ensures
        tidy_degradation()(d).removes(id, a, at) == d.removes(id, a, at),
{
    lemma_tidy_list(d.removed_access);
}

proof fn lemma_tidy_reasons(
    c: CatalogModel,
    r: RouteRequestModel,
    at: (int, int),
    p: PointModel,
)
    ensures
        reasons_against(tidied(c), r, at, tidy_point()(p)) == reasons_against(c, r, at, p),
        effective_access(tidied(c), tidy_point()(p), at) == effective_access(c, p, at),
{
    let q = tidy_point()(p);
    let t = tidied(c);
    let required = required_list(c, r);
    lemma_tidy_list(p.services);
    lemma_tidy_list(p.access);
    assert(lacks(q) =~= lacks(p));
    assert(closing(q, at) =~= closing(p, at));
    let f = reasons_by(required, p, at);
    let g = reasons_by(required, q, at);
    assert forall|d: DegradationModel| #[trigger] f(d) == g(tidy_degradation()(d)) by {
        let e = tidy_degradation()(d);
        assert forall|a: Seq<char>| #[trigger] loses(d, p, at)(a) == loses(e, q, at)(a) by {
            lemma_tidy_removal(d, p.id, a, at);
        }
        assert(loses(d, p, at) =~= loses(e, q, at));
        assert(degraded_reason(d) =~= degraded_reason(e));
    }
    lemma_gathered_mapped(c.degradations, tidy_degradation(), f, g);
    assert forall|a: Seq<char>| effective_access(t, q, at).contains(a) == effective_access(
        c,
        p,
        at,
    ).contains(a) by {
        if effective_access(t, q, at).contains(a) {
            assert forall|i: int| 0 <= i < c.degradations.len() implies !(
            #[trigger] c.degradations[i]).removes(p.id, a, at) by {
                lemma_tidy_removal(c.degradations[i], p.id, a, at);
                assert(t.degradations[i] == tidy_degradation()(c.degradations[i]));
            }
        }
        if effective_access(c, p, at).contains(a) {
            assert forall|i: int| 0 <= i < t.degradations.len() implies !(
            #[trigger] t.degradations[i]).removes(q.id, a, at) by {
                lemma_tidy_removal(c.degradations[i], p.id, a, at);
                assert(t.degradations[i] == tidy_degradation()(c.degradations[i]));
            }
        }
    }
    assert(effective_access(t, q, at) =~= effective_access(c, p, at));
}

proof fn lemma_tidying_does_not_show(c: CatalogModel, r: RouteRequestModel, at: (int, int))
    ensures
        routed(tidied(c), r, at) == routed(c, r, at),
{
    let t = tidied(c);
    let tidy = tidy_point();
    assert forall|p: PointModel| #[trigger] admitted(c, r, at)(p) == admitted(t, r, at)(tidy(p)) by {
        lemma_tidy_reasons(c, r, at, p);
    }
    assert forall|p: PointModel| #[trigger] refused(c, r, at)(p) == refused(t, r, at)(tidy(p)) by {
        lemma_tidy_reasons(c, r, at, p);
    }
    assert forall|p: PointModel| #[trigger]
        candidate_at(c, r, at)(p) == candidate_at(t, r, at)(tidy(p)) by {
        lemma_tidy_reasons(c, r, at, p);
        lemma_tidy_list(p.services);
    }
    assert forall|p: PointModel| #[trigger]
        excluded_for(c, r, at)(p) == excluded_for(t, r, at)(tidy(p)) by {
        lemma_tidy_reasons(c, r, at, p);
    }
    lemma_selection_mapped(
        c.points,
        tidy,
        admitted(c, r, at),
        candidate_at(c, r, at),
        admitted(t, r, at),
        candidate_at(t, r, at),
    );
    lemma_selection_mapped(
        c.points,
        tidy,
        refused(c, r, at),
        excluded_for(c, r, at),
        refused(t, r, at),
        excluded_for(t, r, at),
    );
}

proof fn lemma_order_of_needs_does_not_show(
    c: CatalogModel,
    r: RouteRequestModel,
    q: RouteRequestModel,
    at: (int, int),
)
    requires
        same_needs(r, q),
    ensures
        routed(c, r, at) == routed(c, q, at),
{
    let a = r.mobility + r.communication;
    let b = q.mobility + q.communication;
    assert forall|x: Seq<char>| a.to_set().contains(x) == b.to_set().contains(x) by {
        lemma_either_list(r.mobility, r.communication, x);
        lemma_either_list(q.mobility, q.communication, x);
        assert(r.mobility.to_set().contains(x) == q.mobility.to_set().contains(x));
        assert(r.communication.to_set().contains(x) == q.communication.to_set().contains(x));
    }
    assert(a.to_set() =~= b.to_set());
    law_repeated_needs_collapse(c, r, q);
    assert forall|p: PointModel| #[trigger]
        reasons_against(c, r, at, p) == reasons_against(c, q, at, p) by {}
    assert(admitted(c, r, at) =~= admitted(c, q, at));
    assert(refused(c, r, at) =~= refused(c, q, at));
    assert(candidate_at(c, r, at) =~= candidate_at(c, q, at));
    assert(excluded_for(c, r, at) =~= excluded_for(c, q, at));
    lemma_home_service_needs(c, r, q);
    lemma_home_service_needs(c, q, r);
}

proof fn lemma_either_list(s: Seq<Seq<char>>, t: Seq<Seq<char>>, x: Seq<char>)
    ensures
        (s + t).to_set().contains(x) == (s.to_set().contains(x) || t.to_set().contains(x)),
{
    let both = s + t;
    if both.contains(x) {
        let i = choose|i: int| 0 <= i < both.len() && both[i] == x;
        if i < s.len() {
            assert(s[i] == x);
        } else {
            assert(t[i - s.len()] == x);
        }
    }
    if s.contains(x) {
        let i = choose|i: int| 0 <= i < s.len() && s[i] == x;
        assert(both[i] == x);
    }
    if t.contains(x) {
        let i = choose|i: int| 0 <= i < t.len() && t[i] == x;
        assert(both[s.len() + i] == x);
    }
    assert(both.to_set().contains(x) == both.contains(x));
    assert(s.to_set().contains(x) == s.contains(x));
    assert(t.to_set().contains(x) == t.contains(x));
}

proof fn lemma_home_service_needs(c: CatalogModel, r: RouteRequestModel, q: RouteRequestModel)
    requires
        same_needs(r, q),
    ensures
        home_service_for(c, r) is Some ==> home_service_for(c, q) == home_service_for(c, r),
{
    if home_service_for(c, r) is Some {
        let i = choose|i: int|
            0 <= i < r.mobility.len() && c.home_service.allowed_mobility.contains(
                #[trigger] r.mobility[i],
            );
        let m = r.mobility[i];
        assert(r.mobility.to_set().contains(m));
        assert(q.mobility.to_set().contains(m));
        assert(q.mobility.contains(m));
        let j = choose|j: int| 0 <= j < q.mobility.len() && q.mobility[j] == m;
        assert(c.home_service.allowed_mobility.contains(q.mobility[j]));
    }
}

/// The order of input does not show: a catalog whose points, closures and
/// degradations are listed in another order, and the services and capabilities
/// inside them too, gives the same result in every field, and so does a request
/// whose needs come in another order. Ids are distinct.
pub proof fn law_input_order_does_not_show(
    c: CatalogModel,
    d: CatalogModel,
    r: RouteRequestModel,
    q: RouteRequestModel,
    at: (int, int),
)
    requires
        relisted(c, d),
        same_needs(r, q),
        distinct_ids(c.points),
    ensures
        routed(c, r, at) == routed(d, q, at),
{
    lemma_tidying_does_not_show(c, r, at);
    lemma_tidying_does_not_show(d, r, at);
    let points = tidied(c).points;
    assert forall|i: int, j: int|
        0 <= i < points.len() && 0 <= j < points.len() && (#[trigger] points[i]).id == (
        #[trigger] points[j]).id implies i == j by {
        assert(c.points[i].id == c.points[j].id);
    }
    lemma_listing_order_does_not_show(tidied(c), tidied(d), r, at);
    lemma_order_of_needs_does_not_show(d, r, q, at);
}

/// The same point but for the order of its services and its capabilities.
pub open spec fn permuted_point(p: PointModel, q: PointModel) -> bool {
    &&& p.id == q.id
    &&& p.grid == q.grid
    &&& p.barrier_penalty == q.barrier_penalty
    &&& p.services.to_multiset() == q.services.to_multiset()
    &&& p.access.to_multiset() == q.access.to_multiset()
}

/// The order of input does not show, in terms of permutations: the services and
/// the capabilities of every point of `c` are permuted, which gives the points
/// `inner`, then these points, the closures and the degradations are, which
/// gives `d`; and the needs of `r` are, which gives `q`.
pub proof fn law_permuted_input_gives_the_same_result(
    c: CatalogModel,
    inner: Seq<PointModel>,
    d: CatalogModel,
    r: RouteRequestModel,
    q: RouteRequestModel,
    at: (int, int),
)
    requires
        inner.len() == c.points.len(),
        forall|i: int|
            0 <= i < c.points.len() ==> permuted_point(#[trigger] c.points[i], inner[i]),
        inner.to_multiset() == d.points.to_multiset(),
        c.closures.to_multiset() == d.closures.to_multiset(),
        c.degradations.to_multiset() == d.degradations.to_multiset(),
        c.hard_requirements == d.hard_requirements,
        c.home_service == d.home_service,
        c.tie_break == d.tie_break,
        r.origin_grid == q.origin_grid,
        r.service == q.service,
        r.mobility.to_multiset() == q.mobility.to_multiset(),
        r.communication.to_multiset() == q.communication.to_multiset(),
        distinct_ids(c.points),
    ensures
        routed(c, r, at) == routed(d, q, at),
{
    assert forall|i: int| 0 <= i < c.points.len() implies tidy_point()(
        #[trigger] c.points[i],
    ) == tidy_point()(inner[i]) by {
        lemma_same_set(c.points[i].services, inner[i].services);
        lemma_same_set(c.points[i].access, inner[i].access);
    }
    assert(c.points.map_values(tidy_point()) =~= inner.map_values(tidy_point()));
    lemma_mapped_multiset(inner, d.points, tidy_point());
    lemma_mapped_multiset(c.degradations, d.degradations, tidy_degradation());
    lemma_same_set(r.mobility, q.mobility);
    lemma_same_set(r.communication, q.communication);
    law_input_order_does_not_show(c, d, r, q, at);
}

proof fn lemma_same_set(s: Seq<Seq<char>>, t: Seq<Seq<char>>)
    requires
        s.to_multiset() == t.to_multiset(),
    ensures
        s.to_set() == t.to_set(),
{
    broadcast use vstd::seq_lib::group_to_multiset_ensures;

    assert forall|x: Seq<char>| s.to_set().contains(x) == t.to_set().contains(x) by {
        assert(s.contains(x) == (s.to_multiset().count(x) > 0));
        assert(t.contains(x) == (t.to_multiset().count(x) > 0));
        assert(s.to_set().contains(x) == s.contains(x));
        assert(t.to_set().contains(x) == t.contains(x));
    }
    assert(s.to_set() =~= t.to_set());
}

/// A candidate without its rank.
pub open spec fn unranked() -> spec_fn(CandidateModel) -> CandidateModel {
    |x: CandidateModel| CandidateModel { rank: 0, ..x }
}

/// Further needs only take candidates away: what is left of them stands in the
/// same order, at the same costs.
pub proof fn law_further_needs_only_exclude(
    c: CatalogModel,
    r: RouteRequestModel,
    q: RouteRequestModel,
    at: (int, int),
)
    requires
        r.origin_grid == q.origin_grid,
        r.service == q.service,
        (r.mobility + r.communication).to_set().subset_of((q.mobility + q.communication).to_set()),
    ensures
        subsequence(
            candidates_for(c, q, at).map_values(unranked()),
            candidates_for(c, r, at).map_values(unranked()),
        ),
{
    let h = c.hard_requirements;
    let a = r.mobility + r.communication;
    let b = q.mobility + q.communication;
    assert forall|t: Seq<char>| required_access(h, a).contains(t) implies required_access(
        h,
        b,
    ).contains(t) by {
        let i = choose|i: int|
            0 <= i < a.len() && h.contains_key(#[trigger] a[i]) && h[a[i]] == t;
        assert(a.to_set().contains(a[i]));
        assert(b.contains(a[i]));
        let j = choose|j: int| 0 <= j < b.len() && b[j] == a[i];
        assert(h.contains_key(b[j]));
    }
    assert forall|p: PointModel| #[trigger] admitted(c, q, at)(p) implies admitted(c, r, at)(p) by {
        law_admitted_points_serve(c, q, at, p);
        law_admitted_points_serve(c, r, at, p);
    }
    assert(candidate_at(c, q, at) =~= candidate_at(c, r, at));
    let offer = candidate_at(c, r, at);
    lemma_narrower_selection(c.points, admitted(c, q, at), admitted(c, r, at), offer);
    lemma_unranked(c, q, at);
    lemma_unranked(c, r, at);
}

proof fn lemma_unranked(c: CatalogModel, r: RouteRequestModel, at: (int, int))
    ensures
        candidates_for(c, r, at).map_values(unranked()) == sorted(
            c.points.filter(admitted(c, r, at)).map_values(candidate_at(c, r, at)),
        ),
{
    let kept = c.points.filter(admitted(c, r, at)).map_values(candidate_at(c, r, at));
    let s = sorted(kept);
    assert forall|k: int| 0 <= k < s.len() implies (#[trigger] s[k]).rank == 0 by {
        assert(s.contains(s[k]));
        lemma_sorted_contains(kept, s[k]);
        let i = lemma_selection_source(
            c.points,
            admitted(c, r, at),
            candidate_at(c, r, at),
            s[k],
        );
    }
    assert(candidates_for(c, r, at).map_values(unranked()) =~= s);
}

/// A closure that lasts closes its point at its first instant and no longer at
/// its last.
pub proof fn law_closures_are_half_open(c: ClosureModel)
    requires
        !crate::instant::no_later(c.to, c.from),
    ensures
        c.closes(c.point_id, c.from),
        !c.closes(c.point_id, c.to),
{
}

/// A degradation that lasts takes a capability away at its first instant and no
/// longer at its last.
pub proof fn law_degradations_are_half_open(d: DegradationModel, access: Seq<char>)
    requires
        !crate::instant::no_later(d.to, d.from),
        d.removed_access.contains(access),
    ensures
        d.removes(d.point_id, access, d.from),
        !d.removes(d.point_id, access, d.to),
{
}

} // verus!
