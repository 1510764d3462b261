//! What holds of every answer of the service.

use crate::catalog::ClosureModel;
use crate::distance::grid_distance;
use crate::keyed::lemma_finite_set_is_listed;
use crate::models::{
    required_for, CandidateModel, CatalogModel, Communication, ExclusionModel, HomeOptionModel,
    HomeServiceSlotModel, Mobility, RouteRequestModel, ServicePointModel,
};
use crate::order::{
    in_order, law_sorted_ignores_input_order, lemma_mapped_multiset, lemma_narrower_selection,
    lemma_selection_keeps, lemma_selection_multiset, lemma_selection_parts,
    lemma_selection_source, lemma_sorted, lemma_sorted_contains, sorted, subsequence, Order,
};
use crate::router::{
    admitted, candidate_at, candidates_for, eligible, evaluated, exclusion, exclusion_at,
    exclusions_for, first_closing, home_options_for, lacks, missing, option_at, refused,
    required_list, unchanged,
};
use crate::text::lemma_text_at_most_antisymmetric;
use vstd::prelude::*;

verus! {

/// The point offers what is asked for, has every required capability and is
/// open at the instant.
pub open spec fn serves(
    c: CatalogModel,
    r: RouteRequestModel,
    at: (int, int),
    p: ServicePointModel,
) -> bool {
    &&& p.services.contains(r.service)
    &&& required_for(c.hard_requirements, r.mobility, r.communication).subset_of(p.access)
    &&& forall|i: int|
        0 <= i < c.closures.len() ==> !(#[trigger] c.closures[i]).closes(p.id, at)
}

proof fn lemma_first_closing(closures: Seq<ClosureModel>, id: Seq<char>, at: (int, int), from: int)
    requires
        0 <= from <= closures.len(),
    ensures
        first_closing(closures, id, at, from) is None <==> forall|i: int|
            from <= i < closures.len() ==> !(#[trigger] closures[i]).closes(id, at),
    decreases closures.len() - from,
{
    if from < closures.len() && !closures[from].closes(id, at) {
        lemma_first_closing(closures, id, at, from + 1);
    }
}

/// An applicant who is not visited at home can be sent to a point if and only
/// if it offers the service, has every required capability and is open; one
/// who is visited at home can be sent to none.
pub proof fn law_admitted_points_serve(
    c: CatalogModel,
    r: RouteRequestModel,
    at: (int, int),
    p: ServicePointModel,
)
    ensures
        admitted(c, r, at)(p) == (serves(c, r, at, p) && !eligible(c, r)),
        refused(c, r, at)(p) == !(serves(c, r, at, p) && !eligible(c, r)),
{
    let required = required_list(c, r);
    let needed = required_for(c.hard_requirements, r.mobility, r.communication);
    let every = set![
        c.hard_requirements.wheelchair,
        c.hard_requirements.hearing,
        c.hard_requirements.speech
    ];
    assert(needed.subset_of(every));
    vstd::set_lib::lemma_set_subset_finite(every, needed);
    lemma_finite_set_is_listed(needed);
    let lacking = missing(required, p);
    if lacking.len() == 0 {
        assert forall|a: Seq<char>| needed.contains(a) implies p.access.contains(a) by {
            assert(required.contains(a));
            let i = choose|i: int| 0 <= i < required.len() && required[i] == a;
            if lacks(p)(a) {
                lemma_selection_keeps(required, lacks(p), unchanged(), i);
            }
        }
    } else {
        assert(lacking.contains(lacking[0]));
        let i = lemma_selection_source(required, lacks(p), unchanged(), lacking[0]);
        assert(required.contains(required[i]) && !p.access.contains(required[i]));
    }
    lemma_first_closing(c.closures, p.id, at, 0);
}

/// Hard requirements come before cost: every candidate, whatever it costs, is
/// a point of the catalog that serves the request, and its cost is the distance
/// plus the barrier penalty.
pub proof fn law_candidates_serve(c: CatalogModel, r: RouteRequestModel, at: (int, int), k: int)
    requires
        0 <= k < candidates_for(c, r, at).len(),
    ensures
        exists|i: int|
            {
                &&& 0 <= i < c.points.len()
                &&& serves(c, r, at, #[trigger] c.points[i])
                &&& candidates_for(c, r, at)[k] == (CandidateModel {
                    point_id: c.points[i].id,
                    total_cost: grid_distance(r.origin_grid, c.points[i].grid)
                        + c.points[i].barrier_penalty,
                    distance: grid_distance(r.origin_grid, c.points[i].grid),
                    barrier_penalty: c.points[i].barrier_penalty,
                })
            },
{
    let kept = c.points.filter(admitted(c, r, at)).map_values(candidate_at(r));
    let x = sorted(kept)[k];
    assert(sorted(kept).contains(x));
    lemma_sorted_contains(kept, x);
    let i = lemma_selection_source(c.points, admitted(c, r, at), candidate_at(r), x);
    law_admitted_points_serve(c, r, at, c.points[i]);
}

/// Every point of the catalog is answered, among the candidates or among the
/// exclusions with what speaks against it.
pub proof fn law_every_point_is_answered(
    c: CatalogModel,
    r: RouteRequestModel,
    at: (int, int),
    i: int,
)
    requires
        0 <= i < c.points.len(),
    ensures
        match exclusion(c, r, at, c.points[i]) {
            Some(e) => exclusions_for(c, r, at).contains(e),
            None => candidates_for(c, r, at).contains(candidate_at(r)(c.points[i])),
        },
        candidates_for(c, r, at).len() + exclusions_for(c, r, at).len() == c.points.len(),
{
    let p = c.points[i];
    let open = admitted(c, r, at);
    let shut = refused(c, r, at);
    let kept = c.points.filter(open).map_values(candidate_at(r));
    let left = c.points.filter(shut).map_values(exclusion_at(c, r, at));
    lemma_sorted(kept);
    lemma_sorted(left);
    if open(p) {
        lemma_selection_keeps(c.points, open, candidate_at(r), i);
        lemma_sorted_contains(kept, candidate_at(r)(p));
    } else {
        lemma_selection_keeps(c.points, shut, exclusion_at(c, r, at), i);
        lemma_sorted_contains(left, exclusion_at(c, r, at)(p));
    }
    assert forall|j: int| 0 <= j < c.points.len() implies open(#[trigger] c.points[j]) == !shut(
        c.points[j],
    ) by {}
    lemma_selection_parts(c.points, open, shut);
}

/// An applicant who is visited at home is sent to no point: there are no
/// candidates, and every point of the catalog is excluded.
pub proof fn law_home_visits_exclude_points(c: CatalogModel, r: RouteRequestModel, at: (int, int))
    requires
        eligible(c, r),
    ensures
        candidates_for(c, r, at).len() == 0,
        exclusions_for(c, r, at).len() == c.points.len(),
{
    let open = admitted(c, r, at);
    let shut = refused(c, r, at);
    let kept = c.points.filter(open).map_values(candidate_at(r));
    lemma_sorted(kept);
    lemma_sorted(c.points.filter(shut).map_values(exclusion_at(c, r, at)));
    if kept.len() > 0 {
        assert(kept.contains(kept[0]));
        let i = lemma_selection_source(c.points, open, candidate_at(r), kept[0]);
        law_admitted_points_serve(c, r, at, c.points[i]);
    }
    assert forall|j: int| 0 <= j < c.points.len() implies open(#[trigger] c.points[j]) == !shut(
        c.points[j],
    ) by {}
    lemma_selection_parts(c.points, open, shut);
}

/// Candidates stand by cost and, at equal cost, by id; exclusions stand by id;
/// appointments stand by cost and, at equal cost, by slot.
pub proof fn law_answers_are_ordered(c: CatalogModel, r: RouteRequestModel, at: (int, int))
    ensures
        in_order(candidates_for(c, r, at)),
        in_order(exclusions_for(c, r, at)),
        in_order(home_options_for(c, r)),
{
    lemma_sorted(c.points.filter(admitted(c, r, at)).map_values(candidate_at(r)));
    lemma_sorted(c.points.filter(refused(c, r, at)).map_values(exclusion_at(c, r, at)));
    lemma_sorted(c.home_service.slots.map_values(option_at(r)));
}

/// No two points share an id.
pub open spec fn distinct_ids(points: Seq<ServicePointModel>) -> bool {
    forall|i: int, j: int|
        0 <= i < points.len() && 0 <= j < points.len() && (#[trigger] points[i]).id == (
        #[trigger] points[j]).id ==> i == j
}

/// No two slots share an id.
pub open spec fn distinct_slots(slots: Seq<HomeServiceSlotModel>) -> bool {
    forall|i: int, j: int|
        0 <= i < slots.len() && 0 <= j < slots.len() && (#[trigger] slots[i]).slot_id == (
        #[trigger] slots[j]).slot_id ==> i == j
}

/// The order in which points and slots are listed in the catalog does not show
/// in what a request comes to, where ids are distinct.
pub proof fn law_input_order_does_not_show(
    c: CatalogModel,
    d: CatalogModel,
    r: RouteRequestModel,
    at: (int, int),
)
    requires
        c.points.to_multiset() == d.points.to_multiset(),
        c.home_service.slots.to_multiset() == d.home_service.slots.to_multiset(),
        c.closures == d.closures,
        c.hard_requirements == d.hard_requirements,
        c.home_service.allowed_service == d.home_service.allowed_service,
        c.home_service.allowed_mobility == d.home_service.allowed_mobility,
        c.home_service.reason == d.home_service.reason,
        distinct_ids(c.points),
        distinct_slots(c.home_service.slots),
    ensures
        evaluated(c, r, at) == evaluated(d, r, at),
{
    assert forall|p: ServicePointModel| #[trigger] exclusion(c, r, at, p) == exclusion(
        d,
        r,
        at,
        p,
    ) by {}
    assert forall|p: ServicePointModel| #[trigger] admitted(c, r, at)(p) == admitted(d, r, at)(
        p,
    ) by {
        assert(exclusion(c, r, at, p) == exclusion(d, r, at, p));
    }
    assert(admitted(c, r, at) =~= admitted(d, r, at));
    assert forall|p: ServicePointModel| #[trigger] refused(c, r, at)(p) == refused(d, r, at)(p) by {
        assert(exclusion(c, r, at, p) == exclusion(d, r, at, p));
    }
    assert(refused(c, r, at) =~= refused(d, r, at));
    assert forall|p: ServicePointModel| #[trigger] exclusion_at(c, r, at)(p) == exclusion_at(
        d,
        r,
        at,
    )(p) by {
        assert(exclusion(c, r, at, p) == exclusion(d, r, at, p));
    }
    assert(exclusion_at(c, r, at) =~= exclusion_at(d, r, at));
    let open = admitted(c, r, at);
    let shut = refused(c, r, at);
    let offer = candidate_at(r);
    let refusal = exclusion_at(c, r, at);

    let kept = c.points.filter(open).map_values(offer);
    lemma_selection_multiset(c.points, d.points, open, offer);
    assert forall|x: CandidateModel, y: CandidateModel|
        kept.contains(x) && kept.contains(y) && #[trigger] x.at_most(y)
            && y.at_most(x) implies x == y by {
        let i = lemma_selection_source(c.points, open, offer, x);
        let j = lemma_selection_source(c.points, open, offer, y);
        lemma_text_at_most_antisymmetric(x.point_id, y.point_id);
        assert(c.points[i].id == c.points[j].id);
    }
    law_sorted_ignores_input_order(kept, d.points.filter(open).map_values(offer));

    let left = c.points.filter(shut).map_values(refusal);
    lemma_selection_multiset(c.points, d.points, shut, refusal);
    assert forall|x: ExclusionModel, y: ExclusionModel|
        left.contains(x) && left.contains(y) && #[trigger] x.at_most(y)
            && y.at_most(x) implies x == y by {
        let i = lemma_selection_source(c.points, shut, refusal, x);
        let j = lemma_selection_source(c.points, shut, refusal, y);
        lemma_text_at_most_antisymmetric(x.point_id, y.point_id);
        assert(c.points[i].id == c.points[j].id);
    }
    law_sorted_ignores_input_order(left, d.points.filter(shut).map_values(refusal));

    lemma_options_ignore_order(c.home_service.slots, d.home_service.slots, r);
}

proof fn lemma_options_ignore_order(
    a: Seq<HomeServiceSlotModel>,
    b: Seq<HomeServiceSlotModel>,
    r: RouteRequestModel,
)
    requires
        a.to_multiset() == b.to_multiset(),
        distinct_slots(a),
    ensures
        sorted(a.map_values(option_at(r))) == sorted(b.map_values(option_at(r))),
{
    lemma_mapped_multiset(a, b, option_at(r));
    let offers = a.map_values(option_at(r));
    assert forall|x: HomeOptionModel, y: HomeOptionModel|
        offers.contains(x) && offers.contains(y) && #[trigger] x.at_most(y)
            && y.at_most(x) implies x == y by {
        let i = choose|i: int| 0 <= i < offers.len() && offers[i] == x;
        let j = choose|j: int| 0 <= j < offers.len() && offers[j] == y;
        lemma_text_at_most_antisymmetric(x.slot_id, y.slot_id);
        assert(a[i].slot_id == a[j].slot_id);
    }
    law_sorted_ignores_input_order(offers, b.map_values(option_at(r)));
}

/// The order in which closures are listed does not show in the candidates.
pub proof fn law_closure_order_does_not_show_in_candidates(
    c: CatalogModel,
    d: CatalogModel,
    r: RouteRequestModel,
    at: (int, int),
)
    requires
        c.points == d.points,
        c.closures.to_set() == d.closures.to_set(),
        c.hard_requirements == d.hard_requirements,
        c.home_service == d.home_service,
    ensures
        candidates_for(c, r, at) == candidates_for(d, r, at),
{
    assert forall|p: ServicePointModel| #[trigger] admitted(c, r, at)(p) == admitted(d, r, at)(
        p,
    ) by {
        lemma_first_closing(c.closures, p.id, at, 0);
        lemma_first_closing(d.closures, p.id, at, 0);
        if first_closing(c.closures, p.id, at, 0) is Some {
            let i = choose|i: int|
                0 <= i < c.closures.len() && (#[trigger] c.closures[i]).closes(p.id, at);
            assert(c.closures.to_set().contains(c.closures[i]));
            assert(d.closures.contains(c.closures[i]));
        }
        if first_closing(d.closures, p.id, at, 0) is Some {
            let i = choose|i: int|
                0 <= i < d.closures.len() && (#[trigger] d.closures[i]).closes(p.id, at);
            assert(d.closures.to_set().contains(d.closures[i]));
            assert(c.closures.contains(d.closures[i]));
        }
    }
    assert(admitted(c, r, at) =~= admitted(d, r, at));
}

proof fn lemma_same_members<A>(a: Seq<A>, b: Seq<A>, x: A)
    requires
        a.to_set() == b.to_set(),
    ensures
        a.contains(x) == b.contains(x),
{
    assert(a.to_set().contains(x) == a.contains(x));
    assert(b.to_set().contains(x) == b.contains(x));
}

/// Needs that are repeated, or that come in another order, call for the same
/// capabilities.
pub proof fn law_repeated_needs_collapse(
    c: CatalogModel,
    r: RouteRequestModel,
    q: RouteRequestModel,
)
    requires
        r.mobility.to_set() == q.mobility.to_set(),
        r.communication.to_set() == q.communication.to_set(),
    ensures
        required_list(c, r) == required_list(c, q),
{
    lemma_same_members(r.mobility, q.mobility, Mobility::Wheelchair);
    lemma_same_members(r.communication, q.communication, Communication::Hearing);
    lemma_same_members(r.communication, q.communication, Communication::Speech);
    assert(required_for(c.hard_requirements, r.mobility, r.communication) =~= required_for(
        c.hard_requirements,
        q.mobility,
        q.communication,
    ));
}

/// The same request but for the order of its needs and for repeated needs.
pub open spec fn same_needs(r: RouteRequestModel, q: RouteRequestModel) -> bool {
    &&& r.origin_grid == q.origin_grid
    &&& r.service == q.service
    &&& r.mobility.to_set() == q.mobility.to_set()
    &&& r.communication.to_set() == q.communication.to_set()
}

/// Needs that are repeated, or that come in another order, do not show in what
/// a request comes to.
pub proof fn law_order_of_needs_does_not_show(
    c: CatalogModel,
    r: RouteRequestModel,
    q: RouteRequestModel,
    at: (int, int),
)
    requires
        same_needs(r, q),
    ensures
        evaluated(c, r, at) == evaluated(c, q, at),
{
    law_repeated_needs_collapse(c, r, q);
    lemma_same_members(r.mobility, q.mobility, Mobility::Homebound);
    assert forall|p: ServicePointModel| #[trigger] exclusion(c, r, at, p) == exclusion(
        c,
        q,
        at,
        p,
    ) by {}
    assert(admitted(c, r, at) =~= admitted(c, q, at));
    assert(refused(c, r, at) =~= refused(c, q, at));
    assert(exclusion_at(c, r, at) =~= exclusion_at(c, q, at));
    assert(candidate_at(r) =~= candidate_at(q));
    assert(option_at(r) =~= option_at(q));
}

/// The order of input does not show: a catalog whose points and slots are listed
/// in another order, where ids are distinct, and a request whose needs come in
/// another order give the same evaluation.
pub proof fn law_permuted_input_gives_the_same_evaluation(
    c: CatalogModel,
    d: CatalogModel,
    r: RouteRequestModel,
    q: RouteRequestModel,
    at: (int, int),
)
    requires
        c.points.to_multiset() == d.points.to_multiset(),
        c.home_service.slots.to_multiset() == d.home_service.slots.to_multiset(),
        c.closures == d.closures,
        c.hard_requirements == d.hard_requirements,
        c.home_service.allowed_service == d.home_service.allowed_service,
        c.home_service.allowed_mobility == d.home_service.allowed_mobility,
        c.home_service.reason == d.home_service.reason,
        distinct_ids(c.points),
        distinct_slots(c.home_service.slots),
        same_needs(r, q),
    ensures
        evaluated(c, r, at) == evaluated(d, q, at),
{
    law_input_order_does_not_show(c, d, r, at);
    law_order_of_needs_does_not_show(d, r, q, at);
}

/// Further needs only take candidates away: what is left of them stands in the
/// same order, at the same costs.
pub proof fn law_further_needs_only_exclude(
    c: CatalogModel,
    r: RouteRequestModel,
    q: RouteRequestModel,
    at: (int, int),
)
    requires
        r.origin_grid == q.origin_grid,
        r.service == q.service,
        r.mobility.to_set().subset_of(q.mobility.to_set()),
        r.communication.to_set().subset_of(q.communication.to_set()),
    ensures
        subsequence(candidates_for(c, q, at), candidates_for(c, r, at)),
{
    lemma_more_members(r.mobility, q.mobility, Mobility::Wheelchair);
    lemma_more_members(r.mobility, q.mobility, Mobility::Homebound);
    lemma_more_members(r.communication, q.communication, Communication::Hearing);
    lemma_more_members(r.communication, q.communication, Communication::Speech);
    let fewer = required_for(c.hard_requirements, r.mobility, r.communication);
    let more = required_for(c.hard_requirements, q.mobility, q.communication);
    assert(fewer.subset_of(more));
    assert forall|p: ServicePointModel| #[trigger] admitted(c, q, at)(p) implies admitted(
        c,
        r,
        at,
    )(p) by {
        law_admitted_points_serve(c, q, at, p);
        law_admitted_points_serve(c, r, at, p);
    }
    assert(candidate_at(q) =~= candidate_at(r));
    lemma_narrower_selection(c.points, admitted(c, q, at), admitted(c, r, at), candidate_at(r));
}

proof fn lemma_more_members<A>(a: Seq<A>, b: Seq<A>, x: A)
    requires
        a.to_set().subset_of(b.to_set()),
    ensures
        a.contains(x) ==> b.contains(x),
{
    assert(a.to_set().contains(x) == a.contains(x));
    assert(b.to_set().contains(x) == b.contains(x));
}

} // verus!
