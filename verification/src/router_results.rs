//! What an answer of the service holds, told from the catalog, the request and
//! the appointments that are left.

use crate::catalog::ClosureModel;
use crate::distance::cost_fits;
use crate::instant::{shown_text, Timestamp};
use crate::keyed::lemma_finite_set_is_listed;
use crate::models::{
    required_for, Candidate, Catalog, Communication, Exclusion, HardRequirements, HomeOption,
    HomeOptionModel, HomeServiceSlot, Mobility, RouteRequest, RouteResponse, ServicePoint,
};
use crate::order::{
    lemma_selection_keeps, lemma_selection_source, lemma_sorted, lemma_sorted_contains, sorted,
    views, Order,
};
use crate::router::{
    admitted, asked_at, candidate_at, candidates_for, costs_fit, eligible, evaluated, exclusion,
    exclusion_at, exclusions_for, first_closing, home_options_for, lacks, missing, option_at,
    point_costs_fit, refused, request_costs_fit, request_point_costs_fit, required_list, routed,
    slot_costs_fit, unchanged, Evaluation,
};
use crate::router_laws::{
    law_admitted_points_serve, law_answers_are_ordered, law_every_point_is_answered, serves,
};
use crate::routing_results::lasts;
use crate::text::{joined, lemma_text_lt_connected, text_lt};
use vstd::math::abs;
use vstd::prelude::*;

verus! {

/// Each need calls for its capability on its own: a wheelchair whatever is
/// needed for communication, hearing and speech whatever the mobility and
/// whatever else is needed. Nothing else is called for.
pub proof fn law_each_need_calls_for_its_capability(
    h: HardRequirements,
    mobility: Seq<Mobility>,
    communication: Seq<Communication>,
)
    ensures
        ({
            let required = required_for(h@, mobility, communication);
            &&& mobility.contains(Mobility::Wheelchair) ==> required.contains(h.wheelchair@)
            &&& communication.contains(Communication::Hearing) ==> required.contains(h.hearing@)
            &&& communication.contains(Communication::Speech) ==> required.contains(h.speech@)
            &&& forall|a: Seq<char>| #[trigger]
                required.contains(a) ==> {
                    ||| a == h.wheelchair@ && mobility.contains(Mobility::Wheelchair)
                    ||| a == h.hearing@ && communication.contains(Communication::Hearing)
                    ||| a == h.speech@ && communication.contains(Communication::Speech)
                }
        }),
{
}

/// One need alone calls for one capability, or for none.
pub proof fn law_single_needs(h: HardRequirements)
    ensures
        ({
            let nobody = Seq::<Mobility>::empty();
            let nothing = Seq::<Communication>::empty();
            &&& required_for(h@, nobody, nothing) == Set::<Seq<char>>::empty()
            &&& required_for(h@, seq![Mobility::Wheelchair], nothing) == set![h.wheelchair@]
            &&& required_for(h@, seq![Mobility::Homebound], nothing) == Set::<Seq<char>>::empty()
            &&& required_for(h@, seq![Mobility::Ambulatory], nothing) == Set::<Seq<char>>::empty()
            &&& required_for(h@, nobody, seq![Communication::Hearing]) == set![h.hearing@]
            &&& required_for(h@, nobody, seq![Communication::Speech]) == set![h.speech@]
            &&& required_for(h@, nobody, seq![Communication::Unaided]) == Set::<
                Seq<char>,
            >::empty()
        }),
{
    let nobody = Seq::<Mobility>::empty();
    let nothing = Seq::<Communication>::empty();
    assert(seq![Mobility::Wheelchair][0] == Mobility::Wheelchair);
    assert(seq![Communication::Hearing][0] == Communication::Hearing);
    assert(seq![Communication::Speech][0] == Communication::Speech);
    assert(required_for(h@, nobody, nothing) =~= Set::empty());
    assert(required_for(h@, seq![Mobility::Wheelchair], nothing) =~= set![h.wheelchair@]);
    assert(required_for(h@, seq![Mobility::Homebound], nothing) =~= Set::empty());
    assert(required_for(h@, seq![Mobility::Ambulatory], nothing) =~= Set::empty());
    assert(required_for(h@, nobody, seq![Communication::Hearing]) =~= set![h.hearing@]);
    assert(required_for(h@, nobody, seq![Communication::Speech]) =~= set![h.speech@]);
    assert(required_for(h@, nobody, seq![Communication::Unaided]) =~= Set::empty());
}

proof fn lemma_joined_members<A>(s: Seq<A>, t: Seq<A>, x: A)
    ensures
        (s + t).contains(x) == (s.contains(x) || t.contains(x)),
{
    if s.contains(x) {
        let i = choose|i: int| 0 <= i < s.len() && s[i] == x;
        assert((s + t)[i] == x);
    }
    if t.contains(x) {
        let i = choose|i: int| 0 <= i < t.len() && t[i] == x;
        assert((s + t)[s.len() + i] == x);
    }
    if (s + t).contains(x) {
        let i = choose|i: int| 0 <= i < (s + t).len() && (s + t)[i] == x;
        if i < s.len() {
            assert(s[i] == x);
        } else {
            assert(t[i - s.len()] == x);
        }
    }
}

/// Needs together call for what each of them calls for: the capabilities for two
/// lists of needs, one after the other, are those for the one and those for the
/// other.
pub proof fn law_needs_call_for_the_union(
    h: HardRequirements,
    mobility: Seq<Mobility>,
    communication: Seq<Communication>,
    further_mobility: Seq<Mobility>,
    further_communication: Seq<Communication>,
)
    ensures
        required_for(h@, mobility + further_mobility, communication + further_communication)
            == required_for(h@, mobility, communication).union(
            required_for(h@, further_mobility, further_communication),
        ),
        required_for(h@, mobility, communication) == required_for(
            h@,
            mobility,
            Seq::<Communication>::empty(),
        ).union(required_for(h@, Seq::<Mobility>::empty(), communication)),
{
    lemma_joined_members(mobility, further_mobility, Mobility::Wheelchair);
    lemma_joined_members(communication, further_communication, Communication::Hearing);
    lemma_joined_members(communication, further_communication, Communication::Speech);
    assert(required_for(h@, mobility + further_mobility, communication + further_communication)
        =~= required_for(h@, mobility, communication).union(
        required_for(h@, further_mobility, further_communication),
    ));
    assert(required_for(h@, mobility, communication) =~= required_for(
        h@,
        mobility,
        Seq::<Communication>::empty(),
    ).union(required_for(h@, Seq::<Mobility>::empty(), communication)));
}

/// Some need of the applicant calls for a capability.
pub open spec fn calls_for(c: Catalog, q: RouteRequest, a: Seq<char>) -> bool {
    ||| q.mobility@.contains(Mobility::Wheelchair) && a == c.hard_requirements.wheelchair@
    ||| q.communication@.contains(Communication::Hearing) && a == c.hard_requirements.hearing@
    ||| q.communication@.contains(Communication::Speech) && a == c.hard_requirements.speech@
}

/// The applicant is visited at home.
pub open spec fn is_entitled(c: Catalog, q: RouteRequest) -> bool {
    &&& q.mobility@.contains(Mobility::Homebound)
    &&& q.service@ == c.home_service.allowed_service@
    &&& c.home_service.allowed_mobility@.contains("HOMEBOUND"@)
}

/// The closure with the number `i` closes a point.
pub open spec fn closes(c: Catalog, i: int, p: ServicePoint, at: Timestamp) -> bool {
    &&& 0 <= i < c.closures@.len()
    &&& c.closures@[i].point_id@ == p.id@
    &&& lasts(c.closures@[i].from, c.closures@[i].to, at)
}

/// A point has every capability that is called for.
pub open spec fn is_fit_for(c: Catalog, q: RouteRequest, p: ServicePoint) -> bool {
    forall|a: Seq<char>| #[trigger] calls_for(c, q, a) ==> p.access@.contains(a)
}

/// The applicant can be sent to a point: it offers the service, it has each
/// capability that is called for, no closure is in force, and the applicant is
/// not visited at home.
pub open spec fn is_open_to(c: Catalog, q: RouteRequest, at: Timestamp, p: ServicePoint) -> bool {
    &&& p.services@.contains(q.service@)
    &&& is_fit_for(c, q, p)
    &&& !is_entitled(c, q)
    &&& forall|i: int| !#[trigger] closes(c, i, p, at)
}

proof fn lemma_calls(c: Catalog, q: RouteRequest)
    ensures
        forall|a: Seq<char>| #[trigger] required_list(c@, q@).contains(a) == calls_for(c, q, a),
        forall|m: int, n: int|
            0 <= m < n < required_list(c@, q@).len() ==> text_lt(
                #[trigger] required_list(c@, q@)[m],
                #[trigger] required_list(c@, q@)[n],
            ),
{
    let h = c.hard_requirements@;
    let needed = required_for(h, q@.mobility, q@.communication);
    let every = set![h.wheelchair, h.hearing, h.speech];
    assert(needed.subset_of(every));
    vstd::set_lib::lemma_set_subset_finite(every, needed);
    lemma_finite_set_is_listed(needed);
    assert forall|a: Seq<char>| #[trigger] required_list(c@, q@).contains(a) == calls_for(
        c,
        q,
        a,
    ) by {
        assert(needed.contains(a) == calls_for(c, q, a));
    }
}

proof fn lemma_open(c: Catalog, q: RouteRequest, at: Timestamp, p: ServicePoint)
    ensures
        admitted(c@, q@, at@)(p@) == is_open_to(c, q, at, p),
        refused(c@, q@, at@)(p@) == !is_open_to(c, q, at, p),
{
    law_admitted_points_serve(c@, q@, at@, p@);
    let needed = required_for(c@.hard_requirements, q@.mobility, q@.communication);
    assert forall|a: Seq<char>| needed.contains(a) == calls_for(c, q, a) by {}
    if serves(c@, q@, at@, p@) {
        assert forall|i: int| !#[trigger] closes(c, i, p, at) by {
            if 0 <= i < c.closures@.len() {
                assert(!c@.closures[i].closes(p@.id, at@));
            }
        }
        assert(is_fit_for(c, q, p));
    }
    if is_open_to(c, q, at, p) {
        assert forall|i: int| 0 <= i < c@.closures.len() implies !(#[trigger] c@.closures[i]).closes(
            p@.id,
            at@,
        ) by {
            assert(!closes(c, i, p, at));
        }
    }
}

/// A candidate is a point of the catalog to which the applicant can be sent, at
/// a distance that is the way across plus the way along, and at a cost that is
/// the distance plus the penalty of the point.
pub open spec fn is_offer(c: Catalog, q: RouteRequest, at: Timestamp, x: Candidate) -> bool {
    exists|i: int|
        {
            &&& 0 <= i < c.points@.len()
            &&& is_open_to(c, q, at, #[trigger] c.points@[i])
            &&& x.point_id@ == c.points@[i].id@
            &&& x.distance == abs(q.origin_grid@[0] - c.points@[i].grid@[0]) + abs(
                q.origin_grid@[1] - c.points@[i].grid@[1],
            )
            &&& x.barrier_penalty == c.points@[i].barrier_penalty
            &&& x.total_cost == x.distance + c.points@[i].barrier_penalty
        }
}

/// A list holds capabilities that are called for and that a point lacks: all of
/// them, each once, ascending.
pub open spec fn lists_lacking(
    c: Catalog,
    q: RouteRequest,
    p: ServicePoint,
    list: Seq<Seq<char>>,
) -> bool {
    &&& forall|a: Seq<char>| #[trigger]
        list.contains(a) == (calls_for(c, q, a) && !p.access@.contains(a))
    &&& forall|m: int, n: int|
        0 <= m < n < list.len() ==> text_lt(#[trigger] list[m], #[trigger] list[n])
}

/// What is told of a point: what is the matter with it, of several things the
/// first of the service, a capability, a visit at home and a closure; of several
/// closures the one that is listed first.
pub open spec fn is_told(
    c: Catalog,
    q: RouteRequest,
    at: Timestamp,
    p: ServicePoint,
    x: Exclusion,
) -> bool {
    if !p.services@.contains(q.service@) {
        &&& x.reason@ == "MISSING_SERVICE"@
        &&& x.detail@ == "point does not offer service "@ + q.service@
    } else if !is_fit_for(c, q, p) {
        &&& x.reason@ == "MISSING_ACCESSIBILITY"@
        &&& exists|list: Seq<Seq<char>>|
            {
                &&& #[trigger] lists_lacking(c, q, p, list)
                &&& x.detail@ == "point lacks required accessibility capability: "@ + joined(
                    list,
                    ", "@,
                )
            }
    } else if is_entitled(c, q) {
        &&& x.reason@ == c.home_service.reason@
        &&& x.detail@ == "applicant is eligible for home service; in-person points excluded"@
    } else {
        &&& x.reason@ == "TEMPORARILY_CLOSED"@
        &&& exists|i: int|
            {
                &&& #[trigger] closes(c, i, p, at)
                &&& forall|j: int| 0 <= j < i ==> !#[trigger] closes(c, j, p, at)
                &&& x.detail@ == "closure event "@ + c.closures@[i].event_id@ + " active from "@
                    + shown_text(c.closures@[i].from@.0, c.closures@[i].from@.1) + " to "@
                    + shown_text(c.closures@[i].to@.0, c.closures@[i].to@.1)
            }
    }
}

/// An excluded point is a point of the catalog to which the applicant cannot be
/// sent, with what is told of it.
pub open spec fn is_refusal(c: Catalog, q: RouteRequest, at: Timestamp, x: Exclusion) -> bool {
    exists|i: int|
        {
            &&& 0 <= i < c.points@.len()
            &&& !is_open_to(c, q, at, #[trigger] c.points@[i])
            &&& x.point_id@ == c.points@[i].id@
            &&& is_told(c, q, at, c.points@[i], x)
        }
}

/// The first of two comes first: it is cheaper or, at the same cost, does not
/// have the later id.
pub open spec fn precedes(cost: int, id: Seq<char>, other_cost: int, other_id: Seq<char>) -> bool {
    cost < other_cost || (cost == other_cost && (id == other_id || text_lt(id, other_id)))
}

/// The candidates are the points to which the applicant can be sent, the
/// cheapest first and, at the same cost, by id.
pub open spec fn holds_offers(
    c: Catalog,
    q: RouteRequest,
    at: Timestamp,
    list: Vec<Candidate>,
) -> bool {
    &&& forall|k: int| 0 <= k < list@.len() ==> is_offer(c, q, at, #[trigger] list@[k])
    &&& forall|i: int|
        0 <= i < c.points@.len() && is_open_to(c, q, at, #[trigger] c.points@[i]) ==> exists|
            k: int,
        |
            0 <= k < list@.len() && (#[trigger] list@[k]).point_id@ == c.points@[i].id@
    &&& forall|m: int, n: int|
        0 <= m < n < list@.len() ==> precedes(
            (#[trigger] list@[m]).total_cost as int,
            list@[m].point_id@,
            (#[trigger] list@[n]).total_cost as int,
            list@[n].point_id@,
        )
}

/// The exclusions are the points to which the applicant cannot be sent, by id.
pub open spec fn holds_refusals(
    c: Catalog,
    q: RouteRequest,
    at: Timestamp,
    list: Vec<Exclusion>,
) -> bool {
    &&& forall|k: int| 0 <= k < list@.len() ==> is_refusal(c, q, at, #[trigger] list@[k])
    &&& forall|i: int|
        0 <= i < c.points@.len() && !is_open_to(c, q, at, #[trigger] c.points@[i]) ==> exists|
            k: int,
        |
            0 <= k < list@.len() && (#[trigger] list@[k]).point_id@ == c.points@[i].id@
    &&& forall|m: int, n: int|
        0 <= m < n < list@.len() ==> (#[trigger] list@[m]).point_id@ == (
        #[trigger] list@[n]).point_id@ || text_lt(list@[m].point_id@, list@[n].point_id@)
}

pub proof fn lemma_offers(c: Catalog, q: RouteRequest, at: Timestamp, list: Vec<Candidate>)
    requires
        views(list@) == candidates_for(c@, q@, at@),
    ensures
        holds_offers(c, q, at, list),
{
    let open = admitted(c@, q@, at@);
    let offer = candidate_at(q@);
    let kept = c@.points.filter(open).map_values(offer);
    let all = views(list@);
    assert forall|k: int| 0 <= k < list@.len() implies is_offer(c, q, at, #[trigger] list@[k]) by {
        let x = list@[k];
        assert(all[k] == x@);
        assert(sorted(kept).contains(x@));
        lemma_sorted_contains(kept, x@);
        let i = lemma_selection_source(c@.points, open, offer, x@);
        assert(c@.points[i] == c.points@[i]@);
        lemma_open(c, q, at, c.points@[i]);
        assert(is_open_to(c, q, at, c.points@[i]));
    }
    assert forall|i: int|
        0 <= i < c.points@.len() && is_open_to(c, q, at, #[trigger] c.points@[i]) implies exists|
        k: int,
    |
        0 <= k < list@.len() && (#[trigger] list@[k]).point_id@ == c.points@[i].id@ by {
        let p = c.points@[i];
        assert(c@.points[i] == p@);
        lemma_open(c, q, at, p);
        law_every_point_is_answered(c@, q@, at@, i);
        let k = choose|k: int| 0 <= k < all.len() && all[k] == offer(p@);
        assert(all[k] == list@[k]@);
    }
    law_answers_are_ordered(c@, q@, at@);
    assert forall|m: int, n: int| 0 <= m < n < list@.len() implies precedes(
        (#[trigger] list@[m]).total_cost as int,
        list@[m].point_id@,
        (#[trigger] list@[n]).total_cost as int,
        list@[n].point_id@,
    ) by {
        assert(all[m] == list@[m]@ && all[n] == list@[n]@);
        assert(all[m].at_most(all[n]));
        lemma_text_lt_connected(all[m].point_id, all[n].point_id);
    }
}

/// The first closure that closes a point, by number.
proof fn lemma_first_closing(
    closures: Seq<ClosureModel>,
    id: Seq<char>,
    at: (int, int),
    from: int,
) -> (i: int)
    requires
        0 <= from <= closures.len(),
        first_closing(closures, id, at, from) is Some,
    ensures
        from <= i < closures.len(),
        closures[i].closes(id, at),
        first_closing(closures, id, at, from) == Some(closures[i]),
        forall|j: int| from <= j < i ==> !(#[trigger] closures[j]).closes(id, at),
    decreases closures.len() - from,
{
    if closures[from].closes(id, at) {
        from
    } else {
        lemma_first_closing(closures, id, at, from + 1)
    }
}

proof fn lemma_lacking(c: Catalog, q: RouteRequest, p: ServicePoint)
    ensures
        lists_lacking(c, q, p, missing(required_list(c@, q@), p@)),
        missing(required_list(c@, q@), p@).len() == 0 <==> is_fit_for(c, q, p),
{
    let all = required_list(c@, q@);
    let list = missing(all, p@);
    lemma_calls(c, q);
    assert forall|a: Seq<char>| #[trigger] list.contains(a) == (calls_for(c, q, a)
        && !p.access@.contains(a)) by {
        if list.contains(a) {
            let i = lemma_selection_source(all, lacks(p@), unchanged(), a);
            assert(all.contains(all[i]));
        }
        if calls_for(c, q, a) && !p.access@.contains(a) {
            assert(all.contains(a));
            let i = choose|i: int| 0 <= i < all.len() && all[i] == a;
            lemma_selection_keeps(all, lacks(p@), unchanged(), i);
        }
    }
    lemma_chosen_ascends(all, lacks(p@));
    if list.len() == 0 {
        assert forall|a: Seq<char>| #[trigger] calls_for(c, q, a) implies p.access@.contains(a) by {
            assert(!list.contains(a));
        }
    } else {
        assert(list.contains(list[0]));
        assert(calls_for(c, q, list[0]));
    }
}

/// What is chosen from an ascending list ascends.
proof fn lemma_chosen_ascends(all: Seq<Seq<char>>, keep: spec_fn(Seq<char>) -> bool)
    requires
        forall|m: int, n: int|
            0 <= m < n < all.len() ==> text_lt(#[trigger] all[m], #[trigger] all[n]),
    ensures
        forall|m: int, n: int|
            0 <= m < n < all.filter(keep).map_values(unchanged()).len() ==> text_lt(
                #[trigger] all.filter(keep).map_values(unchanged())[m],
                #[trigger] all.filter(keep).map_values(unchanged())[n],
            ),
    decreases all.len(),
{
    reveal(Seq::filter);
    if all.len() > 0 {
        let front = all.drop_last();
        assert forall|m: int, n: int| 0 <= m < n < front.len() implies text_lt(
            #[trigger] front[m],
            #[trigger] front[n],
        ) by {
            assert(front[m] == all[m] && front[n] == all[n]);
        }
        lemma_chosen_ascends(front, keep);
        let some = front.filter(keep).map_values(unchanged());
        let list = all.filter(keep).map_values(unchanged());
        assert forall|m: int, n: int| 0 <= m < n < list.len() implies text_lt(
            #[trigger] list[m],
            #[trigger] list[n],
        ) by {
            assert(list[m] == some[m]);
            if n < some.len() {
                assert(list[n] == some[n]);
            } else {
                assert(list[n] == all.last());
                assert(some.contains(some[m]));
                let i = lemma_selection_source(front, keep, unchanged(), some[m]);
                assert(front[i] == all[i]);
                assert(all[all.len() - 1] == all.last());
            }
        }
    }
}

proof fn lemma_told(c: Catalog, q: RouteRequest, at: Timestamp, p: ServicePoint, x: Exclusion)
    requires
        exclusion(c@, q@, at@, p@) == Some(x@),
    ensures
        is_told(c, q, at, p, x),
{
    let list = missing(required_list(c@, q@), p@);
    lemma_lacking(c, q, p);
    if p.services@.contains(q.service@) {
        if list.len() > 0 {
            assert(lists_lacking(c, q, p, list));
        } else if !is_entitled(c, q) {
            let i = lemma_first_closing(c@.closures, p@.id, at@, 0);
            assert(c@.closures[i] == c.closures@[i]@);
            assert(closes(c, i, p, at));
            assert forall|j: int| 0 <= j < i implies !#[trigger] closes(c, j, p, at) by {
                assert(c@.closures[j] == c.closures@[j]@);
            }
        }
    }
}

pub proof fn lemma_refusals(c: Catalog, q: RouteRequest, at: Timestamp, list: Vec<Exclusion>)
    requires
        views(list@) == exclusions_for(c@, q@, at@),
    ensures
        holds_refusals(c, q, at, list),
{
    let shut = refused(c@, q@, at@);
    let refusal = exclusion_at(c@, q@, at@);
    let left = c@.points.filter(shut).map_values(refusal);
    let all = views(list@);
    assert forall|k: int| 0 <= k < list@.len() implies is_refusal(
        c,
        q,
        at,
        #[trigger] list@[k],
    ) by {
        let x = list@[k];
        assert(all[k] == x@);
        assert(sorted(left).contains(x@));
        lemma_sorted_contains(left, x@);
        let i = lemma_selection_source(c@.points, shut, refusal, x@);
        let p = c.points@[i];
        assert(c@.points[i] == p@);
        lemma_open(c, q, at, p);
        lemma_told(c, q, at, p, x);
        assert(!is_open_to(c, q, at, c.points@[i]));
    }
    assert forall|i: int|
        0 <= i < c.points@.len() && !is_open_to(c, q, at, #[trigger] c.points@[i]) implies exists|
        k: int,
    |
        0 <= k < list@.len() && (#[trigger] list@[k]).point_id@ == c.points@[i].id@ by {
        let p = c.points@[i];
        assert(c@.points[i] == p@);
        lemma_open(c, q, at, p);
        law_every_point_is_answered(c@, q@, at@, i);
        let k = choose|k: int| 0 <= k < all.len() && all[k] == refusal(p@);
        assert(all[k] == list@[k]@);
    }
    law_answers_are_ordered(c@, q@, at@);
    assert forall|m: int, n: int| 0 <= m < n < list@.len() implies (
    #[trigger] list@[m]).point_id@ == (#[trigger] list@[n]).point_id@ || text_lt(
        list@[m].point_id@,
        list@[n].point_id@,
    ) by {
        assert(all[m] == list@[m]@ && all[n] == list@[n]@);
        assert(all[m].at_most(all[n]));
        lemma_text_lt_connected(all[m].point_id, all[n].point_id);
    }
}

pub proof fn lemma_every_point_counts(c: Catalog, q: RouteRequest, at: Timestamp)
    ensures
        candidates_for(c@, q@, at@).len() + exclusions_for(c@, q@, at@).len() == c.points@.len(),
{
    if c@.points.len() > 0 {
        law_every_point_is_answered(c@, q@, at@, 0);
    } else {
        let kept = c@.points.filter(admitted(c@, q@, at@)).map_values(candidate_at(q@));
        let left = c@.points.filter(refused(c@, q@, at@)).map_values(
            exclusion_at(c@, q@, at@),
        );
        reveal(Seq::filter);
        lemma_sorted(kept);
        lemma_sorted(left);
    }
}

/// An evaluation holds every point of the catalog once: as a candidate, if and
/// only if the applicant can be sent to it, and else as an exclusion. Home
/// service is noted if and only if the applicant is visited at home.
pub proof fn law_evaluations_hold_every_point(
    c: Catalog,
    q: RouteRequest,
    at: Timestamp,
    e: Evaluation,
)
    requires
        e@ == evaluated(c@, q@, at@),
    ensures
        holds_offers(c, q, at, e.candidates),
        holds_refusals(c, q, at, e.exclusions),
        e.candidates@.len() + e.exclusions@.len() == c.points@.len(),
        is_entitled(c, q) ==> e.notices@.len() == 1 && e.notices@[0].code@
            == "HOME_SERVICE_REQUIRED"@,
        !is_entitled(c, q) ==> e.notices@.len() == 0 && e.home_options@.len() == 0,
{
    assert(e@.candidates == candidates_for(c@, q@, at@));
    assert(e@.exclusions == exclusions_for(c@, q@, at@));
    lemma_offers(c, q, at, e.candidates);
    lemma_refusals(c, q, at, e.exclusions);
    lemma_every_point_counts(c, q, at);
    assert(views(e.notices@).len() == e.notices@.len());
    assert(views(e.home_options@).len() == e.home_options@.len());
    if is_entitled(c, q) {
        assert(views(e.notices@)[0] == e.notices@[0]@);
    }
}

/// A routed request is answered with every point of the catalog once, under the
/// given snapshot id and for the version of the catalog.
pub proof fn law_routes_hold_every_point(
    c: Catalog,
    q: RouteRequest,
    at: Timestamp,
    snapshot_id: Seq<char>,
    r: RouteResponse,
)
    requires
        r@ == routed(c@, q@, snapshot_id, at@),
    ensures
        holds_offers(c, q, at, r.candidates),
        holds_refusals(c, q, at, r.exclusions),
        r.candidates@.len() + r.exclusions@.len() == c.points@.len(),
        r.snapshot_id@ == snapshot_id,
        r.catalog_version@ == c.catalog_version@,
        r.home_service is None,
{
    assert(r@.candidates == candidates_for(c@, q@, at@));
    assert(r@.exclusions == exclusions_for(c@, q@, at@));
    lemma_offers(c, q, at, r.candidates);
    lemma_refusals(c, q, at, r.exclusions);
    lemma_every_point_counts(c, q, at);
}

/// A request that names an instant is answered at that instant, and one that
/// names none may be answered at any instant there is.
pub proof fn law_named_instants_are_kept(q: RouteRequest, at: Timestamp)
    requires
        asked_at(q@, at@),
    ensures
        q.request_time is Some ==> at@ == q.request_time->Some_0@,
{
}

/// An appointment is one in a slot of the catalog: with its id and its place, at
/// a distance that is the way across plus the way along, and at a cost that is
/// the distance plus the penalty of the slot.
pub open spec fn is_visit_from(q: RouteRequest, s: HomeServiceSlot, o: HomeOption) -> bool {
    &&& o.slot_id@ == s.slot_id@
    &&& o.grid@[0] == s.grid@[0]
    &&& o.grid@[1] == s.grid@[1]
    &&& o.distance == abs(q.origin_grid@[0] - s.grid@[0]) + abs(q.origin_grid@[1] - s.grid@[1])
    &&& o.barrier_penalty == s.barrier_penalty
    &&& o.total_cost == o.distance + s.barrier_penalty
}

/// The appointments that are open to an applicant who is visited at home are
/// those in the slots of the catalog, one for each slot: every one is in a slot,
/// with the place of the slot, the way to it and the sum of the way and the
/// penalty, and taken together they are a rearrangement of the slots. The
/// cheapest stands first and, at the same cost, the one with the earlier slot id.
pub proof fn law_home_options_are_the_slots(
    c: Catalog,
    q: RouteRequest,
    at: Timestamp,
    e: Evaluation,
)
    requires
        e@ == evaluated(c@, q@, at@),
        is_entitled(c, q),
    ensures
        e.home_options@.len() == c.home_service.slots@.len(),
        forall|k: int|
            0 <= k < e.home_options@.len() ==> exists|i: int|
                0 <= i < c.home_service.slots@.len() && is_visit_from(
                    q,
                    #[trigger] c.home_service.slots@[i],
                    #[trigger] e.home_options@[k],
                ),
        forall|i: int|
            0 <= i < c.home_service.slots@.len() ==> exists|k: int|
                0 <= k < e.home_options@.len() && is_visit_from(
                    q,
                    #[trigger] c.home_service.slots@[i],
                    #[trigger] e.home_options@[k],
                ),
        views(e.home_options@).to_multiset() == c.home_service.slots@.map_values(
            |s: HomeServiceSlot|
                HomeOptionModel {
                    slot_id: s.slot_id@,
                    total_cost: abs(q.origin_grid@[0] - s.grid@[0]) + abs(
                        q.origin_grid@[1] - s.grid@[1],
                    ) + s.barrier_penalty,
                    distance: (abs(q.origin_grid@[0] - s.grid@[0]) + abs(
                        q.origin_grid@[1] - s.grid@[1],
                    )) as int,
                    barrier_penalty: s.barrier_penalty as int,
                    grid: (s.grid@[0] as int, s.grid@[1] as int),
                },
        ).to_multiset(),
        forall|m: int, n: int|
            0 <= m < n < e.home_options@.len() ==> precedes(
                (#[trigger] e.home_options@[m]).total_cost as int,
                e.home_options@[m].slot_id@,
                (#[trigger] e.home_options@[n]).total_cost as int,
                e.home_options@[n].slot_id@,
            ),
{
    let slots = c.home_service.slots@;
    let offers = c@.home_service.slots.map_values(option_at(q@));
    let all = views(e.home_options@);
    assert(e@.home_options == home_options_for(c@, q@));
    assert(all == sorted(offers));
    lemma_sorted(offers);
    assert forall|k: int| 0 <= k < e.home_options@.len() implies exists|i: int|
        0 <= i < slots.len() && is_visit_from(
            q,
            #[trigger] slots[i],
            #[trigger] e.home_options@[k],
        ) by {
        let i = lemma_visit_place(c, q, e.home_options, k);
        assert(is_visit_from(q, slots[i], e.home_options@[k]));
    }
    assert forall|i: int| 0 <= i < slots.len() implies exists|k: int|
        0 <= k < e.home_options@.len() && is_visit_from(
            q,
            #[trigger] slots[i],
            #[trigger] e.home_options@[k],
        ) by {
        let k = lemma_slot_place(c, q, e.home_options, i);
        assert(is_visit_from(q, slots[i], e.home_options@[k]));
    }
    let written = slots.map_values(
        |s: HomeServiceSlot|
            HomeOptionModel {
                slot_id: s.slot_id@,
                total_cost: abs(q.origin_grid@[0] - s.grid@[0]) + abs(
                    q.origin_grid@[1] - s.grid@[1],
                ) + s.barrier_penalty,
                distance: (abs(q.origin_grid@[0] - s.grid@[0]) + abs(
                    q.origin_grid@[1] - s.grid@[1],
                )) as int,
                barrier_penalty: s.barrier_penalty as int,
                grid: (s.grid@[0] as int, s.grid@[1] as int),
            },
    );
    assert(written =~= offers) by {
        assert forall|i: int| 0 <= i < slots.len() implies #[trigger] written[i] == offers[i] by {
            assert(c@.home_service.slots[i] == slots[i]@);
        }
    }
    assert forall|m: int, n: int| 0 <= m < n < e.home_options@.len() implies precedes(
        (#[trigger] e.home_options@[m]).total_cost as int,
        e.home_options@[m].slot_id@,
        (#[trigger] e.home_options@[n]).total_cost as int,
        e.home_options@[n].slot_id@,
    ) by {
        assert(all[m] == e.home_options@[m]@ && all[n] == e.home_options@[n]@);
        assert(all[m].at_most(all[n]));
        lemma_text_lt_connected(all[m].slot_id, all[n].slot_id);
    }
}

/// The slot of an appointment.
proof fn lemma_visit_place(c: Catalog, q: RouteRequest, list: Vec<HomeOption>, k: int) -> (i: int)
    requires
        views(list@) == home_options_for(c@, q@),
        is_entitled(c, q),
        0 <= k < list@.len(),
    ensures
        0 <= i < c.home_service.slots@.len(),
        is_visit_from(q, c.home_service.slots@[i], list@[k]),
{
    let offers = c@.home_service.slots.map_values(option_at(q@));
    let all = views(list@);
    assert(all[k] == list@[k]@);
    assert(sorted(offers).contains(all[k]));
    lemma_sorted_contains(offers, all[k]);
    let i = choose|i: int| 0 <= i < offers.len() && offers[i] == all[k];
    assert(c@.home_service.slots[i] == c.home_service.slots@[i]@);
    i
}

/// The appointment in a slot.
proof fn lemma_slot_place(c: Catalog, q: RouteRequest, list: Vec<HomeOption>, i: int) -> (k: int)
    requires
        views(list@) == home_options_for(c@, q@),
        is_entitled(c, q),
        0 <= i < c.home_service.slots@.len(),
    ensures
        0 <= k < list@.len(),
        is_visit_from(q, c.home_service.slots@[i], list@[k]),
{
    let offers = c@.home_service.slots.map_values(option_at(q@));
    let all = views(list@);
    assert(c@.home_service.slots[i] == c.home_service.slots@[i]@);
    assert(offers[i] == option_at(q@)(c.home_service.slots@[i]@));
    assert(offers.contains(offers[i]));
    lemma_sorted_contains(offers, offers[i]);
    let k = choose|k: int| 0 <= k < all.len() && all[k] == offers[i];
    assert(all[k] == list@[k]@);
    k
}

/// A cost can be computed in 64 bits.
pub open spec fn is_countable(q: RouteRequest, grid: [i64; 2], penalty: i64) -> bool {
    let way = abs(q.origin_grid@[0] - grid@[0]) + abs(q.origin_grid@[1] - grid@[1]);
    &&& way <= 0x7fff_ffff_ffff_ffff
    &&& -0x8000_0000_0000_0000 <= way + penalty <= 0x7fff_ffff_ffff_ffff
}

/// A request can be answered if and only if the cost of every point to which the
/// applicant can be sent can be computed and, if they are visited at home, that
/// of every slot.
pub proof fn law_costs_that_can_be_computed(c: Catalog, q: RouteRequest, at: Timestamp)
    ensures
        point_costs_fit(c@, q@, at@) <==> forall|i: int|
            0 <= i < c.points@.len() && is_open_to(c, q, at, #[trigger] c.points@[i])
                ==> is_countable(q, c.points@[i].grid, c.points@[i].barrier_penalty),
        slot_costs_fit(c@, q@) <==> (is_entitled(c, q) ==> forall|i: int|
            0 <= i < c.home_service.slots@.len() ==> is_countable(
                q,
                (#[trigger] c.home_service.slots@[i]).grid,
                c.home_service.slots@[i].barrier_penalty,
            )),
        costs_fit(c@, q@, at@) <==> point_costs_fit(c@, q@, at@) && slot_costs_fit(c@, q@),
{
    if point_costs_fit(c@, q@, at@) {
        assert forall|i: int|
            0 <= i < c.points@.len() && is_open_to(c, q, at, #[trigger] c.points@[i]) implies
            is_countable(q, c.points@[i].grid, c.points@[i].barrier_penalty) by {
            let p = c.points@[i];
            assert(c@.points[i] == p@);
            lemma_open(c, q, at, p);
            assert(exclusion(c@, q@, at@, c@.points[i]) is None);
        }
    }
    if forall|i: int|
        0 <= i < c.points@.len() && is_open_to(c, q, at, #[trigger] c.points@[i]) ==> is_countable(
            q,
            c.points@[i].grid,
            c.points@[i].barrier_penalty,
        ) {
        assert forall|i: int|
            0 <= i < c@.points.len() && exclusion(
                c@,
                q@,
                at@,
                #[trigger] c@.points[i],
            ) is None implies cost_fits(
            q@.origin_grid,
            c@.points[i].grid,
            c@.points[i].barrier_penalty,
        ) by {
            let p = c.points@[i];
            assert(c@.points[i] == p@);
            lemma_open(c, q, at, p);
            assert(is_open_to(c, q, at, c.points@[i]));
        }
    }
    if is_entitled(c, q) {
        if slot_costs_fit(c@, q@) {
            assert forall|i: int| 0 <= i < c.home_service.slots@.len() implies is_countable(
                q,
                (#[trigger] c.home_service.slots@[i]).grid,
                c.home_service.slots@[i].barrier_penalty,
            ) by {
                assert(c@.home_service.slots[i] == c.home_service.slots@[i]@);
            }
        }
        if forall|i: int|
            0 <= i < c.home_service.slots@.len() ==> is_countable(
                q,
                (#[trigger] c.home_service.slots@[i]).grid,
                c.home_service.slots@[i].barrier_penalty,
            ) {
            assert forall|i: int| 0 <= i < c@.home_service.slots.len() implies cost_fits(
                q@.origin_grid,
                (#[trigger] c@.home_service.slots[i]).grid,
                c@.home_service.slots[i].barrier_penalty,
            ) by {
                assert(c@.home_service.slots[i] == c.home_service.slots@[i]@);
            }
        }
    }
}

/// A request that names its instant can be answered if and only if it can be at
/// that instant, and one that names none if and only if it can be at any.
pub proof fn law_requests_that_can_be_answered(c: Catalog, q: RouteRequest)
    ensures
        q.request_time is Some ==> request_point_costs_fit(c@, q@) == point_costs_fit(
            c@,
            q@,
            q.request_time->Some_0@,
        ),
        q.request_time is None ==> request_point_costs_fit(c@, q@) == (forall|at: (int, int)|
            #[trigger] point_costs_fit(c@, q@, at)),
        request_costs_fit(c@, q@) == (request_point_costs_fit(c@, q@) && slot_costs_fit(c@, q@)),
{
}

/// Who is visited at home: whoever is housebound and asks for the service that
/// is brought home, where the catalog allows it for the housebound.
pub proof fn law_the_entitled(c: Catalog, q: RouteRequest)
    ensures
        eligible(c@, q@) == is_entitled(c, q),
{
}

} // verus!
