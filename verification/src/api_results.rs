//! What a request is given by the service, told from the catalog, the request
//! and the appointments that are left.

use crate::api::{
    answered, appointment, installed, key_of, lasting, remembered, responded, slot_ids, withdrawn,
    Answer, AppState,
};
use crate::capacity::{
    attempt, available, first_free, lemma_first_free, slot_table, CapacityModel,
};
use crate::instant::Timestamp;
use crate::models::{
    Catalog, HomeOptionModel, HomeServiceSlotModel, RouteRequest, RouteResponse,
};
use crate::order::{views, Order};
use crate::router::{
    candidates_for, evaluated, exclusions_for, home_options_for, option_at, option_for,
};
use crate::router_laws::law_answers_are_ordered;
use crate::router_results::{
    holds_offers, holds_refusals, is_entitled, is_visit_from, lemma_every_point_counts,
    lemma_offers, lemma_refusals, precedes,
};
use crate::text::{joined, lemma_text_lt_connected};
use vstd::math::abs;
use vstd::prelude::*;

verus! {

/// The appointments that are left in a slot.
pub open spec fn left_in(capacity: CapacityModel, slot_id: Seq<char>) -> int {
    if capacity.remaining.contains_key(slot_id) {
        capacity.remaining[slot_id] as int
    } else {
        0
    }
}

proof fn lemma_option_is_first(
    options: Seq<HomeOptionModel>,
    slot_id: Seq<char>,
    from: int,
    i: int,
)
    requires
        0 <= from <= i < options.len(),
        options[i].slot_id == slot_id,
        forall|j: int| from <= j < i ==> (#[trigger] options[j]).slot_id != slot_id,
    ensures
        option_for(options, slot_id, from) == Some(options[i]),
    decreases i - from,
{
    if from < i {
        lemma_option_is_first(options, slot_id, from + 1, i);
    }
}

/// The first appointment in the list of options whose slot has one left is the
/// one that is reserved.
proof fn lemma_reserved(
    capacity: CapacityModel,
    next: CapacityModel,
    c: Catalog,
    q: RouteRequest,
    at: Timestamp,
    r: RouteResponse,
)
    requires
        (next, r@) == responded(capacity, c@, q@, at@, r.snapshot_id@),
        is_entitled(c, q),
        capacity.catalog_version == c.catalog_version@,
    ensures
        ({
            let options = home_options_for(c@, q@);
            let h = r.home_service->Some_0;
            &&& r.home_service is Some
            &&& h.eligible
            &&& h.reason@ == c.home_service.reason@
            &&& h.slot is Some ==> h.no_capacity is None && exists|i: int|
                {
                    &&& 0 <= i < options.len()
                    &&& h.slot->Some_0@ == #[trigger] options[i]
                    &&& left_in(capacity, options[i].slot_id) > 0
                    &&& forall|j: int|
                        0 <= j < i ==> left_in(capacity, (#[trigger] options[j]).slot_id) == 0
                    &&& next == (CapacityModel {
                        remaining: capacity.remaining.insert(
                            options[i].slot_id,
                            (capacity.remaining[options[i].slot_id] - 1) as u32,
                        ),
                        ..capacity
                    })
                }
            &&& h.slot is None ==> {
                &&& next == capacity
                &&& h.no_capacity is Some
                &&& h.no_capacity->Some_0.code@ == "HOME_SERVICE_NO_CAPACITY"@
                &&& h.no_capacity->Some_0.message@ == if options.len() > 0 {
                    "all home service appointment slots are at capacity"@
                } else {
                    "home service is required but no appointment slots are configured"@
                }
                &&& forall|j: int|
                    0 <= j < options.len() ==> left_in(
                        capacity,
                        (#[trigger] options[j]).slot_id,
                    ) == 0
            }
        }),
{
    let options = home_options_for(c@, q@);
    let ids = slot_ids(options);
    let e = evaluated(c@, q@, at@);
    let h = r.home_service->Some_0;
    assert(e.home_options == options);
    assert(e.notices[0] == "HOME_SERVICE_REQUIRED"@);
    lemma_first_free(capacity.remaining, ids, 0);
    assert forall|j: int| 0 <= j < options.len() implies left_in(
        capacity,
        (#[trigger] options[j]).slot_id,
    ) == available(capacity.remaining, ids[j]) by {}
    if options.len() > 0 {
        match first_free(capacity.remaining, ids, 0) {
            Some(i) => {
                assert(ids[i] == options[i].slot_id);
                assert forall|j: int| 0 <= j < i implies (#[trigger] options[j]).slot_id
                    != ids[i] by {
                    assert(available(capacity.remaining, ids[j]) == 0);
                }
                lemma_option_is_first(options, ids[i], 0, i);
                assert(h.slot->Some_0@ == options[i]);
            },
            None => {
                assert forall|j: int| 0 <= j < options.len() implies left_in(
                    capacity,
                    (#[trigger] options[j]).slot_id,
                ) == 0 by {
                    assert(available(capacity.remaining, ids[j]) == 0);
                }
            },
        }
    }
}

/// An applicant who is visited at home is given an appointment as long as one is
/// left, in the cheapest of the slots that have one: the slot costs the way
/// across plus the way along plus its penalty, and no slot with an appointment
/// left costs less or, at the same cost, has an earlier id. One appointment in
/// that slot goes and no other.
pub proof fn law_the_cheapest_free_slot_is_reserved(
    capacity: CapacityModel,
    next: CapacityModel,
    c: Catalog,
    q: RouteRequest,
    at: Timestamp,
    r: RouteResponse,
)
    requires
        (next, r@) == responded(capacity, c@, q@, at@, r.snapshot_id@),
        is_entitled(c, q),
        capacity.catalog_version == c.catalog_version@,
        exists|i: int|
            0 <= i < c.home_service.slots@.len() && left_in(
                capacity,
                (#[trigger] c.home_service.slots@[i]).slot_id@,
            ) > 0,
    ensures
        r.home_service is Some,
        r.home_service->Some_0.eligible,
        r.home_service->Some_0.reason@ == c.home_service.reason@,
        r.home_service->Some_0.no_capacity is None,
        r.home_service->Some_0.slot is Some,
        ({
            let o = r.home_service->Some_0.slot->Some_0;
            &&& exists|i: int|
                0 <= i < c.home_service.slots@.len() && is_visit_from(
                    q,
                    #[trigger] c.home_service.slots@[i],
                    o,
                )
            &&& left_in(capacity, o.slot_id@) > 0
            &&& forall|j: int|
                0 <= j < c.home_service.slots@.len() && left_in(
                    capacity,
                    (#[trigger] c.home_service.slots@[j]).slot_id@,
                ) > 0 ==> {
                    let s = c.home_service.slots@[j];
                    precedes(
                        o.total_cost as int,
                        o.slot_id@,
                        abs(q.origin_grid@[0] - s.grid@[0]) + abs(q.origin_grid@[1] - s.grid@[1])
                            + s.barrier_penalty,
                        s.slot_id@,
                    )
                }
            &&& left_in(next, o.slot_id@) == left_in(capacity, o.slot_id@) - 1
            &&& forall|id: Seq<char>|
                id != o.slot_id@ ==> #[trigger] left_in(next, id) == left_in(capacity, id)
            &&& next.catalog_version == capacity.catalog_version
        }),
{
    lemma_reserved(capacity, next, c, q, at, r);
    let options = home_options_for(c@, q@);
    let h = r.home_service->Some_0;
    let slots = c.home_service.slots@;
    if h.slot is None {
        let i = choose|i: int|
            0 <= i < slots.len() && left_in(capacity, (#[trigger] slots[i]).slot_id@) > 0;
        let k = lemma_slot_option(c, q, i);
        assert(options[k].slot_id == slots[i].slot_id@);
    }
    let o = h.slot->Some_0;
    let i = choose|i: int|
        {
            &&& 0 <= i < options.len()
            &&& o@ == #[trigger] options[i]
            &&& left_in(capacity, options[i].slot_id) > 0
            &&& forall|j: int|
                0 <= j < i ==> left_in(capacity, (#[trigger] options[j]).slot_id) == 0
            &&& next == (CapacityModel {
                remaining: capacity.remaining.insert(
                    options[i].slot_id,
                    (capacity.remaining[options[i].slot_id] - 1) as u32,
                ),
                ..capacity
            })
        };
    let s = lemma_option_slot(c, q, i);
    assert(is_visit_from(q, slots[s], o));
    law_answers_are_ordered(c@, q@, at@);
    assert forall|j: int|
        0 <= j < slots.len() && left_in(capacity, (#[trigger] slots[j]).slot_id@) > 0 implies {
        let s = slots[j];
        precedes(
            o.total_cost as int,
            o.slot_id@,
            abs(q.origin_grid@[0] - s.grid@[0]) + abs(q.origin_grid@[1] - s.grid@[1])
                + s.barrier_penalty,
            s.slot_id@,
        )
    } by {
        let k = lemma_slot_option(c, q, j);
        assert(options[k].slot_id == slots[j].slot_id@);
        assert(i <= k);
        assert(options[i].at_most(options[k]));
        lemma_text_lt_connected(options[i].slot_id, options[k].slot_id);
    }
}

/// The slot of an option.
proof fn lemma_option_slot(c: Catalog, q: RouteRequest, k: int) -> (i: int)
    requires
        is_entitled(c, q),
        0 <= k < home_options_for(c@, q@).len(),
    ensures
        0 <= i < c.home_service.slots@.len(),
        home_options_for(c@, q@)[k] == option_at(q@)(c.home_service.slots@[i]@),
{
    let offers = c@.home_service.slots.map_values(option_at(q@));
    let all = home_options_for(c@, q@);
    assert(all.contains(all[k]));
    crate::order::lemma_sorted_contains(offers, all[k]);
    let i = choose|i: int| 0 <= i < offers.len() && offers[i] == all[k];
    assert(c@.home_service.slots[i] == c.home_service.slots@[i]@);
    i
}

/// The option in a slot.
proof fn lemma_slot_option(c: Catalog, q: RouteRequest, i: int) -> (k: int)
    requires
        is_entitled(c, q),
        0 <= i < c.home_service.slots@.len(),
    ensures
        0 <= k < home_options_for(c@, q@).len(),
        home_options_for(c@, q@)[k] == option_at(q@)(c.home_service.slots@[i]@),
{
    let offers = c@.home_service.slots.map_values(option_at(q@));
    let all = home_options_for(c@, q@);
    assert(c@.home_service.slots[i] == c.home_service.slots@[i]@);
    assert(offers.contains(offers[i]));
    crate::order::lemma_sorted_contains(offers, offers[i]);
    choose|k: int| 0 <= k < all.len() && all[k] == offers[i]
}

/// An applicant who is visited at home is told that there is no appointment once
/// none is left in any slot of the catalog, or where it has no slots; nothing
/// is taken.
pub proof fn law_no_visit_without_a_free_slot(
    capacity: CapacityModel,
    next: CapacityModel,
    c: Catalog,
    q: RouteRequest,
    at: Timestamp,
    r: RouteResponse,
)
    requires
        (next, r@) == responded(capacity, c@, q@, at@, r.snapshot_id@),
        is_entitled(c, q),
        capacity.catalog_version == c.catalog_version@,
        forall|i: int|
            0 <= i < c.home_service.slots@.len() ==> left_in(
                capacity,
                (#[trigger] c.home_service.slots@[i]).slot_id@,
            ) == 0,
    ensures
        next == capacity,
        r.home_service is Some,
        r.home_service->Some_0.eligible,
        r.home_service->Some_0.reason@ == c.home_service.reason@,
        r.home_service->Some_0.slot is None,
        r.home_service->Some_0.no_capacity is Some,
        r.home_service->Some_0.no_capacity->Some_0.code@ == "HOME_SERVICE_NO_CAPACITY"@,
        c.home_service.slots@.len() > 0
            ==> r.home_service->Some_0.no_capacity->Some_0.message@
            == "all home service appointment slots are at capacity"@,
        c.home_service.slots@.len() == 0
            ==> r.home_service->Some_0.no_capacity->Some_0.message@
            == "home service is required but no appointment slots are configured"@,
{
    lemma_reserved(capacity, next, c, q, at, r);
    let options = home_options_for(c@, q@);
    let h = r.home_service->Some_0;
    if h.slot is Some {
        let i = choose|i: int|
            {
                &&& 0 <= i < options.len()
                &&& h.slot->Some_0@ == #[trigger] options[i]
                &&& left_in(capacity, options[i].slot_id) > 0
            };
        let s = lemma_option_slot(c, q, i);
        assert(left_in(capacity, c.home_service.slots@[s].slot_id@) == 0);
    }
    if c.home_service.slots@.len() > 0 {
        let k = lemma_slot_option(c, q, 0);
    }
    if options.len() > 0 {
        let s = lemma_option_slot(c, q, 0);
    }
}

/// A fresh answer holds every point of the catalog once, under the given
/// snapshot id and for the version of the catalog; of home service it speaks if
/// and only if the applicant is visited at home, and no appointment goes
/// otherwise.
pub proof fn law_responses_hold_every_point(
    capacity: CapacityModel,
    next: CapacityModel,
    c: Catalog,
    q: RouteRequest,
    at: Timestamp,
    snapshot_id: Seq<char>,
    r: RouteResponse,
)
    requires
        (next, r@) == responded(capacity, c@, q@, at@, snapshot_id),
    ensures
        holds_offers(c, q, at, r.candidates),
        holds_refusals(c, q, at, r.exclusions),
        r.candidates@.len() + r.exclusions@.len() == c.points@.len(),
        r.snapshot_id@ == snapshot_id,
        r.catalog_version@ == c.catalog_version@,
        r.home_service is Some <==> is_entitled(c, q),
        !is_entitled(c, q) ==> next == capacity,
{
    assert(r@.candidates == candidates_for(c@, q@, at@));
    assert(r@.exclusions == exclusions_for(c@, q@, at@));
    lemma_offers(c, q, at, r.candidates);
    lemma_refusals(c, q, at, r.exclusions);
    lemma_every_point_counts(c, q, at);
    let e = evaluated(c@, q@, at@);
    if is_entitled(c, q) {
        assert(e.notices[0] == "HOME_SERVICE_REQUIRED"@);
    } else {
        assert(e.notices.len() == 0);
    }
}

/// An answer can be given again if and only if the request names its instant
/// and there is no appointment to be had: the applicant is not visited at home,
/// or the catalog has no slots.
pub open spec fn is_lasting(c: Catalog, q: RouteRequest) -> bool {
    &&& q.request_time is Some
    &&& is_entitled(c, q) ==> c.home_service.slots@.len() == 0
}

proof fn lemma_lasting(c: Catalog, q: RouteRequest)
    ensures
        lasting(c@, q@) == is_lasting(c, q),
{
    if is_entitled(c, q) {
        if c.home_service.slots@.len() > 0 {
            let k = lemma_slot_option(c, q, 0);
        }
        if home_options_for(c@, q@).len() > 0 {
            let i = lemma_option_slot(c, q, 0);
        }
    }
}

/// A request whose answer lasts and is remembered is given that answer again,
/// but for the snapshot id, and takes nothing. Every other request is answered
/// afresh: the answer is to be remembered if and only if it lasts, under the
/// version and the request, and it takes the slot that it names.
pub proof fn law_answers_are_given_again(
    before: AppState,
    next: CapacityModel,
    c: Catalog,
    q: RouteRequest,
    canonical: Seq<char>,
    at: Timestamp,
    snapshot_id: Seq<char>,
    a: Answer,
)
    requires
        (next, a@) == answered(before@, c@, q@, canonical, at@, snapshot_id),
    ensures
        ({
            let key = c.catalog_version@ + "::"@ + canonical;
            let again = is_lasting(c, q) && before.query_cache@.contains_key(key);
            &&& a.response.snapshot_id@ == snapshot_id
            &&& again ==> {
                let kept = before.query_cache@[key];
                &&& a.response.catalog_version@ == kept.catalog_version@
                &&& views(a.response.candidates@) == views(kept.candidates@)
                &&& views(a.response.exclusions@) == views(kept.exclusions@)
                &&& a.response@.home_service == kept@.home_service
                &&& a.remember_under is None
                &&& a.taken is None
                &&& next == before.capacity@
            }
            &&& !again ==> {
                let h = a.response.home_service;
                let slot = h->Some_0.slot;
                &&& (next, a.response@) == responded(
                    before.capacity@,
                    c@,
                    q@,
                    at@,
                    snapshot_id,
                )
                &&& a.remember_under is Some <==> is_lasting(c, q)
                &&& is_lasting(c, q) ==> a.remember_under->Some_0@ == key
                &&& a.taken is Some <==> h is Some && slot is Some
                &&& h is Some && slot is Some ==> a.taken->Some_0@ == slot->Some_0.slot_id@
            }
        }),
{
    let key = c.catalog_version@ + "::"@ + canonical;
    lemma_lasting(c, q);
    assert(key_of(c@.catalog_version, canonical) == key);
    assert(before@.query_cache.contains_key(key) == before.query_cache@.contains_key(key));
    if is_lasting(c, q) && before.query_cache@.contains_key(key) {
        assert(before@.query_cache[key] == before.query_cache@[key]@);
        assert(a@.response == a.response@);
        assert(a@.remember_under is None && a@.taken is None);
    } else {
        let (capacity, response) = responded(before@.capacity, c@, q@, at@, snapshot_id);
        assert(a@.response == response);
        assert(a@.taken == appointment(response));
    }
}

/// Remembering an answer keeps it under its key and changes nothing else; an
/// answer that is not to be remembered changes nothing.
pub proof fn law_remembering_adds_one_answer(before: AppState, after: AppState, a: Answer)
    requires
        after@.query_cache == remembered(before@.query_cache, a@),
    ensures
        a.remember_under is Some ==> {
            let key = a.remember_under->Some_0@;
            &&& after.query_cache@.contains_key(key)
            &&& after.query_cache@[key]@ == a.response@
            &&& forall|k: Seq<char>|
                k != key ==> #[trigger] after.query_cache@.contains_key(k)
                    == before.query_cache@.contains_key(k)
            &&& forall|k: Seq<char>|
                k != key && #[trigger] after.query_cache@.contains_key(k)
                    ==> after.query_cache@[k]@ == before.query_cache@[k]@
        },
        a.remember_under is None ==> after@.query_cache == before@.query_cache,
{
    if a.remember_under is Some {
        let key = a.remember_under->Some_0@;
        assert(a@.remember_under == Some(key));
        assert(after@.query_cache.contains_key(key));
        assert(after@.query_cache[key] == after.query_cache@[key]@);
        assert forall|k: Seq<char>| k != key implies #[trigger] after.query_cache@.contains_key(k)
            == before.query_cache@.contains_key(k) by {
            assert(after@.query_cache.contains_key(k) == before@.query_cache.contains_key(k));
        }
        assert forall|k: Seq<char>|
            k != key && #[trigger] after.query_cache@.contains_key(k) implies
            after.query_cache@[k]@ == before.query_cache@[k]@ by {
            assert(after@.query_cache[k] == before@.query_cache[k]);
            assert(before@.query_cache.contains_key(k) == before.query_cache@.contains_key(k));
        }
    } else {
        assert(a@.remember_under is None);
    }
}

/// An answer that is withdrawn gives one appointment back in the slot that it
/// takes, in the version that it is of, and in no other slot.
pub proof fn law_withdrawing_gives_one_back(capacity: CapacityModel, a: Answer)
    ensures
        ({
            let next = withdrawn(capacity, a@);
            &&& next.catalog_version == capacity.catalog_version
            &&& a.taken is None ==> next == capacity
            &&& a.taken is Some && a.response.catalog_version@ != capacity.catalog_version
                ==> next == capacity
            &&& a.taken is Some && a.response.catalog_version@ == capacity.catalog_version
                && capacity.remaining.contains_key(a.taken->Some_0@) && left_in(
                capacity,
                a.taken->Some_0@,
            ) < u32::MAX ==> left_in(next, a.taken->Some_0@) == left_in(
                capacity,
                a.taken->Some_0@,
            ) + 1
            &&& forall|id: Seq<char>|
                a.taken is Some && id != a.taken->Some_0@ ==> #[trigger] left_in(next, id)
                    == left_in(capacity, id)
        }),
{
}

/// Once a catalog of another version is installed, nothing is remembered and
/// every slot has its full capacity; the slots of the former version are gone.
/// Installing a catalog of the same version gives no appointment back.
pub proof fn law_installing_starts_afresh(before: AppState, after: AppState, c: Catalog)
    requires
        after@ == installed(before@, c@),
    ensures
        forall|k: Seq<char>| !#[trigger] after.query_cache@.contains_key(k),
        after.capacity@.catalog_version == c.catalog_version@,
        before.capacity@.catalog_version == c.catalog_version@ ==> after.capacity@
            == before.capacity@,
        before.capacity@.catalog_version != c.catalog_version@ ==> {
            &&& forall|i: int|
                0 <= i < c.home_service.slots@.len() && (forall|j: int|
                    0 <= j < c.home_service.slots@.len() && j != i ==> (
                    #[trigger] c.home_service.slots@[j]).slot_id@
                        != c.home_service.slots@[i].slot_id@) ==> left_in(
                    after.capacity@,
                    (#[trigger] c.home_service.slots@[i]).slot_id@,
                ) == c.home_service.slots@[i].capacity
            &&& forall|id: Seq<char>| #[trigger]
                after.capacity@.remaining.contains_key(id) ==> exists|i: int|
                    0 <= i < c.home_service.slots@.len() && (
                    #[trigger] c.home_service.slots@[i]).slot_id@ == id
        },
{
    assert forall|k: Seq<char>| !#[trigger] after.query_cache@.contains_key(k) by {
        assert(after@.query_cache.contains_key(k) == after.query_cache@.contains_key(k));
    }
    if before.capacity@.catalog_version != c.catalog_version@ {
        let slots = c@.home_service.slots;
        assert(after.capacity@.remaining == slot_table(slots));
        assert forall|i: int|
            0 <= i < c.home_service.slots@.len() && (forall|j: int|
                0 <= j < c.home_service.slots@.len() && j != i ==> (
                #[trigger] c.home_service.slots@[j]).slot_id@
                    != c.home_service.slots@[i].slot_id@) implies left_in(
            after.capacity@,
            (#[trigger] c.home_service.slots@[i]).slot_id@,
        ) == c.home_service.slots@[i].capacity by {
            assert forall|j: int| 0 <= j < slots.len() && j != i implies (
            #[trigger] slots[j]).slot_id != slots[i].slot_id by {
                assert(slots[j] == c.home_service.slots@[j]@);
            }
            assert(slots[i] == c.home_service.slots@[i]@);
            lemma_slot_table(slots, i);
        }
        assert forall|id: Seq<char>| #[trigger]
            after.capacity@.remaining.contains_key(id) implies exists|i: int|
            0 <= i < c.home_service.slots@.len() && (
            #[trigger] c.home_service.slots@[i]).slot_id@ == id by {
            let i = lemma_slot_table_source(slots, id);
            assert(slots[i] == c.home_service.slots@[i]@);
        }
    }
}

proof fn lemma_slot_table(slots: Seq<HomeServiceSlotModel>, i: int)
    requires
        0 <= i < slots.len(),
        forall|j: int|
            0 <= j < slots.len() && j != i ==> (#[trigger] slots[j]).slot_id != slots[i].slot_id,
    ensures
        slot_table(slots).contains_key(slots[i].slot_id),
        slot_table(slots)[slots[i].slot_id] == slots[i].capacity,
    decreases slots.len(),
{
    let front = slots.drop_last();
    if i < front.len() {
        assert(slots[slots.len() - 1].slot_id != slots[i].slot_id);
        assert forall|j: int| 0 <= j < front.len() && j != i implies (
        #[trigger] front[j]).slot_id != front[i].slot_id by {
            assert(front[j] == slots[j]);
        }
        lemma_slot_table(front, i);
    }
}

proof fn lemma_slot_table_source(slots: Seq<HomeServiceSlotModel>, id: Seq<char>) -> (i: int)
    requires
        slot_table(slots).contains_key(id),
    ensures
        0 <= i < slots.len(),
        slots[i].slot_id == id,
    decreases slots.len(),
{
    if slots.last().slot_id == id {
        slots.len() - 1
    } else {
        lemma_slot_table_source(slots.drop_last(), id)
    }
}

/// An appointment is given in the first slot, in the order in which they are
/// asked for, that has one left, and one goes there. A request for another
/// version, one without slots and one for slots that have none left are refused,
/// each with its own message, and change nothing.
pub proof fn law_slots_are_tried_in_order(
    state: CapacityModel,
    version: Seq<char>,
    ids: Seq<Seq<char>>,
)
    ensures
        ({
            let (next, answer) = attempt(state, version, ids);
            &&& state.catalog_version != version ==> next == state && answer == Err::<
                Seq<char>,
                Seq<char>,
            >(
                "capacity state belongs to a different catalog version: expected "@
                    + state.catalog_version + ", current "@ + version,
            )
            &&& state.catalog_version == version && ids.len() == 0 ==> next == state && answer
                == Err::<Seq<char>, Seq<char>>(
                "home service is eligible but no appointment slots are configured"@,
            )
            &&& state.catalog_version == version && ids.len() > 0 && (forall|j: int|
                0 <= j < ids.len() ==> left_in(state, #[trigger] ids[j]) == 0) ==> next == state
                && answer == Err::<Seq<char>, Seq<char>>(
                "all home-service appointment slots are exhausted: "@ + joined(ids, ", "@),
            )
            &&& forall|i: int|
                {
                    &&& state.catalog_version == version
                    &&& 0 <= i < ids.len()
                    &&& left_in(state, #[trigger] ids[i]) > 0
                    &&& forall|j: int| 0 <= j < i ==> left_in(state, ids[j]) == 0
                } ==> {
                    &&& answer == Ok::<Seq<char>, Seq<char>>(ids[i])
                    &&& next.catalog_version == version
                    &&& left_in(next, ids[i]) == left_in(state, ids[i]) - 1
                    &&& forall|id: Seq<char>|
                        id != ids[i] ==> #[trigger] left_in(next, id) == left_in(state, id)
                }
        }),
{
    lemma_first_free(state.remaining, ids, 0);
    assert forall|j: int| 0 <= j < ids.len() implies left_in(state, #[trigger] ids[j])
        == available(state.remaining, ids[j]) by {}
    let (next, answer) = attempt(state, version, ids);
    if state.catalog_version == version {
        assert forall|i: int|
            {
                &&& 0 <= i < ids.len()
                &&& left_in(state, #[trigger] ids[i]) > 0
                &&& forall|j: int| 0 <= j < i ==> left_in(state, ids[j]) == 0
            } implies first_free(state.remaining, ids, 0) == Some(i) by {
            assert(available(state.remaining, ids[i]) > 0);
            let f = first_free(state.remaining, ids, 0);
            assert(f is Some);
            let k = f->Some_0;
            if k < i {
                assert(left_in(state, ids[k]) == 0);
            } else if i < k {
                assert(available(state.remaining, ids[i]) == 0);
            }
        }
        if forall|j: int| 0 <= j < ids.len() ==> left_in(state, #[trigger] ids[j]) == 0 {
            if first_free(state.remaining, ids, 0) is Some {
                let k = first_free(state.remaining, ids, 0)->Some_0;
                assert(left_in(state, ids[k]) == 0);
            }
        }
    }
}

} // verus!
