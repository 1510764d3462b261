//! What holds of the answers of the service across requests.

use crate::api::{
    answered, installed, key_of, lasting, remembered, responded, slot_ids, withdrawn,
    AppStateModel,
};
use crate::capacity::{
    attempt, first_free, law_giving_back_restores, law_refused_when_exhausted, lemma_first_free,
    total, CapacityModel,
};
use crate::models::{
    CatalogModel, HomeOptionModel, HomeServiceSlotModel, RouteRequestModel, RouteResponseModel,
};
use crate::order::{lemma_sorted, lemma_sorted_contains, sorted};
use crate::router::{
    asked_at, at_capacity, eligible, evaluated, home_options_for, option_at, option_for,
};
use crate::router_laws::{distinct_slots, law_home_visits_exclude_points};
use vstd::prelude::*;

verus! {

/// `part` stands in `s` at the place `i`.
pub open spec fn stands_at(s: Seq<char>, part: Seq<char>, i: int) -> bool {
    0 <= i && i + part.len() <= s.len() && s.subrange(i, i + part.len()) == part
}

/// A version that cannot be mistaken for another one with a request behind it.
pub open spec fn plain_version(v: Seq<char>) -> bool {
    forall|i: int| !#[trigger] stands_at(v, "::{"@, i)
}

/// A canonical text is that of a JSON object.
pub open spec fn is_object(canonical: Seq<char>) -> bool {
    canonical.len() > 0 && canonical[0] == '{'
}

proof fn lemma_shorter_version(v: Seq<char>, a: Seq<char>, w: Seq<char>, b: Seq<char>)
    requires
        is_object(a),
        plain_version(w),
        key_of(v, a) == key_of(w, b),
    ensures
        v.len() >= w.len(),
{
    if v.len() < w.len() {
        reveal_strlit("::");
        reveal_strlit("::{");
        let k = key_of(v, a);
        let n = v.len() as int;
        assert(k[n] == ':' && k[n + 1] == ':' && k[n + 2] == '{');
        assert(k[n] == w[n]);
        let m = w.len() as int;
        assert(key_of(w, b)[m] == ':' && key_of(w, b)[m + 1] == ':');
        if n + 1 == m {
            assert(key_of(w, b)[m + 1] == ':');
        } else if n + 2 == m {
            assert(key_of(w, b)[m] == ':');
        } else {
            assert(k[n + 1] == w[n + 1] && k[n + 2] == w[n + 2]);
            assert(w.subrange(n, n + 3) =~= "::{"@);
            assert(stands_at(w, "::{"@, n));
        }
    }
}

/// Different requests, and requests for different versions, have different
/// keys.
pub proof fn law_keys_tell_requests_apart(
    v: Seq<char>,
    a: Seq<char>,
    w: Seq<char>,
    b: Seq<char>,
)
    requires
        is_object(a),
        is_object(b),
        plain_version(v),
        plain_version(w),
        key_of(v, a) == key_of(w, b),
    ensures
        v == w,
        a == b,
{
    lemma_shorter_version(v, a, w, b);
    lemma_shorter_version(w, b, v, a);
    reveal_strlit("::");
    let k = key_of(v, a);
    let n = v.len() as int;
    assert(v =~= k.subrange(0, n));
    assert(w =~= k.subrange(0, n));
    assert(a =~= k.subrange(n + 2, k.len() as int));
    assert(b =~= k.subrange(n + 2, k.len() as int));
}

/// What is remembered under a key belongs to the version in the key.
pub open spec fn coherent(cache: Map<Seq<char>, RouteResponseModel>) -> bool {
    forall|k: Seq<char>| #[trigger]
        cache.contains_key(k) ==> plain_version(cache[k].catalog_version) && exists|a: Seq<char>|
            is_object(a) && k == #[trigger] key_of(cache[k].catalog_version, a)
}

/// A request is answered from the version that it is pinned to, whatever is
/// remembered of other versions, and remembering the answer keeps it so.
pub proof fn law_answers_stay_on_the_pinned_version(
    state: AppStateModel,
    c: CatalogModel,
    r: RouteRequestModel,
    canonical: Seq<char>,
    at: (int, int),
    snapshot_id: Seq<char>,
)
    requires
        coherent(state.query_cache),
        plain_version(c.catalog_version),
        is_object(canonical),
    ensures
        answered(state, c, r, canonical, at, snapshot_id).1.response.catalog_version
            == c.catalog_version,
        coherent(
            remembered(
                state.query_cache,
                answered(state, c, r, canonical, at, snapshot_id).1,
            ),
        ),
{
    let key = key_of(c.catalog_version, canonical);
    if state.query_cache.contains_key(key) {
        let kept = state.query_cache[key];
        let a = choose|a: Seq<char>|
            is_object(a) && key == #[trigger] key_of(kept.catalog_version, a);
        law_keys_tell_requests_apart(c.catalog_version, canonical, kept.catalog_version, a);
    }
    let given = answered(state, c, r, canonical, at, snapshot_id).1;
    let next = remembered(state.query_cache, given);
    assert forall|k: Seq<char>| #[trigger] next.contains_key(k) implies plain_version(
        next[k].catalog_version,
    ) && exists|a: Seq<char>|
        is_object(a) && k == #[trigger] key_of(next[k].catalog_version, a) by {
        if given.remember_under is Some && k == given.remember_under->Some_0 {
            assert(k == key_of(next[k].catalog_version, canonical));
        } else {
            assert(state.query_cache.contains_key(k));
        }
    }
}

/// After an import nothing that was remembered before is given out: every
/// request is answered afresh.
pub proof fn law_imports_forget_answers(
    state: AppStateModel,
    d: CatalogModel,
    c: CatalogModel,
    r: RouteRequestModel,
    canonical: Seq<char>,
    at: (int, int),
    snapshot_id: Seq<char>,
)
    ensures
        coherent(installed(state, d).query_cache),
        answered(installed(state, d), c, r, canonical, at, snapshot_id).1.response == responded(
            installed(state, d).capacity,
            c,
            r,
            at,
            snapshot_id,
        ).1,
{
}

/// A remembered answer is the answer that would be given anew, but for the
/// snapshot id: once a request has been answered afresh and the answer
/// remembered, asking again gives the same answer, and takes no appointment.
pub proof fn law_remembered_answers_are_fresh(
    state: AppStateModel,
    c: CatalogModel,
    r: RouteRequestModel,
    canonical: Seq<char>,
    at: (int, int),
    first_id: Seq<char>,
    second_id: Seq<char>,
)
    requires
        answered(state, c, r, canonical, at, first_id).1.remember_under is Some,
    ensures
        ({
            let (capacity, first) = answered(state, c, r, canonical, at, first_id);
            let next = AppStateModel {
                query_cache: remembered(state.query_cache, first),
                capacity,
            };
            let (last, second) = answered(next, c, r, canonical, at, second_id);
            &&& second.response == responded(capacity, c, r, at, second_id).1
            &&& second.response == (RouteResponseModel {
                snapshot_id: second_id,
                ..first.response
            })
            &&& second.remember_under is None
            &&& last == state.capacity
        }),
{
}

/// Asking twice gives one answer: two calls in a row with a request that names
/// its instant and has no appointment open to it agree in everything but the
/// snapshot id, whether the first answer was remembered or not and whether it
/// came from memory or not. Each response bears the id of its own call, and
/// that of the version it is pinned to; no appointment goes.
pub proof fn law_repeated_requests_agree(
    state: AppStateModel,
    c: CatalogModel,
    r: RouteRequestModel,
    canonical: Seq<char>,
    first_id: Seq<char>,
    second_id: Seq<char>,
    stored: bool,
)
    requires
        lasting(c, r),
        coherent(state.query_cache),
        plain_version(c.catalog_version),
        is_object(canonical),
    ensures
        ({
            let at = r.request_time->Some_0;
            let (between, first) = answered(state, c, r, canonical, at, first_id);
            let next = AppStateModel {
                query_cache: if stored {
                    remembered(state.query_cache, first)
                } else {
                    state.query_cache
                },
                capacity: between,
            };
            let (last, second) = answered(next, c, r, canonical, at, second_id);
            &&& second.response == (RouteResponseModel {
                snapshot_id: second_id,
                ..first.response
            })
            &&& first.response.snapshot_id == first_id
            &&& second.response.snapshot_id == second_id
            &&& first.response.catalog_version == c.catalog_version
            &&& second.response.catalog_version == c.catalog_version
            &&& first.taken is None && second.taken is None
            &&& between == state.capacity && last == state.capacity
        }),
{
    let at = r.request_time->Some_0;
    law_answers_stay_on_the_pinned_version(state, c, r, canonical, at, first_id);
    lemma_lasting_answers_ignore_capacity(state.capacity, state.capacity, c, r, at, first_id);
}

/// A request that names no instant is answered for the instant at which it is
/// asked, whatever is remembered, and its answer is not remembered.
pub proof fn law_requests_without_a_time_are_answered_now(
    state: AppStateModel,
    c: CatalogModel,
    r: RouteRequestModel,
    canonical: Seq<char>,
    at: (int, int),
    snapshot_id: Seq<char>,
)
    requires
        r.request_time is None,
    ensures
        ({
            let (capacity, given) = answered(state, c, r, canonical, at, snapshot_id);
            &&& (capacity, given.response) == responded(state.capacity, c, r, at, snapshot_id)
            &&& given.remember_under is None
        }),
{
}

/// Whatever is remembered of the requests to a catalog that name their instant
/// is what they are answered afresh; `canonical` gives their canonical texts.
pub open spec fn faithful(
    cache: Map<Seq<char>, RouteResponseModel>,
    c: CatalogModel,
    canonical: spec_fn(RouteRequestModel) -> Seq<char>,
) -> bool {
    forall|r: RouteRequestModel|
        {
            let key = key_of(c.catalog_version, #[trigger] canonical(r));
            lasting(c, r) && cache.contains_key(key) ==> forall|capacity: CapacityModel|
                cache[key] == (#[trigger] responded(
                    capacity,
                    c,
                    r,
                    r.request_time->Some_0,
                    cache[key].snapshot_id,
                )).1
        }
}

/// Where no appointment is open to the applicant, the answer does not depend on
/// the capacity, nor does it change it.
proof fn lemma_lasting_answers_ignore_capacity(
    a: CapacityModel,
    b: CapacityModel,
    c: CatalogModel,
    r: RouteRequestModel,
    at: (int, int),
    snapshot_id: Seq<char>,
)
    requires
        home_options_for(c, r).len() == 0,
    ensures
        responded(a, c, r, at, snapshot_id).1 == responded(b, c, r, at, snapshot_id).1,
        responded(a, c, r, at, snapshot_id).0 == a,
{
}

/// Remembering never shows: every answer, from memory or not, is the one that
/// the request is given afresh at the instant that it is about. Remembering the
/// answer keeps it so for every catalog of another version, as for this one.
pub proof fn law_remembering_does_not_show(
    state: AppStateModel,
    c: CatalogModel,
    d: CatalogModel,
    r: RouteRequestModel,
    canonical: spec_fn(RouteRequestModel) -> Seq<char>,
    at: (int, int),
    snapshot_id: Seq<char>,
)
    requires
        faithful(state.query_cache, c, canonical),
        faithful(state.query_cache, d, canonical),
        d == c || d.catalog_version != c.catalog_version,
        plain_version(c.catalog_version),
        plain_version(d.catalog_version),
        forall|q: RouteRequestModel| is_object(#[trigger] canonical(q)),
        forall|p: RouteRequestModel, q: RouteRequestModel| #[trigger]
            canonical(p) == #[trigger] canonical(q) ==> p == q,
        asked_at(r, at),
    ensures
        ({
            let (capacity, given) = answered(state, c, r, canonical(r), at, snapshot_id);
            &&& (capacity, given.response) == responded(state.capacity, c, r, at, snapshot_id)
            &&& faithful(remembered(state.query_cache, given), c, canonical)
            &&& faithful(remembered(state.query_cache, given), d, canonical)
        }),
{
    let (capacity, given) = answered(state, c, r, canonical(r), at, snapshot_id);
    let key = key_of(c.catalog_version, canonical(r));
    if lasting(c, r) && state.query_cache.contains_key(key) {
        let kept = state.query_cache[key];
        let fresh = responded(state.capacity, c, r, at, kept.snapshot_id);
        assert(kept == fresh.1);
        lemma_lasting_answers_ignore_capacity(
            state.capacity,
            state.capacity,
            c,
            r,
            at,
            snapshot_id,
        );
    }
    lemma_remembered_stays_faithful(state, c, c, r, canonical, at, snapshot_id);
    lemma_remembered_stays_faithful(state, c, d, r, canonical, at, snapshot_id);
}

proof fn lemma_remembered_stays_faithful(
    state: AppStateModel,
    c: CatalogModel,
    d: CatalogModel,
    r: RouteRequestModel,
    canonical: spec_fn(RouteRequestModel) -> Seq<char>,
    at: (int, int),
    snapshot_id: Seq<char>,
)
    requires
        faithful(state.query_cache, d, canonical),
        d == c || d.catalog_version != c.catalog_version,
        plain_version(c.catalog_version),
        plain_version(d.catalog_version),
        forall|q: RouteRequestModel| is_object(#[trigger] canonical(q)),
        forall|p: RouteRequestModel, q: RouteRequestModel| #[trigger]
            canonical(p) == #[trigger] canonical(q) ==> p == q,
        asked_at(r, at),
    ensures
        faithful(
            remembered(
                state.query_cache,
                answered(state, c, r, canonical(r), at, snapshot_id).1,
            ),
            d,
            canonical,
        ),
{
    let given = answered(state, c, r, canonical(r), at, snapshot_id).1;
    let next = remembered(state.query_cache, given);
    assert forall|q: RouteRequestModel|
        {
            let key = key_of(d.catalog_version, #[trigger] canonical(q));
            lasting(d, q) && next.contains_key(key) ==> forall|capacity: CapacityModel|
                next[key] == (#[trigger] responded(
                    capacity,
                    d,
                    q,
                    q.request_time->Some_0,
                    next[key].snapshot_id,
                )).1
        } by {
        let key = key_of(d.catalog_version, canonical(q));
        if lasting(d, q) && next.contains_key(key) {
            if given.remember_under == Some(key) {
                law_keys_tell_requests_apart(
                    d.catalog_version,
                    canonical(q),
                    c.catalog_version,
                    canonical(r),
                );
                assert(q == r && d == c);
                assert forall|capacity: CapacityModel|
                    next[key] == (#[trigger] responded(
                        capacity,
                        d,
                        q,
                        q.request_time->Some_0,
                        next[key].snapshot_id,
                    )).1 by {
                    lemma_lasting_answers_ignore_capacity(
                        state.capacity,
                        capacity,
                        c,
                        r,
                        at,
                        snapshot_id,
                    );
                }
            } else {
                assert(state.query_cache.contains_key(key));
                assert(next[key] == state.query_cache[key]);
            }
        }
    }
}

/// An answer that is withdrawn leaves the capacity as it was before the request.
pub proof fn law_withdrawn_answers_take_nothing(
    state: AppStateModel,
    c: CatalogModel,
    r: RouteRequestModel,
    canonical: Seq<char>,
    at: (int, int),
    snapshot_id: Seq<char>,
)
    ensures
        ({
            let (capacity, given) = answered(state, c, r, canonical, at, snapshot_id);
            withdrawn(capacity, given) == state.capacity
        }),
{
    let options = home_options_for(c, r);
    let ids = slot_ids(options);
    law_giving_back_restores(state.capacity, c.catalog_version, ids);
    let answer = attempt(state.capacity, c.catalog_version, ids).1;
    if options.len() > 0 && answer is Ok {
        lemma_first_free(state.capacity.remaining, ids, 0);
        let i = first_free(state.capacity.remaining, ids, 0)->Some_0;
        assert(options[i].slot_id == answer->Ok_0);
        lemma_option_for(options, answer->Ok_0, 0);
    }
}

proof fn lemma_option_for(options: Seq<HomeOptionModel>, slot_id: Seq<char>, from: int)
    requires
        0 <= from <= options.len(),
        exists|i: int| from <= i < options.len() && (#[trigger] options[i]).slot_id == slot_id,
    ensures
        option_for(options, slot_id, from) is Some,
        option_for(options, slot_id, from)->Some_0.slot_id == slot_id,
    decreases options.len() - from,
{
    if options[from].slot_id != slot_id {
        lemma_option_for(options, slot_id, from + 1);
    }
}

proof fn lemma_options_have_distinct_slots(
    slots: Seq<HomeServiceSlotModel>,
    r: RouteRequestModel,
)
    requires
        distinct_slots(slots),
    ensures
        slot_ids(sorted(slots.map_values(option_at(r)))).no_duplicates(),
{
    broadcast use vstd::seq_lib::group_to_multiset_ensures;

    let offers = slots.map_values(option_at(r));
    let s = sorted(offers);
    lemma_sorted(offers);
    assert(offers.no_duplicates()) by {
        assert forall|i: int, j: int|
            0 <= i < offers.len() && 0 <= j < offers.len() && i != j implies offers[i]
            != offers[j] by {
            assert(slots[i].slot_id != slots[j].slot_id);
        }
    }
    offers.lemma_multiset_has_no_duplicates();
    s.lemma_multiset_has_no_duplicates_conv();
    let ids = slot_ids(s);
    assert forall|i: int, j: int|
        0 <= i < ids.len() && 0 <= j < ids.len() && i != j implies ids[i] != ids[j] by {
        if ids[i] == ids[j] {
            assert(s.contains(s[i]));
            assert(s.contains(s[j]));
            lemma_sorted_contains(offers, s[i]);
            lemma_sorted_contains(offers, s[j]);
            let p = choose|p: int| 0 <= p < offers.len() && offers[p] == s[i];
            let q = choose|q: int| 0 <= q < offers.len() && offers[q] == s[j];
            assert(slots[p].slot_id == slots[q].slot_id);
            assert(s[i] == s[j]);
        }
    }
}

/// An applicant who is to be visited at home is never sent to a point instead.
/// The answer says that home service is due, and either which slot is theirs,
/// which is one of the catalog's, or why there is none: a slot if and only if
/// an appointment is left, which is then taken.
pub proof fn law_home_visits_are_reserved_while_there_are_appointments(
    capacity: CapacityModel,
    c: CatalogModel,
    r: RouteRequestModel,
    at: (int, int),
    snapshot_id: Seq<char>,
)
    requires
        eligible(c, r),
        capacity.catalog_version == c.catalog_version,
        distinct_slots(c.home_service.slots),
    ensures
        ({
            let (next, given) = responded(capacity, c, r, at, snapshot_id);
            let ids = slot_ids(home_options_for(c, r));
            &&& given.candidates.len() == 0
            &&& given.exclusions.len() == c.points.len()
            &&& given.home_service is Some
            &&& given.home_service->Some_0.eligible
            &&& given.home_service->Some_0.reason == c.home_service.reason
            &&& given.home_service->Some_0.slot is Some <==> total(capacity.remaining, ids) > 0
            &&& given.home_service->Some_0.no_capacity is Some <==> total(
                capacity.remaining,
                ids,
            ) == 0
            &&& given.home_service->Some_0.no_capacity is Some
                ==> given.home_service->Some_0.no_capacity->Some_0.code
                == "HOME_SERVICE_NO_CAPACITY"@ && next == capacity
            &&& given.home_service->Some_0.no_capacity is Some && ids.len() > 0
                ==> given.home_service->Some_0.no_capacity->Some_0.message == at_capacity()
            &&& given.home_service->Some_0.slot is Some ==> {
                &&& home_options_for(c, r).contains(given.home_service->Some_0.slot->Some_0)
                &&& total(next.remaining, ids) == total(capacity.remaining, ids) - 1
            }
        }),
{
    law_home_visits_exclude_points(c, r, at);
    let options = home_options_for(c, r);
    let ids = slot_ids(options);
    lemma_options_have_distinct_slots(c.home_service.slots, r);
    law_refused_when_exhausted(capacity, ids);
    let e = evaluated(c, r, at);
    assert(e.notices[0] == "HOME_SERVICE_REQUIRED"@);
    if options.len() > 0 {
        let answer = attempt(capacity, c.catalog_version, ids).1;
        if answer is Ok {
            let i = choose|i: int| 0 <= i < ids.len() && answer->Ok_0 == #[trigger] ids[i];
            assert(options[i].slot_id == answer->Ok_0);
            lemma_option_for(options, answer->Ok_0, 0);
            lemma_option_for_source(options, answer->Ok_0, 0);
        }
    } else {
        assert(e.home_options.len() == 0);
    }
}

proof fn lemma_option_for_source(options: Seq<HomeOptionModel>, slot_id: Seq<char>, from: int)
    requires
        0 <= from <= options.len(),
        option_for(options, slot_id, from) is Some,
    ensures
        options.contains(option_for(options, slot_id, from)->Some_0),
    decreases options.len() - from,
{
    if options[from].slot_id != slot_id {
        lemma_option_for_source(options, slot_id, from + 1);
    }
}

} // verus!
