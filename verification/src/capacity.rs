//! How many home appointments are left, per slot, for one version of the
//! catalog at a time.

use crate::keyed::TextMap;
use crate::models::{Catalog, CatalogModel, HomeServiceSlotModel};
use crate::order::views;
use crate::text::{join, joined, same};
use vstd::prelude::*;
use vstd::string::*;

verus! {

/// The appointments that are left, for one version of the catalog.
pub struct CapacityManager {
    catalog_version: String,
    remaining: TextMap<u32>,
}

pub struct CapacityModel {
    pub catalog_version: Seq<char>,
    pub remaining: Map<Seq<char>, u32>,
}

impl View for CapacityManager {
    type V = CapacityModel;

    closed spec fn view(&self) -> CapacityModel {
        CapacityModel { catalog_version: self.catalog_version@, remaining: self.remaining@ }
    }
}

/// The capacity of every slot; of slots with the same id the last counts.
pub open spec fn slot_table(slots: Seq<HomeServiceSlotModel>) -> Map<Seq<char>, u32>
    decreases slots.len(),
{
    if slots.len() == 0 {
        Map::empty()
    } else {
        slot_table(slots.drop_last()).insert(slots.last().slot_id, slots.last().capacity)
    }
}

/// The state once it has been set to a catalog: full capacity for a version
/// that is new, and no change for the one that it already belongs to.
pub open spec fn reset(state: CapacityModel, c: CatalogModel) -> CapacityModel {
    if state.catalog_version == c.catalog_version {
        state
    } else {
        CapacityModel {
            catalog_version: c.catalog_version,
            remaining: slot_table(c.home_service.slots),
        }
    }
}

/// The appointments that are left in a slot; none if there is no such slot.
pub open spec fn available(remaining: Map<Seq<char>, u32>, slot_id: Seq<char>) -> nat {
    if remaining.contains_key(slot_id) {
        remaining[slot_id] as nat
    } else {
        0
    }
}

/// The first place from `from` on whose slot has an appointment left.
pub open spec fn first_free(
    remaining: Map<Seq<char>, u32>,
    ids: Seq<Seq<char>>,
    from: int,
) -> Option<int>
    decreases ids.len() - from,
{
    if from < 0 || from >= ids.len() {
        None
    } else if available(remaining, ids[from]) > 0 {
        Some(from)
    } else {
        first_free(remaining, ids, from + 1)
    }
}

/// What comes of asking for an appointment in one of the slots, which are
/// tried in the given order: the state after it, and the slot or the refusal.
pub open spec fn attempt(
    state: CapacityModel,
    version: Seq<char>,
    ids: Seq<Seq<char>>,
) -> (CapacityModel, Result<Seq<char>, Seq<char>>) {
    if state.catalog_version != version {
        (
            state,
            Err(
                "capacity state belongs to a different catalog version: expected "@
                    + state.catalog_version + ", current "@ + version,
            ),
        )
    } else {
        match first_free(state.remaining, ids, 0) {
            Some(i) => (
                CapacityModel {
                    catalog_version: version,
                    remaining: state.remaining.insert(
                        ids[i],
                        (state.remaining[ids[i]] - 1) as u32,
                    ),
                },
                Ok(ids[i]),
            ),
            None => (
                state,
                Err(
                    if ids.len() == 0 {
                        "home service is eligible but no appointment slots are configured"@
                    } else {
                        "all home-service appointment slots are exhausted: "@ + joined(ids, ", "@)
                    },
                ),
            ),
        }
    }
}

/// The state once an appointment in a slot has been given back: one more is
/// left, if the state belongs to the version and has such a slot.
pub open spec fn given_back(
    state: CapacityModel,
    version: Seq<char>,
    slot_id: Seq<char>,
) -> CapacityModel {
    if state.catalog_version == version && state.remaining.contains_key(slot_id)
        && state.remaining[slot_id] < u32::MAX {
        CapacityModel {
            catalog_version: version,
            remaining: state.remaining.insert(slot_id, (state.remaining[slot_id] + 1) as u32),
        }
    } else {
        state
    }
}

impl CapacityManager {
    /// No version and no appointments.
    pub fn new() -> (r: Self)
        ensures
            r@.catalog_version.len() == 0,
            r@.remaining == Map::<Seq<char>, u32>::empty(),
    {
        CapacityManager { catalog_version: String::new(), remaining: TextMap::new() }
    }

    /// Sets the state to a catalog; see `reset`.
    pub fn reset_for_catalog(&mut self, catalog: &Catalog)
        ensures
            final(self)@ == reset(old(self)@, catalog@),
    {
        if self.catalog_version == catalog.catalog_version {
            return;
        }
        let ghost slots = catalog@.home_service.slots;
        let mut remaining: TextMap<u32> = TextMap::new();
        let mut i: usize = 0;
        assert(slots.take(0) =~= Seq::empty());
        while i < catalog.home_service.slots.len()
            invariant
                i <= catalog.home_service.slots@.len(),
                slots == catalog@.home_service.slots,
                remaining@ == slot_table(slots.take(i as int)),
            decreases catalog.home_service.slots@.len() - i,
        {
            let slot = &catalog.home_service.slots[i];
            proof {
                let next = slots.take(i + 1);
                assert(slots[i as int] == slot@);
                assert(next.drop_last() =~= slots.take(i as int));
            }
            remaining.insert(slot.slot_id.clone(), slot.capacity);
            i = i + 1;
        }
        assert(slots.take(i as int) =~= slots);
        self.catalog_version = catalog.catalog_version.clone();
        self.remaining = remaining;
    }

    /// Takes an appointment in the first of the slots that has one left; see
    /// `attempt`.
    pub fn try_assign(&mut self, catalog_version: &str, ordered_slot_ids: &[String]) -> (r:
        Result<String, String>)
        ensures
            final(self)@ == attempt(old(self)@, catalog_version@, views(ordered_slot_ids@)).0,
            match (attempt(old(self)@, catalog_version@, views(ordered_slot_ids@)).1, r) {
                (Ok(id), Ok(given)) => given@ == id,
                (Err(message), Err(given)) => given@ == message,
                _ => false,
            },
    {
        if !same(self.catalog_version.as_str(), catalog_version) {
            let mut m =
                "capacity state belongs to a different catalog version: expected ".to_owned();
            m.append(self.catalog_version.as_str());
            m.append(", current ");
            m.append(catalog_version);
            return Err(m);
        }
        let ghost ids = views(ordered_slot_ids@);
        let mut i: usize = 0;
        while i < ordered_slot_ids.len()
            invariant
                i <= ordered_slot_ids@.len(),
                ids == views(ordered_slot_ids@),
                self@ == old(self)@,
                self@.catalog_version == catalog_version@,
                first_free(self@.remaining, ids, 0) == first_free(self@.remaining, ids, i as int),
            decreases ordered_slot_ids@.len() - i,
        {
            let id = &ordered_slot_ids[i];
            assert(ids[i as int] == id@);
            let left: u32 = match self.remaining.get(id.as_str()) {
                Some(n) => *n,
                None => 0,
            };
            if left > 0 {
                self.remaining.insert(id.clone(), left - 1);
                return Ok(id.clone());
            }
            i = i + 1;
        }
        if ordered_slot_ids.len() == 0 {
            Err("home service is eligible but no appointment slots are configured".to_owned())
        } else {
            let mut m = "all home-service appointment slots are exhausted: ".to_owned();
            m.append(join(ordered_slot_ids, ", ").as_str());
            Err(m)
        }
    }

    /// Gives an appointment in a slot back; see `given_back`.
    pub fn give_back(&mut self, catalog_version: &str, slot_id: &str)
        ensures
            final(self)@ == given_back(old(self)@, catalog_version@, slot_id@),
    {
        if !same(self.catalog_version.as_str(), catalog_version) {
            return;
        }
        let left: Option<u32> = match self.remaining.get(slot_id) {
            Some(n) => Some(*n),
            None => None,
        };
        if let Some(n) = left {
            if n < u32::MAX {
                self.remaining.insert(slot_id.to_owned(), n + 1);
            }
        }
    }

    /// The appointments that are left in a slot, if there is such a slot in the
    /// version.
    pub fn remaining(&self, catalog_version: &str, slot_id: &str) -> (r: Option<u32>)
        ensures
            r == (if self@.catalog_version == catalog_version@ && self@.remaining.contains_key(
                slot_id@,
            ) {
                Some(self@.remaining[slot_id@])
            } else {
                None
            }),
    {
        if !same(self.catalog_version.as_str(), catalog_version) {
            return None;
        }
        match self.remaining.get(slot_id) {
            Some(n) => Some(*n),
            None => None,
        }
    }
}

impl Default for CapacityManager {
    fn default() -> (r: Self)
        ensures
            r@.catalog_version.len() == 0,
            r@.remaining == Map::<Seq<char>, u32>::empty(),
    {
        Self::new()
    }
}

/// The appointments that are left in all the slots together.
pub open spec fn total(remaining: Map<Seq<char>, u32>, ids: Seq<Seq<char>>) -> nat
    decreases ids.len(),
{
    if ids.len() == 0 {
        0
    } else {
        total(remaining, ids.drop_last()) + available(remaining, ids.last())
    }
}

/// The state after a series of requests, each with the slots that it tries.
pub open spec fn after(
    state: CapacityModel,
    version: Seq<char>,
    asks: Seq<Seq<Seq<char>>>,
) -> CapacityModel
    decreases asks.len(),
{
    if asks.len() == 0 {
        state
    } else {
        attempt(after(state, version, asks.drop_last()), version, asks.last()).0
    }
}

/// How many of a series of requests are granted.
pub open spec fn granted(
    state: CapacityModel,
    version: Seq<char>,
    asks: Seq<Seq<Seq<char>>>,
) -> nat
    decreases asks.len(),
{
    if asks.len() == 0 {
        0
    } else {
        granted(state, version, asks.drop_last()) + if attempt(
            after(state, version, asks.drop_last()),
            version,
            asks.last(),
        ).1 is Ok {
            1nat
        } else {
            0nat
        }
    }
}

/// The first free place is free, and no place before it is.
pub proof fn lemma_first_free(remaining: Map<Seq<char>, u32>, ids: Seq<Seq<char>>, from: int)
    requires
        0 <= from <= ids.len(),
    ensures
        match first_free(remaining, ids, from) {
            Some(i) => {
                &&& from <= i < ids.len()
                &&& available(remaining, ids[i]) > 0
                &&& forall|j: int|
                    from <= j < i ==> available(remaining, #[trigger] ids[j]) == 0
            },
            None => forall|j: int|
                from <= j < ids.len() ==> available(remaining, #[trigger] ids[j]) == 0,
        },
    decreases ids.len() - from,
{
    if from < ids.len() && available(remaining, ids[from]) == 0 {
        lemma_first_free(remaining, ids, from + 1);
    }
}

proof fn lemma_total_zero(remaining: Map<Seq<char>, u32>, ids: Seq<Seq<char>>)
    ensures
        total(remaining, ids) == 0 <==> forall|j: int|
            0 <= j < ids.len() ==> available(remaining, #[trigger] ids[j]) == 0,
    decreases ids.len(),
{
    if ids.len() > 0 {
        let front = ids.drop_last();
        lemma_total_zero(remaining, front);
        if total(remaining, ids) == 0 {
            assert forall|j: int| 0 <= j < ids.len() implies available(
                remaining,
                #[trigger] ids[j],
            ) == 0 by {
                if j < front.len() {
                    assert(front[j] == ids[j]);
                }
            }
        }
        if forall|j: int|
            0 <= j < ids.len() ==> available(remaining, #[trigger] ids[j]) == 0 {
            assert forall|j: int| 0 <= j < front.len() implies available(
                remaining,
                #[trigger] front[j],
            ) == 0 by {
                assert(front[j] == ids[j]);
            }
            assert(available(remaining, ids[ids.len() - 1]) == 0);
        }
    }
}

/// Taking one appointment out of a slot lowers the total of any list of slots
/// by as often as the slot stands in it.
proof fn lemma_total_taken(remaining: Map<Seq<char>, u32>, ids: Seq<Seq<char>>, id: Seq<char>)
    requires
        available(remaining, id) > 0,
        ids.no_duplicates(),
    ensures
        total(remaining.insert(id, (remaining[id] - 1) as u32), ids) == total(remaining, ids)
            - if ids.contains(id) {
            1int
        } else {
            0int
        },
    decreases ids.len(),
{
    if ids.len() > 0 {
        let front = ids.drop_last();
        lemma_total_taken(remaining, front, id);
        if ids.last() == id {
            if front.contains(id) {
                let j = choose|j: int| 0 <= j < front.len() && front[j] == id;
                assert(ids[j] == ids[ids.len() - 1]);
            }
            assert(ids.contains(id));
        } else {
            if ids.contains(id) {
                let j = choose|j: int| 0 <= j < ids.len() && ids[j] == id;
                assert(front[j] == id);
            }
            if front.contains(id) {
                let j = choose|j: int| 0 <= j < front.len() && front[j] == id;
                assert(ids[j] == id);
            }
        }
    }
}

/// A request for an appointment in the right version is refused if and only if
/// none is left in any of the slots; a refusal changes nothing. Otherwise the
/// first slot in the given order that has an appointment left is taken, and one
/// appointment goes.
pub proof fn law_refused_when_exhausted(state: CapacityModel, ids: Seq<Seq<char>>)
    requires
        ids.no_duplicates(),
    ensures
        ({
            let (next, answer) = attempt(state, state.catalog_version, ids);
            &&& answer is Err <==> total(state.remaining, ids) == 0
            &&& answer is Err ==> next == state
            &&& answer is Ok ==> {
                &&& exists|i: int|
                    {
                        &&& 0 <= i < ids.len()
                        &&& answer->Ok_0 == #[trigger] ids[i]
                        &&& available(state.remaining, ids[i]) > 0
                        &&& forall|j: int|
                            0 <= j < i ==> available(state.remaining, #[trigger] ids[j]) == 0
                    }
                &&& next.catalog_version == state.catalog_version
                &&& total(next.remaining, ids) == total(state.remaining, ids) - 1
            }
        }),
{
    lemma_first_free(state.remaining, ids, 0);
    lemma_total_zero(state.remaining, ids);
    if let Some(i) = first_free(state.remaining, ids, 0) {
        lemma_total_taken(state.remaining, ids, ids[i]);
        assert(ids.contains(ids[i]));
        assert(total(state.remaining, ids) > 0);
    }
}

/// An appointment that is taken and given back leaves the state as it was.
pub proof fn law_giving_back_restores(
    state: CapacityModel,
    version: Seq<char>,
    ids: Seq<Seq<char>>,
)
    ensures
        match attempt(state, version, ids) {
            (next, Ok(slot_id)) => given_back(next, version, slot_id) == state,
            (next, Err(_)) => next == state,
        },
{
    lemma_first_free(state.remaining, ids, 0);
    if state.catalog_version == version {
        if let Some(i) = first_free(state.remaining, ids, 0) {
            let next = attempt(state, version, ids).0;
            assert(given_back(next, version, ids[i]).remaining =~= state.remaining);
        }
    }
}

proof fn lemma_total_remove(remaining: Map<Seq<char>, u32>, ids: Seq<Seq<char>>, j: int)
    requires
        0 <= j < ids.len(),
    ensures
        total(remaining, ids) == total(remaining, ids.remove(j)) + available(remaining, ids[j]),
    decreases ids.len(),
{
    let front = ids.drop_last();
    if j == ids.len() - 1 {
        assert(ids.remove(j) =~= front);
    } else {
        lemma_total_remove(remaining, front, j);
        assert(ids.remove(j).drop_last() =~= front.remove(j));
        assert(ids.remove(j).last() == ids.last());
    }
}

/// The order of the slots does not show in the total.
proof fn lemma_total_permuted(
    remaining: Map<Seq<char>, u32>,
    a: Seq<Seq<char>>,
    b: Seq<Seq<char>>,
)
    requires
        a.to_multiset() == b.to_multiset(),
    ensures
        total(remaining, a) == total(remaining, b),
    decreases a.len(),
{
    broadcast use vstd::seq_lib::group_to_multiset_ensures;

    assert(a.len() == a.to_multiset().len());
    assert(b.len() == b.to_multiset().len());
    if a.len() > 0 {
        let x = a[0];
        assert(a.contains(x));
        assert(b.to_multiset().count(x) > 0);
        let j = choose|j: int| 0 <= j < b.len() && b[j] == x;
        lemma_total_remove(remaining, a, 0);
        lemma_total_remove(remaining, b, j);
        assert(a.remove(0).to_multiset() =~= b.remove(j).to_multiset());
        lemma_total_permuted(remaining, a.remove(0), b.remove(j));
    }
}

/// Of any series of requests, whatever the order in which each tries the slots,
/// exactly as many are granted as there are appointments, if there are that
/// many requests; the rest are refused.
pub proof fn law_exactly_the_capacity_is_granted(
    state: CapacityModel,
    ids: Seq<Seq<char>>,
    asks: Seq<Seq<Seq<char>>>,
)
    requires
        ids.no_duplicates(),
        forall|k: int|
            0 <= k < asks.len() ==> (#[trigger] asks[k]).to_multiset() == ids.to_multiset(),
    ensures
        granted(state, state.catalog_version, asks) == if asks.len() <= total(
            state.remaining,
            ids,
        ) {
            asks.len()
        } else {
            total(state.remaining, ids)
        },
        after(state, state.catalog_version, asks).catalog_version == state.catalog_version,
        total(after(state, state.catalog_version, asks).remaining, ids) == total(
            state.remaining,
            ids,
        ) - granted(state, state.catalog_version, asks),
    decreases asks.len(),
{
    if asks.len() > 0 {
        let front = asks.drop_last();
        assert forall|k: int| 0 <= k < front.len() implies (#[trigger] front[k]).to_multiset()
            == ids.to_multiset() by {
            assert(front[k] == asks[k]);
        }
        law_exactly_the_capacity_is_granted(state, ids, front);
        let now = after(state, state.catalog_version, front);
        let last = asks[asks.len() - 1];
        assert(last.to_multiset() == ids.to_multiset());
        ids.lemma_multiset_has_no_duplicates();
        last.lemma_multiset_has_no_duplicates_conv();
        law_refused_when_exhausted(now, last);
        lemma_total_permuted(now.remaining, last, ids);
        lemma_total_permuted(attempt(now, state.catalog_version, last).0.remaining, last, ids);
    }
}

/// How many of a series of requests are granted in one slot.
pub open spec fn granted_in(
    state: CapacityModel,
    version: Seq<char>,
    asks: Seq<Seq<Seq<char>>>,
    slot_id: Seq<char>,
) -> nat
    decreases asks.len(),
{
    if asks.len() == 0 {
        0
    } else {
        granted_in(state, version, asks.drop_last(), slot_id) + if attempt(
            after(state, version, asks.drop_last()),
            version,
            asks.last(),
        ).1 == Ok::<Seq<char>, Seq<char>>(slot_id) {
            1nat
        } else {
            0nat
        }
    }
}

/// No slot gives out more than it has: after any series of requests, what is
/// left in a slot and what was granted in it are together what it had.
pub proof fn law_every_slot_keeps_its_count(
    state: CapacityModel,
    version: Seq<char>,
    asks: Seq<Seq<Seq<char>>>,
    slot_id: Seq<char>,
)
    ensures
        available(after(state, version, asks).remaining, slot_id) + granted_in(
            state,
            version,
            asks,
            slot_id,
        ) == available(state.remaining, slot_id),
    decreases asks.len(),
{
    if asks.len() > 0 {
        let front = asks.drop_last();
        law_every_slot_keeps_its_count(state, version, front, slot_id);
        lemma_first_free(after(state, version, front).remaining, asks.last(), 0);
    }
}

/// Capacity is kept apart per version: setting the state to another version
/// gives that version's full capacity, whatever was taken before; setting it to
/// the version that it belongs to gives nothing back; and a request for another
/// version takes nothing.
pub proof fn law_versions_are_isolated(
    a: CapacityModel,
    b: CapacityModel,
    c: CatalogModel,
    version: Seq<char>,
    ids: Seq<Seq<char>>,
)
    ensures
        a.catalog_version != c.catalog_version && b.catalog_version != c.catalog_version ==> reset(
            a,
            c,
        ) == reset(b, c),
        reset(reset(a, c), c) == reset(a, c),
        reset(a, c).catalog_version == c.catalog_version,
        a.catalog_version != version ==> attempt(a, version, ids).0 == a && attempt(
            a,
            version,
            ids,
        ).1 is Err,
{
}

/// The table of slots with distinct ids gives every slot its capacity.
pub proof fn law_slots_start_at_capacity(slots: Seq<HomeServiceSlotModel>, i: int)
    requires
        0 <= i < slots.len(),
        forall|j: int, k: int|
            0 <= j < slots.len() && 0 <= k < slots.len() && (#[trigger] slots[j]).slot_id == (
            #[trigger] slots[k]).slot_id ==> j == k,
    ensures
        available(slot_table(slots), slots[i].slot_id) == slots[i].capacity,
    decreases slots.len(),
{
    let front = slots.drop_last();
    if i < front.len() {
        assert forall|j: int, k: int|
            0 <= j < front.len() && 0 <= k < front.len() && (#[trigger] front[j]).slot_id == (
            #[trigger] front[k]).slot_id implies j == k by {
            assert(slots[j].slot_id == slots[k].slot_id);
        }
        law_slots_start_at_capacity(front, i);
        assert(front[i] == slots[i]);
        assert(slots[i].slot_id != slots[slots.len() - 1].slot_id);
    }
}

} // verus!
