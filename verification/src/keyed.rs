//! Ordered maps and sets with text keys.
//!
//! Both keep their entries strictly ascending by key, so that walking one
//! always goes in the same order, whatever order the entries came in.

use crate::order::{lemma_sorted, lemma_sorted_contains, sorted, views, Order};
use crate::text::{
    lemma_text_lt_asymmetric, lemma_text_lt_connected, lemma_text_lt_irreflexive,
    lemma_text_lt_transitive, relate, text_lt, Relation,
};
use vstd::prelude::*;

verus! {

/// Every text stands before all that follow it.
pub open spec fn ascending(s: Seq<Seq<char>>) -> bool {
    forall|i: int, j: int| 0 <= i < j < s.len() ==> text_lt(#[trigger] s[i], #[trigger] s[j])
}

/// The elements of a finite set of texts in ascending order.
pub open spec fn ascending_list(s: Set<Seq<char>>) -> Seq<Seq<char>> {
    choose|q: Seq<Seq<char>>| ascending(q) && q.to_set() == s
}

/// There is one ascending list of the elements of a set.
pub proof fn lemma_ascending_unique(a: Seq<Seq<char>>, b: Seq<Seq<char>>)
    requires
        ascending(a),
        ascending(b),
        a.to_set() == b.to_set(),
    ensures
        a == b,
    decreases a.len(),
{
    if a.len() == 0 {
        if b.len() > 0 {
            assert(b.to_set().contains(b[0]));
            assert(a.contains(b[0]));
        }
        assert(a =~= b);
    } else {
        assert(a.to_set().contains(a[0]));
        assert(b.contains(a[0]));
        let x = a.last();
        let y = b.last();
        assert(a.to_set().contains(x));
        assert(b.to_set().contains(y));
        assert(b.contains(x));
        assert(a.contains(y));
        let i = choose|i: int| 0 <= i < a.len() && a[i] == y;
        let j = choose|j: int| 0 <= j < b.len() && b[j] == x;
        if x != y {
            assert(text_lt(a[i], a[a.len() - 1]));
            assert(text_lt(b[j], b[b.len() - 1]));
            lemma_text_lt_asymmetric(x, y);
        }
        let a1 = a.drop_last();
        let b1 = b.drop_last();
        assert forall|t: Seq<char>| a1.to_set().contains(t) == b1.to_set().contains(t) by {
            if a1.contains(t) {
                let k = choose|k: int| 0 <= k < a1.len() && a1[k] == t;
                assert(text_lt(a[k], a[a.len() - 1]));
                lemma_text_lt_irreflexive(x);
                assert(a.to_set().contains(a[k]));
                assert(b.contains(t));
                let m = choose|m: int| 0 <= m < b.len() && b[m] == t;
                assert(b1[m] == t);
            }
            if b1.contains(t) {
                let k = choose|k: int| 0 <= k < b1.len() && b1[k] == t;
                assert(text_lt(b[k], b[b.len() - 1]));
                lemma_text_lt_irreflexive(x);
                assert(b.to_set().contains(b[k]));
                assert(a.contains(t));
                let m = choose|m: int| 0 <= m < a.len() && a[m] == t;
                assert(a1[m] == t);
            }
        }
        assert(a1.to_set() =~= b1.to_set());
        lemma_ascending_unique(a1, b1);
        assert(a =~= a1.push(x));
        assert(b =~= b1.push(x));
    }
}

/// An ascending list is the ascending list of its elements.
pub proof fn lemma_ascending_list(q: Seq<Seq<char>>)
    requires
        ascending(q),
    ensures
        ascending_list(q.to_set()) == q,
{
    let p = ascending_list(q.to_set());
    assert(ascending(q) && q.to_set() == q.to_set());
    lemma_ascending_unique(p, q);
}

/// Every finite set of texts has an ascending list.
pub proof fn lemma_finite_set_is_listed(s: Set<Seq<char>>)
    requires
        s.finite(),
    ensures
        ascending(ascending_list(s)),
        ascending_list(s).to_set() == s,
        forall|a: Seq<char>| #[trigger] ascending_list(s).contains(a) == s.contains(a),
    decreases s.len(),
{
    broadcast use vstd::seq_lib::group_to_multiset_ensures;

    let q = if s.len() == 0 {
        let q = Seq::<Seq<char>>::empty();
        assert(q.to_set() =~= s);
        q
    } else {
        let a = s.choose();
        let rest = s.remove(a);
        lemma_finite_set_is_listed(rest);
        let front = ascending_list(rest);
        let list = front.push(a);
        let q = sorted(list);
        lemma_sorted(list);
        assert(!front.contains(a));
        assert(list.no_duplicates()) by {
            assert forall|i: int, j: int| 0 <= i < j < list.len() implies list[i] != list[j] by {
                if j < front.len() {
                    assert(text_lt(front[i], front[j]));
                    lemma_text_lt_irreflexive(front[i]);
                } else {
                    assert(front.contains(front[i]));
                }
            }
        }
        list.lemma_multiset_has_no_duplicates();
        q.lemma_multiset_has_no_duplicates_conv();
        assert forall|i: int, j: int| 0 <= i < j < q.len() implies text_lt(
            #[trigger] q[i],
            #[trigger] q[j],
        ) by {
            assert(q[i].at_most(q[j]));
            lemma_text_lt_connected(q[i], q[j]);
        }
        assert forall|t: Seq<char>| q.to_set().contains(t) == s.contains(t) by {
            lemma_sorted_contains(list, t);
            assert(q.to_set().contains(t) == q.contains(t));
            if list.contains(t) {
                let i = choose|i: int| 0 <= i < list.len() && list[i] == t;
                if i < front.len() {
                    assert(front.contains(front[i]));
                }
            }
            if s.contains(t) {
                if t != a {
                    assert(front.contains(t));
                    let i = choose|i: int| 0 <= i < front.len() && front[i] == t;
                    assert(list[i] == t);
                } else {
                    assert(list[front.len() as int] == t);
                }
            }
        }
        assert(q.to_set() =~= s);
        q
    };
    assert(ascending(q) && q.to_set() == s);
    let p = ascending_list(s);
    assert forall|a: Seq<char>| #[trigger] p.contains(a) == s.contains(a) by {
        assert(p.to_set().contains(a) == p.contains(a));
    }
}

/// The texts in a map.
pub open spec fn text_views(m: Map<Seq<char>, String>) -> Map<Seq<char>, Seq<char>> {
    m.map_values(|s: String| s@)
}

/// A map from texts to values, walked in ascending order of the keys.
#[derive(Debug, PartialEq, Eq)]
pub struct TextMap<V> {
    entries: Vec<(String, V)>,
}

spec fn keys_of<V>(entries: Seq<(String, V)>) -> Seq<Seq<char>> {
    Seq::new(entries.len(), |i: int| entries[i].0@)
}

spec fn map_of<V>(entries: Seq<(String, V)>) -> Map<Seq<char>, V> {
    Map::new(
        |k: Seq<char>| keys_of(entries).contains(k),
        |k: Seq<char>| entries[keys_of(entries).index_of(k)].1,
    )
}

proof fn lemma_map_of<V>(entries: Seq<(String, V)>, i: int)
    requires
        ascending(keys_of(entries)),
        0 <= i < entries.len(),
    ensures
        map_of(entries).contains_key(entries[i].0@),
        map_of(entries)[entries[i].0@] == entries[i].1,
{
    let keys = keys_of(entries);
    let k = entries[i].0@;
    assert(keys[i] == k);
    let j = keys.index_of(k);
    assert(0 <= j < keys.len() && keys[j] == k);
    if j < i {
        assert(text_lt(keys[j], keys[i]));
    }
    if i < j {
        assert(text_lt(keys[i], keys[j]));
    }
    lemma_text_lt_irreflexive(k);
}

impl<V> View for TextMap<V> {
    type V = Map<Seq<char>, V>;

    closed spec fn view(&self) -> Map<Seq<char>, V> {
        map_of(self.entries@)
    }
}

impl<V> TextMap<V> {
    #[verifier::type_invariant]
    spec fn well_formed(self) -> bool {
        ascending(keys_of(self.entries@))
    }

    /// The keys in the order in which the map is walked.
    pub closed spec fn keys(self) -> Seq<Seq<char>> {
        keys_of(self.entries@)
    }

    pub fn new() -> (r: Self)
        ensures
            r@ == Map::<Seq<char>, V>::empty(),
    {
        let r = TextMap { entries: Vec::new() };
        assert(r@ =~= Map::<Seq<char>, V>::empty());
        r
    }

    /// The first position whose key does not stand before `key`, and whether
    /// that position holds `key`.
    fn locate(entries: &Vec<(String, V)>, key: &str) -> (r: (usize, bool))
        requires
            ascending(keys_of(entries@)),
        ensures
            r.0 <= entries@.len(),
            forall|i: int| 0 <= i < r.0 ==> text_lt(#[trigger] keys_of(entries@)[i], key@),
            !r.1 ==> forall|i: int|
                r.0 <= i < entries@.len() ==> text_lt(key@, #[trigger] keys_of(entries@)[i]),
            r.1 ==> r.0 < entries@.len() && keys_of(entries@)[r.0 as int] == key@,
    {
        let ghost keys = keys_of(entries@);
        let mut low: usize = 0;
        let mut high: usize = entries.len();
        while low < high
            invariant
                low <= high <= entries@.len(),
                keys == keys_of(entries@),
                ascending(keys),
                forall|i: int| 0 <= i < low ==> text_lt(#[trigger] keys[i], key@),
                forall|i: int| high <= i < keys.len() ==> text_lt(key@, #[trigger] keys[i]),
            decreases high - low,
        {
            let mid: usize = low + (high - low) / 2;
            match relate(entries[mid].0.as_str(), key) {
                Relation::Before => {
                    proof {
                        assert forall|i: int| 0 <= i < mid + 1 implies text_lt(
                            #[trigger] keys[i],
                            key@,
                        ) by {
                            if i < mid {
                                lemma_text_lt_transitive(keys[i], keys[mid as int], key@);
                            } else {
                                assert(keys[i] == entries@[mid as int].0@);
                            }
                        }
                    }
                    low = mid + 1;
                },
                Relation::Same => {
                    assert(keys[mid as int] == key@);
                    return (mid, true);
                },
                Relation::After => {
                    proof {
                        assert forall|i: int| mid <= i < keys.len() implies text_lt(
                            key@,
                            #[trigger] keys[i],
                        ) by {
                            if i > mid {
                                lemma_text_lt_transitive(key@, keys[mid as int], keys[i]);
                            } else {
                                assert(keys[i] == entries@[mid as int].0@);
                            }
                        }
                    }
                    high = mid;
                },
            }
        }
        (low, false)
    }

    /// The value under `key`, if there is one.
    pub fn get(&self, key: &str) -> (r: Option<&V>)
        ensures
            match r {
                Some(v) => self@.contains_key(key@) && *v == self@[key@],
                None => !self@.contains_key(key@),
            },
    {
        proof {
            use_type_invariant(self);
        }
        let (at, found) = Self::locate(&self.entries, key);
        if found {
            proof {
                lemma_map_of(self.entries@, at as int);
            }
            Some(&self.entries[at].1)
        } else {
            proof {
                lemma_not_located(self.entries@, key@, at as int);
            }
            None
        }
    }

    pub fn contains_key(&self, key: &str) -> (r: bool)
        ensures
            r == self@.contains_key(key@),
    {
        match self.get(key) {
            Some(_) => true,
            None => false,
        }
    }

    /// Puts `value` under `key`, in place of what was there.
    pub fn insert(&mut self, key: String, value: V)
        ensures
            final(self)@ == old(self)@.insert(key@, value),
    {
        proof {
            use_type_invariant(&*self);
        }
        let ghost before = self.entries@;
        let (at, found) = Self::locate(&self.entries, key.as_str());
        let mut entries: Vec<(String, V)> = Vec::new();
        std::mem::swap(&mut entries, &mut self.entries);
        let ghost k = key@;
        if found {
            let slot = (key, value);
            entries.set(at, slot);
            proof {
                lemma_map_set(before, at as int, slot);
            }
        } else {
            let slot = (key, value);
            entries.insert(at, slot);
            proof {
                lemma_map_insert(before, at as int, slot);
            }
        }
        self.entries = entries;
    }

    /// Takes the entry under `key` out of the map.
    pub fn take(&mut self, key: &str) -> (r: Option<V>)
        ensures
            final(self)@ == old(self)@.remove(key@),
            match r {
                Some(v) => old(self)@.contains_key(key@) && v == old(self)@[key@],
                None => !old(self)@.contains_key(key@),
            },
    {
        proof {
            use_type_invariant(&*self);
        }
        let ghost before = self.entries@;
        let (at, found) = Self::locate(&self.entries, key);
        if found {
            let mut entries: Vec<(String, V)> = Vec::new();
            std::mem::swap(&mut entries, &mut self.entries);
            let taken = entries.remove(at);
            proof {
                lemma_map_of(before, at as int);
                lemma_map_remove(before, at as int);
            }
            self.entries = entries;
            Some(taken.1)
        } else {
            proof {
                lemma_not_located(before, key@, at as int);
                assert(self@.remove(key@) =~= self@);
            }
            None
        }
    }

    /// Empties the map.
    pub fn clear(&mut self)
        ensures
            final(self)@ == Map::<Seq<char>, V>::empty(),
    {
        self.entries = Vec::new();
        assert(self@ =~= Map::<Seq<char>, V>::empty());
    }

    /// The number of entries. The keys are those of the map, ascending.
    pub fn len(&self) -> (n: usize)
        ensures
            n == self.keys().len(),
            self.keys() == ascending_list(self@.dom()),
            self.keys().to_set() == self@.dom(),
            ascending(self.keys()),
            self@.dom().finite(),
    {
        proof {
            use_type_invariant(self);
            lemma_ascending_list(self.keys());
            assert(self.keys().to_set() =~= self@.dom());
        }
        self.entries.len()
    }

    /// The key at position `i` of the walk.
    pub fn key_at(&self, i: usize) -> (r: &String)
        requires
            i < self.keys().len(),
        ensures
            r@ == self.keys()[i as int],
    {
        &self.entries[i].0
    }

    /// The value at position `i` of the walk.
    pub fn value_at(&self, i: usize) -> (r: &V)
        requires
            i < self.keys().len(),
        ensures
            self@.contains_key(self.keys()[i as int]),
            *r == self@[self.keys()[i as int]],
    {
        proof {
            use_type_invariant(self);
            lemma_map_of(self.entries@, i as int);
        }
        &self.entries[i].1
    }
}

impl<V: Clone> Clone for TextMap<V> {
    fn clone(&self) -> (r: Self)
        ensures
            r@.dom() == self@.dom(),
            forall|k: Seq<char>| #[trigger]
                self@.contains_key(k) ==> cloned::<V>(self@[k], r@[k]),
    {
        proof {
            use_type_invariant(self);
        }
        let mut entries: Vec<(String, V)> = Vec::new();
        let mut i: usize = 0;
        while i < self.entries.len()
            invariant
                i <= self.entries@.len(),
                entries@.len() == i,
                forall|j: int| 0 <= j < i ==> (#[trigger] entries@[j]).0@ == self.entries@[j].0@,
                forall|j: int|
                    0 <= j < i ==> cloned::<V>(self.entries@[j].1, (#[trigger] entries@[j]).1),
            decreases self.entries@.len() - i,
        {
            entries.push((self.entries[i].0.clone(), self.entries[i].1.clone()));
            i = i + 1;
        }
        assert(keys_of(entries@) =~= keys_of(self.entries@));
        let r = TextMap { entries };
        proof {
            assert(r@.dom() =~= self@.dom());
            assert forall|k: Seq<char>| #[trigger] self@.contains_key(k) implies cloned::<V>(
                self@[k],
                r@[k],
            ) by {
                let j = keys_of(self.entries@).index_of(k);
                assert(keys_of(self.entries@)[j] == k);
                lemma_map_of(self.entries@, j);
                lemma_map_of(r.entries@, j);
                assert(entries@[j].0@ == k);
            }
        }
        r
    }
}

proof fn lemma_not_located<V>(entries: Seq<(String, V)>, key: Seq<char>, at: int)
    requires
        0 <= at <= entries.len(),
        forall|i: int| 0 <= i < at ==> text_lt(#[trigger] keys_of(entries)[i], key),
        forall|i: int| at <= i < entries.len() ==> text_lt(key, #[trigger] keys_of(entries)[i]),
    ensures
        !map_of(entries).contains_key(key),
{
    lemma_text_lt_irreflexive(key);
    let keys = keys_of(entries);
    if keys.contains(key) {
        let i = choose|i: int| 0 <= i < keys.len() && keys[i] == key;
        assert(i < at || at <= i);
    }
}

proof fn lemma_map_set<V>(entries: Seq<(String, V)>, at: int, slot: (String, V))
    requires
        ascending(keys_of(entries)),
        0 <= at < entries.len(),
        keys_of(entries)[at] == slot.0@,
    ensures
        ascending(keys_of(entries.update(at, slot))),
        map_of(entries.update(at, slot)) == map_of(entries).insert(slot.0@, slot.1),
{
    let after = entries.update(at, slot);
    assert(keys_of(after) =~= keys_of(entries));
    assert forall|k: Seq<char>| map_of(after).contains_key(k) implies map_of(after)[k] == map_of(
        entries,
    ).insert(slot.0@, slot.1)[k] by {
        let i = keys_of(after).index_of(k);
        assert(keys_of(after)[i] == k);
        lemma_map_of(after, i);
        lemma_map_of(entries, i);
        if i != at {
            if i < at {
                assert(text_lt(keys_of(entries)[i], keys_of(entries)[at]));
            } else {
                assert(text_lt(keys_of(entries)[at], keys_of(entries)[i]));
            }
            lemma_text_lt_irreflexive(k);
        }
    }
    assert(keys_of(entries).contains(keys_of(entries)[at]));
    assert(map_of(after) =~= map_of(entries).insert(slot.0@, slot.1));
}

proof fn lemma_map_insert<V>(entries: Seq<(String, V)>, at: int, slot: (String, V))
    requires
        ascending(keys_of(entries)),
        0 <= at <= entries.len(),
        forall|i: int| 0 <= i < at ==> text_lt(#[trigger] keys_of(entries)[i], slot.0@),
        forall|i: int| at <= i < entries.len() ==> text_lt(slot.0@, #[trigger] keys_of(entries)[i]),
    ensures
        ascending(keys_of(entries.insert(at, slot))),
        map_of(entries.insert(at, slot)) == map_of(entries).insert(slot.0@, slot.1),
{
    let after = entries.insert(at, slot);
    let keys = keys_of(entries);
    assert(keys_of(after) =~= keys.insert(at, slot.0@));
    assert(ascending(keys_of(after)));
    assert forall|k: Seq<char>| map_of(after).contains_key(k) == map_of(entries).insert(
        slot.0@,
        slot.1,
    ).contains_key(k) by {
        if keys_of(after).contains(k) {
            let i = choose|i: int| 0 <= i < after.len() && keys_of(after)[i] == k;
            if i < at {
                assert(keys[i] == k);
            } else if i > at {
                assert(keys[i - 1] == k);
            }
        }
        if keys.contains(k) {
            let i = choose|i: int| 0 <= i < keys.len() && keys[i] == k;
            if i < at {
                assert(keys_of(after)[i] == k);
            } else {
                assert(keys_of(after)[i + 1] == k);
            }
        }
        if k == slot.0@ {
            assert(keys_of(after)[at] == k);
        }
    }
    assert forall|k: Seq<char>| map_of(after).contains_key(k) implies map_of(after)[k] == map_of(
        entries,
    ).insert(slot.0@, slot.1)[k] by {
        let i = keys_of(after).index_of(k);
        assert(keys_of(after)[i] == k);
        lemma_map_of(after, i);
        lemma_text_lt_irreflexive(k);
        if i < at {
            lemma_map_of(entries, i);
            assert(keys[i] == k);
        } else if i > at {
            lemma_map_of(entries, i - 1);
            assert(keys[i - 1] == k);
        }
    }
    assert(map_of(after) =~= map_of(entries).insert(slot.0@, slot.1));
}

proof fn lemma_map_remove<V>(entries: Seq<(String, V)>, at: int)
    requires
        ascending(keys_of(entries)),
        0 <= at < entries.len(),
    ensures
        ascending(keys_of(entries.remove(at))),
        map_of(entries.remove(at)) == map_of(entries).remove(entries[at].0@),
{
    let after = entries.remove(at);
    let keys = keys_of(entries);
    let gone = entries[at].0@;
    assert(keys_of(after) =~= keys.remove(at));
    assert(ascending(keys_of(after)));
    assert forall|k: Seq<char>| map_of(after).contains_key(k) == map_of(entries).remove(
        gone,
    ).contains_key(k) by {
        if keys_of(after).contains(k) {
            let i = choose|i: int| 0 <= i < after.len() && keys_of(after)[i] == k;
            lemma_text_lt_irreflexive(k);
            if i < at {
                assert(keys[i] == k);
                assert(text_lt(keys[i], keys[at]));
            } else {
                assert(keys[i + 1] == k);
                assert(text_lt(keys[at], keys[i + 1]));
            }
        }
        if keys.contains(k) && k != gone {
            let i = choose|i: int| 0 <= i < keys.len() && keys[i] == k;
            if i < at {
                assert(keys_of(after)[i] == k);
            } else {
                assert(keys_of(after)[i - 1] == k);
            }
        }
    }
    assert forall|k: Seq<char>| map_of(after).contains_key(k) implies map_of(after)[k] == map_of(
        entries,
    ).remove(gone)[k] by {
        let i = keys_of(after).index_of(k);
        assert(keys_of(after)[i] == k);
        lemma_map_of(after, i);
        if i < at {
            lemma_map_of(entries, i);
        } else {
            lemma_map_of(entries, i + 1);
        }
    }
    assert(map_of(after) =~= map_of(entries).remove(gone));
}

/// A map has finitely many keys.
pub proof fn lemma_keys_are_finite<V>(m: TextMap<V>)
    ensures
        m@.dom().finite(),
{
    let keys = keys_of(m.entries@);
    assert(m@.dom() =~= keys.to_set());
    vstd::seq_lib::seq_to_set_is_finite(keys);
}

/// A set has finitely many members.
pub proof fn lemma_members_are_finite(s: TextSet)
    ensures
        s@.finite(),
{
    lemma_keys_are_finite(s.members);
}

/// The ascending list of a set is as long as the set is large.
pub proof fn lemma_ascending_list_length(s: Set<Seq<char>>)
    requires
        s.finite(),
    ensures
        ascending_list(s).len() == s.len(),
{
    lemma_finite_set_is_listed(s);
    let q = ascending_list(s);
    assert(q.no_duplicates()) by {
        assert forall|i: int, j: int| 0 <= i < j < q.len() implies q[i] != q[j] by {
            lemma_text_lt_irreflexive(q[i]);
        }
    }
    q.unique_seq_to_set();
}

/// A set of texts, walked in ascending order.
#[derive(Debug, PartialEq, Eq)]
pub struct TextSet {
    members: TextMap<()>,
}

impl View for TextSet {
    type V = Set<Seq<char>>;

    closed spec fn view(&self) -> Set<Seq<char>> {
        self.members@.dom()
    }
}

impl Clone for TextSet {
    fn clone(&self) -> (r: Self)
        ensures
            r@ == self@,
    {
        TextSet { members: self.members.clone() }
    }
}

impl TextSet {
    pub fn new() -> (r: Self)
        ensures
            r@ == Set::<Seq<char>>::empty(),
    {
        let r = TextSet { members: TextMap::new() };
        assert(r@ =~= Set::<Seq<char>>::empty());
        r
    }

    pub fn insert(&mut self, item: String)
        ensures
            final(self)@ == old(self)@.insert(item@),
    {
        self.members.insert(item, ());
        assert(self@ =~= old(self)@.insert(item@));
    }

    pub fn contains(&self, item: &str) -> (r: bool)
        ensures
            r == self@.contains(item@),
    {
        self.members.contains_key(item)
    }

    /// The set of the texts in a list.
    pub fn of(list: Vec<String>) -> (r: Self)
        ensures
            r@ == views(list@).to_set(),
    {
        let ghost all = views(list@);
        let mut rest = list;
        let mut r = Self::new();
        assert(all.to_set() =~= r@ + views(rest@).to_set());
        while rest.len() > 0
            invariant
                all.to_set() == r@ + views(rest@).to_set(),
            decreases rest.len(),
        {
            let ghost before = views(rest@);
            if let Some(item) = rest.pop() {
                let ghost had = r@;
                r.insert(item);
                proof {
                    assert(views(rest@) =~= before.drop_last());
                    assert(before =~= views(rest@).push(item@));
                    assert forall|t: Seq<char>| before.to_set().contains(t) implies t == item@
                        || views(rest@).to_set().contains(t) by {
                        let k = choose|k: int| 0 <= k < before.len() && before[k] == t;
                        if k < views(rest@).len() {
                            assert(views(rest@)[k] == t);
                        }
                    }
                    assert forall|t: Seq<char>|
                        views(rest@).to_set().contains(t) implies before.to_set().contains(t) by {
                        let k = choose|k: int| 0 <= k < views(rest@).len() && views(rest@)[k] == t;
                        assert(before[k] == t);
                    }
                    assert(before[before.len() - 1] == item@);
                    assert(had + before.to_set() =~= r@ + views(rest@).to_set());
                }
            }
        }
        assert(views(rest@).to_set() =~= Set::<Seq<char>>::empty());
        assert(r@ =~= all.to_set());
        r
    }

    /// The members as a list, ascending.
    pub fn list(&self) -> (r: Vec<String>)
        ensures
            views(r@) == ascending_list(self@),
            views(r@).to_set() == self@,
            ascending(views(r@)),
    {
        let n: usize = self.members.len();
        let mut r: Vec<String> = Vec::new();
        let mut i: usize = 0;
        while i < n
            invariant
                i <= n == self.members.keys().len(),
                views(r@) == self.members.keys().take(i as int),
            decreases n - i,
        {
            let ghost had = views(r@);
            r.push(self.members.key_at(i).clone());
            assert(views(r@) =~= had.push(self.members.keys()[i as int]));
            i = i + 1;
            assert(views(r@) =~= self.members.keys().take(i as int));
        }
        assert(views(r@) =~= self.members.keys());
        r
    }
}

} // verus!
