//! Lists that are split up by the point that their entries belong to.

use crate::keyed::TextMap;
use crate::order::{
    in_order, lemma_selection_multiset, lemma_sorted, lemma_sorted_contains, lemma_views_push, sort,
    sorted, views, Order, Ranked,
};
use vstd::prelude::*;

verus! {

/// An entry that belongs to a point.
pub trait Placed: Ranked where <Self as View>::V: Order {
    /// The id of the point.
    spec fn place(m: Self::V) -> Seq<char>;

    fn place_of(&self) -> (r: &String)
        ensures
            r@ == Self::place(self@),
    ;

    fn duplicate(&self) -> (r: Self)
        ensures
            r@ == self@,
    ;
}

pub open spec fn belongs<T: Placed>(place: Seq<char>) -> spec_fn(T::V) -> bool where
    <T as View>::V: Order,
 {
    |m: T::V| T::place(m) == place
}

pub open spec fn has_entry<T: Placed>(s: Seq<T::V>, place: Seq<char>) -> bool where
    <T as View>::V: Order,
 {
    exists|i: int| 0 <= i < s.len() && T::place(#[trigger] s[i]) == place
}

/// The entries of every point that has any, in the order of the list.
spec fn collected<T: Placed>(s: Seq<T::V>) -> Map<Seq<char>, Seq<T::V>> where
    <T as View>::V: Order,
 {
    Map::new(|k: Seq<char>| has_entry::<T>(s, k), |k: Seq<char>| s.filter(belongs::<T>(k)))
}

/// The entries of every point that has any, sorted.
pub open spec fn grouped<T: Placed>(s: Seq<T::V>) -> Map<Seq<char>, Seq<T::V>> where
    <T as View>::V: Order,
 {
    Map::new(|k: Seq<char>| has_entry::<T>(s, k), |k: Seq<char>| sorted(s.filter(belongs::<T>(k))))
}

/// The models of the lists in a map.
pub open spec fn list_views<T: View>(m: Map<Seq<char>, Vec<T>>) -> Map<Seq<char>, Seq<T::V>> {
    m.map_values(|v: Vec<T>| views(v@))
}

proof fn lemma_collected_push<T: Placed>(s: Seq<T::V>, x: T::V) where <T as View>::V: Order
    ensures
        collected::<T>(s.push(x)) == collected::<T>(s).insert(
            T::place(x),
            s.filter(belongs::<T>(T::place(x))).push(x),
        ),
{
    reveal(Seq::filter);
    let t = s.push(x);
    let k0 = T::place(x);
    assert(t.drop_last() =~= s);
    assert(t.last() == x);
    assert forall|k: Seq<char>| has_entry::<T>(t, k) == (has_entry::<T>(s, k) || k == k0) by {
        if has_entry::<T>(s, k) {
            let i = choose|i: int| 0 <= i < s.len() && T::place(#[trigger] s[i]) == k;
            assert(T::place(t[i]) == k);
        }
        if k == k0 {
            assert(T::place(t[s.len() as int]) == k);
        }
        if has_entry::<T>(t, k) {
            let i = choose|i: int| 0 <= i < t.len() && T::place(#[trigger] t[i]) == k;
            if i < s.len() {
                assert(T::place(s[i]) == k);
            }
        }
    }
    assert forall|k: Seq<char>| #[trigger] t.filter(belongs::<T>(k)) == (if k == k0 {
        s.filter(belongs::<T>(k)).push(x)
    } else {
        s.filter(belongs::<T>(k))
    }) by {}
    assert(collected::<T>(t) =~= collected::<T>(s).insert(
        k0,
        s.filter(belongs::<T>(k0)).push(x),
    ));
}

proof fn lemma_no_entry<T: Placed>(s: Seq<T::V>, place: Seq<char>) where <T as View>::V: Order
    requires
        !has_entry::<T>(s, place),
    ensures
        s.filter(belongs::<T>(place)) == Seq::<T::V>::empty(),
    decreases s.len(),
{
    reveal(Seq::filter);
    if s.len() > 0 {
        let front = s.drop_last();
        if has_entry::<T>(front, place) {
            let i = choose|i: int|
                0 <= i < front.len() && T::place(#[trigger] front[i]) == place;
            assert(T::place(s[i]) == place);
        }
        lemma_no_entry::<T>(front, place);
        assert(T::place(s[s.len() - 1]) != place);
    }
}

/// The entries of one point, sorted; none if there is no entry.
pub open spec fn entries_of<T: Placed>(s: Seq<T::V>, place: Seq<char>) -> Seq<T::V> where
    <T as View>::V: Order,
 {
    sorted(s.filter(belongs::<T>(place)))
}

/// A grouped list holds the entries of every point.
pub proof fn lemma_grouped<T: Placed>(s: Seq<T::V>, place: Seq<char>) where <T as View>::V: Order
    ensures
        entries_of::<T>(s, place) == (if grouped::<T>(s).contains_key(place) {
            grouped::<T>(s)[place]
        } else {
            Seq::empty()
        }),
{
    if !has_entry::<T>(s, place) {
        lemma_no_entry::<T>(s, place);
    }
}

proof fn lemma_selected_one_more<A>(s: Seq<A>, x: A, keep: spec_fn(A) -> bool)
    ensures
        s.push(x).filter(keep) == if keep(x) {
            s.filter(keep).push(x)
        } else {
            s.filter(keep)
        },
{
    reveal(Seq::filter);
    assert(s.push(x).drop_last() =~= s);
}

/// A new entry is among the entries of its point, which are otherwise what they
/// were, and shows nowhere else.
pub proof fn lemma_entry_added<T: Placed>(s: Seq<T::V>, x: T::V, place: Seq<char>) where
    <T as View>::V: Order,

    ensures
        place != T::place(x) ==> entries_of::<T>(s.push(x), place) == entries_of::<T>(s, place),
        place == T::place(x) ==> entries_of::<T>(s.push(x), place).to_multiset() == entries_of::<T>(
            s,
            place,
        ).to_multiset().insert(x),
        in_order(entries_of::<T>(s.push(x), place)),
{
    broadcast use vstd::seq_lib::group_to_multiset_ensures;

    let mine = belongs::<T>(place);
    lemma_selected_one_more(s, x, mine);
    lemma_sorted(s.filter(mine));
    lemma_sorted(s.push(x).filter(mine));
}

proof fn lemma_unselected_change<A>(s: Seq<A>, i: int, x: A, keep: spec_fn(A) -> bool)
    requires
        0 <= i < s.len(),
        !keep(s[i]),
        !keep(x),
    ensures
        s.update(i, x).filter(keep) == s.filter(keep),
    decreases s.len(),
{
    reveal(Seq::filter);
    let front = s.drop_last();
    let t = s.update(i, x);
    if i == s.len() - 1 {
        assert(t.drop_last() =~= front);
    } else {
        assert(t.drop_last() =~= front.update(i, x));
        assert(t.last() == s.last());
        lemma_unselected_change(front, i, x, keep);
    }
}

/// An entry that is replaced by another of the same point is replaced among the
/// entries of the point, and shows nowhere else.
pub proof fn lemma_entry_replaced<T: Placed>(s: Seq<T::V>, i: int, x: T::V, place: Seq<char>) where
    <T as View>::V: Order,

    requires
        0 <= i < s.len(),
        T::place(x) == T::place(s[i]),
    ensures
        place != T::place(x) ==> entries_of::<T>(s.update(i, x), place) == entries_of::<T>(
            s,
            place,
        ),
        place == T::place(x) ==> entries_of::<T>(s, place).contains(s[i]) && entries_of::<T>(
            s.update(i, x),
            place,
        ).to_multiset() == entries_of::<T>(s, place).to_multiset().remove(s[i]).insert(x),
        in_order(entries_of::<T>(s.update(i, x), place)),
{
    broadcast use vstd::seq_lib::group_to_multiset_ensures;

    let mine = belongs::<T>(place);
    let t = s.update(i, x);
    lemma_sorted(s.filter(mine));
    lemma_sorted(t.filter(mine));
    if place == T::place(x) {
        let rest = s.remove(i);
        assert(t.remove(i) =~= rest);
        assert(s.to_multiset() =~= rest.push(s[i]).to_multiset());
        assert(t.to_multiset() =~= rest.push(x).to_multiset());
        let same = |m: T::V| m;
        lemma_selection_multiset(s, rest.push(s[i]), mine, same);
        lemma_selection_multiset(t, rest.push(x), mine, same);
        assert(s.filter(mine).map_values(same) =~= s.filter(mine));
        assert(t.filter(mine).map_values(same) =~= t.filter(mine));
        assert(rest.push(s[i]).filter(mine).map_values(same) =~= rest.push(s[i]).filter(mine));
        assert(rest.push(x).filter(mine).map_values(same) =~= rest.push(x).filter(mine));
        lemma_selected_one_more(rest, s[i], mine);
        lemma_selected_one_more(rest, x, mine);
        let kept = rest.filter(mine).to_multiset();
        assert(entries_of::<T>(s, place).to_multiset() == kept.insert(s[i]));
        assert(kept.insert(s[i]).remove(s[i]) =~= kept);
        s.lemma_filter_contains(mine, i);
        lemma_sorted_contains(s.filter(mine), s[i]);
    } else {
        lemma_unselected_change(s, i, x, mine);
    }
}

fn collect<T: Placed>(list: &Vec<T>) -> (r: TextMap<Vec<T>>) where <T as View>::V: Order
    ensures
        list_views(r@) == collected::<T>(views(list@)),
{
    let ghost all = views(list@);
    let mut r: TextMap<Vec<T>> = TextMap::new();
    let mut i: usize = 0;
    assert(list_views(r@) =~= collected::<T>(all.take(0)));
    while i < list.len()
        invariant
            i <= list@.len(),
            all == views(list@),
            list_views(r@) == collected::<T>(all.take(i as int)),
        decreases list@.len() - i,
    {
        let item = list[i].duplicate();
        let place = item.place_of().clone();
        let ghost seen = all.take(i as int);
        let ghost had = r@;
        let ghost x = item@;
        let ghost k = place@;
        let mut entries: Vec<T> = match r.take(place.as_str()) {
            Some(v) => v,
            None => Vec::new(),
        };
        proof {
            assert(x == all[i as int]);
            assert(k == T::place(x));
            if had.contains_key(k) {
                assert(list_views(had).contains_key(k));
                assert(list_views(had)[k] == views(entries@));
                assert(collected::<T>(seen)[k] == seen.filter(belongs::<T>(k)));
            } else {
                assert(!list_views(had).contains_key(k));
                assert(!has_entry::<T>(seen, k));
                lemma_no_entry::<T>(seen, k);
                assert(views(entries@) =~= Seq::<T::V>::empty());
            }
            assert(views(entries@) == seen.filter(belongs::<T>(k)));
            lemma_views_push(entries@, item);
        }
        entries.push(item);
        r.insert(place, entries);
        proof {
            lemma_collected_push::<T>(seen, x);
            assert(all.take(i + 1) =~= seen.push(x));
            assert(r@ =~= had.insert(k, entries));
            assert(list_views(r@) =~= list_views(had).insert(k, views(entries@)));
        }
        i = i + 1;
    }
    assert(all.take(i as int) =~= all);
    r
}

/// Splits a list up by point; the entries of each point are sorted.
pub fn group<T: Placed>(list: &Vec<T>) -> (r: TextMap<Vec<T>>) where <T as View>::V: Order
    ensures
        list_views(r@) == grouped::<T>(views(list@)),
{
    let ghost all = views(list@);
    let mut rest = collect(list);
    let mut r: TextMap<Vec<T>> = TextMap::new();
    proof {
        assert forall|k: Seq<char>| #[trigger] has_entry::<T>(all, k) == rest@.contains_key(k) by {
            assert(collected::<T>(all).contains_key(k) == list_views(rest@).contains_key(k));
        }
        assert forall|k: Seq<char>| #[trigger] rest@.contains_key(k) implies views(rest@[k]@)
            == all.filter(belongs::<T>(k)) by {
            assert(list_views(rest@)[k] == collected::<T>(all)[k]);
        }
    }
    while rest.len() > 0
        invariant
            all == views(list@),
            forall|k: Seq<char>| #[trigger]
                has_entry::<T>(all, k) == (rest@.contains_key(k) || r@.contains_key(k)),
            forall|k: Seq<char>| #[trigger]
                rest@.contains_key(k) ==> !r@.contains_key(k) && views(rest@[k]@) == all.filter(
                    belongs::<T>(k),
                ),
            forall|k: Seq<char>| #[trigger]
                r@.contains_key(k) ==> views(r@[k]@) == sorted(all.filter(belongs::<T>(k))),
        decreases rest@.dom().len(),
    {
        let n: usize = rest.len();
        let key = rest.key_at(0).clone();
        let ghost k0 = key@;
        proof {
            assert(rest.keys().contains(k0));
            assert(rest.keys().to_set().contains(k0));
        }
        let ghost before = rest@;
        match rest.take(key.as_str()) {
            Some(entries) => {
                r.insert(key, sort(entries));
            },
            None => {},
        }
        assert(rest@.dom() =~= before.dom().remove(k0));
    }
    proof {
        assert forall|k: Seq<char>| !rest@.contains_key(k) by {
            if rest@.contains_key(k) {
                assert(rest.keys().to_set().contains(k));
                assert(rest.keys().contains(k));
            }
        }
        assert forall|k: Seq<char>| #[trigger] list_views(r@).contains_key(k) == grouped::<T>(
            all,
        ).contains_key(k) by {
            assert(has_entry::<T>(all, k) == (rest@.contains_key(k) || r@.contains_key(k)));
        }
        assert(list_views(r@) =~= grouped::<T>(all));
    }
    r
}

} // verus!
