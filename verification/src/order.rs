//! Total preorders and the stable sort that every ranked list goes through.
//!
//! The order of a list is stated on the models of its elements: `sorted` is
//! the mathematical result, `sort` computes it by merging halves.

use vstd::prelude::*;

verus! {

/// A total preorder on the models of a type.
pub trait Order: Sized {
    /// `self` may stand before `other` in an ordered list.
    spec fn at_most(self, other: Self) -> bool;

    proof fn at_most_total(a: Self, b: Self)
        ensures
            a.at_most(b) || b.at_most(a),
    ;

    proof fn at_most_transitive(a: Self, b: Self, c: Self)
        requires
            a.at_most(b),
            b.at_most(c),
        ensures
            a.at_most(c),
    ;
}

/// A value whose model is ordered and that can be compared at run time.
pub trait Ranked: View + Sized where <Self as View>::V: Order {
    fn is_at_most(&self, other: &Self) -> (r: bool)
        ensures
            r == self@.at_most(other@),
    ;
}

/// The models of a list of values, in the same order.
pub open spec fn views<T: View>(s: Seq<T>) -> Seq<T::V> {
    Seq::new(s.len(), |i: int| s[i]@)
}

/// Adding a value to a list adds its model to the models.
pub proof fn lemma_views_push<T: View>(s: Seq<T>, e: T)
    ensures
        views(s.push(e)) == views(s).push(e@),
{
    assert(views(s.push(e)) =~= views(s).push(e@));
}

/// The elements among the first `i` of `s` that `keep` admits, each carried
/// over by `f`.
pub open spec fn selected<A, B>(
    s: Seq<A>,
    i: int,
    keep: spec_fn(A) -> bool,
    f: spec_fn(A) -> B,
) -> Seq<B> {
    s.take(i).filter(keep).map_values(f)
}

/// One more element is looked at.
pub proof fn lemma_selected_step<A, B>(
    s: Seq<A>,
    i: int,
    keep: spec_fn(A) -> bool,
    f: spec_fn(A) -> B,
)
    requires
        0 <= i < s.len(),
    ensures
        selected(s, i + 1, keep, f) == if keep(s[i]) {
            selected(s, i, keep, f).push(f(s[i]))
        } else {
            selected(s, i, keep, f)
        },
{
    reveal(Seq::filter);
    let next = s.take(i + 1);
    assert(next.drop_last() =~= s.take(i));
    assert(next.last() == s[i]);
    if keep(s[i]) {
        assert(selected(s, i + 1, keep, f) =~= selected(s, i, keep, f).push(f(s[i])));
    }
}

/// Nothing and everything looked at.
pub proof fn lemma_selected_ends<A, B>(s: Seq<A>, keep: spec_fn(A) -> bool, f: spec_fn(A) -> B)
    ensures
        selected(s, 0, keep, f) == Seq::<B>::empty(),
        selected(s, s.len() as int, keep, f) == s.filter(keep).map_values(f),
{
    reveal(Seq::filter);
    assert(s.take(0) =~= Seq::<A>::empty());
    assert(selected(s, 0, keep, f) =~= Seq::<B>::empty());
    assert(s.take(s.len() as int) =~= s);
}

/// What a selection holds comes from an element that is kept.
pub proof fn lemma_selection_source<A, B>(
    s: Seq<A>,
    keep: spec_fn(A) -> bool,
    f: spec_fn(A) -> B,
    y: B,
) -> (i: int)
    requires
        s.filter(keep).map_values(f).contains(y),
    ensures
        0 <= i < s.len(),
        keep(s[i]),
        f(s[i]) == y,
{
    broadcast use vstd::seq_lib::group_filter_ensures;

    let kept = s.filter(keep);
    let k = choose|k: int| 0 <= k < kept.len() && kept.map_values(f)[k] == y;
    assert(kept.contains(kept[k]));
    s.lemma_filter_contains_rev(keep, kept[k]);
    let i = choose|i: int| 0 <= i < s.len() && s[i] == kept[k];
    i
}

/// What is kept stands in the selection.
pub proof fn lemma_selection_keeps<A, B>(
    s: Seq<A>,
    keep: spec_fn(A) -> bool,
    f: spec_fn(A) -> B,
    i: int,
)
    requires
        0 <= i < s.len(),
        keep(s[i]),
    ensures
        s.filter(keep).map_values(f).contains(f(s[i])),
{
    let kept = s.filter(keep);
    s.lemma_filter_contains(keep, i);
    let k = choose|k: int| 0 <= k < kept.len() && kept[k] == s[i];
    assert(kept.map_values(f)[k] == f(s[i]));
}

/// Where the selected elements stand: at ever later places, of which none is
/// passed over.
pub proof fn lemma_selection_places<A, B>(
    s: Seq<A>,
    keep: spec_fn(A) -> bool,
    f: spec_fn(A) -> B,
) -> (places: Seq<int>)
    ensures
        places.len() == s.filter(keep).map_values(f).len(),
        forall|k: int|
            0 <= k < places.len() ==> 0 <= #[trigger] places[k] < s.len() && keep(s[places[k]])
                && s.filter(keep).map_values(f)[k] == f(s[places[k]]),
        forall|m: int, n: int|
            0 <= m < n < places.len() ==> #[trigger] places[m] < #[trigger] places[n],
        forall|i: int| 0 <= i < s.len() && keep(#[trigger] s[i]) ==> places.contains(i),
    decreases s.len(),
{
    reveal(Seq::filter);
    if s.len() == 0 {
        Seq::empty()
    } else {
        let front = s.drop_last();
        let before = lemma_selection_places(front, keep, f);
        let places = if keep(s.last()) {
            before.push(s.len() - 1)
        } else {
            before
        };
        assert forall|k: int| 0 <= k < places.len() implies 0 <= #[trigger] places[k] < s.len()
            && keep(s[places[k]]) && s.filter(keep).map_values(f)[k] == f(s[places[k]]) by {
            if k < before.len() {
                assert(before[k] == places[k]);
                assert(front[before[k]] == s[places[k]]);
                assert(s.filter(keep)[k] == front.filter(keep)[k]);
                assert(front.filter(keep).map_values(f)[k] == f(front[before[k]]));
            }
        }
        assert forall|m: int, n: int| 0 <= m < n < places.len() implies #[trigger] places[m]
            < #[trigger] places[n] by {
            assert(before[m] == places[m]);
            if n < before.len() {
                assert(before[n] == places[n]);
            }
        }
        assert forall|i: int| 0 <= i < s.len() && keep(#[trigger] s[i]) implies places.contains(
            i,
        ) by {
            if i < front.len() {
                assert(front[i] == s[i]);
                let k = choose|k: int| 0 <= k < before.len() && before[k] == i;
                assert(places[k] == i);
            } else {
                assert(places[before.len() as int] == i);
            }
        }
        places
    }
}

/// A selection and its complement hold as many elements as the list.
pub proof fn lemma_selection_parts<A>(
    s: Seq<A>,
    keep: spec_fn(A) -> bool,
    leave: spec_fn(A) -> bool,
)
    requires
        forall|i: int| 0 <= i < s.len() ==> keep(#[trigger] s[i]) == !leave(s[i]),
    ensures
        s.filter(keep).len() + s.filter(leave).len() == s.len(),
    decreases s.len(),
{
    reveal(Seq::filter);
    if s.len() > 0 {
        let t = s.drop_last();
        assert forall|i: int| 0 <= i < t.len() implies keep(#[trigger] t[i]) == !leave(t[i]) by {
            assert(t[i] == s[i]);
        }
        lemma_selection_parts(t, keep, leave);
        assert(keep(s[s.len() - 1]) == !leave(s[s.len() - 1]));
    }
}

/// One element taken out of the list is taken out of the selection.
proof fn lemma_selection_remove<A, B>(
    s: Seq<A>,
    keep: spec_fn(A) -> bool,
    f: spec_fn(A) -> B,
    j: int,
)
    requires
        0 <= j < s.len(),
    ensures
        s.filter(keep).map_values(f).to_multiset() == if keep(s[j]) {
            s.remove(j).filter(keep).map_values(f).to_multiset().insert(f(s[j]))
        } else {
            s.remove(j).filter(keep).map_values(f).to_multiset()
        },
{
    broadcast use vstd::seq_lib::group_to_multiset_ensures;

    let front = s.take(j);
    let back = s.skip(j + 1);
    let one = seq![s[j]];
    assert(s =~= front + one + back);
    assert(s.remove(j) =~= front + back);
    Seq::filter_distributes_over_add(front + one, back, keep);
    Seq::filter_distributes_over_add(front, one, keep);
    Seq::filter_distributes_over_add(front, back, keep);
    let x = front.filter(keep);
    let y = back.filter(keep);
    let fx = x.map_values(f);
    let fy = y.map_values(f);
    assert((x + y).map_values(f) =~= fx + fy);
    vstd::seq_lib::lemma_multiset_commutative(fx, fy);
    reveal_with_fuel(Seq::filter, 2);
    assert(one.drop_last() =~= Seq::<A>::empty());
    if keep(s[j]) {
        assert(one.filter(keep) =~= one);
        assert((x + one + y).map_values(f) =~= fx.push(f(s[j])) + fy);
        vstd::seq_lib::lemma_multiset_commutative(fx.push(f(s[j])), fy);
        assert(fx.push(f(s[j])).to_multiset().add(fy.to_multiset()) =~= fx.to_multiset().add(
            fy.to_multiset(),
        ).insert(f(s[j])));
    } else {
        assert(one.filter(keep) =~= Seq::<A>::empty());
        assert(x + one.filter(keep) + y =~= x + y);
    }
}

/// The order of a list does not show in what a selection of it holds.
pub proof fn lemma_selection_multiset<A, B>(
    a: Seq<A>,
    b: Seq<A>,
    keep: spec_fn(A) -> bool,
    f: spec_fn(A) -> B,
)
    requires
        a.to_multiset() == b.to_multiset(),
    ensures
        a.filter(keep).map_values(f).to_multiset() == b.filter(keep).map_values(f).to_multiset(),
    decreases a.len(),
{
    broadcast use vstd::seq_lib::group_to_multiset_ensures;

    assert(a.len() == a.to_multiset().len());
    assert(b.len() == b.to_multiset().len());
    if a.len() == 0 {
        assert(a =~= b);
    } else {
        let x = a[0];
        assert(a.contains(x));
        assert(b.to_multiset().count(x) > 0);
        assert(b.contains(x));
        let j = choose|j: int| 0 <= j < b.len() && b[j] == x;
        lemma_selection_remove(a, keep, f, 0);
        lemma_selection_remove(b, keep, f, j);
        assert(a.remove(0).to_multiset() =~= b.remove(j).to_multiset());
        lemma_selection_multiset(a.remove(0), b.remove(j), keep, f);
    }
}

proof fn lemma_filter_all<A>(s: Seq<A>, every: spec_fn(A) -> bool)
    requires
        forall|x: A| #[trigger] every(x),
    ensures
        s.filter(every) == s,
    decreases s.len(),
{
    reveal(Seq::filter);
    if s.len() > 0 {
        lemma_filter_all(s.drop_last(), every);
        assert(s =~= s.drop_last().push(s.last()));
    }
}

/// The order of a list does not show in what its image holds.
pub proof fn lemma_mapped_multiset<A, B>(a: Seq<A>, b: Seq<A>, f: spec_fn(A) -> B)
    requires
        a.to_multiset() == b.to_multiset(),
    ensures
        a.map_values(f).to_multiset() == b.map_values(f).to_multiset(),
{
    let every = |x: A| true;
    lemma_filter_all(a, every);
    lemma_filter_all(b, every);
    lemma_selection_multiset(a, b, every, f);
}

/// A selection can be made from the images of the elements, where these are
/// kept alike and give the same.
pub proof fn lemma_selection_mapped<A, B, C>(
    s: Seq<A>,
    g: spec_fn(A) -> B,
    keep: spec_fn(A) -> bool,
    f: spec_fn(A) -> C,
    keep_image: spec_fn(B) -> bool,
    f_image: spec_fn(B) -> C,
)
    requires
        forall|x: A| #[trigger] keep(x) == keep_image(g(x)),
        forall|x: A| #[trigger] f(x) == f_image(g(x)),
    ensures
        s.filter(keep).map_values(f) == s.map_values(g).filter(keep_image).map_values(f_image),
    decreases s.len(),
{
    reveal(Seq::filter);
    let t = s.map_values(g);
    if s.len() == 0 {
        assert(s.filter(keep).map_values(f) =~= t.filter(keep_image).map_values(f_image));
    } else {
        let front = s.drop_last();
        lemma_selection_mapped(front, g, keep, f, keep_image, f_image);
        assert(t.drop_last() =~= front.map_values(g));
        assert(t.last() == g(s.last()));
        assert(keep(s.last()) == keep_image(t.last()));
        assert(f(s.last()) == f_image(t.last()));
        if keep(s.last()) {
            assert(s.filter(keep).map_values(f) =~= front.filter(keep).map_values(f).push(
                f(s.last()),
            ));
            assert(t.filter(keep_image).map_values(f_image) =~= t.drop_last().filter(
                keep_image,
            ).map_values(f_image).push(f_image(t.last())));
        }
    }
}

/// What `f` gives for the elements of a list, one after the other.
pub open spec fn gathered<A, B>(s: Seq<A>, f: spec_fn(A) -> Seq<B>) -> Seq<B>
    decreases s.len(),
{
    if s.len() == 0 {
        Seq::empty()
    } else {
        gathered(s.drop_last(), f) + f(s.last())
    }
}

/// One element taken out of the list takes what `f` gives for it out of what is
/// gathered.
proof fn lemma_gathered_remove<A, B>(s: Seq<A>, f: spec_fn(A) -> Seq<B>, j: int)
    requires
        0 <= j < s.len(),
    ensures
        gathered(s, f).to_multiset() == gathered(s.remove(j), f).to_multiset().add(
            f(s[j]).to_multiset(),
        ),
    decreases s.len(),
{
    broadcast use vstd::seq_lib::group_to_multiset_ensures;

    let front = s.drop_last();
    vstd::seq_lib::lemma_multiset_commutative(gathered(front, f), f(s.last()));
    if j == s.len() - 1 {
        assert(s.remove(j) =~= front);
    } else {
        lemma_gathered_remove(front, f, j);
        assert(s.remove(j).drop_last() =~= front.remove(j));
        assert(s.remove(j).last() == s.last());
        vstd::seq_lib::lemma_multiset_commutative(gathered(front.remove(j), f), f(s.last()));
        assert(gathered(s, f).to_multiset() =~= gathered(s.remove(j), f).to_multiset().add(
            f(s[j]).to_multiset(),
        ));
    }
}

/// The same is gathered from the images of the elements, where these give the
/// same.
pub proof fn lemma_gathered_mapped<A, B, C>(
    s: Seq<A>,
    g: spec_fn(A) -> B,
    f: spec_fn(A) -> Seq<C>,
    f_image: spec_fn(B) -> Seq<C>,
)
    requires
        forall|x: A| #[trigger] f(x) == f_image(g(x)),
    ensures
        gathered(s, f) == gathered(s.map_values(g), f_image),
    decreases s.len(),
{
    if s.len() > 0 {
        let t = s.map_values(g);
        lemma_gathered_mapped(s.drop_last(), g, f, f_image);
        assert(t.drop_last() =~= s.drop_last().map_values(g));
        assert(f(s.last()) == f_image(t.last()));
    }
}

/// The order of a list does not show in what is gathered from it.
pub proof fn lemma_gathered_multiset<A, B>(a: Seq<A>, b: Seq<A>, f: spec_fn(A) -> Seq<B>)
    requires
        a.to_multiset() == b.to_multiset(),
    ensures
        gathered(a, f).to_multiset() == gathered(b, f).to_multiset(),
    decreases a.len(),
{
    broadcast use vstd::seq_lib::group_to_multiset_ensures;

    assert(a.len() == a.to_multiset().len());
    assert(b.len() == b.to_multiset().len());
    if a.len() == 0 {
        assert(a =~= b);
    } else {
        let x = a[0];
        assert(a.contains(x));
        assert(b.to_multiset().count(x) > 0);
        let j = choose|j: int| 0 <= j < b.len() && b[j] == x;
        lemma_gathered_remove(a, f, 0);
        lemma_gathered_remove(b, f, j);
        assert(a.remove(0).to_multiset() =~= b.remove(j).to_multiset());
        lemma_gathered_multiset(a.remove(0), b.remove(j), f);
    }
}

/// What is gathered comes from an element.
pub proof fn lemma_gathered_source<A, B>(s: Seq<A>, f: spec_fn(A) -> Seq<B>, y: B) -> (i: int)
    requires
        gathered(s, f).contains(y),
    ensures
        0 <= i < s.len(),
        f(s[i]).contains(y),
    decreases s.len(),
{
    let all = gathered(s, f);
    let k = choose|k: int| 0 <= k < all.len() && all[k] == y;
    let front = gathered(s.drop_last(), f);
    if k < front.len() {
        assert(front[k] == y);
        lemma_gathered_source(s.drop_last(), f, y)
    } else {
        assert(f(s.last())[k - front.len()] == y);
        s.len() - 1
    }
}

/// What an element gives is gathered.
pub proof fn lemma_gathered_keeps<A, B>(s: Seq<A>, f: spec_fn(A) -> Seq<B>, i: int, y: B)
    requires
        0 <= i < s.len(),
        f(s[i]).contains(y),
    ensures
        gathered(s, f).contains(y),
    decreases s.len(),
{
    let front = s.drop_last();
    let all = gathered(s, f);
    if i < front.len() {
        assert(front[i] == s[i]);
        lemma_gathered_keeps(front, f, i, y);
        let k = choose|k: int| 0 <= k < gathered(front, f).len() && gathered(front, f)[k] == y;
        assert(all[k] == y);
    } else {
        let last = f(s[i]);
        let k = choose|k: int| 0 <= k < last.len() && last[k] == y;
        assert(all[gathered(front, f).len() + k] == y);
    }
}

/// Nothing is gathered if and only if `f` gives nothing for any element.
pub proof fn lemma_gathered_empty<A, B>(s: Seq<A>, f: spec_fn(A) -> Seq<B>)
    ensures
        gathered(s, f).len() == 0 <==> forall|i: int|
            0 <= i < s.len() ==> f(#[trigger] s[i]).len() == 0,
    decreases s.len(),
{
    if s.len() > 0 {
        let front = s.drop_last();
        lemma_gathered_empty(front, f);
        if gathered(s, f).len() == 0 {
            assert forall|i: int| 0 <= i < s.len() implies f(#[trigger] s[i]).len() == 0 by {
                if i < front.len() {
                    assert(front[i] == s[i]);
                }
            }
        }
        if forall|i: int| 0 <= i < s.len() ==> f(#[trigger] s[i]).len() == 0 {
            assert forall|i: int| 0 <= i < front.len() implies f(#[trigger] front[i]).len()
                == 0 by {
                assert(front[i] == s[i]);
            }
            assert(f(s[s.len() - 1]).len() == 0);
        }
    }
}

/// No element stands before one that it must follow.
pub open spec fn in_order<M: Order>(s: Seq<M>) -> bool {
    forall|i: int, j: int| 0 <= i <= j < s.len() ==> (#[trigger] s[i]).at_most(#[trigger] s[j])
}

/// `s` with `e` placed behind every element that may stand before it.
pub open spec fn placed<M: Order>(s: Seq<M>, e: M) -> Seq<M>
    decreases s.len(),
{
    if s.len() == 0 {
        seq![e]
    } else if s.last().at_most(e) {
        s.push(e)
    } else {
        placed(s.drop_last(), e).push(s.last())
    }
}

/// `base` with the elements of `s` placed one after the other.
pub open spec fn placed_all<M: Order>(base: Seq<M>, s: Seq<M>) -> Seq<M>
    decreases s.len(),
{
    if s.len() == 0 {
        base
    } else {
        placed(placed_all(base, s.drop_last()), s.last())
    }
}

/// The stable sort of `s`: equal elements keep the order they came in.
pub open spec fn sorted<M: Order>(s: Seq<M>) -> Seq<M> {
    placed_all(Seq::empty(), s)
}

/// Two ordered lists merged into one; on equal rank `a` goes first.
spec fn merged<M: Order>(a: Seq<M>, b: Seq<M>) -> Seq<M>
    decreases a.len() + b.len(),
{
    if a.len() == 0 {
        b
    } else if b.len() == 0 {
        a
    } else if a.last().at_most(b.last()) {
        merged(a, b.drop_last()).push(b.last())
    } else {
        merged(a.drop_last(), b).push(a.last())
    }
}

proof fn lemma_merged_last<M: Order>(a: Seq<M>, b: Seq<M>)
    ensures
        merged(a, b).len() == a.len() + b.len(),
        a.len() + b.len() > 0 ==> {
            ||| a.len() > 0 && merged(a, b).last() == a.last()
            ||| b.len() > 0 && merged(a, b).last() == b.last()
        },
    decreases a.len() + b.len(),
{
    if a.len() > 0 && b.len() > 0 {
        if a.last().at_most(b.last()) {
            lemma_merged_last(a, b.drop_last());
        } else {
            lemma_merged_last(a.drop_last(), b);
        }
    }
}

/// Merging with a list that received `e` is placing `e` in the merged list.
proof fn lemma_merged_placed<M: Order>(a: Seq<M>, b: Seq<M>, e: M)
    ensures
        merged(a, placed(b, e)) == placed(merged(a, b), e),
    decreases a.len() + b.len(),
{
    let p = placed(b, e);
    if a.len() == 0 {
        assert(merged(a, p) == p);
        assert(merged(a, b) == b);
    } else if b.len() == 0 || b.last().at_most(e) {
        assert(p == b.push(e));
        assert(p.drop_last() == b);
        lemma_merged_last(a, b);
        if a.last().at_most(e) {
            assert(merged(a, p) == merged(a, b).push(e));
        } else {
            lemma_merged_placed(a.drop_last(), b, e);
            if b.len() > 0 {
                if a.last().at_most(b.last()) {
                    M::at_most_transitive(a.last(), b.last(), e);
                }
            } else {
                assert(a.drop_last().push(a.last()) == a);
                assert(merged(a.drop_last(), b) == a.drop_last());
            }
            assert(merged(a, b) == merged(a.drop_last(), b).push(a.last()));
            assert(merged(a, b).drop_last() == merged(a.drop_last(), b));
        }
    } else {
        let q = placed(b.drop_last(), e);
        assert(p == q.push(b.last()));
        assert(p.drop_last() == q);
        if a.last().at_most(b.last()) {
            lemma_merged_placed(a, b.drop_last(), e);
            assert(merged(a, b) == merged(a, b.drop_last()).push(b.last()));
            assert(merged(a, b).drop_last() == merged(a, b.drop_last()));
        } else {
            M::at_most_total(a.last(), b.last());
            if a.last().at_most(e) {
                M::at_most_transitive(b.last(), a.last(), e);
            }
            lemma_merged_placed(a.drop_last(), b, e);
            assert(merged(a, b) == merged(a.drop_last(), b).push(a.last()));
            assert(merged(a, b).drop_last() == merged(a.drop_last(), b));
        }
    }
}

proof fn lemma_merged_sorted<M: Order>(base: Seq<M>, s: Seq<M>)
    ensures
        merged(base, sorted(s)) == placed_all(base, s),
    decreases s.len(),
{
    if s.len() > 0 {
        lemma_merged_sorted(base, s.drop_last());
        lemma_merged_placed(base, sorted(s.drop_last()), s.last());
    } else if base.len() == 0 {
        assert(merged(base, sorted(s)) =~= base);
    }
}

proof fn lemma_placed_all_concat<M: Order>(base: Seq<M>, a: Seq<M>, b: Seq<M>)
    ensures
        placed_all(base, a + b) == placed_all(placed_all(base, a), b),
    decreases b.len(),
{
    if b.len() == 0 {
        assert(a + b == a);
    } else {
        assert((a + b).drop_last() == a + b.drop_last());
        assert((a + b).last() == b.last());
        lemma_placed_all_concat(base, a, b.drop_last());
    }
}

proof fn lemma_placed_in_order<M: Order>(s: Seq<M>, e: M)
    requires
        in_order(s),
    ensures
        in_order(placed(s, e)),
        placed(s, e).to_multiset() == s.to_multiset().insert(e),
        placed(s, e).len() == s.len() + 1,
        forall|x: M| #[trigger] placed(s, e).contains(x) ==> x == e || s.contains(x),
    decreases s.len(),
{
    broadcast use vstd::seq_lib::group_to_multiset_ensures;

    M::at_most_total(e, e);
    if s.len() == 0 {
        assert(seq![e] =~= Seq::<M>::empty().push(e));
        assert(s =~= Seq::<M>::empty());
    } else if s.last().at_most(e) {
        let p = s.push(e);
        assert forall|i: int, j: int| 0 <= i <= j < p.len() implies (#[trigger] p[i]).at_most(
            #[trigger] p[j],
        ) by {
            if j == s.len() && i < s.len() {
                M::at_most_transitive(s[i], s.last(), e);
            }
        }
        assert forall|x: M| #[trigger] p.contains(x) implies x == e || s.contains(x) by {
            let k = choose|k: int| 0 <= k < p.len() && p[k] == x;
            if k < s.len() {
                assert(s[k] == x);
            }
        }
    } else {
        let t = s.drop_last();
        let q = placed(t, e);
        let p = q.push(s.last());
        lemma_placed_in_order(t, e);
        M::at_most_total(s.last(), e);
        M::at_most_total(s.last(), s.last());
        assert(s =~= t.push(s.last()));
        assert forall|i: int, j: int| 0 <= i <= j < p.len() implies (#[trigger] p[i]).at_most(
            #[trigger] p[j],
        ) by {
            if j == q.len() && i < q.len() {
                assert(q.contains(q[i]));
                if t.contains(q[i]) && q[i] != e {
                    let k = choose|k: int| 0 <= k < t.len() && t[k] == q[i];
                    assert(s[k] == q[i]);
                }
            }
        }
        assert forall|x: M| #[trigger] p.contains(x) implies x == e || s.contains(x) by {
            let k = choose|k: int| 0 <= k < p.len() && p[k] == x;
            if k < q.len() {
                assert(q.contains(q[k]));
                if t.contains(x) {
                    let m = choose|m: int| 0 <= m < t.len() && t[m] == x;
                    assert(s[m] == x);
                }
            } else {
                assert(s[s.len() - 1] == x);
            }
        }
    }
}

/// The sort of a list is ordered and holds the same elements as often.
pub proof fn lemma_sorted<M: Order>(s: Seq<M>)
    ensures
        in_order(sorted(s)),
        sorted(s).to_multiset() == s.to_multiset(),
        sorted(s).len() == s.len(),
    decreases s.len(),
{
    broadcast use vstd::seq_lib::group_to_multiset_ensures;

    if s.len() > 0 {
        lemma_sorted(s.drop_last());
        lemma_placed_in_order(sorted(s.drop_last()), s.last());
        assert(s =~= s.drop_last().push(s.last()));
    }
}

/// Sorting neither adds nor loses an element.
pub proof fn lemma_sorted_contains<M: Order>(s: Seq<M>, x: M)
    ensures
        sorted(s).contains(x) == s.contains(x),
{
    broadcast use vstd::seq_lib::group_to_multiset_ensures;

    lemma_sorted(s);
    assert(s.contains(x) <==> s.to_multiset().count(x) > 0);
    assert(sorted(s).contains(x) <==> sorted(s).to_multiset().count(x) > 0);
}

/// No two different elements of `s` are of equal rank.
pub open spec fn ranks_apart<M: Order>(s: Seq<M>) -> bool {
    forall|x: M, y: M|
        s.contains(x) && s.contains(y) && #[trigger] x.at_most(y) && y.at_most(x) ==> x == y
}

/// Two ordered lists of the same elements are one list, where no two
/// different elements are of equal rank.
pub proof fn lemma_in_order_unique<M: Order>(a: Seq<M>, b: Seq<M>)
    requires
        in_order(a),
        in_order(b),
        a.to_multiset() == b.to_multiset(),
        ranks_apart(a),
    ensures
        a == b,
    decreases a.len(),
{
    broadcast use vstd::seq_lib::group_to_multiset_ensures;

    assert(a.len() == a.to_multiset().len());
    assert(b.len() == b.to_multiset().len());
    if a.len() == 0 {
        assert(a =~= b);
    } else {
        let x = a.last();
        let y = b.last();
        assert(a.contains(x) && b.contains(y));
        assert(a.to_multiset().count(y) > 0 && b.to_multiset().count(x) > 0);
        assert(a.contains(y) && b.contains(x));
        let i = choose|i: int| 0 <= i < a.len() && a[i] == y;
        let j = choose|j: int| 0 <= j < b.len() && b[j] == x;
        assert(a[i].at_most(a[a.len() - 1]));
        assert(b[j].at_most(b[b.len() - 1]));
        assert(x == y);
        let a1 = a.drop_last();
        let b1 = b.drop_last();
        assert(a =~= a1.push(x));
        assert(b =~= b1.push(x));
        assert(a1.to_multiset() =~= a.to_multiset().remove(x));
        assert(b1.to_multiset() =~= b.to_multiset().remove(x));
        assert forall|u: M, v: M|
            a1.contains(u) && a1.contains(v) && #[trigger] u.at_most(v) && v.at_most(
                u,
            ) implies u == v by {
            let k = choose|k: int| 0 <= k < a1.len() && a1[k] == u;
            let m = choose|m: int| 0 <= m < a1.len() && a1[m] == v;
            assert(a[k] == u && a[m] == v);
        }
        lemma_in_order_unique(a1, b1);
    }
}

/// The order in which the elements of a list came in does not show in its
/// sort, where no two different elements are of equal rank.
pub proof fn law_sorted_ignores_input_order<M: Order>(a: Seq<M>, b: Seq<M>)
    requires
        a.to_multiset() == b.to_multiset(),
        ranks_apart(a),
    ensures
        sorted(a) == sorted(b),
{
    lemma_sorted(a);
    lemma_sorted(b);
    assert forall|x: M, y: M|
        sorted(a).contains(x) && sorted(a).contains(y) && #[trigger] x.at_most(y) && y.at_most(
            x,
        ) implies x == y by {
        lemma_sorted_contains(a, x);
        lemma_sorted_contains(a, y);
    }
    lemma_in_order_unique(sorted(a), sorted(b));
}

/// The elements of `a` stand in `b`, in the same order.
pub open spec fn subsequence<A>(a: Seq<A>, b: Seq<A>) -> bool
    decreases b.len(),
{
    if a.len() == 0 {
        true
    } else if b.len() == 0 {
        false
    } else {
        (a.last() == b.last() && subsequence(a.drop_last(), b.drop_last())) || subsequence(
            a,
            b.drop_last(),
        )
    }
}

proof fn lemma_subsequence_last<M: Order>(a: Seq<M>, b: Seq<M>)
    requires
        subsequence(a, b),
        a.len() > 0,
        in_order(b),
    ensures
        b.len() > 0,
        a.last().at_most(b.last()),
    decreases b.len(),
{
    let front = b.drop_last();
    if a.last() == b.last() && subsequence(a.drop_last(), front) {
        assert(b[b.len() - 1].at_most(b[b.len() - 1]));
    } else {
        assert forall|i: int, j: int| 0 <= i <= j < front.len() implies (
        #[trigger] front[i]).at_most(#[trigger] front[j]) by {
            assert(b[i].at_most(b[j]));
        }
        lemma_subsequence_last(a, front);
        assert(b[b.len() - 2].at_most(b[b.len() - 1]));
        M::at_most_transitive(a.last(), front.last(), b.last());
    }
}

proof fn lemma_subsequence_of_placed<M: Order>(a: Seq<M>, b: Seq<M>, e: M)
    requires
        subsequence(a, b),
    ensures
        subsequence(a, placed(b, e)),
    decreases b.len(),
{
    if a.len() > 0 {
        let front = b.drop_last();
        if b.last().at_most(e) {
            assert(b.push(e).drop_last() =~= b);
        } else {
            let t = placed(front, e);
            assert(t.push(b.last()).drop_last() =~= t);
            if a.last() == b.last() && subsequence(a.drop_last(), front) {
                lemma_subsequence_of_placed(a.drop_last(), front, e);
            } else {
                lemma_subsequence_of_placed(a, front, e);
            }
        }
    }
}

proof fn lemma_subsequence_placed<M: Order>(a: Seq<M>, b: Seq<M>, e: M)
    requires
        subsequence(a, b),
        in_order(b),
    ensures
        subsequence(placed(a, e), placed(b, e)),
    decreases b.len(),
{
    if b.len() == 0 {
        assert(seq![e].drop_last() =~= b);
        assert(seq![e].drop_last() =~= a);
    } else {
        let front = b.drop_last();
        assert forall|i: int, j: int| 0 <= i <= j < front.len() implies (
        #[trigger] front[i]).at_most(#[trigger] front[j]) by {
            assert(b[i].at_most(b[j]));
        }
        if b.last().at_most(e) {
            assert(b.push(e).drop_last() =~= b);
            if a.len() == 0 {
                assert(seq![e].drop_last() =~= a);
            } else {
                lemma_subsequence_last(a, b);
                M::at_most_transitive(a.last(), b.last(), e);
                assert(a.push(e).drop_last() =~= a);
            }
        } else {
            let t = placed(front, e);
            assert(t.push(b.last()).drop_last() =~= t);
            if a.len() > 0 && a.last() == b.last() && subsequence(a.drop_last(), front) {
                lemma_subsequence_placed(a.drop_last(), front, e);
                let u = placed(a.drop_last(), e);
                assert(u.push(a.last()).drop_last() =~= u);
            } else {
                lemma_subsequence_placed(a, front, e);
            }
        }
    }
}

/// Keeping fewer elements leaves a subsequence of what is selected and sorted.
pub proof fn lemma_narrower_selection<A, M: Order>(
    s: Seq<A>,
    narrow: spec_fn(A) -> bool,
    wide: spec_fn(A) -> bool,
    f: spec_fn(A) -> M,
)
    requires
        forall|x: A| #[trigger] narrow(x) ==> wide(x),
    ensures
        subsequence(
            sorted(s.filter(narrow).map_values(f)),
            sorted(s.filter(wide).map_values(f)),
        ),
    decreases s.len(),
{
    reveal(Seq::filter);
    if s.len() == 0 {
        assert(s.filter(narrow).map_values(f) =~= Seq::empty());
    } else {
        let front = s.drop_last();
        let e = s.last();
        lemma_narrower_selection(front, narrow, wide, f);
        let a = front.filter(narrow).map_values(f);
        let b = front.filter(wide).map_values(f);
        lemma_sorted(b);
        if narrow(e) {
            let t = s.filter(narrow).map_values(f);
            assert(t =~= a.push(f(e)));
            assert(t.drop_last() =~= a);
            assert(sorted(t) == placed(sorted(a), f(e)));
            lemma_subsequence_placed(sorted(a), sorted(b), f(e));
        }
        if wide(e) {
            let t = s.filter(wide).map_values(f);
            assert(t =~= b.push(f(e)));
            assert(t.drop_last() =~= b);
            assert(sorted(t) == placed(sorted(b), f(e)));
            lemma_subsequence_of_placed(sorted(a), sorted(b), f(e));
        }
    }
}

fn merge<T: Ranked>(left: Vec<T>, right: Vec<T>) -> (out: Vec<T>) where <T as View>::V: Order
    ensures
        views(out@) == merged(views(left@), views(right@)),
{
    let mut a = left;
    let mut b = right;
    let ghost goal = merged(views(a@), views(b@));
    let mut tail: Vec<T> = Vec::new();
    while a.len() > 0 && b.len() > 0
        invariant
            merged(views(a@), views(b@)) + views(tail@).reverse() == goal,
        decreases a.len() + b.len(),
    {
        let ghost a0 = views(a@);
        let ghost b0 = views(b@);
        let ghost t0 = views(tail@);
        if a[a.len() - 1].is_at_most(&b[b.len() - 1]) {
            if let Some(e) = b.pop() {
                tail.push(e);
                assert(views(b@) == b0.drop_last());
                assert(views(tail@) == t0.push(b0.last()));
                assert(merged(a0, b0) + t0.reverse() =~= merged(a0, views(b@)) + views(
                    tail@,
                ).reverse());
            }
        } else {
            if let Some(e) = a.pop() {
                tail.push(e);
                assert(views(a@) == a0.drop_last());
                assert(views(tail@) == t0.push(a0.last()));
                assert(merged(a0, b0) + t0.reverse() =~= merged(views(a@), b0) + views(
                    tail@,
                ).reverse());
            }
        }
    }
    let mut out = if a.len() > 0 { a } else { b };
    assert(views(out@) == merged(views(a@), views(b@)));
    while tail.len() > 0
        invariant
            views(out@) + views(tail@).reverse() == goal,
        decreases tail.len(),
    {
        let ghost o0 = views(out@);
        let ghost t0 = views(tail@);
        if let Some(e) = tail.pop() {
            out.push(e);
            assert(views(tail@) == t0.drop_last());
            assert(views(out@) == o0.push(t0.last()));
            assert(o0 + t0.reverse() =~= views(out@) + views(tail@).reverse());
        }
    }
    assert(views(tail@).reverse() =~= Seq::empty());
    assert(views(out@) =~= goal);
    out
}

/// Sorts a list by rank; values of equal rank keep the order they came in.
pub fn sort<T: Ranked>(list: Vec<T>) -> (out: Vec<T>) where <T as View>::V: Order
    ensures
        views(out@) == sorted(views(list@)),
    decreases list@.len(),
{
    let n: usize = list.len();
    if n <= 1 {
        proof {
            reveal_with_fuel(placed_all, 2);
            if n == 1 {
                assert(views(list@).drop_last() =~= Seq::empty());
            }
            assert(views(list@) =~= sorted(views(list@)));
        }
        list
    } else {
        let ghost all = views(list@);
        let mut left = list;
        let right = left.split_off(n / 2);
        proof {
            let l = views(left@);
            let r = views(right@);
            assert(l + r =~= all);
            lemma_placed_all_concat(Seq::empty(), l, r);
            lemma_merged_sorted(sorted(l), r);
        }
        merge(sort(left), sort(right))
    }
}

} // verus!
