//! What holds of texts, distances, instants and sorting, on which everything else
//! is built.

use crate::distance::{cost_fits, distance_fits, grid_distance};
use crate::instant::{no_later, within, Timestamp};
use crate::order::{in_order, lemma_sorted, placed, sorted, Order};
use crate::text::{is_white_space, joined, mentions, text_lt, trimmed};
use vstd::math::abs;
use vstd::prelude::*;

verus! {

/// `a` and `b` agree in their first `k` characters, and then `a` is over or has
/// the smaller character.
pub open spec fn differs_at(a: Seq<char>, b: Seq<char>, k: int) -> bool {
    &&& 0 <= k <= a.len()
    &&& k < b.len()
    &&& forall|i: int| 0 <= i < k ==> a[i] == #[trigger] b[i]
    &&& k == a.len() || a[k] < b[k]
}

/// A text is before another if and only if it has the smaller character at the
/// first place where they differ, or is a proper beginning of the other.
pub proof fn law_the_first_difference_decides(a: Seq<char>, b: Seq<char>)
    ensures
        text_lt(a, b) <==> exists|k: int| differs_at(a, b, k),
    decreases a.len(),
{
    if a.len() == 0 && b.len() > 0 {
        assert(differs_at(a, b, 0));
    } else if a.len() > 0 && b.len() > 0 {
        if a[0] != b[0] {
            if a[0] < b[0] {
                assert(differs_at(a, b, 0));
            }
            if exists|k: int| differs_at(a, b, k) {
                let k = choose|k: int| differs_at(a, b, k);
                if k > 0 {
                    assert(a[0] == b[0]);
                }
            }
        } else {
            let s = a.drop_first();
            let t = b.drop_first();
            law_the_first_difference_decides(s, t);
            if text_lt(s, t) {
                let k = choose|k: int| differs_at(s, t, k);
                assert forall|i: int| 0 <= i < k + 1 implies a[i] == #[trigger] b[i] by {
                    if i > 0 {
                        assert(s[i - 1] == t[i - 1]);
                    }
                }
                if k < s.len() {
                    assert(s[k] == a[k + 1] && t[k] == b[k + 1]);
                }
                assert(differs_at(a, b, k + 1));
            }
            if exists|k: int| differs_at(a, b, k) {
                let k = choose|k: int| differs_at(a, b, k);
                assert(k > 0);
                assert forall|i: int| 0 <= i < k - 1 implies s[i] == #[trigger] t[i] by {
                    assert(a[i + 1] == b[i + 1]);
                }
                assert(differs_at(s, t, k - 1));
            }
        }
    }
}

/// Texts that begin alike are ordered as what follows is.
pub proof fn law_a_common_beginning_does_not_show(
    start: Seq<char>,
    a: Seq<char>,
    b: Seq<char>,
)
    ensures
        text_lt(start + a, start + b) == text_lt(a, b),
    decreases start.len(),
{
    if start.len() == 0 {
        assert(start + a =~= a);
        assert(start + b =~= b);
    } else {
        law_a_common_beginning_does_not_show(start.drop_first(), a, b);
        assert((start + a).drop_first() =~= start.drop_first() + a);
        assert((start + b).drop_first() =~= start.drop_first() + b);
    }
}

/// Lists that are joined one after the other make the same text as the list of
/// both: nothing stands around a single text, and the separator stands between
/// neighbours and nowhere else.
pub proof fn law_joining_is_gradual(a: Seq<Seq<char>>, b: Seq<Seq<char>>, separator: Seq<char>)
    ensures
        a.len() == 0 ==> joined(a, separator).len() == 0,
        a.len() == 1 ==> joined(a, separator) == a[0],
        a.len() > 0 && b.len() > 0 ==> joined(a + b, separator) == joined(a, separator) + separator
            + joined(b, separator),
    decreases b.len(),
{
    if a.len() > 0 && b.len() == 1 {
        assert((a + b).drop_last() =~= a);
        assert((a + b).last() == b[0]);
    } else if a.len() > 0 && b.len() > 1 {
        let front = b.drop_last();
        law_joining_is_gradual(a, front, separator);
        assert((a + b).drop_last() =~= a + front);
        assert((a + b).last() == b.last());
        assert(joined(a + b, separator) =~= joined(a, separator) + separator + joined(
            b,
            separator,
        ));
    }
}

/// Among the characters up to the tilde, those that count as white space are the
/// blank, the tab, and the marks for the end of a line or a page.
pub proof fn law_plain_characters_are_not_white_space(c: char)
    requires
        c <= '~',
    ensures
        is_white_space(c) <==> c == ' ' || c == '\t' || c == '\n' || c == '\r' || c as u32 == 0x0b
            || c as u32 == 0x0c,
{
}

/// White space stands before `i` and from `j` on.
pub open spec fn white_around(s: Seq<char>, i: int, j: int) -> bool {
    &&& 0 <= i <= j <= s.len()
    &&& forall|k: int| 0 <= k < i ==> is_white_space(#[trigger] s[k])
    &&& forall|k: int| j <= k < s.len() ==> is_white_space(#[trigger] s[k])
}

proof fn lemma_trimmed_part(s: Seq<char>) -> (r: (int, int))
    ensures
        white_around(s, r.0, r.1),
        trimmed(s) == s.subrange(r.0, r.1),
        r.0 < r.1 ==> !is_white_space(s[r.0]) && !is_white_space(s[r.1 - 1]),
    decreases s.len(),
{
    if s.len() == 0 {
        assert(s.subrange(0, 0) =~= s);
        (0, 0)
    } else if is_white_space(s[0]) {
        let t = s.drop_first();
        let r = lemma_trimmed_part(t);
        assert(s.subrange(r.0 + 1, r.1 + 1) =~= t.subrange(r.0, r.1));
        assert forall|k: int| 0 <= k < r.0 + 1 implies is_white_space(#[trigger] s[k]) by {
            if k > 0 {
                assert(t[k - 1] == s[k]);
            }
        }
        assert forall|k: int| r.1 + 1 <= k < s.len() implies is_white_space(#[trigger] s[k]) by {
            assert(t[k - 1] == s[k]);
        }
        (r.0 + 1, r.1 + 1)
    } else if is_white_space(s.last()) {
        let t = s.drop_last();
        let r = lemma_trimmed_part(t);
        assert(s.subrange(r.0, r.1) =~= t.subrange(r.0, r.1));
        assert forall|k: int| 0 <= k < r.0 implies is_white_space(#[trigger] s[k]) by {
            assert(t[k] == s[k]);
        }
        assert forall|k: int| r.1 <= k < s.len() implies is_white_space(#[trigger] s[k]) by {
            if k < t.len() {
                assert(t[k] == s[k]);
            }
        }
        r
    } else {
        assert(s.subrange(0, s.len() as int) =~= s);
        (0, s.len() as int)
    }
}

/// A trimmed text is what is left of the text when white space is taken from
/// both ends, and has none left at either.
pub proof fn law_trimming_takes_white_space(s: Seq<char>)
    ensures
        exists|i: int, j: int| #[trigger]
            white_around(s, i, j) && trimmed(s) == s.subrange(i, j),
        trimmed(s).len() > 0 ==> !is_white_space(trimmed(s)[0]) && !is_white_space(
            trimmed(s)[trimmed(s).len() - 1],
        ),
{
    let r = lemma_trimmed_part(s);
    assert(white_around(s, r.0, r.1));
}

/// A text mentions a part if and only if it is the part with something before it
/// and something behind it.
pub proof fn law_parts_stand_between(s: Seq<char>, part: Seq<char>)
    ensures
        mentions(s, part) <==> exists|before: Seq<char>, behind: Seq<char>|
            s == #[trigger] (before + part + behind),
{
    if mentions(s, part) {
        let i = choose|i: int|
            0 <= i && i + part.len() <= s.len() && #[trigger] s.subrange(i, i + part.len())
                == part;
        let before = s.take(i);
        let behind = s.skip(i + part.len());
        assert(s =~= before + part + behind);
    }
    if exists|before: Seq<char>, behind: Seq<char>| s == #[trigger] (before + part + behind) {
        let (before, behind) = choose|before: Seq<char>, behind: Seq<char>|
            s == #[trigger] (before + part + behind);
        let i = before.len() as int;
        assert(s.subrange(i, i + part.len()) =~= part);
    }
}

/// The distance is the way across plus the way along. It is the same both ways,
/// nothing if and only if the places are the same, and no detour is shorter.
pub proof fn law_distances(a: (int, int), b: (int, int), c: (int, int))
    ensures
        grid_distance(a, b) == abs(a.0 - b.0) + abs(a.1 - b.1),
        grid_distance(a, b) == grid_distance(b, a),
        grid_distance(a, b) == 0 <==> a == b,
        grid_distance(a, c) <= grid_distance(a, b) + grid_distance(b, c),
{
}

/// A cost can be computed if and only if the ways, the distance and the cost are
/// each between the least and the greatest number of 64 bits.
pub proof fn law_costs_that_fit(a: (int, int), b: (int, int), penalty: int)
    ensures
        distance_fits(a, b) <==> abs(a.0 - b.0) + abs(a.1 - b.1) <= 0x7fff_ffff_ffff_ffff,
        cost_fits(a, b, penalty) <==> {
            &&& abs(a.0 - b.0) + abs(a.1 - b.1) <= 0x7fff_ffff_ffff_ffff
            &&& abs(a.0 - b.0) + abs(a.1 - b.1) + penalty <= 0x7fff_ffff_ffff_ffff
            &&& -0x8000_0000_0000_0000 <= abs(a.0 - b.0) + abs(a.1 - b.1) + penalty
        },
{
}

/// Instants are ordered by their seconds and then by their nanoseconds, and an
/// interval holds its first instant and not its last.
pub proof fn law_instants_are_ordered(a: Timestamp, b: Timestamp, at: Timestamp)
    ensures
        no_later(a@, b@) <==> a@.0 < b@.0 || (a@.0 == b@.0 && a@.1 <= b@.1),
        within(a@, b@, at@) <==> {
            &&& a@.0 < at@.0 || (a@.0 == at@.0 && a@.1 <= at@.1)
            &&& at@.0 < b@.0 || (at@.0 == b@.0 && at@.1 < b@.1)
        },
        no_later(a@, b@) || no_later(b@, a@),
{
}

/// The elements of the same rank as `e`.
pub open spec fn level_with<M: Order>(e: M) -> spec_fn(M) -> bool {
    |x: M| x.at_most(e) && e.at_most(x)
}

proof fn lemma_one_more<M>(s: Seq<M>, x: M, keep: spec_fn(M) -> bool)
    ensures
        s.push(x).filter(keep) == if keep(x) {
            s.filter(keep).push(x)
        } else {
            s.filter(keep)
        },
{
    reveal(Seq::filter);
    assert(s.push(x).drop_last() =~= s);
}

proof fn lemma_placed_is_stable<M: Order>(s: Seq<M>, x: M, e: M)
    ensures
        placed(s, x).filter(level_with(e)) == s.push(x).filter(level_with(e)),
    decreases s.len(),
{
    let keep = level_with(e);
    if s.len() == 0 {
        assert(seq![x] =~= s.push(x));
    } else if !s.last().at_most(x) {
        let front = s.drop_last();
        let last = s.last();
        lemma_placed_is_stable(front, x, e);
        lemma_one_more(placed(front, x), last, keep);
        lemma_one_more(front, x, keep);
        lemma_one_more(front, last, keep);
        assert(s =~= front.push(last));
        lemma_one_more(s, x, keep);
        if keep(x) && keep(last) {
            M::at_most_transitive(last, e, x);
        }
    }
}

/// Sorting is stable: among elements of equal rank the order is the one in which
/// they came. What comes out is in order and holds the same elements as often.
pub proof fn law_sorting_is_stable<M: Order>(s: Seq<M>, e: M)
    ensures
        sorted(s).filter(level_with(e)) == s.filter(level_with(e)),
        in_order(sorted(s)),
        sorted(s).to_multiset() == s.to_multiset(),
    decreases s.len(),
{
    lemma_sorted(s);
    if s.len() > 0 {
        let front = s.drop_last();
        law_sorting_is_stable(front, e);
        lemma_placed_is_stable(sorted(front), s.last(), e);
        lemma_one_more(sorted(front), s.last(), level_with(e));
        lemma_one_more(front, s.last(), level_with(e));
        assert(s =~= front.push(s.last()));
    }
}

} // verus!
