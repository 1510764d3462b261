//! Text: its order, and the few operations on it that routing needs.

use crate::order::{views, Order, Ranked};
use vstd::prelude::*;
use vstd::string::*;

verus! {

broadcast use {vstd::string::axiom_spec_iter, vstd::string::next_postcondition};

/// Lexicographic order by code point.
pub open spec fn text_lt(a: Seq<char>, b: Seq<char>) -> bool
    decreases a.len(),
{
    if b.len() == 0 {
        false
    } else if a.len() == 0 {
        true
    } else if a[0] == b[0] {
        text_lt(a.drop_first(), b.drop_first())
    } else {
        a[0] < b[0]
    }
}

pub proof fn lemma_text_lt_irreflexive(a: Seq<char>)
    ensures
        !text_lt(a, a),
    decreases a.len(),
{
    if a.len() > 0 {
        lemma_text_lt_irreflexive(a.drop_first());
    }
}

pub proof fn lemma_text_lt_transitive(a: Seq<char>, b: Seq<char>, c: Seq<char>)
    requires
        text_lt(a, b),
        text_lt(b, c),
    ensures
        text_lt(a, c),
    decreases a.len(),
{
    if a.len() > 0 && a[0] == b[0] && b[0] == c[0] {
        lemma_text_lt_transitive(a.drop_first(), b.drop_first(), c.drop_first());
    }
}

pub proof fn lemma_text_lt_asymmetric(a: Seq<char>, b: Seq<char>)
    requires
        text_lt(a, b),
    ensures
        !text_lt(b, a),
        a != b,
{
    if text_lt(b, a) {
        lemma_text_lt_transitive(a, b, a);
    }
    lemma_text_lt_irreflexive(a);
}

pub proof fn lemma_text_lt_connected(a: Seq<char>, b: Seq<char>)
    ensures
        text_lt(a, b) || a == b || text_lt(b, a),
    decreases a.len(),
{
    if a.len() == 0 || b.len() == 0 {
        if a.len() == b.len() {
            assert(a =~= b);
        }
    } else if a[0] == b[0] {
        lemma_text_lt_connected(a.drop_first(), b.drop_first());
        if a.drop_first() == b.drop_first() {
            assert(a =~= seq![a[0]] + a.drop_first());
            assert(b =~= seq![b[0]] + b.drop_first());
        }
    }
}

impl Order for Seq<char> {
    open spec fn at_most(self, other: Self) -> bool {
        !text_lt(other, self)
    }

    proof fn at_most_total(a: Self, b: Self) {
        if text_lt(a, b) {
            lemma_text_lt_asymmetric(a, b);
        }
    }

    proof fn at_most_transitive(a: Self, b: Self, c: Self) {
        lemma_text_lt_connected(a, b);
        lemma_text_lt_connected(b, c);
        if text_lt(a, b) && text_lt(b, c) {
            lemma_text_lt_transitive(a, b, c);
        }
        if text_lt(a, c) {
            lemma_text_lt_asymmetric(a, c);
        }
        lemma_text_lt_irreflexive(a);
    }
}

/// Texts of equal rank are the same text.
pub proof fn lemma_text_at_most_antisymmetric(a: Seq<char>, b: Seq<char>)
    requires
        a.at_most(b),
        b.at_most(a),
    ensures
        a == b,
{
    lemma_text_lt_connected(a, b);
}

/// How two texts stand to each other.
pub enum Relation {
    Before,
    Same,
    After,
}

/// Compares two texts lexicographically.
pub fn relate(a: &str, b: &str) -> (r: Relation)
    ensures
        match r {
            Relation::Before => text_lt(a@, b@),
            Relation::Same => a@ == b@,
            Relation::After => text_lt(b@, a@),
        },
{
    let mut x = a.chars();
    let mut y = b.chars();
    let ghost mut k: int = 0;
    assert(a@.skip(0) =~= a@);
    assert(b@.skip(0) =~= b@);
    loop
        invariant
            0 <= k <= a@.len(),
            k <= b@.len(),
            vstd::std_specs::iter::IteratorSpec::remaining(&x) == a@.skip(k),
            vstd::std_specs::iter::IteratorSpec::remaining(&y) == b@.skip(k),
            a@.take(k) == b@.take(k),
            text_lt(a@, b@) == text_lt(a@.skip(k), b@.skip(k)),
            text_lt(b@, a@) == text_lt(b@.skip(k), a@.skip(k)),
        decreases a@.len() - k,
    {
        let left = x.next();
        let right = y.next();
        match left {
            Some(c) => match right {
                Some(d) => {
                    if c < d {
                        return Relation::Before;
                    }
                    if d < c {
                        return Relation::After;
                    }
                    proof {
                        assert(a@.skip(k).drop_first() =~= a@.skip(k + 1));
                        assert(b@.skip(k).drop_first() =~= b@.skip(k + 1));
                        assert(a@.take(k + 1) =~= a@.take(k).push(a@[k]));
                        assert(b@.take(k + 1) =~= b@.take(k).push(b@[k]));
                        k = k + 1;
                    }
                },
                None => {
                    return Relation::After;
                },
            },
            None => match right {
                Some(_) => {
                    return Relation::Before;
                },
                None => {
                    assert(a@ =~= a@.take(k));
                    assert(b@ =~= b@.take(k));
                    return Relation::Same;
                },
            },
        }
    }
}

/// Whether two texts are the same.
pub fn same(a: &str, b: &str) -> (r: bool)
    ensures
        r == (a@ == b@),
{
    match relate(a, b) {
        Relation::Before => {
            proof {
                lemma_text_lt_asymmetric(a@, b@);
            }
            false
        },
        Relation::Same => true,
        Relation::After => {
            proof {
                lemma_text_lt_asymmetric(b@, a@);
            }
            false
        },
    }
}

/// Whether `a` stands before `b`.
pub fn less(a: &str, b: &str) -> (r: bool)
    ensures
        r == text_lt(a@, b@),
{
    match relate(a, b) {
        Relation::Before => true,
        Relation::Same => {
            proof {
                lemma_text_lt_irreflexive(a@);
            }
            false
        },
        Relation::After => {
            proof {
                lemma_text_lt_asymmetric(b@, a@);
            }
            false
        },
    }
}

impl Ranked for String {
    fn is_at_most(&self, other: &Self) -> (r: bool) {
        !less(other.as_str(), self.as_str())
    }
}

/// The text behind an optional string.
pub open spec fn optional_text(s: Option<String>) -> Option<Seq<char>> {
    match s {
        Some(t) => Some(t@),
        None => None,
    }
}

/// Whether a list of texts holds `item`.
pub fn holds(list: &Vec<String>, item: &str) -> (r: bool)
    ensures
        r == views(list@).contains(item@),
{
    let mut i: usize = 0;
    while i < list.len()
        invariant
            i <= list@.len(),
            forall|j: int| 0 <= j < i ==> #[trigger] views(list@)[j] != item@,
        decreases list@.len() - i,
    {
        if same(list[i].as_str(), item) {
            assert(views(list@)[i as int] == item@);
            return true;
        }
        i = i + 1;
    }
    false
}

/// The texts of a list put together, with `separator` between neighbours.
pub open spec fn joined(list: Seq<Seq<char>>, separator: Seq<char>) -> Seq<char>
    decreases list.len(),
{
    if list.len() == 0 {
        Seq::empty()
    } else if list.len() == 1 {
        list[0]
    } else {
        joined(list.drop_last(), separator) + separator + list.last()
    }
}

/// Puts the texts of a list together, with `separator` between neighbours.
pub fn join(list: &[String], separator: &str) -> (r: String)
    ensures
        r@ == joined(views(list@), separator@),
{
    let mut r = String::new();
    let mut i: usize = 0;
    assert(views(list@).take(0) =~= Seq::empty());
    while i < list.len()
        invariant
            i <= list@.len(),
            r@ == joined(views(list@).take(i as int), separator@),
        decreases list@.len() - i,
    {
        proof {
            let next = views(list@).take(i + 1);
            assert(next.drop_last() =~= views(list@).take(i as int));
            assert(next.last() == views(list@)[i as int]);
        }
        if i > 0 {
            r.append(separator);
        }
        r.append(list[i].as_str());
        i = i + 1;
        proof {
            if i == 1 {
                assert(r@ =~= views(list@)[0]);
            }
        }
    }
    assert(views(list@).take(i as int) =~= views(list@));
    r
}

/// A copy of a list of texts.
pub fn copied(list: &Vec<String>) -> (r: Vec<String>)
    ensures
        r@ == list@,
{
    let mut r: Vec<String> = Vec::new();
    let mut i: usize = 0;
    while i < list.len()
        invariant
            i <= list@.len(),
            r@ == list@.take(i as int),
        decreases list@.len() - i,
    {
        r.push(list[i].clone());
        i = i + 1;
        assert(r@ =~= list@.take(i as int));
    }
    assert(r@ =~= list@);
    r
}

/// The characters with the Unicode property White_Space.
pub open spec fn is_white_space(c: char) -> bool {
    let n = c as u32;
    ||| 0x09 <= n <= 0x0d
    ||| n == 0x20
    ||| n == 0x85
    ||| n == 0xa0
    ||| n == 0x1680
    ||| 0x2000 <= n <= 0x200a
    ||| n == 0x2028
    ||| n == 0x2029
    ||| n == 0x202f
    ||| n == 0x205f
    ||| n == 0x3000
}

/// Nothing but white space.
pub open spec fn is_blank(s: Seq<char>) -> bool {
    forall|i: int| 0 <= i < s.len() ==> is_white_space(#[trigger] s[i])
}

/// `s` without the white space at its beginning and its end.
pub open spec fn trimmed(s: Seq<char>) -> Seq<char>
    decreases s.len(),
{
    if s.len() == 0 {
        s
    } else if is_white_space(s[0]) {
        trimmed(s.drop_first())
    } else if is_white_space(s.last()) {
        trimmed(s.drop_last())
    } else {
        s
    }
}

/// Only blank text is empty once trimmed.
pub proof fn lemma_trimmed_blank(s: Seq<char>)
    ensures
        (trimmed(s).len() == 0) == is_blank(s),
    decreases s.len(),
{
    if s.len() > 0 {
        if is_white_space(s[0]) {
            let t = s.drop_first();
            lemma_trimmed_blank(t);
            if is_blank(t) {
                assert forall|i: int| 0 <= i < s.len() implies is_white_space(#[trigger] s[i]) by {
                    if i > 0 {
                        assert(is_white_space(t[i - 1]));
                    }
                }
            } else {
                let i = choose|i: int| 0 <= i < t.len() && !is_white_space(#[trigger] t[i]);
                assert(!is_white_space(s[i + 1]));
            }
        } else if is_white_space(s.last()) {
            lemma_trimmed_blank(s.drop_last());
            assert(!is_white_space(s.drop_last()[0]));
        }
    }
}

/// Whether a character has the Unicode property White_Space.
fn is_space(c: char) -> (r: bool)
    ensures
        r == is_white_space(c),
{
    let n: u32 = c as u32;
    (0x09 <= n && n <= 0x0d) || n == 0x20 || n == 0x85 || n == 0xa0 || n == 0x1680 || (0x2000 <= n
        && n <= 0x200a) || n == 0x2028 || n == 0x2029 || n == 0x202f || n == 0x205f || n == 0x3000
}

/// A text without the white space at its beginning and its end.
pub fn trim(s: &str) -> (r: &str)
    ensures
        r@ == trimmed(s@),
{
    let n: usize = s.unicode_len();
    let mut i: usize = 0;
    assert(s@.subrange(0, n as int) =~= s@);
    while i < n && is_space(s.get_char(i))
        invariant
            i <= n == s@.len(),
            trimmed(s@) == trimmed(s@.subrange(i as int, n as int)),
        decreases n - i,
    {
        assert(s@.subrange(i as int, n as int).drop_first() =~= s@.subrange(i + 1, n as int));
        i = i + 1;
    }
    let mut j: usize = n;
    while j > i && is_space(s.get_char(j - 1))
        invariant
            i <= j <= n == s@.len(),
            i < n ==> !is_white_space(s@[i as int]),
            trimmed(s@) == trimmed(s@.subrange(i as int, j as int)),
        decreases j,
    {
        let ghost rest = s@.subrange(i as int, j as int);
        assert(rest[0] == s@[i as int]);
        assert(rest.last() == s@[j - 1]);
        assert(rest.drop_last() =~= s@.subrange(i as int, j - 1));
        j = j - 1;
    }
    let ghost rest = s@.subrange(i as int, j as int);
    assert(rest.len() > 0 ==> rest[0] == s@[i as int] && rest.last() == s@[j - 1]);
    s.substring_char(i, j)
}

/// `part` stands somewhere in `s`.
pub open spec fn mentions(s: Seq<char>, part: Seq<char>) -> bool {
    exists|i: int|
        0 <= i && i + part.len() <= s.len() && #[trigger] s.subrange(i, i + part.len()) == part
}

/// Whether `part` stands somewhere in a text.
pub fn has_part(s: &str, part: &str) -> (r: bool)
    ensures
        r == mentions(s@, part@),
{
    let n: usize = s.unicode_len();
    let m: usize = part.unicode_len();
    let mut i: usize = 0;
    while i <= n && m <= n - i
        invariant
            i <= n + 1,
            n == s@.len(),
            m == part@.len(),
            forall|k: int|
                0 <= k < i && k + m <= n ==> #[trigger] s@.subrange(k, k + m) != part@,
        decreases n + 1 - i,
    {
        if same(s.substring_char(i, i + m), part) {
            return true;
        }
        if i == n {
            return false;
        }
        i = i + 1;
    }
    false
}

/// Whether a text holds nothing but white space.
pub fn blank(s: &str) -> (r: bool)
    ensures
        r == is_blank(s@),
{
    proof {
        lemma_trimmed_blank(s@);
    }
    trim(s).is_empty()
}

} // verus!
