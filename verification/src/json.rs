//! JSON text, as far as plain text and lists of it are concerned, and the text
//! of bytes.

use crate::order::views;
use crate::text::joined;
use vstd::prelude::*;
use vstd::utf8::{decode_utf8, valid_utf8};

verus! {

/// A hexadecimal digit, in lower case.
pub open spec fn hex_digit(n: int) -> char {
    if n < 10 {
        ('0' as int + n) as char
    } else {
        ('a' as int + n - 10) as char
    }
}

/// A character as it stands inside a JSON string.
pub open spec fn escaped(c: char) -> Seq<char> {
    let n = c as int;
    if c == '"' {
        seq!['\\', '"']
    } else if c == '\\' {
        seq!['\\', '\\']
    } else if n == 0x08 {
        seq!['\\', 'b']
    } else if n == 0x09 {
        seq!['\\', 't']
    } else if n == 0x0a {
        seq!['\\', 'n']
    } else if n == 0x0c {
        seq!['\\', 'f']
    } else if n == 0x0d {
        seq!['\\', 'r']
    } else if n < 0x20 {
        seq!['\\', 'u', '0', '0', hex_digit(n / 16), hex_digit(n % 16)]
    } else {
        seq![c]
    }
}

/// What stands between the quotes of the JSON string for a text.
pub open spec fn escaped_text(s: Seq<char>) -> Seq<char>
    decreases s.len(),
{
    if s.len() == 0 {
        Seq::empty()
    } else {
        escaped(s[0]) + escaped_text(s.drop_first())
    }
}

/// The JSON string for a text.
#[verifier::opaque]
pub open spec fn json_text(s: Seq<char>) -> Seq<char> {
    seq!['"'] + escaped_text(s) + seq!['"']
}

/// Characters are told apart by how they are written, whatever follows.
proof fn lemma_escaped_apart(c: char, d: char, x: Seq<char>, y: Seq<char>)
    requires
        escaped(c) + x == escaped(d) + y,
    ensures
        c == d,
        x == y,
{
    let a = escaped(c) + x;
    let b = escaped(d) + y;
    assert(a[0] == escaped(c)[0]);
    assert(b[0] == escaped(d)[0]);
    if a[0] == '\\' {
        assert(a[1] == escaped(c)[1]);
        assert(b[1] == escaped(d)[1]);
        if a[1] == 'u' {
            assert(a[4] == escaped(c)[4] && a[5] == escaped(c)[5]);
            assert(b[4] == escaped(d)[4] && b[5] == escaped(d)[5]);
            let m = c as int;
            let n = d as int;
            assert(hex_digit(m / 16) == hex_digit(n / 16));
            assert(hex_digit(m % 16) == hex_digit(n % 16));
            assert(m == n);
        }
    }
    assert(c == d);
    let k = escaped(c).len() as int;
    assert(x =~= a.skip(k));
    assert(y =~= b.skip(k));
}

proof fn lemma_escaped_text_ends(s: Seq<char>, t: Seq<char>, x: Seq<char>, y: Seq<char>)
    requires
        escaped_text(s) + seq!['"'] + x == escaped_text(t) + seq!['"'] + y,
    ensures
        s == t,
        x == y,
    decreases s.len(),
{
    let a = escaped_text(s) + seq!['"'] + x;
    let b = escaped_text(t) + seq!['"'] + y;
    if s.len() == 0 && t.len() == 0 {
        assert(s =~= t);
        assert(x =~= a.skip(1));
        assert(y =~= b.skip(1));
    } else if s.len() == 0 {
        assert(a[0] == '"');
        assert(b[0] == escaped(t[0])[0]);
    } else if t.len() == 0 {
        assert(b[0] == '"');
        assert(a[0] == escaped(s[0])[0]);
    } else {
        let p = escaped_text(s.drop_first()) + seq!['"'] + x;
        let q = escaped_text(t.drop_first()) + seq!['"'] + y;
        assert(a =~= escaped(s[0]) + p);
        assert(b =~= escaped(t[0]) + q);
        lemma_escaped_apart(s[0], t[0], p, q);
        lemma_escaped_text_ends(s.drop_first(), t.drop_first(), x, y);
        assert(s =~= seq![s[0]] + s.drop_first());
        assert(t =~= seq![t[0]] + t.drop_first());
    }
}

/// A JSON string tells where it ends and which text it stands for, whatever
/// follows.
pub proof fn lemma_json_text_ends(s: Seq<char>, t: Seq<char>, x: Seq<char>, y: Seq<char>)
    requires
        json_text(s) + x == json_text(t) + y,
    ensures
        s == t,
        x == y,
{
    reveal(json_text);
    let a = json_text(s) + x;
    let b = json_text(t) + y;
    assert(a.skip(1) =~= escaped_text(s) + seq!['"'] + x);
    assert(b.skip(1) =~= escaped_text(t) + seq!['"'] + y);
    lemma_escaped_text_ends(s, t, x, y);
}

/// The JSON array for a list of texts.
pub open spec fn json_list(list: Seq<Seq<char>>) -> Seq<char> {
    seq!['['] + joined(list.map_values(|s: Seq<char>| json_text(s)), seq![',']) + seq![']']
}

/// The list of texts that `serde_json` reads in a JSON text, if it holds one.
pub uninterp spec fn json_list_reading(text: Seq<char>) -> Option<Seq<Seq<char>>>;

/// The text that `String::from_utf8_lossy` makes of bytes.
pub uninterp spec fn lossy_text(bytes: Seq<u8>) -> Seq<char>;

/// `serde_json::to_string` on a text: the text in quotes, with quotes,
/// backslashes and control characters escaped.
#[verifier::external_body]
pub(crate) fn quote(s: &str) -> (r: String)
    ensures
        r@ == json_text(s@),
{
    serde_json::to_string(s).unwrap()
}

/// `serde_json::to_string` on a list of texts: the JSON strings for the texts,
/// with commas between them, in brackets. `serde_json::from_str` reads the list
/// back.
#[verifier::external_body]
pub(crate) fn write_list(list: &Vec<String>) -> (r: String)
    ensures
        r@ == json_list(views(list@)),
        json_list_reading(r@) == Some(views(list@)),
{
    serde_json::to_string(list).unwrap()
}

/// `serde_json::from_str` into a list of texts; its error is not looked at.
/// What it reads depends on the text alone.
#[verifier::external_body]
pub(crate) fn read_list(text: &str) -> (r: Option<Vec<String>>)
    ensures
        match r {
            Some(v) => json_list_reading(text@) == Some(views(v@)),
            None => json_list_reading(text@) is None,
        },
{
    serde_json::from_str::<Vec<String>>(text).ok()
}

/// `String::from_utf8_lossy`: the text that the bytes encode, where they are
/// valid UTF-8. What becomes of other bytes depends on the bytes alone.
#[verifier::external_body]
pub(crate) fn lossy(bytes: &[u8]) -> (r: String)
    ensures
        r@ == lossy_text(bytes@),
        valid_utf8(bytes@) ==> r@ == decode_utf8(bytes@),
{
    String::from_utf8_lossy(bytes).to_string()
}

} // verus!
