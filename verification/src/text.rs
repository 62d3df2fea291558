//! Texts as sequences of characters: their order and their conversion from
//! and to strings.

use vstd::prelude::*;
use vstd::utf8::*;

verus! {

/// Lexicographic order on texts by code point, decided from position `i` on.
pub open spec fn text_lt_from(a: Seq<char>, b: Seq<char>, i: int) -> bool
    decreases a.len() - i,
{
    if i < 0 || i >= b.len() {
        false
    } else if i >= a.len() {
        true
    } else if a[i] != b[i] {
        a[i] < b[i]
    } else {
        text_lt_from(a, b, i + 1)
    }
}

/// `a` comes strictly before `b` in lexicographic code point order.
pub open spec fn text_lt(a: Seq<char>, b: Seq<char>) -> bool {
    text_lt_from(a, b, 0)
}

/// The two texts agree on their first `i` characters.
pub open spec fn agree_to(a: Seq<char>, b: Seq<char>, i: int) -> bool {
    &&& 0 <= i <= a.len()
    &&& i <= b.len()
    &&& forall|j: int| 0 <= j < i ==> a[j] == b[j]
}

proof fn lemma_lt_from_irreflexive(a: Seq<char>, i: int)
    requires
        0 <= i,
    ensures
        !text_lt_from(a, a, i),
    decreases a.len() - i,
{
    if i < a.len() {
        lemma_lt_from_irreflexive(a, i + 1);
    }
}

proof fn lemma_lt_from_transitive(a: Seq<char>, b: Seq<char>, c: Seq<char>, i: int)
    requires
        0 <= i,
        text_lt_from(a, b, i),
        text_lt_from(b, c, i),
    ensures
        text_lt_from(a, c, i),
    decreases b.len() - i,
{
    if i < a.len() && a[i] == b[i] && b[i] == c[i] {
        lemma_lt_from_transitive(a, b, c, i + 1);
    }
}

proof fn lemma_lt_from_total(a: Seq<char>, b: Seq<char>, i: int)
    requires
        agree_to(a, b, i),
        !text_lt_from(a, b, i),
        !text_lt_from(b, a, i),
    ensures
        a == b,
    decreases a.len() - i,
{
    if i < a.len() && i < b.len() {
        lemma_lt_from_total(a, b, i + 1);
    } else {
        assert(a =~= b);
    }
}

/// No text comes before itself.
pub proof fn lemma_text_lt_irreflexive(a: Seq<char>)
    ensures
        !text_lt(a, a),
{
    lemma_lt_from_irreflexive(a, 0);
}

/// The order is transitive.
pub proof fn lemma_text_lt_transitive(a: Seq<char>, b: Seq<char>, c: Seq<char>)
    requires
        text_lt(a, b),
        text_lt(b, c),
    ensures
        text_lt(a, c),
{
    lemma_lt_from_transitive(a, b, c, 0);
}

/// Two texts are equal, or one comes before the other, and never both ways.
pub proof fn lemma_text_lt_total(a: Seq<char>, b: Seq<char>)
    ensures
        text_lt(a, b) || text_lt(b, a) || a == b,
        !(text_lt(a, b) && text_lt(b, a)),
{
    if !text_lt(a, b) && !text_lt(b, a) {
        lemma_lt_from_total(a, b, 0);
    }
    if text_lt(a, b) && text_lt(b, a) {
        lemma_lt_from_transitive(a, b, a, 0);
        lemma_lt_from_irreflexive(a, 0);
    }
}

/// The characters of a text, in order.
pub fn chars_of(s: &str) -> (v: Vec<char>)
    ensures
        v@ == s@,
{
    let mut v: Vec<char> = Vec::new();
    for c in it: s.chars()
        invariant
            it.seq() == s@,
            v@ == it.seq().take(it.index()),
    {
        v.push(c);
    }
    v
}

/// `String::from_iter` over the characters of `v`: the text made of exactly
/// those characters, in order.
#[verifier::external_body]
pub(crate) fn text_of_chars(v: &Vec<char>) -> (s: String)
    ensures
        s@ == v@,
{
    String::from_iter(v.iter())
}

/// `String::from_utf8`: succeeds exactly on well-formed UTF-8, and then gives
/// the text that those bytes encode.
#[verifier::external_body]
pub(crate) fn text_of_utf8(bytes: Vec<u8>) -> (r: Option<String>)
    ensures
        r is Some <==> valid_utf8(bytes@),
        r is Some ==> r->0@ == decode_utf8(bytes@),
{
    String::from_utf8(bytes).ok()
}

/// Decides whether two character sequences are equal.
pub fn same_chars(a: &Vec<char>, b: &Vec<char>) -> (r: bool)
    ensures
        r == (a@ == b@),
{
    if a.len() != b.len() {
        return false;
    }
    let mut i: usize = 0;
    while i < a.len()
        invariant
            a.len() == b.len(),
            agree_to(a@, b@, i as int),
        decreases a.len() - i,
    {
        if a[i] != b[i] {
            return false;
        }
        i += 1;
    }
    assert(a@ =~= b@);
    true
}

/// Decides whether `a` comes strictly before `b`.
pub fn chars_precede(a: &Vec<char>, b: &Vec<char>) -> (r: bool)
    ensures
        r == text_lt(a@, b@),
{
    let mut i: usize = 0;
    loop
        invariant
            i <= a.len(),
            i <= b.len(),
            text_lt(a@, b@) == text_lt_from(a@, b@, i as int),
        decreases a.len() - i,
    {
        if i >= b.len() {
            return false;
        }
        if i >= a.len() {
            return true;
        }
        if a[i] != b[i] {
            return a[i] < b[i];
        }
        i += 1;
    }
}

/// Decides whether two texts are equal.
pub fn same_text(a: &str, b: &str) -> (r: bool)
    ensures
        r == (a@ == b@),
{
    let x = chars_of(a);
    let y = chars_of(b);
    same_chars(&x, &y)
}

/// Decides whether text `a` comes strictly before text `b` in lexicographic
/// code point order.
pub fn text_precedes(a: &str, b: &str) -> (r: bool)
    ensures
        r == text_lt(a@, b@),
{
    let x = chars_of(a);
    let y = chars_of(b);
    chars_precede(&x, &y)
}

} // verus!
