//! Texts as sequences of characters: their order, and comparing them.

use crate::text::{ascii_lower, is_ascii, lower_case, to_lower_char};
use vstd::prelude::*;

verus! {

/// `a` comes before `b`: character by character, and a prefix before the longer
/// text.
pub open spec fn precedes(a: Seq<char>, b: Seq<char>) -> bool
    decreases a.len(),
{
    if b.len() == 0 {
        false
    } else if a.len() == 0 {
        true
    } else if a[0] == b[0] {
        precedes(a.skip(1), b.skip(1))
    } else {
        a[0] < b[0]
    }
}

/// Of two different texts exactly one comes first.
pub proof fn lemma_precedes_total(a: Seq<char>, b: Seq<char>)
    ensures
        a == b ==> !precedes(a, b),
        a != b ==> precedes(a, b) != precedes(b, a),
    decreases a.len(),
{
    if a.len() > 0 && b.len() > 0 && a[0] == b[0] {
        lemma_precedes_total(a.skip(1), b.skip(1));
        assert(a =~= seq![a[0]] + a.skip(1));
        assert(b =~= seq![b[0]] + b.skip(1));
    } else if a.len() == 0 && b.len() == 0 {
        assert(a =~= b);
    }
}

/// What comes before a text comes before what follows the text.
pub proof fn lemma_precedes_transitive(a: Seq<char>, b: Seq<char>, c: Seq<char>)
    requires
        precedes(a, b),
        precedes(b, c),
    ensures
        precedes(a, c),
    decreases a.len(),
{
    if a.len() > 0 && a[0] == b[0] && b[0] == c[0] {
        lemma_precedes_transitive(a.skip(1), b.skip(1), c.skip(1));
    }
}

/// The characters of a text.
pub fn chars_of(text: &str) -> (chars: Vec<char>)
    ensures
        chars@ == text@,
{
    let mut chars: Vec<char> = Vec::new();
    for c in it: text.chars()
        invariant
            it.seq() == text@,
            chars@ == text@.take(it.index() as int),
    {
        chars.push(c);
        assert(chars@ =~= text@.take(it.index() + 1));
    }
    assert(text@.take(text@.len() as int) =~= text@);
    chars
}

/// The characters of a text in lower case.
pub fn lower_chars(text: &str) -> (chars: Vec<char>)
    ensures
        chars@ == lower_case(text@),
        is_ascii(text@) ==> chars@ == text@.map_values(|c: char| ascii_lower(c)),
{
    let mut chars: Vec<char> = Vec::new();
    for c in it: text.chars()
        invariant
            it.seq() == text@,
            chars@ == lower_case(text@.take(it.index() as int)),
            is_ascii(text@) ==> chars@ == text@.take(it.index() as int).map_values(
                |c: char| ascii_lower(c),
            ),
    {
        let ghost done = text@.take(it.index() as int);
        let ghost more = text@.take(it.index() + 1);
        let ghost before = chars@;
        let lower: String = to_lower_char(c);
        let mut next: Vec<char> = chars_of(lower.as_str());
        chars.append(&mut next);
        proof {
            assert(more.drop_last() =~= done);
            assert(more.last() == c);
            assert(chars@ =~= before + lower@);
            if is_ascii(text@) {
                assert(text@[it.index() as int] == c);
                assert(chars@ =~= more.map_values(|c: char| ascii_lower(c)));
            }
        }
    }
    assert(text@.take(text@.len() as int) =~= text@);
    chars
}

/// True when `a` comes before `b`.
pub fn comes_before(a: &Vec<char>, b: &Vec<char>) -> (first: bool)
    ensures
        first == precedes(a@, b@),
{
    let mut k: usize = 0;
    assert(a@.skip(0) =~= a@);
    assert(b@.skip(0) =~= b@);
    loop
        invariant
            k <= a@.len(),
            k <= b@.len(),
            precedes(a@, b@) == precedes(a@.skip(k as int), b@.skip(k as int)),
        decreases a@.len() - k,
    {
        if k >= b.len() {
            return false;
        }
        if k >= a.len() {
            return true;
        }
        if a[k] != b[k] {
            return a[k] < b[k];
        }
        assert(a@.skip(k as int).skip(1) =~= a@.skip(k + 1));
        assert(b@.skip(k as int).skip(1) =~= b@.skip(k + 1));
        k = k + 1;
    }
}

/// True when both hold the same characters.
pub fn same_chars(a: &Vec<char>, b: &Vec<char>) -> (same: bool)
    ensures
        same == (a@ == b@),
{
    if a.len() != b.len() {
        return false;
    }
    let mut k: usize = 0;
    while k < a.len()
        invariant
            k <= a@.len(),
            a@.len() == b@.len(),
            forall|i: int| 0 <= i < k ==> a@[i] == b@[i],
        decreases a@.len() - k,
    {
        if a[k] != b[k] {
            return false;
        }
        k = k + 1;
    }
    assert(a@ =~= b@);
    true
}

/// True when two texts are the same.
pub fn same_text(a: &str, b: &str) -> (same: bool)
    ensures
        same == (a@ == b@),
{
    same_chars(&chars_of(a), &chars_of(b))
}

/// True when `text` starts with `prefix`.
pub fn starts_with(text: &str, prefix: &str) -> (b: bool)
    ensures
        b == prefix@.is_prefix_of(text@),
{
    let whole: Vec<char> = chars_of(text);
    let start: Vec<char> = chars_of(prefix);
    if start.len() > whole.len() {
        return false;
    }
    let mut k: usize = 0;
    while k < start.len()
        invariant
            k <= start@.len() <= whole@.len(),
            start@ == prefix@,
            whole@ == text@,
            forall|i: int| 0 <= i < k ==> start@[i] == whole@[i],
        decreases start@.len() - k,
    {
        if start[k] != whole[k] {
            assert(prefix@[k as int] != text@[k as int]);
            return false;
        }
        k = k + 1;
    }
    assert(prefix@ =~= text@.subrange(0, prefix@.len() as int));
    true
}

} // verus!
