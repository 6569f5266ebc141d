//! Merge sort by a total order.

use vstd::prelude::*;
use vstd::seq_lib::group_to_multiset_ensures;

verus! {

/// Values with a total order.
pub trait Ranked: Sized {
    /// `self` may stand before `other`.
    spec fn at_most(self, other: Self) -> bool;

    /// Of two values one may stand before the other.
    proof fn at_most_total(a: Self, b: Self)
        ensures
            a.at_most(b) || b.at_most(a),
    ;

    /// What may stand before a value may stand before what follows the value.
    proof fn at_most_transitive(a: Self, b: Self, c: Self)
        requires
            a.at_most(b),
            b.at_most(c),
        ensures
            a.at_most(c),
    ;

    /// True when `self` may stand before `other`.
    fn may_precede(&self, other: &Self) -> (first: bool)
        ensures
            first == self.at_most(*other),
    ;
}

/// Every value may stand before those behind it.
pub open spec fn ranked<T: Ranked>(s: Seq<T>) -> bool {
    forall|i: int, j: int|
        0 <= i < j < s.len() ==> (#[trigger] s[i]).at_most(#[trigger] s[j])
}

/// Every value of `a` may stand before every value of `b`.
spec fn all_at_most<T: Ranked>(a: Seq<T>, b: Seq<T>) -> bool {
    forall|i: int, j: int|
        0 <= i < a.len() && 0 <= j < b.len() ==> (#[trigger] a[i]).at_most(#[trigger] b[j])
}

/// The values of `v` from the last to the first.
fn reversed<T>(v: Vec<T>) -> (out: Vec<T>)
    ensures
        out@ == v@.reverse(),
{
    let mut v: Vec<T> = v;
    let ghost whole = v@;
    let mut out: Vec<T> = Vec::new();
    while v.len() > 0
        invariant
            v@.len() <= whole.len(),
            v@ == whole.take(v@.len() as int),
            out@ == whole.skip(v@.len() as int).reverse(),
        decreases v@.len(),
    {
        let ghost before = v@;
        let last: T = v.pop().unwrap();
        out.push(last);
        assert(v@ =~= whole.take(v@.len() as int));
        assert(last == whole[v@.len() as int]);
        assert(out@ =~= whole.skip(v@.len() as int).reverse());
    }
    assert(whole.skip(0) =~= whole);
    out
}

/// Taking the last value off keeps the rest in rank.
proof fn lemma_ranked_drop_last<T: Ranked>(s: Seq<T>)
    requires
        ranked(s),
        s.len() > 0,
    ensures
        ranked(s.drop_last()),
        all_at_most(s.drop_last(), seq![s.last()]),
{
}

/// Merge two ranked sequences into one.
fn merge<T: Ranked>(a: Vec<T>, b: Vec<T>) -> (out: Vec<T>)
    requires
        ranked(a@),
        ranked(b@),
    ensures
        ranked(out@),
        out@.to_multiset() == a@.to_multiset().add(b@.to_multiset()),
{
    broadcast use {group_to_multiset_ensures, vstd::multiset::group_multiset_axioms};

    let mut a: Vec<T> = a;
    let mut b: Vec<T> = b;
    let ghost whole = a@.to_multiset().add(b@.to_multiset());
    // The largest values, from the last to the first.
    let mut tail: Vec<T> = Vec::new();
    assert(tail@.to_multiset() =~= vstd::multiset::Multiset::empty());
    while a.len() > 0 || b.len() > 0
        invariant
            ranked(a@),
            ranked(b@),
            ranked(tail@.reverse()),
            all_at_most(a@, tail@),
            all_at_most(b@, tail@),
            whole =~= a@.to_multiset().add(b@.to_multiset()).add(tail@.to_multiset()),
        decreases a@.len() + b@.len(),
    {
        let from_b: bool = if a.len() == 0 {
            true
        } else if b.len() == 0 {
            false
        } else {
            a[a.len() - 1].may_precede(&b[b.len() - 1])
        };
        let ghost a_before = a@;
        let ghost b_before = b@;
        let ghost tail_before = tail@;
        if from_b {
            let last: T = b.pop().unwrap();
            proof {
                assert(b_before =~= b@.push(last));
                lemma_ranked_drop_last(b_before);
                assert(b@ =~= b_before.drop_last());
                lemma_take_last(a_before, b@, last, tail_before);
            }
            tail.push(last);
            proof {
                broadcast use {group_to_multiset_ensures, vstd::multiset::group_multiset_axioms};

                assert(b_before.to_multiset() =~= b@.to_multiset().insert(last));
                assert(tail@.to_multiset() =~= tail_before.to_multiset().insert(last));
            }
        } else {
            let last: T = a.pop().unwrap();
            proof {
                assert(a_before =~= a@.push(last));
                lemma_ranked_drop_last(a_before);
                assert(a@ =~= a_before.drop_last());
                if b_before.len() > 0 {
                    T::at_most_total(last, b_before.last());
                }
                lemma_take_last(b_before, a@, last, tail_before);
            }
            tail.push(last);
            proof {
                broadcast use {group_to_multiset_ensures, vstd::multiset::group_multiset_axioms};

                assert(a_before.to_multiset() =~= a@.to_multiset().insert(last));
                assert(tail@.to_multiset() =~= tail_before.to_multiset().insert(last));
            }
        }
    }
    proof {
        assert(a@.to_multiset() =~= vstd::multiset::Multiset::empty()) by {
            assert(a@.to_multiset().len() == 0);
        }
        assert(b@.to_multiset() =~= vstd::multiset::Multiset::empty()) by {
            assert(b@.to_multiset().len() == 0);
        }
        tail@.lemma_reverse_to_multiset();
        assert(whole =~= tail@.to_multiset());
    }
    reversed(tail)
}

/// The largest remaining value goes to the end of the tail.
proof fn lemma_take_last<T: Ranked>(other: Seq<T>, rest: Seq<T>, last: T, tail: Seq<T>)
    requires
        ranked(other),
        ranked(rest),
        ranked(tail.reverse()),
        all_at_most(rest, seq![last]),
        all_at_most(other, tail),
        all_at_most(rest.push(last), tail),
        other.len() > 0 ==> other.last().at_most(last),
    ensures
        all_at_most(other, tail.push(last)),
        all_at_most(rest, tail.push(last)),
        ranked(tail.push(last).reverse()),
{
    let longer = tail.push(last);
    assert forall|i: int, j: int|
        0 <= i < other.len() && 0 <= j < longer.len() implies (#[trigger] other[i]).at_most(
        #[trigger] longer[j],
    ) by {
        if j == tail.len() {
            if i < other.len() - 1 {
                assert(other[i].at_most(other[other.len() - 1]));
                T::at_most_transitive(other[i], other.last(), last);
            }
        } else {
            assert(longer[j] == tail[j]);
        }
    }
    assert forall|i: int, j: int|
        0 <= i < rest.len() && 0 <= j < longer.len() implies (#[trigger] rest[i]).at_most(
        #[trigger] longer[j],
    ) by {
        if j == tail.len() {
            assert(seq![last][0] == last);
        } else {
            assert(longer[j] == tail[j]);
            assert(rest.push(last)[i] == rest[i]);
        }
    }
    let back = longer.reverse();
    let old_back = tail.reverse();
    assert forall|i: int, j: int| 0 <= i < j < back.len() implies (#[trigger] back[i]).at_most(
        #[trigger] back[j],
    ) by {
        assert(back[j] == old_back[j - 1]);
        if i == 0 {
            assert(back[0] == last);
            assert(rest.push(last)[rest.len() as int] == last);
            assert(back[j] == tail[tail.len() - j]);
        } else {
            assert(back[i] == old_back[i - 1]);
        }
    }
}

/// Sort by rank.
pub fn sort<T: Ranked>(v: Vec<T>) -> (out: Vec<T>)
    ensures
        ranked(out@),
        out@.to_multiset() == v@.to_multiset(),
    decreases v@.len(),
{
    broadcast use group_to_multiset_ensures;

    if v.len() <= 1 {
        return v;
    }
    let ghost whole = v@;
    let mut front: Vec<T> = v;
    let back: Vec<T> = front.split_off(front.len() / 2);
    proof {
        assert(whole =~= front@ + back@);
        vstd::seq_lib::lemma_multiset_commutative(front@, back@);
    }
    merge(sort(front), sort(back))
}

} // verus!
