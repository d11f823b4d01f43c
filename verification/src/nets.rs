//! Sets of nets, walked in ascending order.

use std::collections::BTreeSet;
use vstd::prelude::*;

use crate::netlist::Net;

verus! {

broadcast use vstd::std_specs::btree::group_btree_axioms;

/// Whether every net stands before the larger ones.
pub open spec fn is_ascending(s: Seq<Net>) -> bool {
    forall|i: int, j: int| 0 <= i < j < s.len() ==> s[i] < s[j]
}

/// The nets of a set from the smallest to the largest.
pub open spec fn ascending(set: Set<Net>) -> Seq<Net> {
    choose|s: Seq<Net>| is_ascending(s) && #[trigger] s.to_set() == set
}

/// There is only one ascending sequence of given nets.
proof fn lemma_ascending_unique(s: Seq<Net>, t: Seq<Net>)
    requires
        is_ascending(s),
        is_ascending(t),
        s.to_set() == t.to_set(),
    ensures
        s == t,
    decreases s.len(),
{
    if s.len() == 0 {
        if t.len() > 0 {
            assert(t.to_set().contains(t[0]));
        }
        assert(s =~= t);
    } else {
        assert(s.to_set().contains(s[0]));
        assert(t.contains(s[0]));
        assert(t.to_set().contains(t.last()));
        assert(s.to_set().contains(s.last()));
        assert(s.contains(t.last()));
        assert(t.contains(s.last()));
        let i = choose|i: int| 0 <= i < s.len() && s[i] == t.last();
        let j = choose|j: int| 0 <= j < t.len() && t[j] == s.last();
        assert(s.last() == t.last());
        let s1 = s.drop_last();
        let t1 = t.drop_last();
        assert forall|x: Net| s1.to_set().contains(x) <==> t1.to_set().contains(x) by {
            if s1.contains(x) {
                let k = choose|k: int| 0 <= k < s1.len() && s1[k] == x;
                assert(s[k] == x);
                assert(s.to_set().contains(x));
                assert(t.contains(x));
                let m = choose|m: int| 0 <= m < t.len() && t[m] == x;
                assert(s[k] < s[s.len() - 1]);
                assert(t1[m] == x);
            }
            if t1.contains(x) {
                let k = choose|k: int| 0 <= k < t1.len() && t1[k] == x;
                assert(t[k] == x);
                assert(t.to_set().contains(x));
                assert(s.contains(x));
                let m = choose|m: int| 0 <= m < s.len() && s[m] == x;
                assert(t[k] < t[t.len() - 1]);
                assert(s1[m] == x);
            }
        }
        assert(s1.to_set() =~= t1.to_set());
        lemma_ascending_unique(s1, t1);
        assert(s =~= s1.push(s.last()));
        assert(t =~= t1.push(t.last()));
    }
}

/// An ascending sequence is the one of its nets.
pub proof fn lemma_ascending_of(s: Seq<Net>)
    requires
        is_ascending(s),
    ensures
        ascending(s.to_set()) == s,
{
    let t = ascending(s.to_set());
    lemma_ascending_unique(s, t);
}

/// What a sequence contains stands in front of its last element or is that element.
pub proof fn lemma_front_or_last<A>(s: Seq<A>)
    requires
        s.len() > 0,
    ensures
        forall|x: A| #[trigger] s.contains(x) <==> s.drop_last().contains(x) || x == s.last(),
        s.to_set() == s.drop_last().to_set().insert(s.last()),
{
    let front = s.drop_last();
    assert forall|x: A| #[trigger] s.contains(x) <==> front.contains(x) || x == s.last() by {
        if s.contains(x) && x != s.last() {
            let k = choose|k: int| 0 <= k < s.len() && s[k] == x;
            assert(front[k] == x);
        }
        if front.contains(x) {
            let k = choose|k: int| 0 <= k < front.len() && front[k] == x;
            assert(s[k] == x);
        }
        assert(s[s.len() - 1] == s.last());
    }
    assert(s.to_set() =~= front.to_set().insert(s.last()));
}

/// Every finite set of nets has its ascending sequence.
pub proof fn lemma_ascending(set: Set<Net>)
    requires
        set.finite(),
    ensures
        is_ascending(ascending(set)),
        ascending(set).to_set() == set,
    decreases set.len(),
{
    let s = lemma_ascending_exists(set);
    assert(is_ascending(s) && s.to_set() == set);
}

/// A walk over a finite set of nets meets each of them once, and every net before the larger ones.
pub proof fn sets_are_walked_upwards(set: Set<Net>)
    requires
        set.finite(),
    ensures
        forall|i: int, j: int|
            0 <= i < j < ascending(set).len() ==> ascending(set)[i] < ascending(set)[j],
        forall|n: Net| #[trigger] ascending(set).contains(n) <==> set.contains(n),
        ascending(set).len() == set.len(),
{
    lemma_ascending(set);
    let s = ascending(set);
    assert forall|n: Net| #[trigger] s.contains(n) <==> set.contains(n) by {
        assert(s.to_set().contains(n) <==> set.contains(n));
    }
    s.unique_seq_to_set();
}

proof fn lemma_ascending_exists(set: Set<Net>) -> (s: Seq<Net>)
    requires
        set.finite(),
    ensures
        is_ascending(s),
        s.to_set() == set,
    decreases set.len(),
{
    if set.len() == 0 {
        let s = Seq::<Net>::empty();
        assert(s.to_set() =~= set);
        s
    } else {
        let order = |a: Net, b: Net| a <= b;
        let largest = set.find_unique_maximal(order);
        set.find_unique_maximal_ensures(order);
        let rest = set.remove(largest);
        let t = lemma_ascending_exists(rest);
        let s = t.push(largest);
        assert forall|i: int| 0 <= i < t.len() implies t[i] < largest by {
            assert(t.to_set().contains(t[i]));
            assert(order(largest, t[i]) ==> order(t[i], largest));
        }
        assert forall|x: Net| s.to_set().contains(x) <==> set.contains(x) by {
            if s.contains(x) {
                let k = choose|k: int| 0 <= k < s.len() && s[k] == x;
                if k < t.len() {
                    assert(t.to_set().contains(t[k]));
                }
            }
            if set.contains(x) {
                if x == largest {
                    assert(s[t.len() as int] == x);
                } else {
                    assert(t.to_set().contains(x));
                    let k = choose|k: int| 0 <= k < t.len() && t[k] == x;
                    assert(s[k] == x);
                }
            }
        }
        assert(s.to_set() =~= set);
        s
    }
}

/// References to nets are ordered as the nets are.
proof fn lemma_reference_order()
    ensures
        vstd::laws_cmp::obeys_cmp::<&Net>(),
{
    broadcast use vstd::laws_eq::group_laws_eq;

    reveal(vstd::laws_eq::obeys_eq_spec_properties);
    reveal(vstd::laws_cmp::obeys_partial_cmp_spec_properties);
    reveal(vstd::laws_cmp::obeys_cmp_partial_ord);
    reveal(vstd::laws_cmp::obeys_cmp_ord);
    assert(vstd::laws_cmp::obeys_cmp::<Net>());
}

/// The nets of a set from the smallest to the largest.
pub fn ascending_nets(set: &BTreeSet<Net>) -> (r: Vec<Net>)
    ensures
        r@ == ascending(set@),
        is_ascending(r@),
        r@.to_set() == set@,
        r@.len() == set@.len(),
        set@.finite(),
{
    let mut r: Vec<Net> = Vec::new();
    let ghost all = vstd::std_specs::iter::IteratorSpec::remaining(
        &vstd::std_specs::btree::spec_btree_keys_iter(set),
    );
    for net in it: set.iter()
        invariant
            it.seq() == all,
            r@.len() == it.index(),
            forall|i: int| 0 <= i < r@.len() ==> r@[i] == *all[i],
    {
        r.push(*net);
    }
    proof {
        assert(all.unref() =~= r@);
        lemma_reference_order();
        assert(vstd::std_specs::btree::increasing_seq(all));
        assert forall|i: int, j: int| 0 <= i < j < r@.len() implies r@[i] < r@[j] by {
            assert(vstd::std_specs::cmp::OrdSpec::cmp_spec(&all[i], &all[j]) is Less);
        }
        assert(is_ascending(r@));
        lemma_ascending_of(r@);
    }
    r
}

} // verus!
