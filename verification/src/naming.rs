//! Names for nets that have none.

use bumpalo::Bump;
use vstd::prelude::*;
use vstd::string::*;

use crate::arena::intern;
use crate::netlist::Net;
use crate::text::{padded, padded_is_injective, push_padded};

verus! {

broadcast use vstd::std_specs::btree::group_btree_axioms;

/// Hands out numbers, each once.
pub struct Counter(pub usize);

impl Counter {
    /// The next number.
    pub fn advance(&mut self) -> (index: usize)
        requires
            old(self).0 < usize::MAX,
        ensures
            index == old(self).0,
            final(self).0 == old(self).0 + 1,
    {
        let index: usize = self.0;
        self.0 = self.0 + 1;
        index
    }
}

/// The texts of string slices.
pub open spec fn texts(list: Seq<&str>) -> Seq<Seq<char>> {
    list.map_values(|s: &str| s@)
}

/// The texts that nets are mapped to.
pub open spec fn name_texts(names: Map<Net, &str>) -> Map<Net, Seq<char>> {
    names.map_values(|s: &str| s@)
}

/// The name that is made up from a number.
pub open spec fn candidate(i: nat) -> Seq<char> {
    "_"@ + padded(i, 5) + "_"@
}

/// Whether `k` is the first number, from `from` on, whose name is not among `ports`.
pub open spec fn is_next_free(ports: Seq<Seq<char>>, from: nat, k: nat) -> bool {
    &&& from <= k
    &&& !ports.contains(candidate(k))
    &&& forall|i: nat| from <= i < k ==> ports.contains(#[trigger] candidate(i))
}

/// The first number, from `from` on, whose name is not among `ports`.
pub open spec fn next_free(ports: Seq<Seq<char>>, from: nat) -> nat {
    choose|k: nat| is_next_free(ports, from, k)
}

/// How many of the names made up from the numbers below `n` are among `ports`.
pub open spec fn taken(ports: Seq<Seq<char>>, n: nat) -> nat
    decreases n,
{
    if n == 0 {
        0
    } else if ports.contains(candidate((n - 1) as nat)) {
        taken(ports, (n - 1) as nat) + 1
    } else {
        taken(ports, (n - 1) as nat)
    }
}

/// Distinct numbers give distinct names.
pub proof fn candidate_is_injective(m: nat, n: nat)
    ensures
        candidate(m) == candidate(n) <==> m == n,
{
    padded_is_injective(m, n, 5);
    if candidate(m) == candidate(n) {
        reveal_strlit("_");
        let x = padded(m, 5);
        let y = padded(n, 5);
        assert(candidate(m).len() == x.len() + 2);
        assert(candidate(n).len() == y.len() + 2);
        assert forall|i: int| 0 <= i < x.len() implies x[i] == y[i] by {
            assert(candidate(m)[i + 1] == x[i]);
            assert(candidate(n)[i + 1] == y[i]);
        }
        assert(x =~= y);
    }
}

spec fn taken_names(ports: Seq<Seq<char>>, n: nat) -> Set<Seq<char>>
    decreases n,
{
    if n == 0 {
        Set::empty()
    } else if ports.contains(candidate((n - 1) as nat)) {
        taken_names(ports, (n - 1) as nat).insert(candidate((n - 1) as nat))
    } else {
        taken_names(ports, (n - 1) as nat)
    }
}

proof fn lemma_taken_names(ports: Seq<Seq<char>>, n: nat)
    ensures
        taken_names(ports, n).finite(),
        taken_names(ports, n).len() == taken(ports, n),
        taken_names(ports, n).subset_of(ports.to_set()),
        forall|s: Seq<char>| #[trigger]
            taken_names(ports, n).contains(s) ==> exists|i: nat| i < n && s == #[trigger] candidate(i),
        taken(ports, n) <= n,
    decreases n,
{
    if n > 0 {
        let m = (n - 1) as nat;
        lemma_taken_names(ports, m);
        if ports.contains(candidate(m)) {
            if taken_names(ports, m).contains(candidate(m)) {
                let i = choose|i: nat| i < m && candidate(m) == #[trigger] candidate(i);
                candidate_is_injective(m, i);
            }
            assert(ports.to_set().contains(candidate(m)));
        }
        assert forall|s: Seq<char>| #[trigger]
            taken_names(ports, n).contains(s) implies exists|i: nat|
            i < n && s == #[trigger] candidate(i) by {
            if taken_names(ports, m).contains(s) {
                let i = choose|i: nat| i < m && s == #[trigger] candidate(i);
                assert(i < n && s == candidate(i));
            } else {
                assert(m < n && s == candidate(m));
            }
        }
    }
}

/// No more names are taken than there are ports.
pub proof fn lemma_taken_bound(ports: Seq<Seq<char>>, n: nat)
    ensures
        taken(ports, n) <= ports.len(),
        taken(ports, n) <= n,
{
    lemma_taken_names(ports, n);
    ports.lemma_cardinality_of_set();
    vstd::set_lib::lemma_len_subset(taken_names(ports, n), ports.to_set());
}

proof fn lemma_taken_run(ports: Seq<Seq<char>>, from: nat, k: nat)
    requires
        from <= k,
        forall|i: nat| from <= i < k ==> ports.contains(#[trigger] candidate(i)),
    ensures
        taken(ports, k) == taken(ports, from) + (k - from),
    decreases k,
{
    if from < k {
        lemma_taken_run(ports, from, (k - 1) as nat);
        assert(ports.contains(candidate((k - 1) as nat)));
    }
}

proof fn lemma_find_free(ports: Seq<Seq<char>>, from: nat, k: nat) -> (r: nat)
    requires
        from <= k,
        forall|i: nat| from <= i < k ==> ports.contains(#[trigger] candidate(i)),
    ensures
        is_next_free(ports, from, r),
    decreases from + ports.len() - k,
{
    if !ports.contains(candidate(k)) {
        k
    } else {
        lemma_taken_run(ports, from, k + 1);
        lemma_taken_bound(ports, k + 1);
        lemma_find_free(ports, from, k + 1)
    }
}

/// There is always a free name, and the numbers passed over on the way to it are those taken.
pub proof fn lemma_next_free(ports: Seq<Seq<char>>, from: nat)
    ensures
        is_next_free(ports, from, next_free(ports, from)),
        taken(ports, next_free(ports, from)) == taken(ports, from) + (next_free(ports, from)
            - from),
        taken(ports, next_free(ports, from) + 1) == taken(ports, next_free(ports, from)),
{
    let k = lemma_find_free(ports, from, from);
    assert(is_next_free(ports, from, k));
    lemma_taken_run(ports, from, next_free(ports, from));
}

/// The first free number is the only one that is first and free.
pub proof fn lemma_next_free_unique(ports: Seq<Seq<char>>, from: nat, k: nat)
    requires
        is_next_free(ports, from, k),
    ensures
        next_free(ports, from) == k,
{
    let r = next_free(ports, from);
    assert(is_next_free(ports, from, r));
    if r < k {
        assert(ports.contains(candidate(r)));
    } else if k < r {
        assert(ports.contains(candidate(k)));
    }
}

/// A made-up name is a number of at least five digits between underscores.
pub proof fn names_are_made_from_numbers(i: nat)
    ensures
        candidate(i) == seq!['_'] + padded(i, 5) + seq!['_'],
{
    reveal_strlit("_");
    assert("_"@ =~= seq!['_']);
}

/// The next free number is free, and every number passed over on the way to it is taken.
pub proof fn only_taken_numbers_are_passed_over(ports: Seq<Seq<char>>, from: nat)
    ensures
        ({
            let k = next_free(ports, from);
            &&& from <= k
            &&& forall|p: int| 0 <= p < ports.len() ==> #[trigger] ports[p] != candidate(k)
            &&& forall|i: nat|
                from <= i < k ==> exists|p: int|
                    0 <= p < ports.len() && ports[p] == #[trigger] candidate(i)
        }),
{
    lemma_next_free(ports, from);
    let k = next_free(ports, from);
    assert forall|i: nat| from <= i < k implies exists|p: int|
        0 <= p < ports.len() && ports[p] == #[trigger] candidate(i) by {
        assert(ports.contains(candidate(i)));
    }
}

/// Whether a text is in a list.
pub fn contains_text(list: &Vec<&str>, s: &str) -> (r: bool)
    ensures
        r == texts(list@).contains(s@),
{
    for i in 0..list.len()
        invariant
            forall|j: int| 0 <= j < i ==> #[trigger] texts(list@)[j] != s@,
    {
        if list[i].eq(s) {
            proof {
                assert(texts(list@)[i as int] == s@);
            }
            return true;
        }
    }
    false
}

fn candidate_string(index: usize) -> (r: String)
    ensures
        r@ == candidate(index as nat),
{
    let mut r = String::new();
    r.append("_");
    push_padded(&mut r, index as u64, 5);
    r.append("_");
    r
}

/// The next name made up from a number that is not among `port_names`.
pub fn next_name<'a>(alloc: &'a Bump, counter: &mut Counter, port_names: &Vec<&'a str>) -> (r:
    &'a str)
    requires
        next_free(texts(port_names@), old(counter).0 as nat) < usize::MAX,
    ensures
        r@ == candidate(next_free(texts(port_names@), old(counter).0 as nat)),
        final(counter).0 == next_free(texts(port_names@), old(counter).0 as nat) + 1,
{
    let ghost ports = texts(port_names@);
    let ghost from = counter.0 as nat;
    proof {
        lemma_next_free(ports, from);
    }
    loop
        invariant
            ports == texts(port_names@),
            from == old(counter).0,
            from <= counter.0 <= next_free(ports, from) < usize::MAX,
            is_next_free(ports, from, next_free(ports, from)),
            forall|i: nat| from <= i < counter.0 ==> ports.contains(#[trigger] candidate(i)),
        decreases next_free(ports, from) - counter.0,
    {
        let index: usize = counter.advance();
        let name = candidate_string(index);
        if !contains_text(port_names, name.as_str()) {
            proof {
                lemma_next_free_unique(ports, from, index as nat);
            }
            return intern(alloc, name);
        }
        proof {
            assert(index != next_free(ports, from));
        }
    }
}

} // verus!
