//! The tree of scopes.

use vstd::prelude::*;

use crate::netlist::{Design, MetaItemRef, NONE};

verus! {

impl Design {
    /// How many scopes are around `s`, `s` included and the root left out.
    pub open spec fn level(&self, s: MetaItemRef) -> nat
        decreases s,
    {
        if s == NONE {
            0
        } else {
            self.level(self.parent(s)) + 1
        }
    }

    /// Whether `outer` is `s` or one of the scopes around it.
    pub open spec fn is_within(&self, s: MetaItemRef, outer: MetaItemRef) -> bool
        decreases s,
    {
        s == outer || (s != NONE && self.is_within(self.parent(s), outer))
    }

    /// The innermost scope that is around both `a` and `b`.
    pub open spec fn common(&self, a: MetaItemRef, b: MetaItemRef) -> MetaItemRef
        decreases a + b,
    {
        if a == b {
            a
        } else if a > b {
            self.common(self.parent(a), b)
        } else {
            self.common(a, self.parent(b))
        }
    }

    /// A scope around another does not stand behind it, and is no deeper.
    pub proof fn lemma_within_order(&self, s: MetaItemRef, outer: MetaItemRef)
        requires
            self.is_within(s, outer),
        ensures
            outer <= s,
            self.level(outer) <= self.level(s),
            self.level(outer) == self.level(s) ==> outer == s,
        decreases s,
    {
        if s != outer {
            self.lemma_within_order(self.parent(s), outer);
        }
    }

    /// The root is around every scope.
    pub proof fn lemma_within_root(&self, s: MetaItemRef)
        ensures
            self.is_within(s, NONE),
        decreases s,
    {
        if s != NONE {
            self.lemma_within_root(self.parent(s));
        }
    }

    /// The scopes around `s` are `s` and those around its parent.
    pub proof fn lemma_within_parent(&self, s: MetaItemRef, outer: MetaItemRef)
        requires
            s != NONE,
        ensures
            self.is_within(s, self.parent(s)),
            self.is_within(s, outer) <==> s == outer || self.is_within(self.parent(s), outer),
            !self.is_within(self.parent(s), s),
    {
        assert(self.is_within(self.parent(s), self.parent(s)));
        if self.is_within(self.parent(s), s) {
            self.lemma_within_order(self.parent(s), s);
        }
    }

    /// What is around a scope around `s` is around `s`.
    pub proof fn within_is_transitive(&self, s: MetaItemRef, m: MetaItemRef, outer: MetaItemRef)
        requires
            self.is_within(s, m),
            self.is_within(m, outer),
        ensures
            self.is_within(s, outer),
        decreases s,
    {
        if s != m {
            self.within_is_transitive(self.parent(s), m, outer);
        }
    }

    /// Of two scopes around `s`, one is around the other.
    pub proof fn lemma_within_chain(&self, s: MetaItemRef, a: MetaItemRef, b: MetaItemRef)
        requires
            self.is_within(s, a),
            self.is_within(s, b),
        ensures
            self.is_within(a, b) || self.is_within(b, a),
        decreases s,
    {
        if s != a && s != b {
            self.lemma_within_chain(self.parent(s), a, b);
        }
    }

    /// The scopes around two scopes are those around their common scope: it is around both, and
    /// no scope that is around both lies deeper.
    pub proof fn common_is_innermost(&self, a: MetaItemRef, b: MetaItemRef, c: MetaItemRef)
        ensures
            self.is_within(self.common(a, b), c) <==> self.is_within(a, c) && self.is_within(b, c),
        decreases a + b,
    {
        if a == b {
        } else if a > b {
            self.common_is_innermost(self.parent(a), b, c);
            if a == c && self.is_within(b, c) {
                self.lemma_within_order(b, c);
            }
        } else {
            self.common_is_innermost(a, self.parent(b), c);
            if b == c && self.is_within(a, c) {
                self.lemma_within_order(a, c);
            }
        }
    }

    /// A scope that the same scopes are around is the same scope.
    proof fn lemma_within_antisym(&self, a: MetaItemRef, b: MetaItemRef)
        requires
            self.is_within(a, b),
            self.is_within(b, a),
        ensures
            a == b,
    {
        self.lemma_within_order(a, b);
        self.lemma_within_order(b, a);
    }

    /// The common scope is around both scopes.
    pub proof fn lemma_common_around(&self, a: MetaItemRef, b: MetaItemRef)
        ensures
            self.is_within(a, self.common(a, b)),
            self.is_within(b, self.common(a, b)),
    {
        self.common_is_innermost(a, b, self.common(a, b));
    }

    /// The common scope of two scopes does not depend on their order.
    pub proof fn common_is_commutative(&self, a: MetaItemRef, b: MetaItemRef)
        ensures
            self.common(a, b) == self.common(b, a),
    {
        let x = self.common(a, b);
        let y = self.common(b, a);
        self.common_is_innermost(a, b, x);
        self.common_is_innermost(b, a, x);
        self.common_is_innermost(a, b, y);
        self.common_is_innermost(b, a, y);
        self.lemma_within_antisym(x, y);
    }

    /// The common scope of several scopes does not depend on how they are grouped.
    pub proof fn common_is_associative(&self, a: MetaItemRef, b: MetaItemRef, c: MetaItemRef)
        ensures
            self.common(self.common(a, b), c) == self.common(a, self.common(b, c)),
    {
        let x = self.common(self.common(a, b), c);
        let y = self.common(a, self.common(b, c));
        self.common_is_innermost(a, b, x);
        self.common_is_innermost(self.common(a, b), c, x);
        self.common_is_innermost(b, c, x);
        self.common_is_innermost(a, self.common(b, c), x);
        self.common_is_innermost(a, b, y);
        self.common_is_innermost(self.common(a, b), c, y);
        self.common_is_innermost(b, c, y);
        self.common_is_innermost(a, self.common(b, c), y);
        self.lemma_within_antisym(x, y);
    }

    /// A scope has itself in common with itself, and with a scope around it that scope.
    pub proof fn common_with_outer(&self, s: MetaItemRef, outer: MetaItemRef)
        requires
            self.is_within(s, outer),
        ensures
            self.common(s, outer) == outer,
            self.common(outer, s) == outer,
            self.common(s, s) == s,
    {
        let x = self.common(s, outer);
        self.lemma_common_around(s, outer);
        self.common_is_innermost(s, outer, outer);
        self.lemma_within_antisym(x, outer);
        self.common_is_commutative(s, outer);
    }

    /// Going out of a scope that is not around the other leaves the common scope as it is.
    proof fn lemma_common_step(&self, a: MetaItemRef, b: MetaItemRef)
        requires
            a != NONE,
            !self.is_within(b, a),
        ensures
            self.common(a, b) == self.common(self.parent(a), b),
    {
        let x = self.common(a, b);
        let y = self.common(self.parent(a), b);
        self.common_is_innermost(a, b, x);
        self.common_is_innermost(a, b, y);
        self.common_is_innermost(self.parent(a), b, x);
        self.common_is_innermost(self.parent(a), b, y);
        self.lemma_within_antisym(x, y);
    }
}

/// How many scopes are around `item`, itself included and the root left out.
pub fn scope_level(design: &Design, item: MetaItemRef) -> (r: usize)
    requires
        design.wf(),
        design.is_scope(item),
    ensures
        r == design.level(item),
        r <= item,
    decreases item,
{
    match design.scope_parent(item) {
        Some(parent) => scope_level(design, parent) + 1,
        None => 0,
    }
}

/// The innermost scope that is around both.
pub fn common_scope(design: &Design, a: MetaItemRef, b: MetaItemRef) -> (r: MetaItemRef)
    requires
        design.wf(),
        design.is_scope(a),
        design.is_scope(b),
    ensures
        r == design.common(a, b),
        design.is_scope(r),
{
    let mut scope1: MetaItemRef = a;
    let mut scope2: MetaItemRef = b;
    let mut level1: usize = scope_level(design, scope1);
    let mut level2: usize = scope_level(design, scope2);
    while level1 > level2
        invariant
            design.wf(),
            design.is_scope(scope1),
            level1 == design.level(scope1),
            level2 == design.level(scope2),
            level1 >= level2 || scope1 == a,
            design.common(scope1, scope2) == design.common(a, b),
        decreases level1,
    {
        proof {
            if design.is_within(scope2, scope1) {
                design.lemma_within_order(scope2, scope1);
            }
            design.lemma_common_step(scope1, scope2);
        }
        scope1 = design.scope_parent(scope1).unwrap();
        level1 = level1 - 1;
    }
    while level2 > level1
        invariant
            design.wf(),
            design.is_scope(scope2),
            level1 == design.level(scope1),
            level2 == design.level(scope2),
            level2 >= level1,
            design.common(scope1, scope2) == design.common(a, b),
        decreases level2,
    {
        proof {
            if design.is_within(scope1, scope2) {
                design.lemma_within_order(scope1, scope2);
            }
            design.lemma_common_step(scope2, scope1);
            design.common_is_commutative(scope1, scope2);
            design.common_is_commutative(scope1, design.parent(scope2));
        }
        scope2 = design.scope_parent(scope2).unwrap();
        level2 = level2 - 1;
    }
    while scope1 != scope2
        invariant
            design.wf(),
            design.is_scope(scope1),
            design.is_scope(scope2),
            design.level(scope1) == design.level(scope2),
            design.common(scope1, scope2) == design.common(a, b),
        decreases scope1,
    {
        proof {
            if design.is_within(scope2, scope1) {
                design.lemma_within_order(scope2, scope1);
            }
            design.lemma_common_step(scope1, scope2);
            let p = design.parent(scope1);
            if design.is_within(p, scope2) {
                design.lemma_within_order(p, scope2);
            }
            design.lemma_common_step(scope2, p);
            design.common_is_commutative(scope2, p);
            design.common_is_commutative(design.parent(scope2), p);
        }
        scope1 = design.scope_parent(scope1).unwrap();
        scope2 = design.scope_parent(scope2).unwrap();
    }
    scope1
}

} // verus!
