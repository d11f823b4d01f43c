//! What holds of the modules of a design, however they came about.

use vstd::prelude::*;

use crate::hierarchy::{
    added, cell_linkable, cell_linked, input_linked, is_tree, lemma_linked_wf, lemma_opened,
    lemma_present_wf, linkable, linked, linked_all, load_scope, module_linked, opened, placement,
    visit_order, visit_order_of, with_present, IndexState, ModuleState,
};
use crate::netlist::{is_cell_net, CellRef, Design, MetaItemRef, Net, NONE};

verus! {

/// Whether no module in the sequence stands before one inside it.
pub open spec fn inner_first(d: &Design, order: Seq<MetaItemRef>) -> bool {
    forall|i: int, j: int|
        0 <= i < j < order.len() ==> !d.is_within(#[trigger] order[j], #[trigger] order[i])
}

proof fn lemma_concat_contains<A>(a: Seq<A>, b: Seq<A>, x: A)
    ensures
        (a + b).contains(x) <==> a.contains(x) || b.contains(x),
{
    let c = a + b;
    if a.contains(x) {
        let i = choose|i: int| 0 <= i < a.len() && a[i] == x;
        assert(c[i] == x);
    }
    if b.contains(x) {
        let i = choose|i: int| 0 <= i < b.len() && b[i] == x;
        assert(c[a.len() + i] == x);
    }
    if c.contains(x) {
        let i = choose|i: int| 0 <= i < c.len() && c[i] == x;
        if i < a.len() {
            assert(a[i] == x);
        } else {
            assert(b[i - a.len()] == x);
        }
    }
}

proof fn lemma_concat_inner_first(d: &Design, a: Seq<MetaItemRef>, b: Seq<MetaItemRef>)
    requires
        inner_first(d, a),
        inner_first(d, b),
        forall|x: MetaItemRef, y: MetaItemRef|
            a.contains(x) && b.contains(y) ==> !#[trigger] d.is_within(y, x),
    ensures
        inner_first(d, a + b),
{
    let c = a + b;
    assert forall|i: int, j: int| 0 <= i < j < c.len() implies !d.is_within(
        #[trigger] c[j],
        #[trigger] c[i],
    ) by {
        if j < a.len() {
            assert(c[i] == a[i] && c[j] == a[j]);
        } else if i >= a.len() {
            assert(c[i] == b[i - a.len()] && c[j] == b[j - a.len()]);
        } else {
            assert(a.contains(a[i]));
            assert(b.contains(b[j - a.len()]));
            assert(c[i] == a[i] && c[j] == b[j - a.len()]);
        }
    }
}

/// The walk over the first `n` submodules meets exactly what is inside them, inside out.
pub proof fn lemma_visit_of(d: &Design, modules: Map<MetaItemRef, ModuleState>, s: MetaItemRef, n: nat)
    requires
        d.wf(),
        is_tree(d, modules),
        modules.contains_key(s),
        n <= modules[s].submodules.len(),
    ensures
        forall|q: MetaItemRef| #[trigger]
            visit_order_of(d, modules, s, n).contains(q) <==> exists|k: int|
                0 <= k < n && modules.contains_key(q) && d.is_within(
                    q,
                    #[trigger] modules[s].submodules[k],
                ),
        inner_first(d, visit_order_of(d, modules, s, n)),
    decreases d.metadata@.len() - s, n,
{
    if n > 0 {
        let m = (n - 1) as nat;
        let kids = modules[s].submodules;
        let kid = kids[m as int];
        lemma_visit_of(d, modules, s, m);
        assert(modules.contains_key(kid));
        assert(d.is_scope(kid));
        assert(d.parent(kid) == s);
        assert(s < kid < d.metadata@.len());
        lemma_visit(d, modules, kid);
        let before = visit_order_of(d, modules, s, m);
        let inner = visit_order(d, modules, kid);
        let all = visit_order_of(d, modules, s, n);
        assert(all == before + inner);
        assert forall|q: MetaItemRef| #[trigger] all.contains(q) <==> exists|k: int|
            0 <= k < n && modules.contains_key(q) && d.is_within(q, #[trigger] kids[k]) by {
            lemma_concat_contains(before, inner, q);
            if before.contains(q) {
                let k = choose|k: int|
                    0 <= k < m && modules.contains_key(q) && d.is_within(q, #[trigger] kids[k]);
                assert(0 <= k < n && d.is_within(q, kids[k]));
            }
            if inner.contains(q) {
                assert(0 <= m < n && d.is_within(q, kids[m as int]));
            }
            if exists|k: int|
                0 <= k < n && modules.contains_key(q) && d.is_within(q, #[trigger] kids[k]) {
                let k = choose|k: int|
                    0 <= k < n && modules.contains_key(q) && d.is_within(q, #[trigger] kids[k]);
                if k < m {
                    assert(0 <= k < m && modules.contains_key(q) && d.is_within(q, kids[k]));
                    assert(before.contains(q));
                } else {
                    assert(inner.contains(q));
                }
            }
        }
        assert forall|x: MetaItemRef, y: MetaItemRef|
            before.contains(x) && inner.contains(y) implies !#[trigger] d.is_within(y, x) by {
            let k = choose|k: int|
                0 <= k < m && modules.contains_key(x) && d.is_within(x, #[trigger] kids[k]);
            if d.is_within(y, x) {
                let other = kids[k];
                d.within_is_transitive(y, x, other);
                d.lemma_within_chain(y, other, kid);
                assert(d.parent(other) == s);
                assert(modules.contains_key(other));
                assert(other != kid) by {
                    assert(kids.no_duplicates());
                }
                if d.is_within(other, kid) {
                    d.lemma_within_parent(other, kid);
                    d.lemma_within_order(s, kid);
                } else {
                    d.lemma_within_parent(kid, other);
                    d.lemma_within_order(s, other);
                }
            }
        }
        lemma_concat_inner_first(d, before, inner);
    }
}

/// The walk from a module meets exactly what is inside it, inside out.
pub proof fn lemma_visit(d: &Design, modules: Map<MetaItemRef, ModuleState>, s: MetaItemRef)
    requires
        d.wf(),
        is_tree(d, modules),
        modules.contains_key(s),
    ensures
        forall|q: MetaItemRef| #[trigger]
            visit_order(d, modules, s).contains(q) <==> modules.contains_key(q) && d.is_within(
                q,
                s,
            ),
        inner_first(d, visit_order(d, modules, s)),
    decreases d.metadata@.len() - s, modules[s].submodules.len() + 1,
{
    let kids = modules[s].submodules;
    let before = visit_order_of(d, modules, s, kids.len());
    lemma_visit_of(d, modules, s, kids.len());
    let all = visit_order(d, modules, s);
    assert(all =~= before + seq![s]);
    assert forall|q: MetaItemRef| #[trigger] all.contains(q) <==> modules.contains_key(q)
        && d.is_within(q, s) by {
        lemma_concat_contains(before, seq![s], q);
        assert(seq![s].contains(q) <==> q == s) by {
            assert(seq![s][0] == s);
        }
        if before.contains(q) {
            let k = choose|k: int|
                0 <= k < kids.len() && modules.contains_key(q) && d.is_within(
                    q,
                    #[trigger] kids[k],
                );
            d.lemma_within_parent(kids[k], s);
            d.within_is_transitive(q, kids[k], s);
        }
        if q != s && modules.contains_key(q) && d.is_within(q, s) {
            let k = lemma_child_towards(d, modules, s, q);
            assert(0 <= k < kids.len() && modules.contains_key(q) && d.is_within(q, kids[k]));
        }
    }
    assert forall|x: MetaItemRef, y: MetaItemRef|
        before.contains(x) && seq![s].contains(y) implies !#[trigger] d.is_within(y, x) by {
        let k = choose|k: int|
            0 <= k < kids.len() && modules.contains_key(x) && d.is_within(x, #[trigger] kids[k]);
        d.lemma_within_order(x, kids[k]);
        if d.is_within(y, x) {
            d.lemma_within_order(y, x);
            d.lemma_within_parent(kids[k], s);
            d.lemma_within_order(kids[k], s);
            assert(d.parent(kids[k]) == s);
            assert(kids[k] != NONE);
        }
    }
    assert(inner_first(d, seq![s]));
    lemma_concat_inner_first(d, before, seq![s]);
}

proof fn lemma_child_towards(
    d: &Design,
    modules: Map<MetaItemRef, ModuleState>,
    s: MetaItemRef,
    q: MetaItemRef,
) -> (k: int)
    requires
        is_tree(d, modules),
        modules.contains_key(s),
        modules.contains_key(q),
        d.is_within(q, s),
        q != s,
    ensures
        0 <= k < modules[s].submodules.len(),
        d.is_within(q, modules[s].submodules[k]),
    decreases q,
{
    let p = d.parent(q);
    assert(modules.contains_key(p) && modules[p].submodules.contains(q));
    if p == s {
        choose|k: int| 0 <= k < modules[s].submodules.len() && modules[s].submodules[k] == q
    } else {
        lemma_child_towards(d, modules, s, p)
    }
}

/// A walk from a module visits exactly the modules inside it and itself, each once, and each
/// before the ones around it.
pub proof fn hierarchy_is_visited_inside_out(d: &Design, st: IndexState, s: MetaItemRef)
    requires
        st.wf(d),
        st.modules.contains_key(s),
    ensures
        forall|q: MetaItemRef| #[trigger]
            visit_order(d, st.modules, s).contains(q) <==> st.modules.contains_key(q)
                && d.is_within(q, s),
        visit_order(d, st.modules, s).no_duplicates(),
        inner_first(d, visit_order(d, st.modules, s)),
{
    lemma_visit(d, st.modules, s);
    let order = visit_order(d, st.modules, s);
    assert forall|i: int, j: int| 0 <= i < order.len() && 0 <= j < order.len() && i != j implies
        order[i] != order[j] by {
        if i < j {
            assert(!d.is_within(order[j], order[i]));
        } else {
            assert(!d.is_within(order[i], order[j]));
        }
    }
}

/// Whether the ports of every module are what their names say: what goes out is driven inside,
/// what comes in is driven outside, and both are known to the module around.
pub open spec fn ports_sound(d: &Design, st: IndexState) -> bool {
    forall|p: MetaItemRef| #[trigger] st.modules.contains_key(p) ==> module_ports_sound(d, st, p)
}

/// The same for one module.
pub open spec fn module_ports_sound(d: &Design, st: IndexState, p: MetaItemRef) -> bool {
    &&& forall|n: Net| #[trigger]
        st.modules[p].out_ports.contains(n) ==> st.drivers.contains_key(n) && d.is_within(
            st.drivers[n],
            p,
        ) && st.modules[d.parent(p)].present.contains(n)
    &&& forall|n: Net| #[trigger]
        st.modules[p].in_ports.contains(n) ==> st.drivers.contains_key(n) && !d.is_within(
            st.drivers[n],
            p,
        ) && st.modules[d.parent(p)].present.contains(n)
}

proof fn lemma_linked_sound(
    d: &Design,
    st: IndexState,
    net: Net,
    load: MetaItemRef,
    p: MetaItemRef,
)
    requires
        is_tree(d, st.modules),
        module_ports_sound(d, st, p),
        st.modules.contains_key(p),
        is_cell_net(net),
        st.drivers.contains_key(net),
    ensures
        module_ports_sound(d, linked(d, st, net, load), p),
{
    let driver = st.drivers[net];
    if driver != load {
        let st1 = linked(d, st, net, load);
        let q = d.parent(p);
        if p != NONE {
            assert(st.modules.contains_key(q));
        }
        assert(st1.modules[p] == module_linked(d, p, st.modules[p], net, driver, load));
        assert(st1.modules[q] == module_linked(d, q, st.modules[q], net, driver, load));
        if d.is_within(driver, p) != d.is_within(load, p) {
            d.lemma_within_root(driver);
            d.lemma_within_root(load);
            d.lemma_within_parent(p, q);
            if d.is_within(driver, p) {
                d.within_is_transitive(driver, p, q);
            } else {
                d.within_is_transitive(load, p, q);
            }
            if d.is_within(driver, q) && d.is_within(load, q) {
                lemma_common_is_parent(d, driver, load, p);
            }
            assert(st1.modules[q].present.contains(net));
        }
    }
}

/// Reading a net keeps the ports of all modules sound.
pub proof fn linking_keeps_ports_sound(d: &Design, st: IndexState, net: Net, load: MetaItemRef)
    requires
        st.wf(d),
        ports_sound(d, st),
        linkable(st, net, load),
    ensures
        ports_sound(d, input_linked(d, st, net, load)),
{
    if is_cell_net(net) {
        let st1 = linked(d, st, net, load);
        let st2 = with_present(st1, load, net);
        assert forall|p: MetaItemRef| #[trigger] st2.modules.contains_key(p) implies
            module_ports_sound(d, st2, p) by {
            assert(st.modules.contains_key(p));
            assert(module_ports_sound(d, st, p));
            lemma_linked_sound(d, st, net, load, p);
            let q = d.parent(p);
            assert(st2.modules[p].out_ports == st1.modules[p].out_ports);
            assert(st2.modules[p].in_ports == st1.modules[p].in_ports);
            assert(st1.modules[q].present.subset_of(st2.modules[q].present));
        }
    }
}

proof fn lemma_common_is_parent(
    d: &Design,
    driver: MetaItemRef,
    load: MetaItemRef,
    p: MetaItemRef,
)
    requires
        p != NONE,
        d.is_within(driver, p) != d.is_within(load, p),
        d.is_within(driver, d.parent(p)),
        d.is_within(load, d.parent(p)),
    ensures
        d.common(driver, load) == d.parent(p),
{
    let q = d.parent(p);
    let c = d.common(driver, load);
    d.lemma_common_around(driver, load);
    d.common_is_innermost(driver, load, q);
    if c != q {
        let low = if d.is_within(driver, p) {
            driver
        } else {
            load
        };
        let other = if d.is_within(driver, p) {
            load
        } else {
            driver
        };
        d.lemma_within_chain(low, p, c);
        if d.is_within(c, p) {
            d.within_is_transitive(other, c, p);
        } else {
            d.lemma_within_parent(p, c);
            d.lemma_within_order(q, c);
            d.lemma_within_order(c, q);
        }
    }
}

proof fn lemma_linked_all_sound(d: &Design, st: IndexState, nets: Seq<Net>, load: MetaItemRef)
    requires
        st.wf(d),
        ports_sound(d, st),
        forall|i: int| 0 <= i < nets.len() ==> linkable(st, #[trigger] nets[i], load),
    ensures
        linked_all(d, st, nets, load).wf(d),
        ports_sound(d, linked_all(d, st, nets, load)),
        st.modules.contains_key(load) ==> linked_all(d, st, nets, load).modules.contains_key(load),
        linked_all(d, st, nets, load).drivers == st.drivers,
    decreases nets.len(),
{
    if nets.len() > 0 {
        let before = nets.drop_last();
        assert forall|i: int| 0 <= i < before.len() implies linkable(
            st,
            #[trigger] before[i],
            load,
        ) by {
            assert(before[i] == nets[i]);
        }
        lemma_linked_all_sound(d, st, before, load);
        let st1 = linked_all(d, st, before, load);
        let net = nets.last();
        assert(linkable(st, nets[nets.len() - 1], load));
        linking_keeps_ports_sound(d, st1, net, load);
        if is_cell_net(net) {
            lemma_linked_wf(d, st1, net, load);
            lemma_present_wf(d, linked(d, st1, net, load), load, net);
        }
    }
}

/// Linking what a cell reads keeps the ports of all modules sound.
pub proof fn linking_a_cell_keeps_ports_sound(d: &Design, st: IndexState, c: CellRef)
    requires
        st.wf(d),
        ports_sound(d, st),
        cell_linkable(d, st, c),
    ensures
        ports_sound(d, cell_linked(d, st, c)),
{
    if !d.is_label(c) {
        lemma_linked_all_sound(d, st, d.inputs(c), load_scope(d, st.flat, c));
    }
}

/// Whether no module has a port yet.
pub open spec fn is_unlinked(st: IndexState) -> bool {
    forall|p: MetaItemRef| #[trigger]
        st.modules.contains_key(p) ==> st.modules[p].in_ports == Set::<Net>::empty()
            && st.modules[p].out_ports == Set::<Net>::empty()
}

proof fn lemma_opened_unlinked(d: &Design, st: IndexState, s: MetaItemRef)
    requires
        is_unlinked(st),
    ensures
        is_unlinked((IndexState { modules: opened(d, st.modules, s), ..st })),
    decreases s,
{
    if !st.modules.contains_key(s) && s != NONE {
        lemma_opened_unlinked(d, st, d.parent(s));
        lemma_opened(d, st.modules, d.parent(s));
    }
}

/// Cells alone make no ports, and where there are none the ports are sound.
pub proof fn adding_makes_no_ports(d: &Design, st: IndexState, c: CellRef)
    requires
        is_unlinked(st),
    ensures
        is_unlinked(added(d, st, c)),
        ports_sound(d, added(d, st, c)),
{
    let s = placement(d, st, c)->0;
    lemma_opened_unlinked(d, st, s);
    lemma_opened(d, st.modules, s);
    let st1 = added(d, st, c);
    assert forall|p: MetaItemRef| #[trigger] st1.modules.contains_key(p) implies
        st1.modules[p].in_ports == Set::<Net>::empty() && st1.modules[p].out_ports
        == Set::<Net>::empty() by {
        let mid = IndexState { modules: opened(d, st.modules, s), ..st };
        assert(mid.modules.contains_key(p));
    }
    assert forall|p: MetaItemRef| #[trigger] st1.modules.contains_key(p) implies
        module_ports_sound(d, st1, p) by {
        assert(st1.modules[p].in_ports == Set::<Net>::empty());
    }
}

/// Whether one state has the modules of another, each with at least the same ports and nets.
pub open spec fn has_grown(before: IndexState, after: IndexState) -> bool {
    &&& after.modules.dom() == before.modules.dom()
    &&& forall|p: MetaItemRef| #[trigger]
        before.modules.contains_key(p) ==> {
            &&& before.modules[p].in_ports.subset_of(after.modules[p].in_ports)
            &&& before.modules[p].out_ports.subset_of(after.modules[p].out_ports)
            &&& before.modules[p].present.subset_of(after.modules[p].present)
        }
}

proof fn lemma_input_grows(d: &Design, st: IndexState, net: Net, load: MetaItemRef)
    requires
        is_cell_net(net) ==> st.modules.contains_key(load),
    ensures
        has_grown(st, input_linked(d, st, net, load)),
{
    assert(input_linked(d, st, net, load).modules.dom() =~= st.modules.dom());
}

proof fn lemma_all_present(d: &Design, st: IndexState, nets: Seq<Net>, load: MetaItemRef)
    requires
        forall|i: int|
            0 <= i < nets.len() && is_cell_net(#[trigger] nets[i]) ==> st.modules.contains_key(
                load,
            ),
    ensures
        has_grown(st, linked_all(d, st, nets, load)),
        forall|i: int|
            0 <= i < nets.len() && is_cell_net(#[trigger] nets[i]) ==> linked_all(
                d,
                st,
                nets,
                load,
            ).modules[load].present.contains(nets[i]),
    decreases nets.len(),
{
    if nets.len() > 0 {
        let before = nets.drop_last();
        assert forall|i: int| 0 <= i < before.len() && is_cell_net(#[trigger] before[i]) implies
            st.modules.contains_key(load) by {
            assert(before[i] == nets[i]);
        }
        lemma_all_present(d, st, before, load);
        let st1 = linked_all(d, st, before, load);
        let st2 = linked_all(d, st, nets, load);
        assert(nets.last() == nets[nets.len() - 1]);
        assert(st1.modules.dom().contains(load) <==> st.modules.dom().contains(load));
        lemma_input_grows(d, st1, nets.last(), load);
        assert forall|p: MetaItemRef| #[trigger] st.modules.contains_key(p) implies {
            &&& st.modules[p].in_ports.subset_of(st2.modules[p].in_ports)
            &&& st.modules[p].out_ports.subset_of(st2.modules[p].out_ports)
            &&& st.modules[p].present.subset_of(st2.modules[p].present)
        } by {
            assert(st1.modules.dom().contains(p));
            assert(st1.modules.contains_key(p));
        }
        assert forall|i: int| 0 <= i < nets.len() && is_cell_net(#[trigger] nets[i]) implies
            st2.modules[load].present.contains(nets[i]) by {
            if i < before.len() {
                assert(before[i] == nets[i]);
                assert(st1.modules.contains_key(load));
            }
        }
    }
}

/// Linking what a cell reads takes nothing away from any module, and afterwards every net it reads
/// that is no constant is present in the module of its scope.
pub proof fn linking_makes_nets_present(d: &Design, st: IndexState, c: CellRef)
    requires
        cell_linkable(d, st, c),
    ensures
        has_grown(st, cell_linked(d, st, c)),
        !d.is_label(c) ==> forall|i: int|
            0 <= i < d.inputs(c).len() && is_cell_net(#[trigger] d.inputs(c)[i]) ==> cell_linked(
                d,
                st,
                c,
            ).modules[load_scope(d, st.flat, c)].present.contains(d.inputs(c)[i]),
{
    if !d.is_label(c) {
        let load = load_scope(d, st.flat, c);
        assert forall|i: int|
            0 <= i < d.inputs(c).len() && is_cell_net(#[trigger] d.inputs(c)[i]) implies
            st.modules.contains_key(load) by {
            assert(linkable(st, d.inputs(c)[i], load));
        }
        lemma_all_present(d, st, d.inputs(c), load);
    }
}

/// Linking a net to a scope twice is linking it once.
pub proof fn linking_twice_is_linking_once(d: &Design, st: IndexState, net: Net, load: MetaItemRef)
    requires
        linkable(st, net, load),
    ensures
        linked(d, linked(d, st, net, load), net, load) == linked(d, st, net, load),
{
    let once = linked(d, st, net, load);
    let twice = linked(d, once, net, load);
    assert forall|p: MetaItemRef| #[trigger] st.modules.contains_key(p) implies twice.modules[p]
        == once.modules[p] by {
        assert(twice.modules[p] =~= once.modules[p]);
    }
    assert(twice.modules =~= once.modules);
    assert(twice =~= once);
}

/// It does not matter which of two nets is linked first.
pub proof fn linking_order_does_not_matter(
    d: &Design,
    st: IndexState,
    net1: Net,
    load1: MetaItemRef,
    net2: Net,
    load2: MetaItemRef,
)
    requires
        linkable(st, net1, load1),
        linkable(st, net2, load2),
    ensures
        linked(d, linked(d, st, net1, load1), net2, load2) == linked(
            d,
            linked(d, st, net2, load2),
            net1,
            load1,
        ),
{
    let a = linked(d, linked(d, st, net1, load1), net2, load2);
    let b = linked(d, linked(d, st, net2, load2), net1, load1);
    assert forall|p: MetaItemRef| #[trigger] st.modules.contains_key(p) implies a.modules[p]
        == b.modules[p] by {
        assert(a.modules[p] =~= b.modules[p]);
    }
    assert(a.modules =~= b.modules);
    assert(a =~= b);
}

/// Reading a net in a scope twice is reading it once.
pub proof fn reading_twice_is_reading_once(d: &Design, st: IndexState, net: Net, load: MetaItemRef)
    requires
        linkable(st, net, load),
    ensures
        input_linked(d, input_linked(d, st, net, load), net, load) == input_linked(
            d,
            st,
            net,
            load,
        ),
{
    let once = input_linked(d, st, net, load);
    let twice = input_linked(d, once, net, load);
    assert forall|p: MetaItemRef| #[trigger] st.modules.contains_key(p) implies twice.modules[p]
        == once.modules[p] by {
        assert(twice.modules[p] =~= once.modules[p]);
    }
    assert(twice.modules =~= once.modules);
    assert(twice =~= once);
}

/// It does not matter which of two nets is read first.
pub proof fn reading_order_does_not_matter(
    d: &Design,
    st: IndexState,
    net1: Net,
    load1: MetaItemRef,
    net2: Net,
    load2: MetaItemRef,
)
    requires
        linkable(st, net1, load1),
        linkable(st, net2, load2),
    ensures
        input_linked(d, input_linked(d, st, net1, load1), net2, load2) == input_linked(
            d,
            input_linked(d, st, net2, load2),
            net1,
            load1,
        ),
{
    let a = input_linked(d, input_linked(d, st, net1, load1), net2, load2);
    let b = input_linked(d, input_linked(d, st, net2, load2), net1, load1);
    assert forall|p: MetaItemRef| #[trigger] st.modules.contains_key(p) implies a.modules[p]
        == b.modules[p] by {
        assert(a.modules[p] =~= b.modules[p]);
    }
    assert(a.modules =~= b.modules);
    assert(a =~= b);
}

/// No net both comes in and goes out of a module.
pub proof fn no_net_is_port_twice(d: &Design, st: IndexState, p: MetaItemRef)
    requires
        st.wf(d),
        ports_sound(d, st),
        st.modules.contains_key(p),
    ensures
        st.modules[p].in_ports.disjoint(st.modules[p].out_ports),
{
    assert(module_ports_sound(d, st, p));
}

} // verus!
