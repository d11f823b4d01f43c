//! Where cells and nets go, in terms of the cells and of the modules before.

use vstd::prelude::*;

use crate::hierarchy::{
    added, cell_linkable, cell_linked, input_linked, is_tree, lemma_opened, lemma_tree_upward,
    linkable, linked, linked_all, load_scope, name_scope, opened, placement, value_nets,
    visit_order, visit_order_of, HierarchyIndex, IndexState, Module, ModuleState,
};
use crate::hierarchy_laws::{hierarchy_is_visited_inside_out, lemma_visit, lemma_visit_of};
use crate::netlist::{is_cell_net, Cell, CellRef, Design, MetaItemRef, Net, Value, NONE};
use crate::nets::lemma_front_or_last;

verus! {

/// The view of a module under construction shows all of it.
pub proof fn module_states_show_everything<'a>(m: Module<'a>, index: HierarchyIndex<'a>)
    ensures
        m@.name == m.name@ && m@.submodules == m.submodules@ && m@.cells == m.cells@,
        m@.in_ports == m.in_port_nets@ && m@.out_ports == m.out_port_nets@,
        m@.present == m.present_nets@,
        m@.cst is Some <==> m.cst is Some,
        m.cst is Some ==> m@.cst->0 == m.cst->0@,
        m@.interface is Some <==> m.interface is Some,
        m.interface is Some ==> m@.interface->0 == m.interface->0@,
        index@.flat == index.flat_regime && index@.top == index.top_scope,
        index@.drivers == index.driver_scopes@,
        index@.modules.dom() == index.modules@.dom(),
        forall|s: MetaItemRef| #[trigger]
            index.modules@.contains_key(s) ==> index@.modules[s] == index.modules@[s]@,
{
    assert(index@.modules.dom() =~= index.modules@.dom());
}

/// Inputs and outputs go into the top module. In the flat regime everything else goes into the root
/// module; otherwise a name goes into the only scope that its metadata speaks of, if there is just
/// one, and any other cell into the innermost scope around all that its metadata speaks of. What a
/// cell reads is needed in that scope, or in the root.
pub proof fn cells_go_where_their_metadata_says(d: &Design, st: IndexState, c: CellRef)
    ensures
        ({
            let scopes = d.item_scopes(d.cells@[c as int].metadata@);
            let inner = if st.flat {
                0
            } else {
                d.common_of(scopes)
            };
            let label = if st.flat {
                Some(0)
            } else if scopes.len() == 1 {
                Some(scopes[0])
            } else {
                None
            };
            &&& load_scope(d, st.flat, c) == inner
            &&& name_scope(d, st.flat, c) == label
            &&& placement(d, st, c) == (match d.cells@[c as int].cell {
                Cell::Input(..) => Some(st.top),
                Cell::Output(..) => Some(st.top),
                Cell::Name(..) => label,
                Cell::Debug(..) => label,
                _ => Some(inner),
            })
        }),
{
}

/// A cell drives its outputs, and reads the nets of its value, or of all its inputs one behind the
/// other. Inputs of the design read nothing.
pub proof fn cells_read_their_inputs(d: &Design, c: CellRef)
    ensures
        d.outputs(c) == d.cells@[c as int].output@,
        match d.cells@[c as int].cell {
            Cell::Input(..) => d.inputs(c).len() == 0,
            Cell::Output(_, value) => d.inputs(c) == value@,
            Cell::Name(_, value) => d.inputs(c) == value@,
            Cell::Debug(_, value) => d.inputs(c) == value@,
            Cell::Fine(value) => d.inputs(c) == value@,
            Cell::Coarse(value) => d.inputs(c) == value@,
            Cell::Other(instance) => d.inputs(c) == value_nets(instance.inputs@),
        },
{
}

/// The nets of two lists of values are those of the first and behind them those of the second; a
/// single value has its own nets.
pub proof fn values_follow_one_another(
    first: Seq<(String, Value)>,
    second: Seq<(String, Value)>,
    value: (String, Value),
)
    ensures
        value_nets(first + second) == value_nets(first) + value_nets(second),
        value_nets(seq![value]) == value.1@,
        value_nets(seq![]) == Seq::<Net>::empty(),
    decreases second.len(),
{
    let one = seq![value];
    assert(one.drop_last() =~= seq![]);
    assert(value_nets(one.drop_last()) =~= seq![]);
    assert(value_nets(one) =~= value.1@);
    if second.len() > 0 {
        values_follow_one_another(first, second.drop_last(), value);
        assert((first + second).drop_last() =~= first + second.drop_last());
        assert((first + second).last() == second.last());
        assert(value_nets(first + second) =~= value_nets(first) + value_nets(second));
    } else {
        assert(first + second =~= first);
        assert(value_nets(first) + value_nets(second) =~= value_nets(first));
    }
}

/// The module of a scope, or an empty one that bears the name of the scope.
pub open spec fn module_or_empty(
    d: &Design,
    modules: Map<MetaItemRef, ModuleState>,
    q: MetaItemRef,
) -> ModuleState {
    if modules.contains_key(q) {
        modules[q]
    } else {
        ModuleState {
            name: d.module_name(q),
            submodules: seq![],
            out_ports: Set::empty(),
            in_ports: Set::empty(),
            present: Set::empty(),
            cells: seq![],
            cst: None,
            interface: None,
        }
    }
}

/// Whether `p` is the scope of a module that was not there before, directly inside `q`.
pub open spec fn is_new_inside(
    d: &Design,
    before: Map<MetaItemRef, ModuleState>,
    after: Map<MetaItemRef, ModuleState>,
    p: MetaItemRef,
    q: MetaItemRef,
) -> bool {
    after.contains_key(p) && !before.contains_key(p) && p != NONE && d.parent(p) == q
}

/// Whether a module is as it was, but for a new one directly inside, which comes last.
spec fn is_extended(
    d: &Design,
    before: Map<MetaItemRef, ModuleState>,
    after: Map<MetaItemRef, ModuleState>,
    q: MetaItemRef,
) -> bool {
    let old_m = module_or_empty(d, before, q);
    &&& after[q] == ModuleState { submodules: after[q].submodules, ..old_m }
    &&& forall|p: MetaItemRef| #[trigger]
        is_new_inside(d, before, after, p, q) ==> after[q].submodules == old_m.submodules.push(p)
    &&& (forall|p: MetaItemRef| !#[trigger] is_new_inside(d, before, after, p, q))
        ==> after[q].submodules == old_m.submodules
}

proof fn lemma_opened_exactly(
    d: &Design,
    modules: Map<MetaItemRef, ModuleState>,
    s: MetaItemRef,
    q: MetaItemRef,
)
    requires
        is_tree(d, modules),
    ensures
        opened(d, modules, s).contains_key(q) <==> modules.contains_key(q) || d.is_within(s, q),
        opened(d, modules, s).contains_key(q) ==> is_extended(
            d,
            modules,
            opened(d, modules, s),
            q,
        ),
    decreases s,
{
    let after = opened(d, modules, s);
    if modules.contains_key(s) {
        if d.is_within(s, q) {
            lemma_tree_upward(d, modules, s, q);
        }
        if modules.contains_key(q) {
            assert(is_extended(d, modules, after, q));
        }
    } else if s == NONE {
        if after.contains_key(q) {
            assert(after[q] =~= module_or_empty(d, modules, q));
            assert forall|p: MetaItemRef| !#[trigger] is_new_inside(d, modules, after, p, q) by {}
            assert(is_extended(d, modules, after, q));
        }
    } else {
        let p = d.parent(s);
        let around = opened(d, modules, p);
        lemma_opened_exactly(d, modules, p, q);
        lemma_opened_exactly(d, modules, p, p);
        lemma_opened_exactly(d, modules, p, s);
        lemma_opened(d, modules, p);
        if d.is_within(p, s) {
            d.lemma_within_order(p, s);
        }
        assert forall|x: MetaItemRef| #[trigger] after.contains_key(x) implies x == s
            || around.contains_key(x) by {}
        assert forall|x: MetaItemRef|
            is_new_inside(d, modules, around, x, p) || is_new_inside(
                d,
                modules,
                around,
                x,
                s,
            ) implies false by {
            lemma_opened_exactly(d, modules, p, x);
            d.lemma_within_order(p, x);
        }
        if after.contains_key(q) {
            let old_m = module_or_empty(d, modules, q);
            if q == s {
                assert(after[q] =~= old_m);
                assert forall|x: MetaItemRef| !#[trigger] is_new_inside(
                    d,
                    modules,
                    after,
                    x,
                    q,
                ) by {
                    if is_new_inside(d, modules, after, x, q) && x != s {
                        assert(around.contains_key(x));
                        assert(is_new_inside(d, modules, around, x, s));
                    }
                }
            } else if q == p {
                assert forall|x: MetaItemRef| !#[trigger] is_new_inside(
                    d,
                    modules,
                    around,
                    x,
                    p,
                ) by {}
                assert(around[p].submodules == old_m.submodules);
                assert(after[q].submodules == old_m.submodules.push(s));
                assert(is_new_inside(d, modules, after, s, q));
                assert forall|x: MetaItemRef| #[trigger]
                    is_new_inside(d, modules, after, x, q) implies x == s by {
                    if x != s {
                        assert(around.contains_key(x));
                        assert(is_new_inside(d, modules, around, x, p));
                    }
                }
            } else {
                assert(after[q] == around[q]);
                assert forall|x: MetaItemRef| #[trigger]
                    is_new_inside(d, modules, after, x, q) implies is_new_inside(
                    d,
                    modules,
                    around,
                    x,
                    q,
                ) by {
                    assert(x != s);
                    assert(around.contains_key(x));
                }
                assert forall|x: MetaItemRef| #[trigger]
                    is_new_inside(d, modules, around, x, q) implies is_new_inside(
                    d,
                    modules,
                    after,
                    x,
                    q,
                ) by {}
                assert(is_extended(d, modules, around, q));
            }
            assert(is_extended(d, modules, after, q));
        }
    }
}

/// Adding a cell puts it last into the module of its scope, where its outputs are then present, and
/// lets that scope drive them. There is then a module for the scope and for every scope around it;
/// a new one is empty but for the cell, and comes last in the one around it. Nothing else changes.
pub proof fn cells_are_added_to_one_module(d: &Design, st: IndexState, c: CellRef, q: MetaItemRef)
    requires
        st.wf(d),
        placement(d, st, c) is Some,
    ensures
        ({
            let s = placement(d, st, c)->0;
            let output = d.cells@[c as int].output@;
            let st1 = added(d, st, c);
            let old_m = module_or_empty(d, st.modules, q);
            let m = st1.modules[q];
            &&& st1.flat == st.flat && st1.top == st.top
            &&& forall|n: Net| #[trigger]
                st1.drivers.contains_key(n) <==> st.drivers.contains_key(n) || output.contains(n)
            &&& forall|n: Net| #[trigger]
                st1.drivers.contains_key(n) ==> st1.drivers[n] == (if output.contains(n) {
                    s
                } else {
                    st.drivers[n]
                })
            &&& st1.modules.contains_key(q) <==> st.modules.contains_key(q) || d.is_within(s, q)
            &&& st1.modules.contains_key(q) ==> {
                &&& m.name == old_m.name && m.cst == old_m.cst && m.interface == old_m.interface
                &&& m.in_ports == old_m.in_ports && m.out_ports == old_m.out_ports
                &&& q == s ==> m.cells == old_m.cells.push(c)
                &&& q != s ==> m.cells == old_m.cells
                &&& forall|n: Net| #[trigger]
                    m.present.contains(n) <==> old_m.present.contains(n) || (q == s
                        && output.contains(n))
                &&& forall|p: MetaItemRef| #[trigger]
                    is_new_inside(d, st.modules, st1.modules, p, q) ==> m.submodules
                        == old_m.submodules.push(p)
                &&& (forall|p: MetaItemRef| !#[trigger]
                    is_new_inside(d, st.modules, st1.modules, p, q)) ==> m.submodules
                    == old_m.submodules
            }
        }),
{
    let s = placement(d, st, c)->0;
    let output = d.cells@[c as int].output@;
    let st1 = added(d, st, c);
    let modules = opened(d, st.modules, s);
    lemma_opened_exactly(d, st.modules, s, q);
    lemma_opened_exactly(d, st.modules, s, s);
    assert(modules.contains_key(s));
    assert forall|p: MetaItemRef| #[trigger]
        is_new_inside(d, st.modules, st1.modules, p, q) implies is_new_inside(
        d,
        st.modules,
        modules,
        p,
        q,
    ) by {}
    assert forall|p: MetaItemRef| #[trigger]
        is_new_inside(d, st.modules, modules, p, q) implies is_new_inside(
        d,
        st.modules,
        st1.modules,
        p,
        q,
    ) by {}
    if st1.modules.contains_key(q) {
        assert(is_extended(d, st.modules, modules, q));
    }
    assert forall|n: Net| #[trigger] st1.drivers.contains_key(n) <==> st.drivers.contains_key(n)
        || output.contains(n) by {}
}

/// Linking a net to a scope lets it go out of every module around its driver but not around the
/// scope, come into every module around the scope but not around its driver, and be present in
/// those and in the innermost around both. A constant, or a net that the scope itself drives, goes
/// through no port. Nothing else changes.
pub proof fn nets_pass_the_modules_on_their_way(
    d: &Design,
    st: IndexState,
    net: Net,
    load: MetaItemRef,
    p: MetaItemRef,
)
    requires
        st.modules.contains_key(p),
    ensures
        ({
            let st1 = linked(d, st, net, load);
            let driver = st.drivers[net];
            let passes = 2 <= net < 0xffff_ffff && driver != load;
            let m = st.modules[p];
            let m1 = st1.modules[p];
            &&& st1.flat == st.flat && st1.top == st.top && st1.drivers == st.drivers
            &&& st1.modules.dom() == st.modules.dom()
            &&& forall|n: Net| #[trigger]
                m1.out_ports.contains(n) <==> m.out_ports.contains(n) || (passes && n == net
                    && d.is_within(driver, p) && !d.is_within(load, p))
            &&& forall|n: Net| #[trigger]
                m1.in_ports.contains(n) <==> m.in_ports.contains(n) || (passes && n == net
                    && d.is_within(load, p) && !d.is_within(driver, p))
            &&& forall|n: Net| #[trigger]
                m1.present.contains(n) <==> m.present.contains(n) || (passes && n == net && (p
                    == d.common(driver, load) || d.is_within(load, p) != d.is_within(driver, p)))
            &&& m1.name == m.name && m1.cells == m.cells && m1.submodules == m.submodules
            &&& m1.cst == m.cst && m1.interface == m.interface
        }),
{
    assert(linked(d, st, net, load).modules.dom() =~= st.modules.dom());
}

proof fn lemma_linked_all_exactly(
    d: &Design,
    st: IndexState,
    nets: Seq<Net>,
    load: MetaItemRef,
    p: MetaItemRef,
)
    requires
        st.modules.contains_key(p),
        forall|i: int|
            0 <= i < nets.len() && is_cell_net(#[trigger] nets[i]) ==> st.modules.contains_key(
                load,
            ),
    ensures
        ({
            let st1 = linked_all(d, st, nets, load);
            let m = st.modules[p];
            let m1 = st1.modules[p];
            &&& st1.flat == st.flat && st1.top == st.top && st1.drivers == st.drivers
            &&& st1.modules.dom() == st.modules.dom()
            &&& forall|n: Net| #[trigger]
                m1.out_ports.contains(n) <==> m.out_ports.contains(n) || (is_cell_net(n)
                    && nets.contains(n) && d.is_within(st.drivers[n], p) && !d.is_within(load, p))
            &&& forall|n: Net| #[trigger]
                m1.in_ports.contains(n) <==> m.in_ports.contains(n) || (is_cell_net(n)
                    && nets.contains(n) && d.is_within(load, p) && !d.is_within(st.drivers[n], p))
            &&& forall|n: Net| #[trigger]
                m1.present.contains(n) <==> m.present.contains(n) || (is_cell_net(n)
                    && nets.contains(n) && (p == load || p == d.common(st.drivers[n], load)
                    || d.is_within(load, p) != d.is_within(st.drivers[n], p)))
            &&& m1.name == m.name && m1.cells == m.cells && m1.submodules == m.submodules
            &&& m1.cst == m.cst && m1.interface == m.interface
        }),
    decreases nets.len(),
{
    if nets.len() > 0 {
        let rest = nets.drop_last();
        let net = nets.last();
        assert forall|i: int| 0 <= i < rest.len() && is_cell_net(#[trigger] rest[i]) implies
            st.modules.contains_key(load) by {
            assert(rest[i] == nets[i]);
        }
        assert(nets[nets.len() - 1] == net);
        lemma_linked_all_exactly(d, st, rest, load, p);
        lemma_front_or_last(nets);
        let mid = linked_all(d, st, rest, load);
        let st1 = linked_all(d, st, nets, load);
        assert(mid.modules.dom().contains(p));
        assert(st1 == input_linked(d, mid, net, load));
        nets_pass_the_modules_on_their_way(d, mid, net, load, p);
        if is_cell_net(net) {
            assert(mid.modules.dom().contains(load) <==> st.modules.dom().contains(load));
            assert(st1.modules.dom() =~= mid.modules.dom());
            d.common_with_outer(load, load);
        }
    }
}

/// Linking a cell passes exactly the nets that it reads, constants left out, to its scope, where
/// they are then present. A cell that only gives a name changes nothing.
pub proof fn cells_get_the_nets_they_read(d: &Design, st: IndexState, c: CellRef, p: MetaItemRef)
    requires
        st.modules.contains_key(p),
        cell_linkable(d, st, c),
    ensures
        ({
            let st1 = cell_linked(d, st, c);
            let label = d.cells@[c as int].cell is Name || d.cells@[c as int].cell is Debug;
            let reads = |n: Net| !label && 2 <= n < 0xffff_ffff && d.inputs(c).contains(n);
            let load = load_scope(d, st.flat, c);
            let m = st.modules[p];
            let m1 = st1.modules[p];
            &&& label ==> st1 == st
            &&& st1.flat == st.flat && st1.top == st.top && st1.drivers == st.drivers
            &&& st1.modules.dom() == st.modules.dom()
            &&& forall|n: Net| #[trigger]
                m1.out_ports.contains(n) <==> m.out_ports.contains(n) || (reads(n) && d.is_within(
                    st.drivers[n],
                    p,
                ) && !d.is_within(load, p))
            &&& forall|n: Net| #[trigger]
                m1.in_ports.contains(n) <==> m.in_ports.contains(n) || (reads(n) && d.is_within(
                    load,
                    p,
                ) && !d.is_within(st.drivers[n], p))
            &&& forall|n: Net| #[trigger]
                m1.present.contains(n) <==> m.present.contains(n) || (reads(n) && (p == load || p
                    == d.common(st.drivers[n], load) || d.is_within(load, p) != d.is_within(
                    st.drivers[n],
                    p,
                )))
            &&& m1.name == m.name && m1.cells == m.cells && m1.submodules == m.submodules
            &&& m1.cst == m.cst && m1.interface == m.interface
        }),
{
    if !d.is_label(c) {
        let load = load_scope(d, st.flat, c);
        assert forall|i: int|
            0 <= i < d.inputs(c).len() && is_cell_net(#[trigger] d.inputs(c)[i]) implies
            st.modules.contains_key(load) by {
            assert(linkable(st, d.inputs(c)[i], load));
        }
        lemma_linked_all_exactly(d, st, d.inputs(c), load, p);
    }
}

proof fn lemma_siblings(
    d: &Design,
    modules: Map<MetaItemRef, ModuleState>,
    s: MetaItemRef,
    n: nat,
    i: int,
    j: int,
    x: MetaItemRef,
    y: MetaItemRef,
) -> (r: (int, int))
    requires
        d.wf(),
        is_tree(d, modules),
        modules.contains_key(s),
        0 <= i < j < n <= modules[s].submodules.len(),
        modules.contains_key(x),
        modules.contains_key(y),
        d.is_within(x, modules[s].submodules[i]),
        d.is_within(y, modules[s].submodules[j]),
    ensures
        0 <= r.0 < r.1 < visit_order_of(d, modules, s, n).len(),
        visit_order_of(d, modules, s, n)[r.0] == x,
        visit_order_of(d, modules, s, n)[r.1] == y,
    decreases n,
{
    let kids = modules[s].submodules;
    let m = (n - 1) as nat;
    let kid = kids[m as int];
    assert(modules.contains_key(kid) && d.parent(kid) == s && d.is_scope(kid));
    let before = visit_order_of(d, modules, s, m);
    let inner = visit_order(d, modules, kid);
    let all = visit_order_of(d, modules, s, n);
    assert(all == before + inner);
    if j == m {
        lemma_visit_of(d, modules, s, m);
        lemma_visit(d, modules, kid);
        assert(0 <= i < m && modules.contains_key(x) && d.is_within(x, kids[i]));
        assert(before.contains(x));
        assert(inner.contains(y));
        let a = choose|a: int| 0 <= a < before.len() && before[a] == x;
        let b = choose|b: int| 0 <= b < inner.len() && inner[b] == y;
        assert(all[a] == x);
        assert(all[before.len() + b] == y);
        (a, before.len() + b)
    } else {
        let r = lemma_siblings(d, modules, s, m, i, j, x, y);
        assert(all[r.0] == before[r.0] && all[r.1] == before[r.1]);
        r
    }
}

/// A walk visits what is inside one submodule before what is inside a later one, and the module
/// that it starts from last.
pub proof fn submodules_are_visited_in_order(
    d: &Design,
    st: IndexState,
    s: MetaItemRef,
    i: int,
    j: int,
    a: int,
    b: int,
)
    requires
        st.wf(d),
        st.modules.contains_key(s),
        0 <= i < j < st.modules[s].submodules.len(),
        0 <= a < visit_order(d, st.modules, s).len(),
        0 <= b < visit_order(d, st.modules, s).len(),
        d.is_within(visit_order(d, st.modules, s)[a], st.modules[s].submodules[i]),
        d.is_within(visit_order(d, st.modules, s)[b], st.modules[s].submodules[j]),
    ensures
        a < b,
        visit_order(d, st.modules, s).last() == s,
{
    let order = visit_order(d, st.modules, s);
    hierarchy_is_visited_inside_out(d, st, s);
    let x = order[a];
    let y = order[b];
    assert(order.contains(x) && order.contains(y));
    let n = st.modules[s].submodules.len();
    let r = lemma_siblings(d, st.modules, s, n, i, j, x, y);
    let part = visit_order_of(d, st.modules, s, n);
    assert(order[r.0] == part[r.0] && order[r.1] == part[r.1]);
}

} // verus!
