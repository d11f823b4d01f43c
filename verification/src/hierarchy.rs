//! Which module each cell belongs to, and which nets pass through the ports of each module.

use bumpalo::Bump;
use std::collections::{BTreeMap, BTreeSet};
use vstd::prelude::*;

use crate::arena::intern;
use crate::cst;
use crate::metadata::{metadata_scopes, reduce_scopes, verilog_module_name};
use crate::netlist::{is_cell, is_cell_net, Cell, CellRef, Design, MetaItemRef, Net, Value, NONE};
use crate::nets::lemma_front_or_last;
use crate::scope::common_scope;

verus! {

broadcast use vstd::std_specs::btree::group_btree_axioms;

/// A module under construction: one for each scope that cells are in.
pub struct Module<'a> {
    pub name: &'a str,
    /// The scopes directly inside, in the order in which they were met.
    pub submodules: Vec<MetaItemRef>,
    /// The nets driven inside and read outside.
    pub out_port_nets: BTreeSet<Net>,
    /// The nets driven outside and read inside.
    pub in_port_nets: BTreeSet<Net>,
    /// All nets that need a name in the module.
    pub present_nets: BTreeSet<Net>,
    pub cells: Vec<CellRef>,
    /// The finished module.
    pub cst: Option<cst::Module<'a>>,
    /// The nets behind the ports of the finished module.
    pub interface: Option<Value>,
}

/// The modules of a design.
pub struct HierarchyIndex<'a> {
    pub design: &'a Design,
    /// Whether all cells but inputs and outputs go into the root module.
    pub flat_regime: bool,
    pub modules: BTreeMap<MetaItemRef, Module<'a>>,
    /// The scope of the module that drives a net.
    pub driver_scopes: BTreeMap<Net, MetaItemRef>,
    /// The scope of the module that is to be the top, which has the inputs and outputs.
    pub top_scope: MetaItemRef,
}

/// A module under construction.
#[verifier::ext_equal]
pub struct ModuleState {
    pub name: Seq<char>,
    pub submodules: Seq<MetaItemRef>,
    pub out_ports: Set<Net>,
    pub in_ports: Set<Net>,
    pub present: Set<Net>,
    pub cells: Seq<CellRef>,
    pub cst: Option<cst::ModuleView>,
    pub interface: Option<Seq<Net>>,
}

/// The modules of a design.
#[verifier::ext_equal]
pub struct IndexState {
    pub flat: bool,
    pub modules: Map<MetaItemRef, ModuleState>,
    pub drivers: Map<Net, MetaItemRef>,
    pub top: MetaItemRef,
}

impl<'a> View for Module<'a> {
    type V = ModuleState;

    open spec fn view(&self) -> ModuleState {
        ModuleState {
            name: self.name@,
            submodules: self.submodules@,
            out_ports: self.out_port_nets@,
            in_ports: self.in_port_nets@,
            present: self.present_nets@,
            cells: self.cells@,
            cst: match self.cst {
                Some(m) => Some(m@),
                None => None,
            },
            interface: match self.interface {
                Some(v) => Some(v@),
                None => None,
            },
        }
    }
}

/// The views of modules.
pub open spec fn modules_view<'a>(modules: Map<MetaItemRef, Module<'a>>) -> Map<
    MetaItemRef,
    ModuleState,
> {
    modules.map_values(|m: Module<'a>| m@)
}

impl<'a> View for HierarchyIndex<'a> {
    type V = IndexState;

    open spec fn view(&self) -> IndexState {
        IndexState {
            flat: self.flat_regime,
            modules: modules_view(self.modules@),
            drivers: self.driver_scopes@,
            top: self.top_scope,
        }
    }
}

/// An empty module for a scope.
pub open spec fn fresh_module(d: &Design, s: MetaItemRef) -> ModuleState {
    ModuleState {
        name: d.module_name(s),
        submodules: seq![],
        out_ports: Set::empty(),
        in_ports: Set::empty(),
        present: Set::empty(),
        cells: seq![],
        cst: None,
        interface: None,
    }
}

/// A module with one more scope directly inside.
pub open spec fn with_submodule(m: ModuleState, s: MetaItemRef) -> ModuleState {
    ModuleState { submodules: m.submodules.push(s), ..m }
}

/// The modules once there is one for `s`: it and the missing ones around it are empty, and each
/// new one stands in the one around it.
pub open spec fn opened(
    d: &Design,
    modules: Map<MetaItemRef, ModuleState>,
    s: MetaItemRef,
) -> Map<MetaItemRef, ModuleState>
    decreases s,
{
    if modules.contains_key(s) {
        modules
    } else if s == NONE {
        modules.insert(NONE, fresh_module(d, NONE))
    } else {
        let p = d.parent(s);
        let around = opened(d, modules, p);
        around.insert(p, with_submodule(around[p], s)).insert(s, fresh_module(d, s))
    }
}

impl Design {
    /// The scopes that the metadata of a cell speaks of.
    pub open spec fn cell_scopes(&self, c: CellRef) -> Seq<MetaItemRef> {
        self.item_scopes(self.cells@[c as int].metadata@)
    }

    /// Whether a cell is an input or an output of the design.
    pub open spec fn is_io(&self, c: CellRef) -> bool {
        match self.cells@[c as int].cell {
            Cell::Input(..) => true,
            Cell::Output(..) => true,
            _ => false,
        }
    }

    /// Whether a cell only gives a name.
    pub open spec fn is_label(&self, c: CellRef) -> bool {
        match self.cells@[c as int].cell {
            Cell::Name(..) => true,
            Cell::Debug(..) => true,
            _ => false,
        }
    }

    /// The nets that a cell reads, in order.
    pub open spec fn inputs(&self, c: CellRef) -> Seq<Net> {
        cell_inputs(self.cells@[c as int].cell)
    }

    /// The nets that a cell drives, in order.
    pub open spec fn outputs(&self, c: CellRef) -> Seq<Net> {
        self.cells@[c as int].output@
    }
}

/// The nets of values, one value behind the other.
pub open spec fn value_nets(values: Seq<(String, Value)>) -> Seq<Net>
    decreases values.len(),
{
    if values.len() == 0 {
        seq![]
    } else {
        value_nets(values.drop_last()) + values.last().1@
    }
}

/// The nets that a cell reads, in order.
pub open spec fn cell_inputs(cell: Cell) -> Seq<Net> {
    match cell {
        Cell::Input(..) => seq![],
        Cell::Output(_, value) => value@,
        Cell::Name(_, value) => value@,
        Cell::Debug(_, value) => value@,
        Cell::Other(instance) => value_nets(instance.inputs@),
        Cell::Fine(value) => value@,
        Cell::Coarse(value) => value@,
    }
}

/// The scope that what a cell reads is needed in.
pub open spec fn load_scope(d: &Design, flat: bool, c: CellRef) -> MetaItemRef {
    if flat {
        NONE
    } else {
        d.common_of(d.cell_scopes(c))
    }
}

/// The scope that a name is given in, if there is exactly one.
pub open spec fn name_scope(d: &Design, flat: bool, c: CellRef) -> Option<MetaItemRef> {
    if flat {
        Some(NONE)
    } else if d.cell_scopes(c).len() == 1 {
        Some(d.cell_scopes(c)[0])
    } else {
        None
    }
}

/// The scope of the module that a cell goes into.
pub open spec fn placement(d: &Design, st: IndexState, c: CellRef) -> Option<MetaItemRef> {
    if d.is_label(c) {
        name_scope(d, st.flat, c)
    } else if d.is_io(c) {
        Some(st.top)
    } else {
        Some(load_scope(d, st.flat, c))
    }
}

/// A module with one more cell, whose outputs are present in it.
pub open spec fn with_cell(d: &Design, m: ModuleState, c: CellRef) -> ModuleState {
    ModuleState {
        cells: m.cells.push(c),
        present: m.present.union(d.outputs(c).to_set()),
        ..m
    }
}

/// The drivers once the nets of a cell in scope `s` are added.
pub open spec fn with_drivers(
    drivers: Map<Net, MetaItemRef>,
    nets: Seq<Net>,
    s: MetaItemRef,
) -> Map<Net, MetaItemRef> {
    drivers.union_prefer_right(Map::new(|n: Net| nets.contains(n), |n: Net| s))
}

/// The modules once a cell is added: it goes into the module of its scope, which then drives its
/// outputs.
pub open spec fn added(d: &Design, st: IndexState, c: CellRef) -> IndexState {
    let s = placement(d, st, c)->0;
    let modules = opened(d, st.modules, s);
    IndexState {
        modules: modules.insert(s, with_cell(d, modules[s], c)),
        drivers: with_drivers(st.drivers, d.outputs(c), s),
        ..st
    }
}

/// A module once a net that is driven in `driver` is read in `load`: it goes out of every module
/// around the one but not the other, comes into every module around the other but not the one, and
/// is present in those and in the innermost one around both.
pub open spec fn module_linked(
    d: &Design,
    p: MetaItemRef,
    m: ModuleState,
    net: Net,
    driver: MetaItemRef,
    load: MetaItemRef,
) -> ModuleState {
    let leaves = d.is_within(driver, p) && !d.is_within(load, p);
    let enters = d.is_within(load, p) && !d.is_within(driver, p);
    ModuleState {
        out_ports: if leaves {
            m.out_ports.insert(net)
        } else {
            m.out_ports
        },
        in_ports: if enters {
            m.in_ports.insert(net)
        } else {
            m.in_ports
        },
        present: if leaves || enters || p == d.common(driver, load) {
            m.present.insert(net)
        } else {
            m.present
        },
        ..m
    }
}

/// The modules once a net is read in scope `load`. Constants need no port, and neither does a net
/// that is read where it is driven.
pub open spec fn linked(d: &Design, st: IndexState, net: Net, load: MetaItemRef) -> IndexState {
    if !is_cell_net(net) || st.drivers[net] == load {
        st
    } else {
        IndexState {
            modules: Map::new(
                |p: MetaItemRef| st.modules.contains_key(p),
                |p: MetaItemRef|
                    module_linked(d, p, st.modules[p], net, st.drivers[net], load),
            ),
            ..st
        }
    }
}

/// The modules once a net is present in scope `s`.
pub open spec fn with_present(st: IndexState, s: MetaItemRef, net: Net) -> IndexState {
    let m = st.modules[s];
    IndexState {
        modules: st.modules.insert(s, ModuleState { present: m.present.insert(net), ..m }),
        ..st
    }
}

/// The modules once a cell in scope `load` reads a net.
pub open spec fn input_linked(
    d: &Design,
    st: IndexState,
    net: Net,
    load: MetaItemRef,
) -> IndexState {
    if is_cell_net(net) {
        with_present(linked(d, st, net, load), load, net)
    } else {
        st
    }
}

/// The modules once `nets` are read in scope `load`.
pub open spec fn linked_all(
    d: &Design,
    st: IndexState,
    nets: Seq<Net>,
    load: MetaItemRef,
) -> IndexState
    decreases nets.len(),
{
    if nets.len() == 0 {
        st
    } else {
        input_linked(d, linked_all(d, st, nets.drop_last(), load), nets.last(), load)
    }
}

/// The modules once the nets that a cell reads are linked. Cells that only give a name read
/// nothing.
pub open spec fn cell_linked(d: &Design, st: IndexState, c: CellRef) -> IndexState {
    if d.is_label(c) {
        st
    } else {
        linked_all(d, st, d.inputs(c), load_scope(d, st.flat, c))
    }
}

/// A module with one more port.
pub open spec fn port_marked(m: ModuleState, net: Net, outward: bool) -> ModuleState {
    ModuleState {
        out_ports: if outward {
            m.out_ports.insert(net)
        } else {
            m.out_ports
        },
        in_ports: if outward {
            m.in_ports
        } else {
            m.in_ports.insert(net)
        },
        present: m.present.insert(net),
        ..m
    }
}

/// The modules once a net is a port of those around `from` that are not around `to`.
pub open spec fn path_marked(
    d: &Design,
    modules: Map<MetaItemRef, ModuleState>,
    from: MetaItemRef,
    to: MetaItemRef,
    net: Net,
    outward: bool,
) -> Map<MetaItemRef, ModuleState> {
    Map::new(
        |p: MetaItemRef| modules.contains_key(p),
        |p: MetaItemRef|
            if d.is_within(from, p) && !d.is_within(to, p) {
                port_marked(modules[p], net, outward)
            } else {
                modules[p]
            },
    )
}

/// Whether a net can be linked to scope `load`: it is a constant, or it has a driver and the scope
/// has a module.
pub open spec fn linkable(st: IndexState, net: Net, load: MetaItemRef) -> bool {
    is_cell_net(net) ==> st.drivers.contains_key(net) && st.modules.contains_key(load)
}

/// Whether the nets that a cell reads can be linked. Cells that only give a name read nothing.
pub open spec fn cell_linkable(d: &Design, st: IndexState, c: CellRef) -> bool {
    d.is_label(c) || forall|i: int|
        0 <= i < d.inputs(c).len() ==> linkable(
            st,
            #[trigger] d.inputs(c)[i],
            load_scope(d, st.flat, c),
        )
}

/// The scopes of the modules inside the one of `s`, each behind those inside it, and last `s`.
pub open spec fn visit_order(
    d: &Design,
    modules: Map<MetaItemRef, ModuleState>,
    s: MetaItemRef,
) -> Seq<MetaItemRef>
    decreases d.metadata@.len() - s, modules[s].submodules.len() + 1,
{
    visit_order_of(d, modules, s, modules[s].submodules.len()).push(s)
}

/// The same for the first `n` submodules alone.
pub open spec fn visit_order_of(
    d: &Design,
    modules: Map<MetaItemRef, ModuleState>,
    s: MetaItemRef,
    n: nat,
) -> Seq<MetaItemRef>
    decreases d.metadata@.len() - s, n,
{
    if n == 0 {
        seq![]
    } else {
        let inner = modules[s].submodules[n - 1];
        visit_order_of(d, modules, s, (n - 1) as nat) + (if s < inner < d.metadata@.len() {
            visit_order(d, modules, inner)
        } else {
            seq![]
        })
    }
}

/// Whether the modules form a tree: each stands exactly once in the one around it, up to the root.
pub open spec fn is_tree(d: &Design, modules: Map<MetaItemRef, ModuleState>) -> bool {
    &&& forall|s: MetaItemRef| #[trigger] modules.contains_key(s) ==> d.is_scope(s)
    &&& forall|s: MetaItemRef|
        modules.contains_key(s) && s != NONE ==> modules.contains_key(#[trigger] d.parent(s))
            && modules[d.parent(s)].submodules.contains(s)
    &&& forall|p: MetaItemRef, i: int|
        modules.contains_key(p) && 0 <= i < modules[p].submodules.len() ==> {
            let s = #[trigger] modules[p].submodules[i];
            modules.contains_key(s) && s != NONE && d.parent(s) == p
        }
    &&& forall|p: MetaItemRef| #[trigger]
        modules.contains_key(p) ==> modules[p].submodules.no_duplicates()
}

/// Whether a module holds only cells of the design, bears the name of its scope, and has every
/// port among its nets.
pub open spec fn module_ok(d: &Design, s: MetaItemRef, m: ModuleState) -> bool {
    &&& m.name == d.module_name(s)
    &&& m.in_ports.subset_of(m.present)
    &&& m.out_ports.subset_of(m.present)
    &&& forall|i: int| 0 <= i < m.cells.len() ==> #[trigger] m.cells[i] < d.cells@.len()
}

impl IndexState {
    /// Whether the modules form a tree, are in order, and contain the driver of every net.
    pub open spec fn wf(self, d: &Design) -> bool {
        &&& d.wf()
        &&& d.is_scope(self.top)
        &&& is_tree(d, self.modules)
        &&& forall|s: MetaItemRef| #[trigger]
            self.modules.contains_key(s) ==> module_ok(d, s, self.modules[s])
        &&& forall|n: Net| #[trigger]
            self.drivers.contains_key(n) ==> self.modules.contains_key(self.drivers[n])
    }
}

/// Opening a scope adds only it and scopes around it, and only lets modules that stand there
/// already get one more submodule.
pub proof fn lemma_opened(d: &Design, modules: Map<MetaItemRef, ModuleState>, s: MetaItemRef)
    ensures
        opened(d, modules, s).contains_key(s),
        forall|q: MetaItemRef| #[trigger]
            modules.contains_key(q) ==> opened(d, modules, s).contains_key(q),
        forall|q: MetaItemRef| #[trigger]
            opened(d, modules, s).contains_key(q) ==> modules.contains_key(q) || d.is_within(s, q),
        forall|q: MetaItemRef| #[trigger]
            modules.contains_key(q) ==> (opened(d, modules, s)[q] == ModuleState {
                submodules: opened(d, modules, s)[q].submodules,
                ..modules[q]
            }),
        forall|q: MetaItemRef| #[trigger]
            modules.contains_key(q) && q >= s ==> opened(d, modules, s)[q] == modules[q],
        !modules.contains_key(s) ==> opened(d, modules, s)[s] == fresh_module(d, s),
    decreases s,
{
    if !modules.contains_key(s) && s != NONE {
        let p = d.parent(s);
        lemma_opened(d, modules, p);
        let around = opened(d, modules, p);
        if around.contains_key(s) {
            d.lemma_within_order(p, s);
        }
    }
}

/// Opening a scope keeps the modules a tree.
pub proof fn lemma_opened_tree(d: &Design, modules: Map<MetaItemRef, ModuleState>, s: MetaItemRef)
    requires
        d.wf(),
        d.is_scope(s),
        is_tree(d, modules),
    ensures
        is_tree(d, opened(d, modules, s)),
    decreases s,
{
    if modules.contains_key(s) {
    } else if s == NONE {
        assert forall|q: MetaItemRef|
            opened(d, modules, s).contains_key(q) && q != NONE implies opened(
            d,
            modules,
            s,
        ).contains_key(#[trigger] d.parent(q)) && opened(d, modules, s)[d.parent(q)].submodules.contains(
            q,
        ) by {
            assert(modules.contains_key(q));
        }
    } else {
        let p = d.parent(s);
        assert(d.item_ok(s));
        lemma_opened_tree(d, modules, p);
        lemma_opened(d, modules, p);
        let around = opened(d, modules, p);
        let new = opened(d, modules, s);
        if around.contains_key(s) {
            d.lemma_within_order(p, s);
        }
        let kids = around[p].submodules;
        let kids1 = new[p].submodules;
        assert(kids1 == kids.push(s));
        assert(kids1[kids.len() as int] == s);
        assert forall|q: MetaItemRef|
            new.contains_key(q) && q != NONE implies new.contains_key(#[trigger] d.parent(q))
            && new[d.parent(q)].submodules.contains(q) by {
            if q == s {
                assert(kids1.contains(s));
            } else {
                assert(around.contains_key(q));
                let r = d.parent(q);
                assert(around[r].submodules.contains(q));
                let i = choose|i: int|
                    0 <= i < around[r].submodules.len() && around[r].submodules[i] == q;
                assert(r != s);
                assert(new[r].submodules[i] == q);
            }
        }
        assert forall|q: MetaItemRef, i: int|
            new.contains_key(q) && 0 <= i < new[q].submodules.len() implies {
            let x = #[trigger] new[q].submodules[i];
            new.contains_key(x) && x != NONE && d.parent(x) == q
        } by {
            if q == s {
            } else if q == p && i == kids.len() {
            } else {
                let x = around[q].submodules[i];
                assert(around.contains_key(x));
            }
        }
        assert forall|q: MetaItemRef| #[trigger]
            new.contains_key(q) implies new[q].submodules.no_duplicates() by {
            if q == p {
                if kids.contains(s) {
                    let i = choose|i: int| 0 <= i < kids.len() && kids[i] == s;
                    assert(around.contains_key(around[p].submodules[i]));
                }
            } else if q != s {
                assert(around.contains_key(q));
            }
        }
    }
}

/// In a tree, the modules around a module are there too.
pub proof fn lemma_tree_upward(
    d: &Design,
    modules: Map<MetaItemRef, ModuleState>,
    s: MetaItemRef,
    outer: MetaItemRef,
)
    requires
        is_tree(d, modules),
        modules.contains_key(s),
        d.is_within(s, outer),
    ensures
        modules.contains_key(outer),
    decreases s,
{
    if s != outer {
        assert(modules.contains_key(d.parent(s)));
        lemma_tree_upward(d, modules, d.parent(s), outer);
    }
}

/// Whether a module keeps its name, submodules and cells, and its ports are among its nets if they
/// were before.
pub open spec fn keeps_shape(m: ModuleState, m1: ModuleState) -> bool {
    &&& m1.name == m.name
    &&& m1.submodules == m.submodules
    &&& m1.cells == m.cells
    &&& m.in_ports.subset_of(m.present) ==> m1.in_ports.subset_of(m1.present)
    &&& m.out_ports.subset_of(m.present) ==> m1.out_ports.subset_of(m1.present)
}

/// Modules that keep their shape, with the same drivers, stay in order.
pub proof fn lemma_same_shape(d: &Design, st: IndexState, st1: IndexState)
    requires
        st.wf(d),
        st1.flat == st.flat,
        st1.top == st.top,
        st1.drivers == st.drivers,
        st1.modules.dom() =~= st.modules.dom(),
        forall|s: MetaItemRef| #[trigger]
            st.modules.contains_key(s) ==> keeps_shape(st.modules[s], st1.modules[s]),
    ensures
        st1.wf(d),
{
    let modules = st.modules;
    let new = st1.modules;
    assert forall|q: MetaItemRef| #[trigger] new.contains_key(q) <==> modules.contains_key(q) by {
        assert(new.dom().contains(q) <==> modules.dom().contains(q));
    }
    assert forall|q: MetaItemRef| new.contains_key(q) && q != NONE implies new.contains_key(
        #[trigger] d.parent(q),
    ) && new[d.parent(q)].submodules.contains(q) by {
        assert(modules.contains_key(d.parent(q)));
    }
    assert forall|p: MetaItemRef, i: int|
        new.contains_key(p) && 0 <= i < new[p].submodules.len() implies {
        let s = #[trigger] new[p].submodules[i];
        new.contains_key(s) && s != NONE && d.parent(s) == p
    } by {
        assert(modules.contains_key(p));
        assert(modules.contains_key(modules[p].submodules[i]));
    }
    assert forall|p: MetaItemRef| #[trigger]
        new.contains_key(p) implies new[p].submodules.no_duplicates() by {
        assert(modules.contains_key(p));
    }
    assert(is_tree(d, new));
    assert forall|s: MetaItemRef| #[trigger] new.contains_key(s) implies module_ok(d, s, new[s]) by {
        assert(modules.contains_key(s));
        assert(module_ok(d, s, modules[s]));
    }
    assert forall|n: Net| #[trigger] st1.drivers.contains_key(n) implies new.contains_key(
        st1.drivers[n],
    ) by {
        assert(st.drivers.contains_key(n));
    }
}

/// Linking a net keeps the modules in order.
pub proof fn lemma_linked_wf(d: &Design, st: IndexState, net: Net, load: MetaItemRef)
    requires
        st.wf(d),
    ensures
        linked(d, st, net, load).wf(d),
{
    if is_cell_net(net) && st.drivers[net] != load {
        let st1 = linked(d, st, net, load);
        lemma_same_shape(d, st, st1);
    }
}

/// Linking a net marks the way out of its driver, the common scope, and the way to where it is
/// read.
proof fn lemma_link_steps(d: &Design, st: IndexState, net: Net, load: MetaItemRef)
    requires
        st.wf(d),
        is_cell_net(net),
        st.drivers.contains_key(net),
        st.drivers[net] != load,
        st.modules.contains_key(d.common(st.drivers[net], load)),
        st.modules.contains_key(load),
    ensures
        ({
            let driver = st.drivers[net];
            let common = d.common(driver, load);
            let st1 = IndexState {
                modules: path_marked(d, st.modules, driver, common, net, true),
                ..st
            };
            let st2 = with_present(st1, common, net);
            let st3 = IndexState {
                modules: path_marked(d, st2.modules, load, common, net, false),
                ..st2
            };
            st2.wf(d) && st3 == linked(d, st, net, load)
        }),
{
    let driver = st.drivers[net];
    let common = d.common(driver, load);
    let st1 = IndexState {
        modules: path_marked(d, st.modules, driver, common, net, true),
        ..st
    };
    let st2 = with_present(st1, common, net);
    let st3 = IndexState {
        modules: path_marked(d, st2.modules, load, common, net, false),
        ..st2
    };
    assert(st2.modules.dom() =~= st.modules.dom());
    lemma_same_shape(d, st, st2);
    let goal = linked(d, st, net, load);
    assert forall|q: MetaItemRef| #[trigger] st.modules.contains_key(q) implies st3.modules[q]
        == goal.modules[q] by {
        d.common_is_innermost(driver, load, q);
        d.common_is_innermost(driver, load, common);
        assert(st3.modules[q] =~= goal.modules[q]);
    }
    assert(st3.modules =~= goal.modules);
}

/// One more net in a module keeps the modules in order.
pub proof fn lemma_present_wf(d: &Design, st: IndexState, s: MetaItemRef, net: Net)
    requires
        st.wf(d),
        st.modules.contains_key(s),
    ensures
        with_present(st, s, net).wf(d),
{
    let st1 = with_present(st, s, net);
    assert(st1.modules.dom() =~= st.modules.dom());
    lemma_same_shape(d, st, st1);
}

/// Adding a cell keeps the modules in order.
pub proof fn lemma_added_wf(d: &Design, st: IndexState, c: CellRef)
    requires
        st.wf(d),
        c < d.cells@.len(),
        placement(d, st, c) is Some,
        d.is_scope(placement(d, st, c)->0),
    ensures
        added(d, st, c).wf(d),
{
    let s = placement(d, st, c)->0;
    let modules = opened(d, st.modules, s);
    lemma_opened_tree(d, st.modules, s);
    lemma_opened(d, st.modules, s);
    lemma_opened_ok(d, st.modules, s);
    let st1 = added(d, st, c);
    let mid = IndexState { modules, ..st };
    assert forall|n: Net| #[trigger] mid.drivers.contains_key(n) implies mid.modules.contains_key(
        mid.drivers[n],
    ) by {
        assert(st.modules.contains_key(st.drivers[n]));
    }
    assert(mid.wf(d));
    let new = st1.modules;
    assert(new.dom() =~= modules.dom());
    assert forall|q: MetaItemRef| new.contains_key(q) && q != NONE implies new.contains_key(
        #[trigger] d.parent(q),
    ) && new[d.parent(q)].submodules.contains(q) by {
        assert(modules.contains_key(d.parent(q)));
    }
    assert forall|p: MetaItemRef, i: int|
        new.contains_key(p) && 0 <= i < new[p].submodules.len() implies {
        let x = #[trigger] new[p].submodules[i];
        new.contains_key(x) && x != NONE && d.parent(x) == p
    } by {
        assert(modules.contains_key(p));
        assert(modules.contains_key(modules[p].submodules[i]));
    }
    assert(is_tree(d, new));
    assert forall|q: MetaItemRef| #[trigger] new.contains_key(q) implies module_ok(d, q, new[q]) by {
        assert(modules.contains_key(q));
        assert(module_ok(d, q, modules[q]));
    }
    assert forall|n: Net| #[trigger] st1.drivers.contains_key(n) implies new.contains_key(
        st1.drivers[n],
    ) by {
        if !d.outputs(c).contains(n) {
            assert(st.drivers.contains_key(n));
            assert(modules.contains_key(st.drivers[n]));
        }
    }
}

/// Opening a scope keeps every module in order.
proof fn lemma_opened_ok(d: &Design, modules: Map<MetaItemRef, ModuleState>, s: MetaItemRef)
    requires
        forall|q: MetaItemRef| #[trigger]
            modules.contains_key(q) ==> module_ok(d, q, modules[q]),
    ensures
        forall|q: MetaItemRef| #[trigger]
            opened(d, modules, s).contains_key(q) ==> module_ok(d, q, opened(d, modules, s)[q]),
    decreases s,
{
    if !modules.contains_key(s) && s != NONE {
        lemma_opened_ok(d, modules, d.parent(s));
        lemma_opened(d, modules, d.parent(s));
    }
}

/// Putting a module in puts in its view.
pub proof fn lemma_view_insert<'a>(
    modules: Map<MetaItemRef, Module<'a>>,
    s: MetaItemRef,
    m: Module<'a>,
)
    ensures
        modules_view(modules.insert(s, m)) == modules_view(modules).insert(s, m@),
        modules_view(modules.remove(s).insert(s, m)) == modules_view(modules).insert(s, m@),
{
    assert(modules_view(modules.insert(s, m)) =~= modules_view(modules).insert(s, m@));
    assert(modules.remove(s).insert(s, m) =~= modules.insert(s, m));
}

impl<'a> HierarchyIndex<'a> {
    /// No modules yet; all cells but inputs and outputs are to go into the root module.
    pub fn new(design: &'a Design, top_scope: MetaItemRef) -> (r: Self)
        ensures
            r.design == design,
            r@ == (IndexState {
                flat: true,
                modules: Map::empty(),
                drivers: Map::empty(),
                top: top_scope,
            }),
    {
        let r = HierarchyIndex {
            design,
            flat_regime: true,
            modules: BTreeMap::new(),
            driver_scopes: BTreeMap::new(),
            top_scope,
        };
        proof {
            assert(r@.modules =~= Map::empty());
        }
        r
    }

    fn initialize_module(alloc: &'a Bump, design: &Design, scope: MetaItemRef) -> (r: Module<'a>)
        requires
            design.wf(),
            design.is_scope(scope),
        ensures
            r@ == fresh_module(design, scope),
    {
        Module {
            name: intern(alloc, verilog_module_name(design, scope)),
            submodules: Vec::new(),
            out_port_nets: BTreeSet::new(),
            in_port_nets: BTreeSet::new(),
            present_nets: BTreeSet::new(),
            cells: Vec::new(),
            cst: None,
            interface: None,
        }
    }

    fn open_scope(&mut self, alloc: &'a Bump, scope: MetaItemRef)
        requires
            old(self).design.wf(),
            old(self).design.is_scope(scope),
        ensures
            final(self).design == old(self).design,
            final(self)@ == (IndexState {
                modules: opened(old(self).design, old(self)@.modules, scope),
                ..old(self)@
            }),
        decreases scope,
    {
        let design = self.design;
        if self.modules.contains_key(&scope) {
            return;
        }
        proof {
            assert(!self@.modules.contains_key(scope));
        }
        if let Some(parent) = design.scope_parent(scope) {
            proof {
                lemma_opened(design, self@.modules, parent);
            }
            self.open_scope(alloc, parent);
            proof {
                assert(self.modules@.contains_key(parent));
            }
            let ghost modules0 = self.modules@;
            let mut module = self.modules.remove(&parent).unwrap();
            let ghost m0 = module@;
            module.submodules.push(scope);
            self.modules.insert(parent, module);
            proof {
                lemma_view_insert(modules0, parent, module);
                assert(module@ =~= with_submodule(m0, scope));
            }
        }
        let ghost modules1 = self.modules@;
        let module = Self::initialize_module(alloc, design, scope);
        self.modules.insert(scope, module);
        proof {
            lemma_view_insert(modules1, scope, module);
        }
    }

    /// The scope that what a cell reads is needed in.
    pub fn find_common_scope(&self, cell: CellRef) -> (r: MetaItemRef)
        requires
            self.design.wf(),
            cell < self.design.cells@.len(),
        ensures
            r == load_scope(self.design, self.flat_regime, cell),
            self.design.is_scope(r),
    {
        if self.flat_regime {
            return NONE;
        }
        proof {
            assert(self.design.entry_ok(cell));
        }
        let scopes = metadata_scopes(self.design, &self.design.cells[cell].metadata);
        reduce_scopes(self.design, &scopes)
    }

    /// The scope that a name is given in, if there is exactly one.
    pub fn find_name_scope(&self, cell: CellRef) -> (r: Option<MetaItemRef>)
        requires
            self.design.wf(),
            cell < self.design.cells@.len(),
        ensures
            r == name_scope(self.design, self.flat_regime, cell),
            r matches Some(scope) ==> self.design.is_scope(scope),
    {
        if self.flat_regime {
            return Some(NONE);
        }
        proof {
            assert(self.design.entry_ok(cell));
        }
        let scopes = metadata_scopes(self.design, &self.design.cells[cell].metadata);
        if scopes.len() == 1 {
            Some(scopes[0])
        } else {
            None
        }
    }

    /// Adds a cell to the module of its scope.
    pub fn add_cell(&mut self, alloc: &'a Bump, cell: CellRef)
        requires
            old(self)@.wf(old(self).design),
            cell < old(self).design.cells@.len(),
            placement(old(self).design, old(self)@, cell) is Some,
        ensures
            final(self).design == old(self).design,
            final(self)@ == added(old(self).design, old(self)@, cell),
            final(self)@.wf(final(self).design),
    {
        let design = self.design;
        let scope: MetaItemRef = match &design.cells[cell].cell {
            Cell::Name(..) | Cell::Debug(..) => self.find_name_scope(cell).unwrap(),
            Cell::Input(..) | Cell::Output(..) => self.top_scope,
            _ => self.find_common_scope(cell),
        };
        proof {
            lemma_opened(design, self@.modules, scope);
        }
        self.open_scope(alloc, scope);
        let ghost modules0 = self.modules@;
        let ghost drivers0 = self.driver_scopes@;
        proof {
            assert(self@.modules.contains_key(scope));
        }
        let mut module = self.modules.remove(&scope).unwrap();
        let ghost m0 = module@;
        module.cells.push(cell);
        let ghost modules1 = self.modules@;
        let output = &design.cells[cell].output;
        for i in 0..output.len()
            invariant
                output@ == design.outputs(cell),
                self.design == design,
                self.flat_regime == old(self).flat_regime,
                self.top_scope == old(self).top_scope,
                self.modules@ == modules1,
                module@ == (ModuleState {
                    cells: m0.cells.push(cell),
                    present: m0.present.union(output@.take(i as int).to_set()),
                    ..m0
                }),
                self.driver_scopes@ == with_drivers(drivers0, output@.take(i as int), scope),
        {
            let ghost before = output@.take(i as int);
            let net: Net = output[i];
            self.driver_scopes.insert(net, scope);
            module.present_nets.insert(net);
            proof {
                let after = output@.take(i + 1);
                assert(after.drop_last() =~= before);
                lemma_front_or_last(after);
                assert(m0.present.union(after.to_set()) =~= m0.present.union(
                    before.to_set(),
                ).insert(net));
                assert(self.driver_scopes@ =~= with_drivers(drivers0, after, scope));
            }
        }
        self.modules.insert(scope, module);
        proof {
            assert(output@.take(output@.len() as int) =~= output@);
            lemma_view_insert(modules0, scope, module);
            assert(module@ =~= with_cell(design, m0, cell));
            assert(self@ =~= added(design, old(self)@, cell));
            lemma_added_wf(design, old(self)@, cell);
        }
    }

    fn mark_path(&mut self, from: MetaItemRef, to: MetaItemRef, net: Net, outward: bool)
        requires
            old(self)@.wf(old(self).design),
            old(self)@.modules.contains_key(from),
            old(self).design.is_within(from, to),
        ensures
            final(self).design == old(self).design,
            final(self)@ == (IndexState {
                modules: path_marked(
                    old(self).design,
                    old(self)@.modules,
                    from,
                    to,
                    net,
                    outward,
                ),
                ..old(self)@
            }),
    {
        let design = self.design;
        let ghost modules0 = self@.modules;
        let mut p: MetaItemRef = from;
        proof {
            assert(self@.modules =~= path_marked(design, modules0, from, from, net, outward));
        }
        while p != to
            invariant
                design.wf(),
                is_tree(design, modules0),
                modules0.contains_key(p),
                design.is_within(p, to),
                design.is_within(from, p),
                self.design == design,
                self@ == (IndexState {
                    modules: path_marked(design, modules0, from, p, net, outward),
                    ..old(self)@
                }),
            decreases p,
        {
            proof {
                assert(self@.modules.contains_key(p));
                assert(modules0.contains_key(design.parent(p)));
                design.lemma_within_parent(p, to);
                design.within_is_transitive(from, p, design.parent(p));
            }
            let ghost before = self.modules@;
            let mut module = self.modules.remove(&p).unwrap();
            let ghost m0 = module@;
            if outward {
                module.out_port_nets.insert(net);
            } else {
                module.in_port_nets.insert(net);
            }
            module.present_nets.insert(net);
            self.modules.insert(p, module);
            proof {
                lemma_view_insert(before, p, module);
                assert(module@ =~= port_marked(m0, net, outward));
                let q = design.parent(p);
                let new = path_marked(design, modules0, from, q, net, outward);
                assert forall|x: MetaItemRef| #[trigger] modules0.contains_key(x) implies
                    self@.modules[x] == new[x] by {
                    design.lemma_within_parent(p, x);
                    assert(design.is_within(p, p));
                    assert(modules_view(before)[p] == m0);
                    assert(self@.modules == modules_view(before).insert(p, module@));
                }
                assert(self@.modules =~= path_marked(design, modules0, from, q, net, outward));
            }
            p = design.scope_parent(p).unwrap();
        }
    }

    /// Passes a net from where it is driven to scope `load`.
    pub fn link_net_to_scope(&mut self, net: Net, load: MetaItemRef)
        requires
            old(self)@.wf(old(self).design),
            linkable(old(self)@, net, load),
        ensures
            final(self).design == old(self).design,
            final(self)@ == linked(old(self).design, old(self)@, net, load),
            !is_cell_net(net) || old(self)@.drivers[net] == load ==> final(self)@ == old(self)@,
            final(self)@.wf(final(self).design),
    {
        if !is_cell(net) {
            return;
        }
        let design = self.design;
        let ghost st = self@;
        let driver: MetaItemRef = *self.driver_scopes.get(&net).unwrap();
        if driver == load {
            return;
        }
        let common: MetaItemRef = common_scope(design, driver, load);
        proof {
            design.lemma_common_around(driver, load);
            lemma_tree_upward(design, st.modules, driver, common);
            lemma_linked_wf(design, st, net, load);
            lemma_link_steps(design, st, net, load);
        }
        self.mark_path(driver, common, net, true);
        let ghost before = self.modules@;
        proof {
            assert(self@.modules.contains_key(common));
        }
        let mut module = self.modules.remove(&common).unwrap();
        let ghost m0 = module@;
        module.present_nets.insert(net);
        self.modules.insert(common, module);
        proof {
            lemma_view_insert(before, common, module);
            assert(module@ =~= ModuleState { present: m0.present.insert(net), ..m0 });
        }
        self.mark_path(load, common, net, false);
    }

    fn link_input(&mut self, net: Net, load: MetaItemRef)
        requires
            old(self)@.wf(old(self).design),
            linkable(old(self)@, net, load),
        ensures
            final(self).design == old(self).design,
            final(self)@ == input_linked(old(self).design, old(self)@, net, load),
            final(self)@.wf(final(self).design),
            final(self)@.drivers == old(self)@.drivers,
            final(self)@.modules.dom() == old(self)@.modules.dom(),
    {
        self.link_net_to_scope(net, load);
        if is_cell(net) {
            let ghost before = self.modules@;
            let ghost st1 = self@;
            proof {
                assert(st1.modules.dom() =~= old(self)@.modules.dom());
                assert(self@.modules.contains_key(load));
            }
            let mut module = self.modules.remove(&load).unwrap();
            let ghost m0 = module@;
            module.present_nets.insert(net);
            self.modules.insert(load, module);
            proof {
                lemma_view_insert(before, load, module);
                assert(module@ =~= ModuleState { present: m0.present.insert(net), ..m0 });
                lemma_present_wf(self.design, st1, load, net);
                assert(self@ =~= with_present(st1, load, net));
                assert(self@.modules.dom() =~= old(self)@.modules.dom());
            }
        }
    }

    /// Passes the nets that a cell reads to its scope.
    pub fn link_cell_inputs(&mut self, cell: CellRef)
        requires
            old(self)@.wf(old(self).design),
            cell < old(self).design.cells@.len(),
            cell_linkable(old(self).design, old(self)@, cell),
        ensures
            final(self).design == old(self).design,
            final(self)@ == cell_linked(old(self).design, old(self)@, cell),
            final(self)@.wf(final(self).design),
    {
        let design = self.design;
        match &design.cells[cell].cell {
            Cell::Name(..) | Cell::Debug(..) => {
                return;
            },
            _ => {},
        }
        let load: MetaItemRef = self.find_common_scope(cell);
        let nets = input_nets(&design.cells[cell].cell);
        let ghost st = self@;
        proof {
            assert(nets@ == design.inputs(cell));
        }
        for i in 0..nets.len()
            invariant
                self.design == design,
                self@.wf(design),
                self@.drivers == st.drivers,
                self@.modules.dom() == st.modules.dom(),
                forall|i: int| 0 <= i < nets@.len() ==> linkable(st, #[trigger] nets@[i], load),
                self@ == linked_all(design, st, nets@.take(i as int), load),
        {
            proof {
                assert(nets@.take(i + 1).drop_last() =~= nets@.take(i as int));
                assert(linkable(st, nets@[i as int], load));
                assert(self@.modules.dom().contains(load) <==> st.modules.dom().contains(load));
            }
            self.link_input(nets[i], load);
        }
        proof {
            assert(nets@.take(nets@.len() as int) =~= nets@);
        }
    }

    /// The scopes of the modules inside the one of `scope`, each behind those inside it, and last
    /// `scope` itself.
    pub fn visit_hierarchy(&self, scope: MetaItemRef) -> (order: Vec<MetaItemRef>)
        requires
            self@.wf(self.design),
            self@.modules.contains_key(scope),
        ensures
            order@ == visit_order(self.design, self@.modules, scope),
        decreases self.design.metadata@.len() - scope,
    {
        let mut order: Vec<MetaItemRef> = Vec::new();
        let module = self.modules.get(&scope).unwrap();
        let ghost modules = self@.modules;
        proof {
            assert(modules[scope] == module@);
        }
        for i in 0..module.submodules.len()
            invariant
                self@.wf(self.design),
                modules == self@.modules,
                modules.contains_key(scope),
                modules[scope].submodules == module.submodules@,
                order@ == visit_order_of(self.design, modules, scope, i as nat),
        {
            let subscope: MetaItemRef = module.submodules[i];
            proof {
                assert(subscope == modules[scope].submodules[i as int]);
                assert(modules.contains_key(subscope));
                assert(self.design.is_scope(subscope));
                assert(self.design.parent(subscope) == scope);
            }
            let mut inner = self.visit_hierarchy(subscope);
            order.append(&mut inner);
        }
        order.push(scope);
        order
    }
}

/// The nets that a cell reads, in order.
pub fn input_nets(cell: &Cell) -> (nets: Vec<Net>)
    ensures
        nets@ == cell_inputs(*cell),
{
    let mut nets: Vec<Net> = Vec::new();
    match cell {
        Cell::Input(..) => {},
        Cell::Output(_, value) => push_nets(&mut nets, value),
        Cell::Name(_, value) => push_nets(&mut nets, value),
        Cell::Debug(_, value) => push_nets(&mut nets, value),
        Cell::Other(instance) => {
            for i in 0..instance.inputs.len()
                invariant
                    nets@ == value_nets(instance.inputs@.take(i as int)),
            {
                proof {
                    assert(instance.inputs@.take(i + 1).drop_last() =~= instance.inputs@.take(
                        i as int,
                    ));
                }
                push_nets(&mut nets, &instance.inputs[i].1);
            }
            proof {
                assert(instance.inputs@.take(instance.inputs@.len() as int) =~= instance.inputs@);
            }
        },
        Cell::Fine(value) => push_nets(&mut nets, value),
        Cell::Coarse(value) => push_nets(&mut nets, value),
    }
    nets
}

fn push_nets(nets: &mut Vec<Net>, value: &Value)
    ensures
        final(nets)@ == old(nets)@ + value@,
{
    for i in 0..value.len()
        invariant
            nets@ == old(nets)@ + value@.take(i as int),
    {
        nets.push(value[i]);
    }
}

} // verus!
