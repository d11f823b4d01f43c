//! The one module that a flattened design becomes.

use vstd::prelude::*;

use crate::cst::{value_expression, ModuleView};
use crate::hierarchy::{
    added, cell_linkable, cell_linked, fresh_module, input_linked, lemma_added_wf,
    lemma_opened, lemma_tree_upward, linked, linked_all, placement, value_nets, visit_order,
    visit_order_of, IndexState, ModuleState,
};
use crate::layout::{
    cell_instances, cell_ready, connecting_members, expression_within, finished, given_names,
    instance_connections, io_assigns, io_names, known_names, lemma_completed, member_within,
    module_ready, net_names, nets_expression, part_within, range_ready, stretch,
    submodule_instances,
};
use crate::netlist::{is_cell_net, Cell, CellRef, Design, Instance, MetaItemRef, Net, Value, NONE};
use crate::nets::{ascending, lemma_ascending, lemma_front_or_last};

verus! {

impl Design {
    /// The scopes of the first `n` cells, inputs and outputs left out.
    pub open spec fn logic_scopes(&self, n: nat) -> Seq<MetaItemRef>
        decreases n,
    {
        if n == 0 {
            seq![]
        } else {
            let c = (n - 1) as usize;
            let before = self.logic_scopes((n - 1) as nat);
            if self.is_io(c) {
                before
            } else {
                before.push(self.common_of(self.cell_scopes(c)))
            }
        }
    }

    /// The scope of the top module: the innermost one around all cells but inputs and outputs.
    pub open spec fn top_scope(&self) -> MetaItemRef {
        self.common_of(self.logic_scopes(self.cells@.len()))
    }

    /// Whether a cell goes into the top module: an input or an output does, and so do all cells
    /// where the top is the root.
    pub open spec fn in_top(&self, c: CellRef) -> bool {
        self.top_scope() == NONE || self.is_io(c)
    }

    /// Those of the first `n` cells that go into the top module, in order.
    pub open spec fn top_cells(&self, n: nat) -> Seq<CellRef>
        decreases n,
    {
        if n == 0 {
            seq![]
        } else {
            let c = (n - 1) as usize;
            let before = self.top_cells((n - 1) as nat);
            if self.in_top(c) {
                before.push(c)
            } else {
                before
            }
        }
    }

    /// The nets that those of the first `n` cells drive that go into the top module.
    pub open spec fn top_nets(&self, n: nat) -> Set<Net>
        decreases n,
    {
        if n == 0 {
            Set::empty()
        } else {
            let c = (n - 1) as usize;
            let before = self.top_nets((n - 1) as nat);
            if self.in_top(c) {
                before.union(self.outputs(c).to_set())
            } else {
                before
            }
        }
    }

    /// Whether one of the first `n` cells drives a net.
    pub open spec fn is_driven(&self, n: nat, net: Net) -> bool {
        exists|c: CellRef| c < n && #[trigger] self.outputs(c).contains(net)
    }

    /// Whether the last one of the first `n` cells that drives a net is an input or an output.
    pub open spec fn is_driven_by_io(&self, n: nat, net: Net) -> bool
        decreases n,
    {
        if n == 0 {
            false
        } else {
            let c = (n - 1) as usize;
            if self.outputs(c).contains(net) {
                self.is_io(c)
            } else {
                self.is_driven_by_io((n - 1) as nat, net)
            }
        }
    }

    /// Whether one of the first `n` cells, other than to give a name, reads a net.
    pub open spec fn is_read(&self, n: nat, net: Net) -> bool {
        exists|c: CellRef| c < n && !self.is_label(c) && #[trigger] self.inputs(c).contains(net)
    }

    /// The nets that leave the top module: those that an input or output drives and one of the
    /// first `n` cells reads, unless the top is the root.
    pub open spec fn leaving_nets(&self, n: nat) -> Set<Net> {
        Set::new(
            |net: Net|
                self.top_scope() != NONE && is_cell_net(net) && self.is_read(n, net)
                    && self.is_driven_by_io(self.cells@.len(), net),
        )
    }

    /// The top module once all cells are in their places.
    pub open spec fn top_module(&self) -> ModuleState {
        let n = self.cells@.len();
        ModuleState {
            cells: self.top_cells(n),
            present: self.top_nets(n),
            out_ports: self.leaving_nets(n),
            ..fresh_module(self, self.top_scope())
        }
    }

    /// Whether every net that a cell reads, other than to give it a name, is a constant or driven.
    pub open spec fn all_driven(&self) -> bool {
        forall|c: CellRef, i: int|
            c < self.cells@.len() && !self.is_label(c) && 0 <= i < self.inputs(c).len()
                && is_cell_net(#[trigger] self.inputs(c)[i]) ==> self.is_driven(
                self.cells@.len(),
                self.inputs(c)[i],
            )
    }
}

impl Design {
    /// The nets that have a name in the top module: those it drives, and those that its cells give
    /// one to.
    pub open spec fn top_named(&self) -> Set<Net> {
        let cells = self.top_cells(self.cells@.len());
        given_names(self, cells, io_names(self, cells)).dom().union(
            self.top_nets(self.cells@.len()),
        )
    }

    /// Whether what a cell reads shows in the module that it is in.
    pub open spec fn shows_inputs(&self, c: CellRef) -> bool {
        match self.cells@[c as int].cell {
            Cell::Output(..) => true,
            Cell::Other(..) => true,
            _ => false,
        }
    }

    /// Whether a cell of the top module can be written out and every net that shows there has a
    /// name.
    pub open spec fn top_cell_ready(&self, c: CellRef) -> bool {
        &&& cell_ready(self, c, true)
        &&& self.shows_inputs(c) ==> forall|i: int|
            0 <= i < self.inputs(c).len() ==> self.top_named().contains(
                #[trigger] self.inputs(c)[i],
            )
    }

    /// Whether the design can be written out: its metadata hangs together, the top module is not
    /// empty, what cells read is driven, the cells of the top module can be written out, and there
    /// are enough numbers to make up names.
    pub open spec fn exportable(&self) -> bool {
        let n = self.cells@.len();
        let cells = self.top_cells(n);
        &&& self.wf()
        &&& cells.len() > 0
        &&& self.all_driven()
        &&& forall|c: CellRef| c < n && self.in_top(c) ==> #[trigger] self.top_cell_ready(c)
        &&& self.top_nets(n).len() + cells.len() + io_names(self, cells).len() <= usize::MAX
    }

    /// The Verilog module for the design.
    pub open spec fn top_verilog(&self) -> ModuleView {
        finished(self, Map::empty(), self.top_module(), true)
    }
}

/// The state before any cell is added.
pub open spec fn empty_state(d: &Design) -> IndexState {
    IndexState { flat: true, modules: Map::empty(), drivers: Map::empty(), top: d.top_scope() }
}

/// The state once the first `n` cells are added.
pub open spec fn all_added(d: &Design, n: nat) -> IndexState
    decreases n,
{
    if n == 0 {
        empty_state(d)
    } else {
        added(d, all_added(d, (n - 1) as nat), (n - 1) as usize)
    }
}

/// The state once all cells are added and what the first `n` read is linked.
pub open spec fn all_linked(d: &Design, n: nat) -> IndexState
    decreases n,
{
    if n == 0 {
        all_added(d, d.cells@.len())
    } else {
        cell_linked(d, all_linked(d, (n - 1) as nat), (n - 1) as usize)
    }
}

/// The top module once the first `n` cells are added.
pub open spec fn partial_module(d: &Design, n: nat) -> ModuleState {
    ModuleState {
        cells: d.top_cells(n),
        present: d.top_nets(n),
        ..fresh_module(d, d.top_scope())
    }
}

/// What the state is once the first `n` cells are added.
pub open spec fn is_added_state(d: &Design, n: nat, st: IndexState) -> bool {
    &&& st.wf(d)
    &&& st.flat
    &&& st.top == d.top_scope()
    &&& st.modules.contains_key(st.top) <==> d.top_cells(n).len() > 0
    &&& st.modules.contains_key(st.top) ==> st.modules[st.top] == partial_module(d, n)
    &&& d.top_cells(n).len() == 0 ==> d.top_nets(n) == Set::<Net>::empty()
    &&& forall|net: Net| #[trigger] st.drivers.contains_key(net) <==> d.is_driven(n, net)
    &&& forall|net: Net| #[trigger]
        st.drivers.contains_key(net) ==> st.drivers[net] == (if d.is_driven_by_io(n, net) {
            st.top
        } else {
            NONE
        })
}

/// Adding cells puts those of the top module there, and nothing else.
pub proof fn lemma_all_added(d: &Design, n: nat)
    requires
        d.wf(),
        d.is_scope(d.top_scope()),
        n <= d.cells@.len(),
    ensures
        is_added_state(d, n, all_added(d, n)),
    decreases n,
{
    let st1 = all_added(d, n);
    if n == 0 {
        assert(st1.wf(d));
    } else {
        let k = (n - 1) as nat;
        let c = k as usize;
        lemma_all_added(d, k);
        let st = all_added(d, k);
        let s = placement(d, st, c)->0;
        assert(placement(d, st, c) is Some);
        assert(s == (if d.is_io(c) {
            d.top_scope()
        } else {
            NONE
        })) by {
            assert(!(d.is_io(c) && d.is_label(c)));
        }
        lemma_added_wf(d, st, c);
        lemma_opened(d, st.modules, s);
        assert(st1 == added(d, st, c));
        let top = st.top;
        assert(d.in_top(c) <==> s == top);
        assert(d.top_cells(n) == if d.in_top(c) {
            d.top_cells(k).push(c)
        } else {
            d.top_cells(k)
        });
        if s == top {
            if !st.modules.contains_key(top) {
                assert(d.top_cells(k) =~= seq![]);
            }
            assert(st1.modules[top] =~= partial_module(d, n));
        } else {
            assert(s == NONE);
            if st.modules.contains_key(top) {
                assert(st1.modules[top] =~= partial_module(d, n));
            } else {
                assert(!d.is_within(NONE, top));
            }
        }
        assert forall|net: Net| #[trigger] st1.drivers.contains_key(net) <==> d.is_driven(n, net) by {
            if d.is_driven(n, net) {
                let e = choose|e: CellRef| e < n && #[trigger] d.outputs(e).contains(net);
                if e < k {
                    assert(d.is_driven(k, net));
                }
            }
            if d.outputs(c).contains(net) {
                assert(d.is_driven(n, net));
            }
            if st.drivers.contains_key(net) {
                let e = choose|e: CellRef| e < k && #[trigger] d.outputs(e).contains(net);
                assert(e < n && d.outputs(e).contains(net));
            }
        }
    }
}

/// The nets among `nets` that the top module drives and that leave it when they are read.
spec fn newly_leaving(st: IndexState, nets: Seq<Net>) -> Set<Net> {
    Set::new(
        |net: Net|
            st.top != NONE && is_cell_net(net) && nets.contains(net) && st.drivers[net] == st.top,
    )
}

proof fn lemma_linked_top(d: &Design, st: IndexState, nets: Seq<Net>)
    requires
        st.modules.contains_key(st.top),
        st.modules.contains_key(NONE),
        forall|i: int|
            0 <= i < nets.len() && is_cell_net(#[trigger] nets[i]) ==> st.drivers.contains_key(
                nets[i],
            ) && (st.drivers[nets[i]] == st.top || st.drivers[nets[i]] == NONE),
        forall|net: Net| #[trigger]
            st.drivers.contains_key(net) && st.drivers[net] == st.top
                ==> st.modules[st.top].present.contains(net),
    ensures
        ({
            let st1 = linked_all(d, st, nets, NONE);
            &&& st1.flat == st.flat
            &&& st1.top == st.top
            &&& st1.drivers == st.drivers
            &&& st1.modules.dom() == st.modules.dom()
            &&& st1.modules[st.top] == ModuleState {
                out_ports: st.modules[st.top].out_ports.union(newly_leaving(st, nets)),
                ..st.modules[st.top]
            }
        }),
    decreases nets.len(),
{
    let st2 = linked_all(d, st, nets, NONE);
    let top = st.top;
    let m = st.modules[top];
    if nets.len() == 0 {
        assert(newly_leaving(st, nets) =~= Set::empty());
        assert(st2.modules[top] =~= ModuleState {
            out_ports: m.out_ports.union(newly_leaving(st, nets)),
            ..m
        });
    } else {
        let before = nets.drop_last();
        let net = nets.last();
        assert forall|i: int| 0 <= i < before.len() && is_cell_net(#[trigger] before[i]) implies
            st.drivers.contains_key(before[i]) && (st.drivers[before[i]] == st.top
            || st.drivers[before[i]] == NONE) by {
            assert(before[i] == nets[i]);
        }
        lemma_linked_top(d, st, before);
        let st1 = linked_all(d, st, before, NONE);
        assert(st2 == input_linked(d, st1, net, NONE));
        lemma_front_or_last(nets);
        if is_cell_net(net) {
            assert(nets[nets.len() - 1] == net);
            let mid = linked(d, st1, net, NONE);
            assert(mid.modules.dom() =~= st1.modules.dom());
            assert(st2.modules.dom() =~= st1.modules.dom());
            d.lemma_within_root(top);
            if top != NONE {
                assert(!d.is_within(NONE, top));
                d.common_with_outer(top, NONE);
            }
        }
        assert(st2.modules.dom() =~= st.modules.dom());
        assert(st2.modules[top] =~= ModuleState {
            out_ports: m.out_ports.union(newly_leaving(st, nets)),
            ..m
        });
    }
}

/// What the state is once all cells are added and what the first `n` read is linked.
pub open spec fn is_linked_state(d: &Design, n: nat, st: IndexState) -> bool {
    &&& st.flat
    &&& st.top == d.top_scope()
    &&& st.modules.contains_key(st.top)
    &&& st.modules.contains_key(NONE)
    &&& st.modules[st.top] == ModuleState {
        out_ports: d.leaving_nets(n),
        ..partial_module(d, d.cells@.len())
    }
    &&& st.drivers == all_added(d, d.cells@.len()).drivers
}

proof fn lemma_driven_by_io(d: &Design, n: nat, net: Net)
    requires
        d.is_driven(n, net),
        n <= d.cells@.len(),
        d.is_driven_by_io(n, net) || d.top_scope() == NONE,
    ensures
        d.top_nets(n).contains(net),
    decreases n,
{
    if n > 0 {
        let c = (n - 1) as usize;
        if !d.outputs(c).contains(net) {
            let e = choose|e: CellRef| e < n && #[trigger] d.outputs(e).contains(net);
            assert(e < n - 1 && d.outputs(e).contains(net));
            lemma_driven_by_io(d, (n - 1) as nat, net);
        }
    }
}

/// Linking lets nets leave the top module, and changes nothing else in it.
pub proof fn lemma_all_linked(d: &Design, n: nat)
    requires
        d.wf(),
        d.is_scope(d.top_scope()),
        d.all_driven(),
        d.top_cells(d.cells@.len()).len() > 0,
        n <= d.cells@.len(),
    ensures
        is_linked_state(d, n, all_linked(d, n)),
        n < d.cells@.len() ==> cell_linkable(d, all_linked(d, n), n as usize),
    decreases n,
{
    let all = d.cells@.len();
    let st0 = all_added(d, all);
    lemma_all_added(d, all);
    let top = d.top_scope();
    let st = all_linked(d, n);
    if n == 0 {
        d.lemma_within_root(top);
        lemma_tree_upward(d, st0.modules, top, NONE);
        assert(d.leaving_nets(0) =~= Set::empty());
        assert(st.modules[top] =~= ModuleState {
            out_ports: d.leaving_nets(0),
            ..partial_module(d, all)
        });
    } else {
        let k = (n - 1) as nat;
        let c = k as usize;
        lemma_all_linked(d, k);
        let before = all_linked(d, k);
        assert(st == cell_linked(d, before, c));
        let nets = d.inputs(c);
        if d.is_label(c) {
            assert forall|net: Net| d.is_read(n, net) implies d.is_read(k, net) by {
                let e = choose|e: CellRef|
                    e < n && !d.is_label(e) && #[trigger] d.inputs(e).contains(net);
                assert(e < k && d.inputs(e).contains(net));
            }
        } else {
            assert forall|net: Net| #[trigger]
                before.drivers.contains_key(net) && before.drivers[net]
                    == top implies before.modules[top].present.contains(net) by {
                lemma_driven_by_io(d, all, net);
            }
            assert forall|i: int|
                0 <= i < nets.len() && is_cell_net(#[trigger] nets[i]) implies before.drivers.contains_key(
                nets[i],
            ) && (before.drivers[nets[i]] == top || before.drivers[nets[i]] == NONE) by {
                assert(d.is_driven(all, d.inputs(c)[i]));
            }
            lemma_linked_top(d, before, nets);
            assert forall|net: Net|
                newly_leaving(before, nets).contains(net) implies d.is_driven_by_io(all, net)
                && d.is_read(n, net) by {
                assert(d.inputs(c).contains(net));
                let i = choose|i: int| 0 <= i < nets.len() && nets[i] == net;
                assert(d.is_driven(all, d.inputs(c)[i]));
                assert(before.drivers.contains_key(net));
            }
            assert forall|net: Net| d.is_read(n, net) <==> d.is_read(k, net) || nets.contains(net) by {
                if d.is_read(n, net) {
                    let e = choose|e: CellRef|
                        e < n && !d.is_label(e) && #[trigger] d.inputs(e).contains(net);
                    if e < k {
                        assert(d.is_read(k, net));
                    }
                }
                if d.is_read(k, net) {
                    let e = choose|e: CellRef|
                        e < k && !d.is_label(e) && #[trigger] d.inputs(e).contains(net);
                    assert(e < n && d.inputs(e).contains(net));
                }
                if nets.contains(net) {
                    assert(d.inputs(c).contains(net));
                }
            }
            assert forall|net: Net|
                is_cell_net(net) && nets.contains(net) && d.is_driven_by_io(all, net) implies before.drivers[net]
                == top by {
                let i = choose|i: int| 0 <= i < nets.len() && nets[i] == net;
                assert(before.drivers.contains_key(nets[i]));
            }
        }
        assert(d.leaving_nets(n) =~= d.leaving_nets(k).union(
            if d.is_label(c) {
                Set::empty()
            } else {
                newly_leaving(before, nets)
            },
        ));
        assert(st.modules[top] =~= ModuleState {
            out_ports: d.leaving_nets(n),
            ..partial_module(d, all)
        });
    }
    if n < all {
        let c = n as usize;
        if !d.is_label(c) {
            assert forall|i: int|
                0 <= i < d.inputs(c).len() && is_cell_net(
                    #[trigger] d.inputs(c)[i],
                ) implies st.drivers.contains_key(d.inputs(c)[i]) by {
                assert(d.is_driven(all, d.inputs(c)[i]));
            }
        }
    }
}

/// The top module stands alone once all cells are in their places and linked.
pub proof fn lemma_flat(d: &Design, st: IndexState)
    requires
        d.wf(),
        d.is_scope(d.top_scope()),
        d.all_driven(),
        d.top_cells(d.cells@.len()).len() > 0,
        st == all_linked(d, d.cells@.len()),
    ensures
        st.top == d.top_scope(),
        st.modules.contains_key(st.top),
        st.modules[st.top] == d.top_module(),
        visit_order(d, st.modules, st.top) == seq![d.top_scope()],
{
    lemma_all_linked(d, d.cells@.len());
    assert(st.modules[st.top] =~= d.top_module());
    assert(visit_order_of(d, st.modules, st.top, 0) =~= seq![]);
    assert(visit_order(d, st.modules, st.top) =~= seq![d.top_scope()]);
}

/// Only cells that belong there are in the top module, and what they drive is present.
proof fn lemma_top_cells(d: &Design, n: nat)
    requires
        n <= d.cells@.len(),
    ensures
        forall|i: int|
            0 <= i < d.top_cells(n).len() ==> {
                let c = #[trigger] d.top_cells(n)[i];
                &&& c < n
                &&& d.in_top(c)
                &&& d.outputs(c).to_set().subset_of(d.top_nets(n))
            },
        d.top_nets(n).finite(),
    decreases n,
{
    if n > 0 {
        lemma_top_cells(d, (n - 1) as nat);
        let before = d.top_cells((n - 1) as nat);
        assert forall|i: int| 0 <= i < d.top_cells(n).len() implies {
            let c = #[trigger] d.top_cells(n)[i];
            &&& c < n
            &&& d.in_top(c)
            &&& d.outputs(c).to_set().subset_of(d.top_nets(n))
        } by {
            if i < before.len() {
                assert(before[i] == d.top_cells(n)[i]);
            }
        }
    }
}

proof fn lemma_value_nets(values: Seq<(String, Value)>, i: int, j: int)
    requires
        0 <= i < values.len(),
        0 <= j < values[i].1@.len(),
    ensures
        value_nets(values).contains(values[i].1@[j]),
    decreases values.len(),
{
    let before = value_nets(values.drop_last());
    let all = value_nets(values);
    if i == values.len() - 1 {
        assert(all[before.len() + j] == values[i].1@[j]);
    } else {
        assert(values.drop_last()[i] == values[i]);
        lemma_value_nets(values.drop_last(), i, j);
        let k = choose|k: int| 0 <= k < before.len() && before[k] == values[i].1@[j];
        assert(all[k] == values[i].1@[j]);
    }
}

proof fn lemma_nets_within(nets: Seq<Net>, within: Set<Net>)
    requires
        forall|i: int| 0 <= i < nets.len() ==> within.contains(#[trigger] nets[i]),
    ensures
        expression_within(nets_expression(nets), within),
        expression_within(value_expression(nets), within),
{
    let parts = nets_expression(nets)->Concat_0;
    assert forall|i: int| 0 <= i < parts.len() implies part_within(#[trigger] parts[i], within) by {
        assert(within.contains(nets[i]));
    }
    if nets.len() != 1 {
        let reversed = value_expression(nets)->Concat_0;
        assert forall|i: int| 0 <= i < reversed.len() implies part_within(
            #[trigger] reversed[i],
            within,
        ) by {
            assert(within.contains(nets[nets.len() - 1 - i]));
        }
    } else {
        assert(within.contains(nets[0]));
    }
}

/// Whether every net that shows in the assignments and instances for a cell is in `within`.
spec fn cell_within(d: &Design, c: CellRef, within: Set<Net>) -> bool {
    &&& cell_ready(d, c, true)
    &&& d.outputs(c).to_set().subset_of(within)
    &&& d.shows_inputs(c) ==> forall|i: int|
        0 <= i < d.inputs(c).len() ==> within.contains(#[trigger] d.inputs(c)[i])
}

proof fn lemma_assigns_within(d: &Design, cells: Seq<CellRef>, within: Set<Net>)
    requires
        forall|i: int| 0 <= i < cells.len() ==> cell_within(d, #[trigger] cells[i], within),
    ensures
        forall|i: int|
            0 <= i < io_assigns(d, cells).len() ==> member_within(
                #[trigger] io_assigns(d, cells)[i],
                within,
            ),
    decreases cells.len(),
{
    if cells.len() > 0 {
        let c = cells.last();
        lemma_assigns_within(d, cells.drop_last(), within);
        assert(cell_within(d, cells[cells.len() - 1], within));
        let outputs = d.outputs(c);
        assert forall|i: int| 0 <= i < outputs.len() implies within.contains(
            #[trigger] outputs[i],
        ) by {
            assert(outputs.to_set().contains(outputs[i]));
        }
        lemma_nets_within(outputs, within);
        if d.shows_inputs(c) {
            lemma_nets_within(d.inputs(c), within);
        }
        let before = io_assigns(d, cells.drop_last());
        let all = io_assigns(d, cells);
        assert forall|i: int| 0 <= i < all.len() implies member_within(
            #[trigger] all[i],
            within,
        ) by {
            if i < before.len() {
                assert(all[i] == before[i]);
            }
        }
    }
}

proof fn lemma_instance_within(d: &Design, c: CellRef, instance: Instance, within: Set<Net>)
    requires
        cell_within(d, c, within),
        d.cells@[c as int].cell == Cell::Other(instance),
    ensures
        forall|i: int|
            0 <= i < instance_connections(instance, d.outputs(c)).len() ==> expression_within(
                (#[trigger] instance_connections(instance, d.outputs(c))[i]).1,
                within,
            ),
{
    let conns = instance_connections(instance, d.outputs(c));
    let n = instance.inputs@.len() as int;
    let outputs = d.outputs(c);
    assert forall|i: int| 0 <= i < conns.len() implies expression_within(
        (#[trigger] conns[i]).1,
        within,
    ) by {
        if i < n {
            let nets = instance.inputs@[i].1@;
            assert forall|j: int| 0 <= j < nets.len() implies within.contains(
                #[trigger] nets[j],
            ) by {
                lemma_value_nets(instance.inputs@, i, j);
                let k = choose|k: int| 0 <= k < d.inputs(c).len() && d.inputs(c)[k] == nets[j];
                assert(within.contains(d.inputs(c)[k]));
            }
            lemma_nets_within(nets, within);
        } else {
            let range = instance.outputs@[i - n].1;
            assert(range_ready(range, outputs.len()));
            let nets = stretch(outputs, range);
            assert forall|j: int| 0 <= j < nets.len() implies within.contains(
                #[trigger] nets[j],
            ) by {
                assert(outputs.to_set().contains(outputs[range.0 + j]));
            }
            lemma_nets_within(nets, within);
        }
    }
}

proof fn lemma_instances_within(
    d: &Design,
    cells: Seq<CellRef>,
    reserved: Seq<Seq<char>>,
    number: nat,
    within: Set<Net>,
)
    requires
        forall|i: int| 0 <= i < cells.len() ==> cell_within(d, #[trigger] cells[i], within),
    ensures
        forall|i: int|
            0 <= i < cell_instances(d, cells, reserved, number).0.len() ==> member_within(
                #[trigger] cell_instances(d, cells, reserved, number).0[i],
                within,
            ),
    decreases cells.len(),
{
    if cells.len() > 0 {
        let c = cells.last();
        lemma_instances_within(d, cells.drop_last(), reserved, number, within);
        assert(cell_within(d, cells[cells.len() - 1], within));
        if let Cell::Other(instance) = d.cells@[c as int].cell {
            lemma_instance_within(d, c, instance, within);
        }
        let before = cell_instances(d, cells.drop_last(), reserved, number).0;
        let all = cell_instances(d, cells, reserved, number).0;
        assert forall|i: int| 0 <= i < all.len() implies member_within(
            #[trigger] all[i],
            within,
        ) by {
            if i < before.len() {
                assert(all[i] == before[i]);
            }
        }
    }
}

/// The top module of a design that can be written out can be finished, whatever other modules
/// there are.
pub proof fn lemma_top_ready(d: &Design, modules: Map<MetaItemRef, ModuleState>)
    requires
        d.exportable(),
    ensures
        module_ready(d, modules, d.top_module(), true),
        finished(d, modules, d.top_module(), true) == d.top_verilog(),
{
    let m = d.top_module();
    let n = d.cells@.len();
    let reserved = io_names(d, m.cells);
    let names = net_names(d, modules, m, reserved).0;
    lemma_top_cells(d, n);
    lemma_ascending(m.present);
    lemma_completed(known_names(d, modules, m, reserved), ascending(m.present), reserved);
    assert(known_names(d, modules, m, reserved) == given_names(d, m.cells, reserved));
    assert(names.dom() =~= d.top_named());
    assert forall|i: int| 0 <= i < m.cells.len() implies cell_within(
        d,
        #[trigger] m.cells[i],
        names.dom(),
    ) by {
        assert(d.top_cell_ready(m.cells[i]));
    }
    assert forall|i: int| 0 <= i < m.cells.len() implies cell_ready(
        d,
        #[trigger] m.cells[i],
        true,
    ) by {
        assert(d.top_cell_ready(m.cells[i]));
    }
    lemma_assigns_within(d, m.cells, names.dom());
    let number = net_names(d, modules, m, reserved).1;
    lemma_instances_within(d, m.cells, reserved, number, names.dom());
    let assigns = io_assigns(d, m.cells);
    let subs = submodule_instances(d, modules, m.submodules);
    let instances = cell_instances(d, m.cells, reserved, number).0;
    assert(subs =~= seq![]);
    assert(submodule_instances(d, Map::empty(), m.submodules) =~= seq![]);
    let all = connecting_members(d, modules, m, true);
    assert(all == assigns + subs + instances);
    assert forall|i: int| 0 <= i < all.len() implies member_within(
        #[trigger] all[i],
        names.dom(),
    ) by {
        if i < assigns.len() {
            assert(all[i] == assigns[i]);
        } else {
            assert(all[i] == instances[i - assigns.len()]);
        }
    }
    assert(known_names(d, Map::empty(), m, reserved) == given_names(d, m.cells, reserved));
    assert(connecting_members(d, Map::empty(), m, true) == all);
}

} // verus!
