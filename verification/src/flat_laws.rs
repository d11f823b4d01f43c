//! What a flattened design becomes, in terms of its cells.

use vstd::prelude::*;

use crate::cst::{value_expression, ExpressionView, MemberView, Range};
use crate::cst_laws::bits_keep_their_significance;
use crate::export_laws::first_cells;
use crate::layout::{
    cell_instances, expression_named, given_names, instance_connections, io_assigns, io_names,
    io_ports, member_named, named, net_names, range_ready, submodule_instances, wires,
};
use crate::layout_laws::{
    inputs_and_outputs_are_connected, instances_are_written_in_order,
    members_of_a_finished_module, naming_replaces_every_net, naming_replaces_every_part,
    ports_of_instances_meet_their_nets,
};
use crate::netlist::{is_cell_net, Cell, CellRef, Design, MetaItemRef, Net};

verus! {

impl Design {
    /// Whether a cell is no input and no output.
    pub open spec fn is_logic(&self, c: CellRef) -> bool {
        !(self.cells@[c as int].cell is Input) && !(self.cells@[c as int].cell is Output)
    }

    /// Whether a cell goes into the top module and drives a net.
    pub open spec fn drives_in_top(&self, c: CellRef, net: Net) -> bool {
        (self.top_scope() == 0 || !self.is_logic(c)) && self.cells@[c as int].output@.contains(net)
    }

    /// Whether a cell is an input or output that drives a net, and none of the cells behind it up to
    /// the first `n` does.
    pub open spec fn drives_last(&self, c: CellRef, n: nat, net: Net) -> bool {
        &&& !self.is_logic(c)
        &&& self.cells@[c as int].output@.contains(net)
        &&& forall|e: CellRef|
            c < e < n ==> !(#[trigger] self.cells@[e as int]).output@.contains(net)
    }

    /// Whether a scope is that of one of the first `n` cells other than inputs and outputs.
    spec fn has_logic_in(&self, s: MetaItemRef, n: nat) -> bool {
        exists|c: CellRef|
            c < n && #[trigger] self.is_logic(c) && s == self.common_of(
                self.item_scopes(self.cells@[c as int].metadata@),
            )
    }

    proof fn lemma_logic_scopes(&self, n: nat)
        requires
            n <= self.cells@.len(),
        ensures
            forall|c: CellRef|
                c < n && #[trigger] self.is_logic(c) ==> self.logic_scopes(n).contains(
                    self.common_of(self.item_scopes(self.cells@[c as int].metadata@)),
                ),
            forall|i: int|
                0 <= i < self.logic_scopes(n).len() ==> self.has_logic_in(
                    #[trigger] self.logic_scopes(n)[i],
                    n,
                ),
        decreases n,
    {
        if n > 0 {
            let k = (n - 1) as nat;
            let last = k as usize;
            assert(self.cells.len() == self.cells@.len());
            self.lemma_logic_scopes(k);
            let before = self.logic_scopes(k);
            let all = self.logic_scopes(n);
            assert forall|c: CellRef| c < n && #[trigger] self.is_logic(c) implies all.contains(
                self.common_of(self.item_scopes(self.cells@[c as int].metadata@)),
            ) by {
                let s = self.common_of(self.item_scopes(self.cells@[c as int].metadata@));
                if c < k {
                    let i = choose|i: int| 0 <= i < before.len() && before[i] == s;
                    assert(all[i] == s);
                } else {
                    assert(c == last);
                    assert(all[all.len() - 1] == s);
                }
            }
            assert forall|i: int| 0 <= i < all.len() implies self.has_logic_in(
                #[trigger] all[i],
                n,
            ) by {
                if i < before.len() {
                    assert(all[i] == before[i]);
                    assert(self.has_logic_in(before[i], k));
                    let c = choose|c: CellRef|
                        c < k && #[trigger] self.is_logic(c) && before[i] == self.common_of(
                            self.item_scopes(self.cells@[c as int].metadata@),
                        );
                    assert(c < n && self.is_logic(c));
                } else {
                    assert(last < n && self.is_logic(last));
                }
            }
        }
    }

    /// The scope of every cell that is no input or output lies within the top scope: the innermost
    /// scope around all that its metadata speaks of, or the root if there is none, so that the root
    /// is then the top. No deeper scope is around all of them. The root is the top, too, where there
    /// is no such cell.
    pub proof fn top_is_around_all_logic(&self, x: MetaItemRef)
        ensures
            forall|c: CellRef|
                c < self.cells@.len() && #[trigger] self.is_logic(c) ==> {
                    let scopes = self.item_scopes(self.cells@[c as int].metadata@);
                    &&& self.is_within(self.common_of(scopes), self.top_scope())
                    &&& forall|i: int|
                        0 <= i < scopes.len() ==> self.is_within(
                            #[trigger] scopes[i],
                            self.top_scope(),
                        )
                    &&& scopes.len() == 0 ==> self.top_scope() == 0
                },
            (exists|c: CellRef| c < self.cells@.len() && #[trigger] self.is_logic(c)) && (forall|
                c: CellRef,
            |
                c < self.cells@.len() && #[trigger] self.is_logic(c) ==> self.is_within(
                    self.common_of(self.item_scopes(self.cells@[c as int].metadata@)),
                    x,
                )) ==> self.is_within(self.top_scope(), x),
            (forall|c: CellRef| c < self.cells@.len() ==> !#[trigger] self.is_logic(c))
                ==> self.top_scope() == 0,
    {
        let n = self.cells@.len();
        let all = self.logic_scopes(n);
        let top = self.top_scope();
        self.lemma_logic_scopes(n);
        self.common_of_is_around_all(all);
        assert forall|c: CellRef| c < n && #[trigger] self.is_logic(c) implies {
            let scopes = self.item_scopes(self.cells@[c as int].metadata@);
            &&& self.is_within(self.common_of(scopes), self.top_scope())
            &&& forall|i: int|
                0 <= i < scopes.len() ==> self.is_within(#[trigger] scopes[i], self.top_scope())
            &&& scopes.len() == 0 ==> self.top_scope() == 0
        } by {
            let scopes = self.item_scopes(self.cells@[c as int].metadata@);
            let s = self.common_of(scopes);
            let i = choose|i: int| 0 <= i < all.len() && all[i] == s;
            assert(self.is_within(all[i], top));
            self.common_of_is_around_all(scopes);
            if scopes.len() == 0 {
                self.lemma_within_order(s, top);
            } else {
                self.common_of_is_innermost(scopes, top);
            }
        }
        if all.len() > 0 {
            self.common_of_is_innermost(all, x);
            if forall|c: CellRef|
                c < n && #[trigger] self.is_logic(c) ==> self.is_within(
                    self.common_of(self.item_scopes(self.cells@[c as int].metadata@)),
                    x,
                ) {
                assert forall|i: int| 0 <= i < all.len() implies self.is_within(
                    #[trigger] all[i],
                    x,
                ) by {
                    assert(self.has_logic_in(all[i], n));
                    let c = choose|c: CellRef|
                        c < n && #[trigger] self.is_logic(c) && all[i] == self.common_of(
                            self.item_scopes(self.cells@[c as int].metadata@),
                        );
                    assert(self.is_logic(c));
                }
            }
            assert(self.has_logic_in(all[0], n));
        } else if exists|c: CellRef| c < n && #[trigger] self.is_logic(c) {
            let c = choose|c: CellRef| c < n && #[trigger] self.is_logic(c);
            assert(all.contains(
                self.common_of(self.item_scopes(self.cells@[c as int].metadata@)),
            ));
        }
    }

    proof fn lemma_top_filter(&self, n: nat)
        requires
            n <= self.cells@.len(),
        ensures
            self.top_cells(n) == first_cells(n).filter(
                |c: CellRef| self.top_scope() == 0 || !self.is_logic(c),
            ),
            forall|net: Net| #[trigger]
                self.top_nets(n).contains(net) <==> exists|c: CellRef|
                    c < n && #[trigger] self.drives_in_top(c, net),
        decreases n,
    {
        reveal(Seq::filter);
        if n > 0 {
            let k = (n - 1) as nat;
            let last = k as usize;
            assert(self.cells.len() == self.cells@.len());
            self.lemma_top_filter(k);
            assert(first_cells(n).drop_last() =~= first_cells(k));
            assert(first_cells(n).last() == last);
            assert(self.in_top(last) == (self.top_scope() == 0 || !self.is_logic(last)));
            assert forall|net: Net| #[trigger] self.top_nets(n).contains(net) <==> exists|
                c: CellRef,
            |
                c < n && #[trigger] self.drives_in_top(c, net) by {
                if exists|c: CellRef|
                    c < n && #[trigger] self.drives_in_top(c, net) {
                    let c = choose|c: CellRef|
                        c < n && #[trigger] self.drives_in_top(c, net);
                    if c < k {
                        assert(self.top_nets(k).contains(net));
                    } else {
                        assert(c == last);
                        assert(self.outputs(last).to_set().contains(net));
                    }
                }
                if self.top_nets(k).contains(net) {
                    let c = choose|c: CellRef|
                        c < k && #[trigger] self.drives_in_top(c, net);
                    assert(c < n && self.drives_in_top(c, net));
                }
                if self.in_top(last) && self.outputs(last).to_set().contains(net) {
                    assert(last < n && self.drives_in_top(last, net));
                }
            }
        } else {
            assert(first_cells(0) =~= seq![]);
            assert(self.top_cells(0) =~= first_cells(0).filter(
                |c: CellRef| self.top_scope() == 0 || !self.is_logic(c),
            ));
        }
    }

    proof fn lemma_driven_last(&self, n: nat, net: Net)
        requires
            n <= self.cells@.len(),
        ensures
            self.is_driven_by_io(n, net) <==> exists|c: CellRef|
                c < n && #[trigger] self.drives_last(c, n, net),
        decreases n,
    {
        if n > 0 {
            let k = (n - 1) as nat;
            let last = k as usize;
            assert(self.cells.len() == self.cells@.len());
            self.lemma_driven_last(k, net);
            if self.outputs(last).contains(net) {
                if self.is_io(last) {
                    assert(last < n && self.drives_last(last, n, net));
                }
                if exists|c: CellRef|
                    c < n && #[trigger] self.drives_last(c, n, net) {
                    let c = choose|c: CellRef|
                        c < n && #[trigger] self.drives_last(c, n, net);
                    if c < last {
                        assert(self.cells@[last as int].output@.contains(net));
                    }
                }
            } else {
                if self.is_driven_by_io(k, net) {
                    let c = choose|c: CellRef|
                        c < k && #[trigger] self.drives_last(c, k, net);
                    assert forall|e: CellRef|
                        c < e < n implies !(#[trigger] self.cells@[e as int]).output@.contains(
                        net,
                    ) by {
                        if e >= k {
                            assert(e == last);
                        }
                    }
                    assert(c < n && self.drives_last(c, n, net));
                }
                if exists|c: CellRef|
                    c < n && #[trigger] self.drives_last(c, n, net) {
                    let c = choose|c: CellRef|
                        c < n && #[trigger] self.drives_last(c, n, net);
                    if c >= k {
                        assert(c == last);
                    }
                    assert(c < k && self.drives_last(c, k, net));
                }
            }
        }
    }

    /// The top module is that of the top scope and has nothing inside. Its cells are all cells if
    /// the root is the top, and the inputs and outputs otherwise, in order; the nets that they drive
    /// are present. Nothing comes in; what goes out, unless the root is the top, are the nets whose
    /// last driver is an input or output and that a cell reads other than to give a name.
    pub proof fn contents_of_the_top_module(&self)
        ensures
            ({
                let m = self.top_module();
                let n = self.cells@.len();
                &&& m.name == self.module_name(self.top_scope())
                &&& m.submodules.len() == 0 && m.in_ports == Set::<Net>::empty()
                &&& m.cells == first_cells(n).filter(
                    |c: CellRef| self.top_scope() == 0 || !self.is_logic(c),
                )
                &&& forall|net: Net| #[trigger]
                    m.present.contains(net) <==> exists|c: CellRef|
                        c < n && #[trigger] self.drives_in_top(c, net)
                &&& forall|net: Net| #[trigger]
                    m.out_ports.contains(net) <==> {
                        &&& self.top_scope() != 0
                        &&& 2 <= net < 0xffff_ffff
                        &&& exists|c: CellRef|
                            c < n && !(self.cells@[c as int].cell is Name)
                                && !(self.cells@[c as int].cell is Debug)
                                && #[trigger] self.inputs(c).contains(net)
                        &&& exists|c: CellRef|
                            c < n && #[trigger] self.drives_last(c, n, net)
                    }
            }),
    {
        let m = self.top_module();
        let n = self.cells@.len();
        self.lemma_top_filter(n);
        assert forall|net: Net| #[trigger] m.out_ports.contains(net) <==> {
            &&& self.top_scope() != 0
            &&& 2 <= net < 0xffff_ffff
            &&& exists|c: CellRef|
                c < n && !(self.cells@[c as int].cell is Name)
                    && !(self.cells@[c as int].cell is Debug)
                    && #[trigger] self.inputs(c).contains(net)
            &&& exists|c: CellRef|
                c < n && #[trigger] self.drives_last(c, n, net)
        } by {
            self.lemma_driven_last(n, net);
            if self.is_read(n, net) {
                let c = choose|c: CellRef|
                    c < n && !self.is_label(c) && #[trigger] self.inputs(c).contains(net);
                assert(c < n && !(self.cells@[c as int].cell is Name)
                    && !(self.cells@[c as int].cell is Debug) && self.inputs(c).contains(net));
            }
            if exists|c: CellRef|
                c < n && !(self.cells@[c as int].cell is Name)
                    && !(self.cells@[c as int].cell is Debug)
                    && #[trigger] self.inputs(c).contains(net) {
                let c = choose|c: CellRef|
                    c < n && !(self.cells@[c as int].cell is Name)
                        && !(self.cells@[c as int].cell is Debug)
                        && #[trigger] self.inputs(c).contains(net);
                assert(c < n && !self.is_label(c) && self.inputs(c).contains(net));
            }
        }
    }

    /// Whether a cell can be written out, with every net that shows there in `named`.
    pub open spec fn can_be_written(&self, c: CellRef, named: Set<Net>) -> bool {
        let entry = self.cells@[c as int];
        match entry.cell {
            Cell::Coarse(_) => false,
            Cell::Other(instance) => {
                &&& instance.params@.len() == 0 && instance.ios@.len() == 0
                &&& self.attrs_ok(entry.metadata@)
                &&& forall|i: int|
                    0 <= i < instance.outputs@.len() ==> {
                        let range = (#[trigger] instance.outputs@[i]).1;
                        range.0 < range.1 ==> range.1 <= entry.output@.len()
                    }
                &&& forall|i: int|
                    0 <= i < self.inputs(c).len() ==> named.contains(#[trigger] self.inputs(c)[i])
            },
            Cell::Input(_, size) => size > 0 && entry.output@.len() > 0,
            Cell::Output(_, value) => value@.len() > 0 && forall|i: int|
                0 <= i < value@.len() ==> named.contains(#[trigger] value@[i]),
            _ => true,
        }
    }

    /// A design can be exported exactly if its metadata hangs together, some cell goes into the top
    /// module, every net that is no constant and that a cell reads other than to give a name is
    /// driven, the cells of the top module can be written out with each net that shows there driven
    /// by one of them or labelled, and the numbers for made-up names do not run out.
    pub proof fn exportable_designs(&self)
        ensures
            ({
                let n = self.cells@.len();
                let cells = self.top_cells(n);
                let labels = given_names(self, cells, io_names(self, cells));
                let named = labels.dom().union(self.top_nets(n));
                self.exportable() <==> {
                    &&& self.wf()
                    &&& cells.len() > 0
                    &&& forall|c: CellRef, i: int|
                        c < n && !(self.cells@[c as int].cell is Name)
                            && !(self.cells@[c as int].cell is Debug) && 0 <= i < self.inputs(
                            c,
                        ).len() && 2 <= #[trigger] self.inputs(c)[i] < 0xffff_ffff ==> exists|
                            e: CellRef,
                        |
                            e < n && (#[trigger] self.outputs(e)).contains(self.inputs(c)[i])
                    &&& forall|c: CellRef|
                        c < n && (self.top_scope() == 0 || !self.is_logic(c))
                            ==> #[trigger] self.can_be_written(c, named)
                    &&& self.top_nets(n).len() + cells.len() + io_names(self, cells).len()
                        <= usize::MAX
                }
            }),
    {
        let n = self.cells@.len();
        let cells = self.top_cells(n);
        let labels = given_names(self, cells, io_names(self, cells));
        let named = labels.dom().union(self.top_nets(n));
        assert(named == self.top_named());
        assert forall|c: CellRef| #[trigger] self.can_be_written(c, named)
            == self.top_cell_ready(c) by {
            self.lemma_can_be_written(c);
        }
        assert forall|c: CellRef| #[trigger] self.top_cell_ready(c) == self.can_be_written(
            c,
            named,
        ) by {
            self.lemma_can_be_written(c);
        }
        assert forall|c: CellRef|
            #![trigger self.is_logic(c)]
            #![trigger self.in_top(c)]
            self.in_top(c) == (self.top_scope() == 0 || !self.is_logic(c)) by {}
        if self.all_driven() {
            assert forall|c: CellRef, i: int|
                c < n && !(self.cells@[c as int].cell is Name)
                    && !(self.cells@[c as int].cell is Debug) && 0 <= i < self.inputs(c).len() && 2
                    <= #[trigger] self.inputs(c)[i] < 0xffff_ffff implies exists|e: CellRef|
                e < n && (#[trigger] self.outputs(e)).contains(self.inputs(c)[i]) by {
                assert(self.is_driven(n, self.inputs(c)[i]));
                let e = choose|e: CellRef|
                    e < n && #[trigger] self.outputs(e).contains(self.inputs(c)[i]);
                assert(e < n && self.outputs(e).contains(self.inputs(c)[i]));
            }
        } else {
            let (c, i) = choose|c: CellRef, i: int|
                c < n && !self.is_label(c) && 0 <= i < self.inputs(c).len()
                    && is_cell_net(#[trigger] self.inputs(c)[i])
                    && !self.is_driven(n, self.inputs(c)[i]);
            assert(2 <= self.inputs(c)[i] < 0xffff_ffff);
            assert forall|e: CellRef| e < n implies !(#[trigger] self.outputs(e)).contains(
                self.inputs(c)[i],
            ) by {
                if self.outputs(e).contains(self.inputs(c)[i]) {
                    assert(self.is_driven(n, self.inputs(c)[i]));
                }
            }
        }
    }

    proof fn lemma_can_be_written(&self, c: CellRef)
        ensures
            self.can_be_written(c, self.top_named()) == self.top_cell_ready(c),
    {
        let entry = self.cells@[c as int];
        let named = self.top_named();
        match entry.cell {
            Cell::Other(instance) => {
                let len = entry.output@.len();
                assert((forall|i: int|
                    0 <= i < instance.outputs@.len() ==> {
                        let range = (#[trigger] instance.outputs@[i]).1;
                        range.0 < range.1 ==> range.1 <= len
                    }) == (forall|i: int|
                    0 <= i < instance.outputs@.len() ==> range_ready(
                        (#[trigger] instance.outputs@[i]).1,
                        len,
                    ))) by {
                    assert forall|i: int| 0 <= i < instance.outputs@.len() implies range_ready(
                        (#[trigger] instance.outputs@[i]).1,
                        len,
                    ) == {
                        let range = instance.outputs@[i].1;
                        range.0 < range.1 ==> range.1 <= len
                    } by {}
                }
            },
            Cell::Output(_, value) => {
                assert(self.inputs(c) == value@);
                assert((forall|i: int| 0 <= i < value@.len() ==> named.contains(
                    #[trigger] value@[i],
                )) == (forall|i: int|
                    0 <= i < self.inputs(c).len() ==> named.contains(
                        #[trigger] self.inputs(c)[i],
                    )));
            },
            _ => {},
        }
    }
}

/// Whether an expression spells a value out by names: the name of its only net, or a concatenation
/// of as many names as there are nets, in which that of net `k` has `k` names behind it.
pub open spec fn spells_value(e: ExpressionView, names: Map<Net, Seq<char>>, value: Seq<Net>) -> bool {
    &&& value.len() == 1 ==> e == ExpressionView::NamedValue(names[value[0]])
    &&& value.len() != 1 ==> {
        &&& e is Concat
        &&& e->Concat_0.len() == value.len()
        &&& forall|k: int|
            0 <= k < value.len() ==> e->Concat_0[value.len() - 1 - k] == ExpressionView::NamedValue(
                names[#[trigger] value[k]],
            )
    }
}

/// Whether an expression is the concatenation of the names of nets, in order.
pub open spec fn lists_names(e: ExpressionView, names: Map<Net, Seq<char>>, nets: Seq<Net>) -> bool {
    &&& e is Concat
    &&& e->Concat_0.len() == nets.len()
    &&& forall|j: int|
        0 <= j < nets.len() ==> e->Concat_0[j] == ExpressionView::NamedValue(
            names[#[trigger] nets[j]],
        )
}

proof fn lemma_spells_value(names: Map<Net, Seq<char>>, value: Seq<Net>)
    requires
        value.len() > 0,
    ensures
        spells_value(expression_named(value_expression(value), names), names, value),
{
    let e = value_expression(value);
    naming_replaces_every_part(e, names);
    bits_keep_their_significance(value, 0);
    assert forall|k: int| 0 <= k < value.len() && value.len() > 1 implies expression_named(
        e,
        names,
    )->Concat_0[value.len() - 1 - k] == ExpressionView::NamedValue(names[#[trigger] value[k]]) by {
        bits_keep_their_significance(value, k);
    }
}

impl Design {
    /// The names of the nets in the top module.
    pub open spec fn top_names(&self) -> Map<Net, Seq<char>> {
        net_names(self, Map::empty(), self.top_module(), io_names(self, self.top_module().cells)).0
    }

    proof fn lemma_in_top_module(&self, c: CellRef)
        requires
            c < self.cells@.len(),
            self.top_scope() == 0 || !self.is_logic(c),
        ensures
            self.top_module().cells.contains(c),
    {
        let n = self.cells@.len();
        self.contents_of_the_top_module();
        let p = |c: CellRef| self.top_scope() == 0 || !self.is_logic(c);
        assert(first_cells(n)[c as int] == c);
        first_cells(n).lemma_filter_contains(p, c as int);
    }

    /// Every input of the design is a port with its name and width, and its bit `k` drives net `k`
    /// of the cell; every output is a port with its name and width, and net `k` of its value drives
    /// its bit `k`. So it is at every width, whichever scope is the top.
    pub proof fn ports_meet_their_nets(&self, c: CellRef) -> (r: (int, int))
        requires
            self.exportable(),
            c < self.cells@.len(),
            !self.is_logic(c),
        ensures
            ({
                let result = self.top_verilog();
                let (p, a) = r;
                &&& 0 <= p < result.port_members.len()
                &&& 0 <= a < result.members.len()
                &&& result.members[a] matches MemberView::Assign(left, right)
                &&& match self.cells@[c as int].cell {
                    Cell::Input(name, size) => {
                        &&& result.port_members[p] == MemberView::Input(
                            seq![],
                            name@,
                            Range { msb: (size - 1) as usize, lsb: 0 },
                        )
                        &&& right == ExpressionView::NamedValue(name@)
                        &&& spells_value(left, self.top_names(), self.cells@[c as int].output@)
                    },
                    Cell::Output(name, value) => {
                        &&& result.port_members[p] == MemberView::Output(
                            seq![],
                            name@,
                            Range { msb: (value@.len() - 1) as usize, lsb: 0 },
                        )
                        &&& left == ExpressionView::NamedValue(name@)
                        &&& spells_value(right, self.top_names(), value@)
                    },
                    _ => false,
                }
            }),
    {
        let m = self.top_module();
        let names = self.top_names();
        self.lemma_in_top_module(c);
        let p = |c: CellRef|
            self.cells@[c as int].cell is Input || self.cells@[c as int].cell is Output;
        let io = m.cells.filter(p);
        let at = choose|at: int| 0 <= at < m.cells.len() && m.cells[at] == c;
        m.cells.lemma_filter_contains(p, at);
        let i = choose|i: int| 0 <= i < io.len() && io[i] == c;
        inputs_and_outputs_are_connected(self, m.cells);
        members_of_a_finished_module(self, Map::empty(), m, true);
        let assigns = io_assigns(self, m.cells);
        let w = wires(m, names).len();
        assert(io_ports(self, m.cells)[i] == self.top_verilog().port_members[i]);
        assert(self.top_verilog().members[w + i] == member_named(assigns[i], names));
        naming_replaces_every_net(assigns[i], names);
        self.exportable_designs();
        let n = self.cells@.len();
        let cells = self.top_cells(n);
        let named_nets = given_names(self, cells, io_names(self, cells)).dom().union(
            self.top_nets(n),
        );
        assert(self.can_be_written(c, named_nets));
        match self.cells@[c as int].cell {
            Cell::Input(name, _) => {
                lemma_spells_value(names, self.cells@[c as int].output@);
                naming_replaces_every_part(ExpressionView::NamedValue(name@), names);
            },
            Cell::Output(name, value) => {
                lemma_spells_value(names, value@);
                naming_replaces_every_part(ExpressionView::NamedValue(name@), names);
            },
            _ => {},
        }
        (i, w + i)
    }

    /// Every cell of the top module that is an instance is written as one of its kind, with its
    /// attributes; each input is connected to its nets in order, and each output to the nets in its
    /// range of the output of the cell, and to no others.
    pub proof fn instances_meet_their_nets(&self, c: CellRef) -> (at: int)
        requires
            self.exportable(),
            c < self.cells@.len(),
            self.top_scope() == 0,
            self.cells@[c as int].cell is Other,
        ensures
            ({
                let entry = self.cells@[c as int];
                let instance = entry.cell->Other_0;
                let n = instance.inputs@.len();
                &&& 0 <= at < self.top_verilog().members.len()
                &&& self.top_verilog().members[at] matches MemberView::Instantiation(
                    attrs,
                    type_,
                    _,
                    conns,
                )
                &&& attrs == self.cell_attrs(entry.metadata@)
                &&& type_ == instance.kind@
                &&& conns.len() == n + instance.outputs@.len()
                &&& forall|i: int|
                    0 <= i < n ==> conns[i].0 == (#[trigger] instance.inputs@[i]).0@ && lists_names(
                        conns[i].1,
                        self.top_names(),
                        instance.inputs@[i].1@,
                    )
                &&& forall|i: int|
                    0 <= i < instance.outputs@.len() ==> {
                        let (name, range) = #[trigger] instance.outputs@[i];
                        &&& conns[n + i].0 == name@
                        &&& range.0 < range.1 ==> lists_names(
                            conns[n + i].1,
                            self.top_names(),
                            entry.output@.subrange(range.0 as int, range.1 as int),
                        )
                        &&& range.0 >= range.1 ==> lists_names(
                            conns[n + i].1,
                            self.top_names(),
                            seq![],
                        )
                    }
            }),
    {
        let m = self.top_module();
        let entry = self.cells@[c as int];
        let instance = entry.cell->Other_0;
        let names = self.top_names();
        self.lemma_in_top_module(c);
        let p = |c: CellRef| self.cells@[c as int].cell is Other;
        let others = m.cells.filter(p);
        let place = choose|place: int| 0 <= place < m.cells.len() && m.cells[place] == c;
        m.cells.lemma_filter_contains(p, place);
        let i = choose|i: int| 0 <= i < others.len() && others[i] == c;
        let reserved = io_names(self, m.cells);
        let number = net_names(self, Map::empty(), m, reserved).1;
        let instances = cell_instances(self, m.cells, reserved, number).0;
        instances_are_written_in_order(self, m.cells, reserved, number);
        members_of_a_finished_module(self, Map::empty(), m, true);
        let from = wires(m, names).len() + io_assigns(self, m.cells).len();
        let member = instances[i];
        assert(self.top_verilog().members[from + i] == member_named(member, names)) by {
            assert(submodule_instances(
                self,
                Map::empty(),
                m.submodules,
            ).len() == 0);
        }
        naming_replaces_every_net(member, names);
        self.exportable_designs();
        let n = self.cells@.len();
        let cells = self.top_cells(n);
        assert(self.can_be_written(
            c,
            given_names(self, cells, io_names(self, cells)).dom().union(self.top_nets(n)),
        ));
        ports_of_instances_meet_their_nets(instance, entry.output@);
        let pending = instance_connections(instance, entry.output@);
        let conns = member_named(member, names)->Instantiation_3;
        let k = instance.inputs@.len() as int;
        assert forall|j: int| 0 <= j < k implies conns[j].0 == (#[trigger] instance.inputs@[j]).0@
            && lists_names(conns[j].1, names, instance.inputs@[j].1@) by {
            assert(conns[j] == (pending[j].0, expression_named(pending[j].1, names)));
            lemma_lists_names(pending[j].1, names, instance.inputs@[j].1@);
        }
        assert forall|j: int| 0 <= j < instance.outputs@.len() implies {
            let (name, range) = #[trigger] instance.outputs@[j];
            &&& conns[k + j].0 == name@
            &&& range.0 < range.1 ==> lists_names(
                conns[k + j].1,
                names,
                entry.output@.subrange(range.0 as int, range.1 as int),
            )
            &&& range.0 >= range.1 ==> lists_names(conns[k + j].1, names, seq![])
        } by {
            let (name, range) = instance.outputs@[j];
            assert(conns[k + j] == (pending[k + j].0, expression_named(pending[k + j].1, names)));
            let nets = if range.0 < range.1 {
                entry.output@.subrange(range.0 as int, range.1 as int)
            } else {
                seq![]
            };
            lemma_lists_names(pending[k + j].1, names, nets);
        }
        from + i
    }
}

proof fn lemma_lists_names(e: ExpressionView, names: Map<Net, Seq<char>>, nets: Seq<Net>)
    requires
        e is Concat,
        e->Concat_0.len() == nets.len(),
        forall|j: int|
            0 <= j < nets.len() ==> #[trigger] e->Concat_0[j] == ExpressionView::PendingNet(
                nets[j],
            ),
    ensures
        lists_names(expression_named(e, names), names, nets),
{
    naming_replaces_every_part(e, names);
    let after = expression_named(e, names)->Concat_0;
    assert forall|j: int| 0 <= j < nets.len() implies after[j] == ExpressionView::NamedValue(
        names[#[trigger] nets[j]],
    ) by {
        assert(e->Concat_0[j] == ExpressionView::PendingNet(nets[j]));
    }
}

} // verus!
