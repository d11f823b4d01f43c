//! What the Verilog module for a scope consists of.

use vstd::prelude::*;

use crate::cst::{
    port_name, value_expression, ConnectionsView, ExpressionView, MemberView, ModuleView, Range,
};
use crate::hierarchy::{lemma_same_shape, IndexState, ModuleState};
use crate::naming::{candidate, next_free};
use crate::netlist::{Cell, CellRef, Design, Instance, MetaItemRef, Net, Value};
use crate::nets::{ascending, lemma_front_or_last};

verus! {

/// The names of the inputs and outputs among the cells, in order.
pub open spec fn io_names(d: &Design, cells: Seq<CellRef>) -> Seq<Seq<char>>
    decreases cells.len(),
{
    if cells.len() == 0 {
        seq![]
    } else {
        let before = io_names(d, cells.drop_last());
        match d.cells@[cells.last() as int].cell {
            Cell::Input(name, _) => before.push(name@),
            Cell::Output(name, _) => before.push(name@),
            _ => before,
        }
    }
}

/// The names that only ports of the module may bear: those of inputs and outputs, in the top
/// module.
pub open spec fn reserved_names(d: &Design, cells: Seq<CellRef>, is_top: bool) -> Seq<Seq<char>> {
    if is_top {
        io_names(d, cells)
    } else {
        seq![]
    }
}

/// The name that a cell gives to a net: the first one in its metadata, unless it is reserved.
/// Names for more than one net at a time give none.
pub open spec fn given_name(d: &Design, c: CellRef, reserved: Seq<Seq<char>>) -> Option<
    (Net, Seq<char>),
> {
    let entry = d.cells@[c as int];
    match labelled_value(entry.cell) {
        Some(value) => match d.item_name(entry.metadata@) {
            Some(name) => if value.len() == 1 && !reserved.contains(name) {
                Some((value[0], name))
            } else {
                None
            },
            None => None,
        },
        None => None,
    }
}

/// The value that a cell gives a name to.
pub open spec fn labelled_value(cell: Cell) -> Option<Seq<Net>> {
    match cell {
        Cell::Name(_, value) => Some(value@),
        Cell::Debug(_, value) => Some(value@),
        _ => None,
    }
}

/// The names that the cells give; where two give one to the same net, the later.
pub open spec fn given_names(
    d: &Design,
    cells: Seq<CellRef>,
    reserved: Seq<Seq<char>>,
) -> Map<Net, Seq<char>>
    decreases cells.len(),
{
    if cells.len() == 0 {
        Map::empty()
    } else {
        let before = given_names(d, cells.drop_last(), reserved);
        match given_name(d, cells.last(), reserved) {
            Some((net, name)) => before.insert(net, name),
            None => before,
        }
    }
}

/// Whether a port is an output.
pub open spec fn is_output(port: MemberView) -> bool {
    port is Output
}

/// The names once the first `n` ports of a submodule are asked, only the outputs or only the
/// inputs: a net that is present and has no name yet is called after the submodule and the port.
pub open spec fn scouted(
    names: Map<Net, Seq<char>>,
    present: Set<Net>,
    sub: ModuleState,
    outputs: bool,
    n: nat,
) -> Map<Net, Seq<char>>
    decreases n,
{
    if n == 0 {
        names
    } else {
        let before = scouted(names, present, sub, outputs, (n - 1) as nat);
        let port = sub.cst->0.port_members[n - 1];
        let net = sub.interface->0[n - 1];
        if is_output(port) == outputs && present.contains(net) && !before.contains_key(net) {
            before.insert(net, sub.name + "."@ + port_name(port)->0)
        } else {
            before
        }
    }
}

/// The names once the ports of all submodules are asked.
pub open spec fn scouted_all(
    names: Map<Net, Seq<char>>,
    present: Set<Net>,
    modules: Map<MetaItemRef, ModuleState>,
    submodules: Seq<MetaItemRef>,
    outputs: bool,
) -> Map<Net, Seq<char>>
    decreases submodules.len(),
{
    if submodules.len() == 0 {
        names
    } else {
        let sub = modules[submodules.last()];
        scouted(
            scouted_all(names, present, modules, submodules.drop_last(), outputs),
            present,
            sub,
            outputs,
            sub.cst->0.port_members.len(),
        )
    }
}

/// The names once every one of `nets` has one, with the next number for made-up names: those that
/// have none get the free names in turn.
pub open spec fn completed(
    names: Map<Net, Seq<char>>,
    nets: Seq<Net>,
    reserved: Seq<Seq<char>>,
) -> (Map<Net, Seq<char>>, nat)
    decreases nets.len(),
{
    if nets.len() == 0 {
        (names, 0)
    } else {
        let (before, number) = completed(names, nets.drop_last(), reserved);
        if before.contains_key(nets.last()) {
            (before, number)
        } else {
            let k = next_free(reserved, number);
            (before.insert(nets.last(), candidate(k)), k + 1)
        }
    }
}

/// The names of the nets of a module before names are made up: those that its cells give, then
/// those after outputs of submodules, then those after inputs of submodules.
pub open spec fn known_names(
    d: &Design,
    modules: Map<MetaItemRef, ModuleState>,
    m: ModuleState,
    reserved: Seq<Seq<char>>,
) -> Map<Net, Seq<char>> {
    let given = given_names(d, m.cells, reserved);
    let outputs = scouted_all(given, m.present, modules, m.submodules, true);
    scouted_all(outputs, m.present, modules, m.submodules, false)
}

/// The names of the nets of a module, with the next number for made-up names.
pub open spec fn net_names(
    d: &Design,
    modules: Map<MetaItemRef, ModuleState>,
    m: ModuleState,
    reserved: Seq<Seq<char>>,
) -> (Map<Net, Seq<char>>, nat) {
    completed(known_names(d, modules, m, reserved), ascending(m.present), reserved)
}

/// The connections of an instance of a submodule: each port to the net behind it.
pub open spec fn submodule_connections(sub: ModuleState) -> ConnectionsView {
    Seq::new(
        sub.cst->0.port_members.len(),
        |i: int|
            (
                port_name(sub.cst->0.port_members[i])->0,
                ExpressionView::PendingNet(sub.interface->0[i]),
            ),
    )
}

/// The instance of a submodule.
pub open spec fn submodule_instance(
    d: &Design,
    modules: Map<MetaItemRef, ModuleState>,
    s: MetaItemRef,
) -> MemberView {
    MemberView::Instantiation(
        seq![],
        d.module_name(s),
        modules[s].name,
        submodule_connections(modules[s]),
    )
}

/// The instances of submodules, in order.
pub open spec fn submodule_instances(
    d: &Design,
    modules: Map<MetaItemRef, ModuleState>,
    submodules: Seq<MetaItemRef>,
) -> Seq<MemberView> {
    submodules.map_values(|s: MetaItemRef| submodule_instance(d, modules, s))
}

/// The concatenation of nets in the order given.
pub open spec fn nets_expression(nets: Seq<Net>) -> ExpressionView {
    ExpressionView::Concat(nets.map_values(|n: Net| ExpressionView::PendingNet(n)))
}

/// A stretch of nets, from the first number up to but without the second.
pub open spec fn stretch(nets: Seq<Net>, range: (usize, usize)) -> Seq<Net> {
    if range.0 < range.1 {
        nets.subrange(range.0 as int, range.1 as int)
    } else {
        seq![]
    }
}

/// The connections of an instance: its inputs, then its outputs.
pub open spec fn instance_connections(instance: Instance, output: Seq<Net>) -> ConnectionsView {
    instance.inputs@.map_values(|p: (String, Value)| (p.0@, nets_expression(p.1@)))
        + instance.outputs@.map_values(
        |p: (String, (usize, usize))| (p.0@, nets_expression(stretch(output, p.1))),
    )
}

/// The instances among the cells, in order, with the next number for made-up names: each instance
/// is called by the next free one.
pub open spec fn cell_instances(
    d: &Design,
    cells: Seq<CellRef>,
    reserved: Seq<Seq<char>>,
    number: nat,
) -> (Seq<MemberView>, nat)
    decreases cells.len(),
{
    if cells.len() == 0 {
        (seq![], number)
    } else {
        let (before, next) = cell_instances(d, cells.drop_last(), reserved, number);
        let entry = d.cells@[cells.last() as int];
        match entry.cell {
            Cell::Other(instance) => {
                let k = next_free(reserved, next);
                (
                    before.push(
                        MemberView::Instantiation(
                            d.cell_attrs(entry.metadata@),
                            instance.kind@,
                            candidate(k),
                            instance_connections(instance, entry.output@),
                        ),
                    ),
                    k + 1,
                )
            },
            _ => (before, next),
        }
    }
}

/// The bounds of a single wire.
pub open spec fn single() -> Range {
    Range { msb: 0, lsb: 0 }
}

/// Whether a net is neither an input nor an output of a module.
pub open spec fn is_inner(m: ModuleState, net: Net) -> bool {
    !m.in_ports.contains(net) && !m.out_ports.contains(net)
}

/// The declarations of the nets that are no ports, in ascending order.
pub open spec fn wires(m: ModuleState, names: Map<Net, Seq<char>>) -> Seq<MemberView> {
    ascending(m.present).filter(|n: Net| is_inner(m, n)).map_values(
        |n: Net| MemberView::Wire(seq![], names[n], single()),
    )
}

/// The ports for the inputs and outputs among the cells, in order.
pub open spec fn io_ports(d: &Design, cells: Seq<CellRef>) -> Seq<MemberView>
    decreases cells.len(),
{
    if cells.len() == 0 {
        seq![]
    } else {
        let before = io_ports(d, cells.drop_last());
        match d.cells@[cells.last() as int].cell {
            Cell::Input(name, size) => before.push(
                MemberView::Input(seq![], name@, Range { msb: (size - 1) as usize, lsb: 0 }),
            ),
            Cell::Output(name, value) => before.push(
                MemberView::Output(
                    seq![],
                    name@,
                    Range { msb: (value@.len() - 1) as usize, lsb: 0 },
                ),
            ),
            _ => before,
        }
    }
}

/// The assignments between the ports of the inputs and outputs among the cells and their nets, in
/// order.
pub open spec fn io_assigns(d: &Design, cells: Seq<CellRef>) -> Seq<MemberView>
    decreases cells.len(),
{
    if cells.len() == 0 {
        seq![]
    } else {
        let before = io_assigns(d, cells.drop_last());
        let entry = d.cells@[cells.last() as int];
        match entry.cell {
            Cell::Input(name, _) => before.push(
                MemberView::Assign(
                    value_expression(entry.output@),
                    ExpressionView::NamedValue(name@),
                ),
            ),
            Cell::Output(name, value) => before.push(
                MemberView::Assign(
                    ExpressionView::NamedValue(name@),
                    value_expression(value@),
                ),
            ),
            _ => before,
        }
    }
}

/// The ports of a module that is not the top, each with the net behind it: its inputs, then its
/// outputs, both in ascending order.
pub open spec fn boundary(m: ModuleState) -> Seq<Net> {
    ascending(m.in_ports) + ascending(m.out_ports)
}

/// The ports of a module that is not the top.
pub open spec fn boundary_ports(m: ModuleState, names: Map<Net, Seq<char>>) -> Seq<MemberView> {
    ascending(m.in_ports).map_values(|n: Net| MemberView::Input(seq![], names[n], single()))
        + ascending(m.out_ports).map_values(
        |n: Net| MemberView::Output(seq![], names[n], single()),
    )
}

/// A net replaced by its name.
pub open spec fn named(e: ExpressionView, names: Map<Net, Seq<char>>) -> ExpressionView {
    match e {
        ExpressionView::PendingNet(net) => ExpressionView::NamedValue(names[net]),
        _ => e,
    }
}

/// An expression with its nets, or those directly in a concatenation, replaced by their names.
pub open spec fn expression_named(
    e: ExpressionView,
    names: Map<Net, Seq<char>>,
) -> ExpressionView {
    match e {
        ExpressionView::Concat(parts) => ExpressionView::Concat(
            parts.map_values(|p: ExpressionView| named(p, names)),
        ),
        _ => named(e, names),
    }
}

/// A member with the nets in its expressions replaced by their names.
pub open spec fn member_named(m: MemberView, names: Map<Net, Seq<char>>) -> MemberView {
    match m {
        MemberView::Assign(left, right) => MemberView::Assign(
            expression_named(left, names),
            expression_named(right, names),
        ),
        MemberView::Instantiation(attrs, type_, name, conns) => MemberView::Instantiation(
            attrs,
            type_,
            name,
            conns.map_values(
                |c: (Seq<char>, ExpressionView)| (c.0, expression_named(c.1, names)),
            ),
        ),
        _ => m,
    }
}

/// The assignments and instances of a module, with nets that have no names yet.
pub open spec fn connecting_members(
    d: &Design,
    modules: Map<MetaItemRef, ModuleState>,
    m: ModuleState,
    is_top: bool,
) -> Seq<MemberView> {
    let reserved = reserved_names(d, m.cells, is_top);
    let number = net_names(d, modules, m, reserved).1;
    let assigns = if is_top {
        io_assigns(d, m.cells)
    } else {
        seq![]
    };
    assigns + submodule_instances(d, modules, m.submodules) + cell_instances(
        d,
        m.cells,
        reserved,
        number,
    ).0
}

/// The Verilog module for a module under construction whose submodules are finished.
pub open spec fn finished(
    d: &Design,
    modules: Map<MetaItemRef, ModuleState>,
    m: ModuleState,
    is_top: bool,
) -> ModuleView {
    let names = net_names(d, modules, m, reserved_names(d, m.cells, is_top)).0;
    ModuleView {
        name: m.name,
        port_members: if is_top {
            io_ports(d, m.cells)
        } else {
            boundary_ports(m, names)
        },
        members: wires(m, names) + connecting_members(d, modules, m, is_top).map_values(
            |x: MemberView| member_named(x, names),
        ),
    }
}

/// The modules once the one of scope `s` is finished; one that is not the top then has its
/// interface too.
pub open spec fn exported(d: &Design, st: IndexState, s: MetaItemRef) -> IndexState {
    let m = st.modules[s];
    let is_top = st.top == s;
    IndexState {
        modules: st.modules.insert(
            s,
            ModuleState {
                cst: Some(finished(d, st.modules, m, is_top)),
                interface: if is_top {
                    m.interface
                } else {
                    Some(boundary(m))
                },
                ..m
            },
        ),
        ..st
    }
}

/// Whether a submodule is finished, with a net behind each of its ports, all of them single wires.
pub open spec fn sub_ready(sub: ModuleState) -> bool {
    &&& sub.cst is Some
    &&& sub.interface is Some
    &&& sub.interface->0.len() >= sub.cst->0.port_members.len()
    &&& forall|i: int|
        0 <= i < sub.cst->0.port_members.len() ==> single_port(
            #[trigger] sub.cst->0.port_members[i],
        )
}

/// Whether a member is a port for a single wire.
pub open spec fn single_port(port: MemberView) -> bool {
    match port {
        MemberView::Input(_, _, range) => range.width() == 1,
        MemberView::Output(_, _, range) => range.width() == 1,
        _ => false,
    }
}

/// Whether a cell can be written out: it is an operation that has a form in Verilog, an instance
/// without parameters and bidirectional ports whose attributes can be written and whose outputs
/// are parts of its output, or an input or output that is not empty.
pub open spec fn cell_ready(d: &Design, c: CellRef, is_top: bool) -> bool {
    let entry = d.cells@[c as int];
    match entry.cell {
        Cell::Coarse(_) => false,
        Cell::Other(instance) => {
            &&& instance.params@.len() == 0
            &&& instance.ios@.len() == 0
            &&& d.attrs_ok(entry.metadata@)
            &&& forall|i: int|
                0 <= i < instance.outputs@.len() ==> range_ready(
                    (#[trigger] instance.outputs@[i]).1,
                    entry.output@.len(),
                )
        },
        Cell::Input(_, size) => is_top ==> size > 0 && entry.output@.len() > 0,
        Cell::Output(_, value) => is_top ==> value@.len() > 0,
        _ => true,
    }
}

/// Whether a stretch is empty or lies within a length.
pub open spec fn range_ready(range: (usize, usize), len: nat) -> bool {
    range.0 < range.1 ==> range.1 <= len
}

/// Whether an expression contains, other than deep inside, only nets in `nets`.
pub open spec fn expression_within(e: ExpressionView, nets: Set<Net>) -> bool {
    match e {
        ExpressionView::PendingNet(net) => nets.contains(net),
        ExpressionView::Concat(parts) => forall|i: int|
            0 <= i < parts.len() ==> part_within(#[trigger] parts[i], nets),
        _ => true,
    }
}

/// Whether a part of a concatenation is no net outside `nets`.
pub open spec fn part_within(e: ExpressionView, nets: Set<Net>) -> bool {
    match e {
        ExpressionView::PendingNet(net) => nets.contains(net),
        _ => true,
    }
}

/// Whether the expressions of a member contain only nets in `nets`.
pub open spec fn member_within(m: MemberView, nets: Set<Net>) -> bool {
    match m {
        MemberView::Assign(left, right) => expression_within(left, nets) && expression_within(
            right,
            nets,
        ),
        MemberView::Instantiation(_, _, _, conns) => forall|i: int|
            0 <= i < conns.len() ==> expression_within((#[trigger] conns[i]).1, nets),
        _ => true,
    }
}

/// Whether a module can be finished: its submodules are, its cells can be written out, there are
/// enough numbers to make up names, and every net in its assignments and instances has a name.
pub open spec fn module_ready(
    d: &Design,
    modules: Map<MetaItemRef, ModuleState>,
    m: ModuleState,
    is_top: bool,
) -> bool {
    let reserved = reserved_names(d, m.cells, is_top);
    &&& forall|i: int|
        0 <= i < m.submodules.len() ==> sub_ready(modules[#[trigger] m.submodules[i]])
    &&& forall|i: int| 0 <= i < m.cells.len() ==> cell_ready(d, #[trigger] m.cells[i], is_top)
    &&& m.present.len() + m.cells.len() + reserved.len() <= usize::MAX
    &&& forall|i: int|
        0 <= i < connecting_members(d, modules, m, is_top).len() ==> member_within(
            #[trigger] connecting_members(d, modules, m, is_top)[i],
            net_names(d, modules, m, reserved).0.dom(),
        )
}

/// Finishing a module leaves the modules in order.
pub proof fn lemma_exported_wf(d: &Design, st: IndexState, s: MetaItemRef)
    requires
        st.wf(d),
        st.modules.contains_key(s),
    ensures
        exported(d, st, s).wf(d),
{
    let st1 = exported(d, st, s);
    assert(st1.modules.dom() =~= st.modules.dom());
    lemma_same_shape(d, st, st1);
}

/// Names once given stay, and in the end every net has one.
pub proof fn lemma_completed(
    names: Map<Net, Seq<char>>,
    nets: Seq<Net>,
    reserved: Seq<Seq<char>>,
)
    ensures
        names.submap_of(completed(names, nets, reserved).0),
        forall|i: int|
            0 <= i < nets.len() ==> completed(names, nets, reserved).0.contains_key(
                #[trigger] nets[i],
            ),
        completed(names, nets, reserved).0.dom() == names.dom().union(nets.to_set()),
    decreases nets.len(),
{
    let all = completed(names, nets, reserved).0;
    if nets.len() > 0 {
        let before = nets.drop_last();
        lemma_completed(names, before, reserved);
        let some = completed(names, before, reserved).0;
        assert forall|n: Net| #[trigger] names.dom().contains(n) implies all.dom().contains(n)
            && all[n] == names[n] by {
            assert(some.dom().contains(n));
        }
        assert forall|i: int| 0 <= i < nets.len() implies all.contains_key(#[trigger] nets[i]) by {
            if i < before.len() {
                assert(before[i] == nets[i]);
            }
        }
        assert(all.dom() =~= names.dom().union(nets.to_set())) by {
            lemma_front_or_last(nets);
        }
    } else {
        assert(all.dom() =~= names.dom().union(nets.to_set()));
    }
}

} // verus!
