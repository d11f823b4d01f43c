//! Turning a netlist into Verilog modules.

use bumpalo::Bump;
use std::collections::{BTreeMap, BTreeSet};
use vstd::prelude::*;
use vstd::string::*;

use crate::arena::intern;
use crate::cst;
use crate::cst::{
    callable, connections_view, member_related, members_view, parts_related, port_name,
    unit_printable, visit_related, visitable, Attrs, Connections, Expression, ExpressionView,
    Member, MemberView, Range,
};
use crate::export_laws::exported_design_is_printable;
use crate::flat::{
    all_added, all_linked, lemma_all_added, lemma_all_linked, lemma_flat, lemma_top_ready,
};
use crate::hierarchy::{lemma_view_insert, module_ok, placement, HierarchyIndex, Module};
use crate::layout::{
    boundary, cell_instances, cell_ready, completed, connecting_members, exported,
    expression_named, expression_within, finished, given_names, instance_connections,
    io_assigns, io_names, io_ports, is_inner, known_names, lemma_completed, lemma_exported_wf,
    member_named, member_within, module_ready, named, nets_expression, part_within,
    range_ready, reserved_names, scouted, scouted_all, single, single_port, stretch, sub_ready,
    submodule_connections, submodule_instance, submodule_instances, wires,
};
use crate::metadata::{
    map_metadata, metadata_name, metadata_scopes, reduce_scopes, verilog_module_name,
};
use crate::naming::{
    contains_text, lemma_next_free, lemma_taken_bound, name_texts, next_free, next_name, taken,
    texts, Counter,
};
use crate::netlist::{Cell, CellRef, Design, Instance, MetaItemRef, Net, Value};
use crate::nets::{ascending, ascending_nets};

verus! {

broadcast use vstd::std_specs::btree::group_btree_axioms;

/// The names of the inputs and outputs among the cells, in order.
pub(crate) fn port_names<'a>(design: &'a Design, cells: &Vec<CellRef>) -> (names: Vec<&'a str>)
    requires
        forall|i: int| 0 <= i < cells@.len() ==> #[trigger] cells@[i] < design.cells@.len(),
    ensures
        texts(names@) == io_names(design, cells@),
{
    let mut names: Vec<&'a str> = Vec::new();
    proof {
        assert(texts(names@) =~= seq![]);
    }
    for i in 0..cells.len()
        invariant
            forall|i: int| 0 <= i < cells@.len() ==> #[trigger] cells@[i] < design.cells@.len(),
            texts(names@) == io_names(design, cells@.take(i as int)),
    {
        let ghost before = names@;
        proof {
            assert(cells@.take(i + 1).drop_last() =~= cells@.take(i as int));
        }
        match &design.cells[cells[i]].cell {
            Cell::Input(name, _) => {
                names.push(name.as_str());
                proof {
                    assert(texts(names@) =~= texts(before).push(name@));
                }
            },
            Cell::Output(name, _) => {
                names.push(name.as_str());
                proof {
                    assert(texts(names@) =~= texts(before).push(name@));
                }
            },
            _ => {},
        }
    }
    proof {
        assert(cells@.take(cells@.len() as int) =~= cells@);
    }
    names
}

/// The names that the cells give to single nets.
pub(crate) fn label_names<'a>(
    design: &'a Design,
    cells: &Vec<CellRef>,
    port_names: &Vec<&'a str>,
) -> (names: BTreeMap<Net, &'a str>)
    requires
        design.wf(),
        forall|i: int| 0 <= i < cells@.len() ==> #[trigger] cells@[i] < design.cells@.len(),
    ensures
        name_texts(names@) == given_names(design, cells@, texts(port_names@)),
{
    let mut names: BTreeMap<Net, &'a str> = BTreeMap::new();
    proof {
        assert(name_texts(names@) =~= Map::empty());
    }
    for i in 0..cells.len()
        invariant
            design.wf(),
            forall|i: int| 0 <= i < cells@.len() ==> #[trigger] cells@[i] < design.cells@.len(),
            name_texts(names@) == given_names(
                design,
                cells@.take(i as int),
                texts(port_names@),
            ),
    {
        let cell: CellRef = cells[i];
        let entry = &design.cells[cell];
        let ghost before = names@;
        proof {
            assert(cells@.take(i + 1).drop_last() =~= cells@.take(i as int));
            assert(design.entry_ok(cell));
        }
        let value = match &entry.cell {
            Cell::Name(_, value) => Some(value),
            Cell::Debug(_, value) => Some(value),
            _ => None,
        };
        if let Some(value) = value {
            if let Some(name) = metadata_name(design, &entry.metadata) {
                if value.len() == 1 && !contains_text(port_names, name) {
                    names.insert(value[0], name);
                    proof {
                        assert(name_texts(names@) =~= name_texts(before).insert(
                            value@[0],
                            name@,
                        ));
                    }
                }
            }
        }
    }
    proof {
        assert(cells@.take(cells@.len() as int) =~= cells@);
    }
    names
}

/// The name of a port, and whether it is an output.
fn port_parts<'a>(port: &Member<'a>) -> (r: (&'a str, bool))
    requires
        single_port(port@),
    ensures
        port_name(port@) == Some(r.0@),
        r.1 == (port@ is Output),
{
    match port {
        Member::Output(_, name, _) => (*name, true),
        Member::Input(_, name, _) => (*name, false),
        _ => ("", false),
    }
}

/// The instance of a finished submodule.
fn submodule_member<'a>(
    alloc: &'a Bump,
    design: &Design,
    scope: MetaItemRef,
    submodule: &Module<'a>,
) -> (r: Member<'a>)
    requires
        design.wf(),
        design.is_scope(scope),
        sub_ready(submodule@),
    ensures
        r@ == MemberView::Instantiation(
            seq![],
            design.module_name(scope),
            submodule@.name,
            submodule_connections(submodule@),
        ),
{
    let sub_cst = submodule.cst.as_ref().unwrap();
    let sub_interface = submodule.interface.as_ref().unwrap();
    let mut conns: Connections<'a> = Vec::new();
    let ports = &sub_cst.port_members;
    let ghost all = submodule_connections(submodule@);
    proof {
        assert(submodule@.cst == Some(sub_cst@));
        assert(submodule@.interface == Some(sub_interface@));
        assert(connections_view(conns@) =~= all.take(0));
    }
    for i in 0..ports.len()
        invariant
            sub_ready(submodule@),
            submodule@.cst == Some(sub_cst@),
            submodule@.interface == Some(sub_interface@),
            *ports == sub_cst.port_members,
            all == submodule_connections(submodule@),
            connections_view(conns@) == all.take(i as int),
    {
        let ghost before = conns@;
        proof {
            assert(sub_cst@.port_members[i as int] == ports@[i as int]@);
        }
        let (name, _) = port_parts(&ports[i]);
        conns.push((name, Expression::PendingNet(sub_interface[i])));
        proof {
            assert(connections_view(conns@) =~= connections_view(before).push(
                (name@, ExpressionView::PendingNet(sub_interface@[i as int])),
            ));
            assert(all.take(i + 1) =~= all.take(i as int).push(all[i as int]));
        }
    }
    proof {
        assert(all.take(all.len() as int) =~= all);
    }
    let attrs = Attrs(Vec::new());
    proof {
        assert(attrs@ =~= seq![]);
    }
    Member::Instantiation(
        attrs,
        intern(alloc, verilog_module_name(design, scope)),
        submodule.name,
        conns,
    )
}

/// Names nets after the outputs of a finished submodule, or after its inputs.
fn scout_names<'a>(
    alloc: &'a Bump,
    names: &mut BTreeMap<Net, &'a str>,
    present: &BTreeSet<Net>,
    submodule: &Module<'a>,
    outputs: bool,
)
    requires
        sub_ready(submodule@),
    ensures
        name_texts(final(names)@) == scouted(
            name_texts(old(names)@),
            present@,
            submodule@,
            outputs,
            submodule@.cst->0.port_members.len(),
        ),
{
    let sub_cst = submodule.cst.as_ref().unwrap();
    let sub_interface = submodule.interface.as_ref().unwrap();
    let ports = &sub_cst.port_members;
    proof {
        assert(submodule@.cst == Some(sub_cst@));
        assert(submodule@.interface == Some(sub_interface@));
    }
    for i in 0..ports.len()
        invariant
            sub_ready(submodule@),
            submodule@.cst == Some(sub_cst@),
            submodule@.interface == Some(sub_interface@),
            *ports == sub_cst.port_members,
            name_texts(names@) == scouted(
                name_texts(old(names)@),
                present@,
                submodule@,
                outputs,
                i as nat,
            ),
    {
        let ghost before = names@;
        proof {
            assert(sub_cst@.port_members[i as int] == ports@[i as int]@);
        }
        let (port, is_output) = port_parts(&ports[i]);
        let net: Net = sub_interface[i];
        if is_output == outputs && present.contains(&net) && !names.contains_key(&net) {
            let mut name = submodule.name.to_owned();
            name.append(".");
            name.append(port);
            let name = intern(alloc, name);
            names.insert(net, name);
            proof {
                assert(name_texts(names@) =~= name_texts(before).insert(net, name@));
            }
        }
    }
}

/// How many names have been made up once `number` is the next number.
pub open spec fn handed_out(reserved: Seq<Seq<char>>, number: nat) -> int {
    number - taken(reserved, number)
}

/// Making up a name passes over reserved names only.
proof fn lemma_handed_out(reserved: Seq<Seq<char>>, number: nat)
    ensures
        handed_out(reserved, next_free(reserved, number) + 1) == handed_out(reserved, number) + 1,
        next_free(reserved, number) <= handed_out(reserved, number) + reserved.len(),
{
    lemma_next_free(reserved, number);
    lemma_taken_bound(reserved, next_free(reserved, number));
}

/// Makes up names for the nets that have none.
fn complete_names<'a>(
    alloc: &'a Bump,
    names: &mut BTreeMap<Net, &'a str>,
    nets: &Vec<Net>,
    port_names: &Vec<&'a str>,
) -> (counter: Counter)
    requires
        nets@.len() + port_names@.len() <= usize::MAX,
    ensures
        completed(name_texts(old(names)@), nets@, texts(port_names@)) == (
            name_texts(final(names)@),
            counter.0 as nat,
        ),
        handed_out(texts(port_names@), counter.0 as nat) <= nets@.len(),
{
    let mut counter = Counter(0);
    let ghost reserved = texts(port_names@);
    for i in 0..nets.len()
        invariant
            nets@.len() + port_names@.len() <= usize::MAX,
            reserved == texts(port_names@),
            completed(name_texts(old(names)@), nets@.take(i as int), reserved) == (
                name_texts(names@),
                counter.0 as nat,
            ),
            handed_out(reserved, counter.0 as nat) <= i,
    {
        let ghost before = names@;
        proof {
            assert(nets@.take(i + 1).drop_last() =~= nets@.take(i as int));
            assert(name_texts(before).contains_key(nets@[i as int]) == before.contains_key(
                nets@[i as int],
            ));
        }
        if !names.contains_key(&nets[i]) {
            proof {
                lemma_handed_out(reserved, counter.0 as nat);
            }
            let name = next_name(alloc, &mut counter, port_names);
            names.insert(nets[i], name);
            proof {
                assert(name_texts(names@) =~= name_texts(before).insert(nets@[i as int], name@));
            }
        }
    }
    proof {
        assert(nets@.take(nets@.len() as int) =~= nets@);
    }
    counter
}

/// The concatenation of a stretch of nets.
fn concat_nets<'a>(nets: &Vec<Net>, from: usize, to: usize) -> (r: Expression<'a>)
    requires
        from <= to <= nets@.len(),
    ensures
        r@ == nets_expression(nets@.subrange(from as int, to as int)),
{
    let mut parts: Vec<Expression<'a>> = Vec::new();
    for i in from..to
        invariant
            from <= to <= nets@.len(),
            parts@.len() == i - from,
            forall|j: int|
                0 <= j < parts@.len() ==> #[trigger] parts@[j] == Expression::<'a>::PendingNet(
                    nets@[from + j],
                ),
    {
        parts.push(Expression::PendingNet(nets[i]));
    }
    let r = Expression::Concat(parts);
    proof {
        reveal_with_fuel(Expression::spec_view, 2);
        assert(r@->Concat_0 =~= nets_expression(
            nets@.subrange(from as int, to as int),
        )->Concat_0);
    }
    r
}

/// What the ports of an instance are connected to.
fn instance_conns<'a>(instance: &'a Instance, output: &Vec<Net>) -> (conns: Connections<'a>)
    requires
        forall|i: int|
            0 <= i < instance.outputs@.len() ==> range_ready(
                (#[trigger] instance.outputs@[i]).1,
                output@.len(),
            ),
    ensures
        connections_view(conns@) == instance_connections(*instance, output@),
{
    let mut conns: Connections<'a> = Vec::new();
    let ghost all = instance_connections(*instance, output@);
    proof {
        assert(connections_view(conns@) =~= all.take(0));
    }
    for i in 0..instance.inputs.len()
        invariant
            all == instance_connections(*instance, output@),
            connections_view(conns@) == all.take(i as int),
    {
        let ghost before = conns@;
        let (name, value) = &instance.inputs[i];
        let expression = concat_nets(value, 0, value.len());
        conns.push((name.as_str(), expression));
        proof {
            assert(value@.subrange(0, value@.len() as int) =~= value@);
            assert(connections_view(conns@) =~= connections_view(before).push(
                (name@, expression@),
            ));
            assert(all[i as int] == (name@, expression@));
            assert(all.take(i + 1) =~= all.take(i as int).push(all[i as int]));
        }
    }
    let ghost n = instance.inputs@.len() as int;
    for i in 0..instance.outputs.len()
        invariant
            forall|i: int|
                0 <= i < instance.outputs@.len() ==> range_ready(
                    (#[trigger] instance.outputs@[i]).1,
                    output@.len(),
                ),
            all == instance_connections(*instance, output@),
            n == instance.inputs@.len(),
            connections_view(conns@) == all.take(n + i),
    {
        let ghost before = conns@;
        let (name, range) = &instance.outputs[i];
        let ghost pair = instance.outputs@[i as int];
        proof {
            assert(range_ready(pair.1, output@.len()));
        }
        let expression = if range.0 < range.1 {
            concat_nets(output, range.0, range.1)
        } else {
            concat_nets(output, 0, 0)
        };
        conns.push((name.as_str(), expression));
        proof {
            assert(output@.subrange(0, 0) =~= seq![]);
            assert(expression@ == nets_expression(stretch(output@, pair.1)));
            assert(connections_view(conns@) =~= connections_view(before).push(
                (name@, expression@),
            ));
            assert(all[n + i] == (name@, expression@));
            assert(all.take(n + i + 1) =~= all.take(n + i).push(all[n + i]));
        }
    }
    proof {
        assert(all.take(all.len() as int) =~= all);
    }
    conns
}

/// The instances among the cells, named by the next free names.
fn instantiate_cells<'a>(
    alloc: &'a Bump,
    design: &'a Design,
    cells: &Vec<CellRef>,
    port_names: &Vec<&'a str>,
    counter: &mut Counter,
    is_top: bool,
) -> (members: Vec<Member<'a>>)
    requires
        design.wf(),
        forall|i: int| 0 <= i < cells@.len() ==> #[trigger] cells@[i] < design.cells@.len(),
        forall|i: int| 0 <= i < cells@.len() ==> cell_ready(design, #[trigger] cells@[i], is_top),
        handed_out(texts(port_names@), old(counter).0 as nat) + cells@.len() + port_names@.len()
            <= usize::MAX,
    ensures
        cell_instances(design, cells@, texts(port_names@), old(counter).0 as nat) == (
            members_view(members@),
            final(counter).0 as nat,
        ),
{
    let mut members: Vec<Member<'a>> = Vec::new();
    let ghost reserved = texts(port_names@);
    let ghost from = counter.0 as nat;
    proof {
        assert(members_view(members@) =~= seq![]);
    }
    for i in 0..cells.len()
        invariant
            design.wf(),
            forall|i: int| 0 <= i < cells@.len() ==> #[trigger] cells@[i] < design.cells@.len(),
            forall|i: int|
                0 <= i < cells@.len() ==> cell_ready(design, #[trigger] cells@[i], is_top),
            reserved == texts(port_names@),
            from == old(counter).0,
            handed_out(reserved, counter.0 as nat) <= handed_out(reserved, from) + i,
            handed_out(reserved, from) + cells@.len() + port_names@.len() <= usize::MAX,
            cell_instances(design, cells@.take(i as int), reserved, from) == (
                members_view(members@),
                counter.0 as nat,
            ),
    {
        let cell: CellRef = cells[i];
        let entry = &design.cells[cell];
        let ghost before = members@;
        proof {
            assert(cells@.take(i + 1).drop_last() =~= cells@.take(i as int));
            assert(design.entry_ok(cell));
            assert(cell_ready(design, cells@[i as int], is_top));
        }
        if let Cell::Other(instance) = &entry.cell {
            proof {
                lemma_handed_out(reserved, counter.0 as nat);
            }
            let name = next_name(alloc, counter, port_names);
            let conns = instance_conns(instance, &entry.output);
            let member = Member::Instantiation(
                map_metadata(alloc, design, &entry.metadata),
                instance.kind.as_str(),
                name,
                conns,
            );
            members.push(member);
            proof {
                assert(members_view(members@) =~= members_view(before).push(member@));
            }
        }
    }
    proof {
        assert(cells@.take(cells@.len() as int) =~= cells@);
    }
    members
}

/// No attributes.
fn no_attrs<'a>() -> (r: Attrs<'a>)
    ensures
        r@ == Seq::<(Seq<char>, Seq<char>)>::empty(),
{
    let r = Attrs(Vec::new());
    proof {
        assert(r@ =~= seq![]);
    }
    r
}

/// The declarations of the nets that are no ports.
fn declare_wires<'a>(
    names: &BTreeMap<Net, &'a str>,
    nets: &Vec<Net>,
    module: &Module<'a>,
) -> (members: Vec<Member<'a>>)
    requires
        nets@ == ascending(module@.present),
        forall|i: int| 0 <= i < nets@.len() ==> names@.contains_key(#[trigger] nets@[i]),
    ensures
        members_view(members@) == wires(module@, name_texts(names@)),
{
    let mut members: Vec<Member<'a>> = Vec::new();
    let ghost inner = |n: Net| is_inner(module@, n);
    let ghost wire = |n: Net|
        MemberView::Wire(seq![], name_texts(names@)[n], single());
    proof {
        assert(members_view(members@) =~= nets@.take(0).filter(inner).map_values(wire)) by {
            reveal(Seq::filter);
        }
    }
    for i in 0..nets.len()
        invariant
            forall|i: int| 0 <= i < nets@.len() ==> names@.contains_key(#[trigger] nets@[i]),
            inner == |n: Net| is_inner(module@, n),
            wire == |n: Net| MemberView::Wire(seq![], name_texts(names@)[n], single()),
            members_view(members@) == nets@.take(i as int).filter(inner).map_values(wire),
    {
        let net: Net = nets[i];
        let ghost before = members@;
        proof {
            assert(nets@.take(i + 1).drop_last() =~= nets@.take(i as int));
            reveal(Seq::filter);
        }
        if !module.in_port_nets.contains(&net) && !module.out_port_nets.contains(&net) {
            let name = names.get(&net).unwrap();
            let member = Member::Wire(no_attrs(), *name, Range { msb: 0, lsb: 0 });
            members.push(member);
            proof {
                assert(member@ == wire(net));
                let kept = nets@.take(i as int).filter(inner);
                assert(kept.push(net).map_values(wire) =~= kept.map_values(wire).push(wire(net)));
                assert(members_view(members@) =~= members_view(before).push(member@));
            }
        }
    }
    proof {
        assert(nets@.take(nets@.len() as int) =~= nets@);
    }
    members
}

/// The ports for the inputs and outputs among the cells, and the assignments between them and
/// their nets.
fn connect_io<'a>(design: &'a Design, cells: &Vec<CellRef>) -> (r: (
    Vec<Member<'a>>,
    Vec<Member<'a>>,
))
    requires
        forall|i: int| 0 <= i < cells@.len() ==> #[trigger] cells@[i] < design.cells@.len(),
        forall|i: int| 0 <= i < cells@.len() ==> cell_ready(design, #[trigger] cells@[i], true),
    ensures
        members_view(r.0@) == io_ports(design, cells@),
        members_view(r.1@) == io_assigns(design, cells@),
{
    let mut ports: Vec<Member<'a>> = Vec::new();
    let mut assigns: Vec<Member<'a>> = Vec::new();
    proof {
        assert(members_view(ports@) =~= seq![]);
        assert(members_view(assigns@) =~= seq![]);
    }
    for i in 0..cells.len()
        invariant
            forall|i: int| 0 <= i < cells@.len() ==> #[trigger] cells@[i] < design.cells@.len(),
            forall|i: int|
                0 <= i < cells@.len() ==> cell_ready(design, #[trigger] cells@[i], true),
            members_view(ports@) == io_ports(design, cells@.take(i as int)),
            members_view(assigns@) == io_assigns(design, cells@.take(i as int)),
    {
        let entry = &design.cells[cells[i]];
        let ghost ports0 = ports@;
        let ghost assigns0 = assigns@;
        proof {
            assert(cells@.take(i + 1).drop_last() =~= cells@.take(i as int));
            assert(cell_ready(design, cells@[i as int], true));
        }
        match &entry.cell {
            Cell::Input(name, size) => {
                let range = Range { msb: *size - 1, lsb: 0 };
                let port = Member::Input(no_attrs(), name.as_str(), range);
                let assign = Member::Assign(
                    Expression::from_value(&entry.output),
                    Expression::NamedValue(name.as_str()),
                );
                ports.push(port);
                assigns.push(assign);
                proof {
                    assert(members_view(ports@) =~= members_view(ports0).push(port@));
                    assert(members_view(assigns@) =~= members_view(assigns0).push(assign@));
                }
            },
            Cell::Output(name, value) => {
                let range = Range { msb: value.len() - 1, lsb: 0 };
                let port = Member::Output(no_attrs(), name.as_str(), range);
                let assign = Member::Assign(
                    Expression::NamedValue(name.as_str()),
                    Expression::from_value(value),
                );
                ports.push(port);
                assigns.push(assign);
                proof {
                    assert(members_view(ports@) =~= members_view(ports0).push(port@));
                    assert(members_view(assigns@) =~= members_view(assigns0).push(assign@));
                }
            },
            _ => {},
        }
    }
    proof {
        assert(cells@.take(cells@.len() as int) =~= cells@);
    }
    (ports, assigns)
}

/// A port for each net.
fn single_ports<'a>(names: &BTreeMap<Net, &'a str>, nets: &Vec<Net>, outputs: bool) -> (ports: Vec<
    Member<'a>,
>)
    requires
        forall|i: int| 0 <= i < nets@.len() ==> names@.contains_key(#[trigger] nets@[i]),
    ensures
        members_view(ports@) == nets@.map_values(
            |n: Net|
                if outputs {
                    MemberView::Output(seq![], name_texts(names@)[n], single())
                } else {
                    MemberView::Input(seq![], name_texts(names@)[n], single())
                },
        ),
{
    let mut ports: Vec<Member<'a>> = Vec::new();
    let ghost port = |n: Net|
        if outputs {
            MemberView::Output(seq![], name_texts(names@)[n], single())
        } else {
            MemberView::Input(seq![], name_texts(names@)[n], single())
        };
    for i in 0..nets.len()
        invariant
            forall|i: int| 0 <= i < nets@.len() ==> names@.contains_key(#[trigger] nets@[i]),
            port == |n: Net|
                if outputs {
                    MemberView::Output(seq![], name_texts(names@)[n], single())
                } else {
                    MemberView::Input(seq![], name_texts(names@)[n], single())
                },
            ports@.len() == i,
            forall|j: int| 0 <= j < i ==> (#[trigger] ports@[j])@ == port(nets@[j]),
    {
        let name = names.get(&nets[i]).unwrap();
        let range = Range { msb: 0, lsb: 0 };
        let member = if outputs {
            Member::Output(no_attrs(), *name, range)
        } else {
            Member::Input(no_attrs(), *name, range)
        };
        ports.push(member);
        proof {
            assert(member@ == port(nets@[i as int]));
        }
    }
    proof {
        assert(members_view(ports@) =~= nets@.map_values(port));
    }
    ports
}

/// Calls that replace a net by its name.
pub open spec fn naming_relation<'a>(names: Map<Net, Seq<char>>) -> spec_fn(
    Expression<'a>,
    Expression<'a>,
) -> bool {
    |before: Expression<'a>, after: Expression<'a>| after@ == named(before@, names)
}

proof fn lemma_expression_named<'a>(
    names: Map<Net, Seq<char>>,
    before: Expression<'a>,
    after: Expression<'a>,
)
    requires
        visit_related(naming_relation(names), before, after),
    ensures
        after@ == expression_named(before@, names),
{
    reveal_with_fuel(Expression::spec_view, 2);
    let rel = naming_relation(names);
    if let Expression::Concat(parts) = before {
        let mid = choose|mid: Vec<Expression<'a>>| #[trigger]
            parts_related(rel, parts@, mid@) && rel(Expression::Concat(mid), after);
        let whole = Expression::Concat(mid);
        assert(after@ == whole@);
        assert(whole@->Concat_0 =~= expression_named(before@, names)->Concat_0) by {
            assert forall|i: int| 0 <= i < parts@.len() implies mid@[i]@ == named(
                parts@[i]@,
                names,
            ) by {
                assert(rel(parts@[i], mid@[i]));
            }
        }
    }
}

proof fn lemma_member_named<'a>(
    names: Map<Net, Seq<char>>,
    before: Member<'a>,
    after: Member<'a>,
)
    requires
        member_related(naming_relation(names), before, after),
    ensures
        after@ == member_named(before@, names),
{
    match before {
        Member::Assign(left, right) => {
            lemma_expression_named(names, left, after->Assign_0);
            lemma_expression_named(names, right, after->Assign_1);
        },
        Member::Instantiation(_, _, _, conns) => {
            let conns1 = after->Instantiation_3;
            assert forall|i: int| 0 <= i < conns@.len() implies (#[trigger] conns1@[i]).1@
                == expression_named(conns@[i].1@, names) by {
                lemma_expression_named(names, conns@[i].1, conns1@[i].1);
            }
            assert(connections_view(conns1@) =~= member_named(
                before@,
                names,
            )->Instantiation_3);
        },
        _ => {},
    }
}

/// Replaces the nets in a member by their names.
fn name_member<'a>(member: &mut Member<'a>, names: &BTreeMap<Net, &'a str>)
    requires
        member_within(old(member)@, names@.dom()),
    ensures
        final(member)@ == member_named(old(member)@, name_texts(names@)),
{
    let ghost nt = name_texts(names@);
    let mut f = |expr: &mut Expression<'a>|
        requires
            part_within(expr@, names@.dom()),
        ensures
            final(expr)@ == named(old(expr)@, name_texts(names@)),
        {
            if let Expression::PendingNet(net) = expr {
                let name: &'a str = names.get(net).unwrap();
                *expr = Expression::NamedValue(name);
            }
        };
    let ghost before = *member;
    proof {
        reveal_with_fuel(Expression::spec_view, 2);
        assert forall|e: Expression<'a>| part_within(e@, names@.dom()) implies callable(f, e) by {}
        assert forall|e: Expression<'a>| expression_within(e@, names@.dom()) implies visitable(
            f,
            e,
        ) by {
            if let Expression::Concat(parts) = e {
                assert forall|i: int| 0 <= i < parts@.len() implies callable(
                    f,
                    #[trigger] parts@[i],
                ) by {
                    assert(part_within(e@->Concat_0[i], names@.dom()));
                }
            }
        }
        if let Member::Instantiation(_, _, _, conns) = before {
            assert forall|i: int| 0 <= i < conns@.len() implies visitable(
                f,
                (#[trigger] conns@[i]).1,
            ) by {
                assert(connections_view(conns@)[i].1 == conns@[i].1@);
                assert(expression_within(conns@[i].1@, names@.dom()));
            }
        }
    }
    member.visit_expressions(&mut f);
    proof {
        assert(member_related(naming_relation(nt), before, *member));
        lemma_member_named(nt, before, *member);
    }
}

/// Replaces the nets in members by their names.
fn name_members<'a>(members: &mut Vec<Member<'a>>, names: &BTreeMap<Net, &'a str>)
    requires
        forall|i: int|
            0 <= i < old(members)@.len() ==> member_within(
                (#[trigger] old(members)@[i])@,
                names@.dom(),
            ),
    ensures
        members_view(final(members)@) == members_view(old(members)@).map_values(
            |x: MemberView| member_named(x, name_texts(names@)),
        ),
{
    let ghost before = members@;
    let n: usize = members.len();
    let mut i: usize = 0;
    while i < n
        invariant
            i <= n,
            n == before.len(),
            members@.len() == before.len(),
            forall|j: int|
                0 <= j < n ==> member_within((#[trigger] before[j])@, names@.dom()),
            forall|j: int|
                0 <= j < i ==> (#[trigger] members@[j])@ == member_named(
                    before[j]@,
                    name_texts(names@),
                ),
            forall|j: int| i <= j < n ==> #[trigger] members@[j] == before[j],
        decreases n - i,
    {
        proof {
            assert(member_within(before[i as int]@, names@.dom()));
        }
        name_member(&mut members[i], names);
        i = i + 1;
    }
    proof {
        assert(members_view(members@) =~= members_view(before).map_values(
            |x: MemberView| member_named(x, name_texts(names@)),
        ));
    }
}

/// Names nets after the ports of all submodules.
fn scout_submodules<'a>(
    alloc: &'a Bump,
    names: &mut BTreeMap<Net, &'a str>,
    index: &HierarchyIndex<'a>,
    module: &Module<'a>,
    outputs: bool,
)
    requires
        forall|i: int|
            0 <= i < module@.submodules.len() ==> index@.modules.contains_key(
                #[trigger] module@.submodules[i],
            ) && sub_ready(index@.modules[module@.submodules[i]]),
    ensures
        name_texts(final(names)@) == scouted_all(
            name_texts(old(names)@),
            module@.present,
            index@.modules,
            module@.submodules,
            outputs,
        ),
{
    let submodules = &module.submodules;
    for i in 0..submodules.len()
        invariant
            submodules@ == module@.submodules,
            forall|i: int|
                0 <= i < module@.submodules.len() ==> index@.modules.contains_key(
                    #[trigger] module@.submodules[i],
                ) && sub_ready(index@.modules[module@.submodules[i]]),
            name_texts(names@) == scouted_all(
                name_texts(old(names)@),
                module@.present,
                index@.modules,
                submodules@.take(i as int),
                outputs,
            ),
    {
        proof {
            assert(submodules@.take(i + 1).drop_last() =~= submodules@.take(i as int));
            assert(index@.modules.contains_key(module@.submodules[i as int]));
        }
        let submodule = index.modules.get(&submodules[i]).unwrap();
        scout_names(alloc, names, &module.present_nets, submodule, outputs);
    }
    proof {
        assert(submodules@.take(submodules@.len() as int) =~= submodules@);
    }
}

/// The instances of submodules.
fn instantiate_submodules<'a>(
    alloc: &'a Bump,
    index: &HierarchyIndex<'a>,
    submodules: &Vec<MetaItemRef>,
) -> (members: Vec<Member<'a>>)
    requires
        index.design.wf(),
        forall|i: int|
            0 <= i < submodules@.len() ==> index@.modules.contains_key(#[trigger] submodules@[i])
                && index.design.is_scope(submodules@[i]) && sub_ready(
                index@.modules[submodules@[i]],
            ),
    ensures
        members_view(members@) == submodule_instances(
            index.design,
            index@.modules,
            submodules@,
        ),
{
    let mut members: Vec<Member<'a>> = Vec::new();
    for i in 0..submodules.len()
        invariant
            index.design.wf(),
            forall|i: int|
                0 <= i < submodules@.len() ==> index@.modules.contains_key(
                    #[trigger] submodules@[i],
                ) && index.design.is_scope(submodules@[i]) && sub_ready(
                    index@.modules[submodules@[i]],
                ),
            members@.len() == i,
            forall|j: int|
                0 <= j < i ==> (#[trigger] members@[j])@ == submodule_instance(
                    index.design,
                    index@.modules,
                    submodules@[j],
                ),
    {
        let scope: MetaItemRef = submodules[i];
        proof {
            assert(index@.modules.contains_key(submodules@[i as int]));
        }
        let submodule = index.modules.get(&scope).unwrap();
        members.push(submodule_member(alloc, index.design, scope, submodule));
    }
    proof {
        assert(members_view(members@) =~= submodule_instances(
            index.design,
            index@.modules,
            submodules@,
        ));
    }
    members
}

/// Finishes the module of a scope.
pub fn export_module<'a>(alloc: &'a Bump, index: &mut HierarchyIndex<'a>, scope: MetaItemRef)
    requires
        old(index)@.wf(old(index).design),
        old(index)@.modules.contains_key(scope),
        module_ready(
            old(index).design,
            old(index)@.modules,
            old(index)@.modules[scope],
            old(index)@.top == scope,
        ),
    ensures
        final(index).design == old(index).design,
        final(index)@ == exported(old(index).design, old(index)@, scope),
        final(index)@.wf(final(index).design),
{
    let design = index.design;
    let is_top = index.top_scope == scope;
    let module = index.modules.get(&scope).unwrap();
    let ghost m = module@;
    let ghost modules = index@.modules;
    proof {
        assert(m == modules[scope]);
        assert(module_ok(design, scope, m));
    }
    let port_names: Vec<&'a str> = if is_top {
        port_names(design, &module.cells)
    } else {
        Vec::new()
    };
    let ghost reserved = reserved_names(design, m.cells, is_top);
    proof {
        assert(texts(port_names@) =~= reserved);
    }
    let mut names = label_names(design, &module.cells, &port_names);
    proof {
        assert forall|i: int| 0 <= i < m.submodules.len() implies modules.contains_key(
            #[trigger] m.submodules[i],
        ) && design.is_scope(m.submodules[i]) && sub_ready(modules[m.submodules[i]]) by {
            assert(modules.contains_key(modules[scope].submodules[i]));
        }
    }
    let mut sub_members = instantiate_submodules(alloc, index, &module.submodules);
    scout_submodules(alloc, &mut names, index, module, true);
    scout_submodules(alloc, &mut names, index, module, false);
    let present = ascending_nets(&module.present_nets);
    let ghost known = name_texts(names@);
    let mut counter = complete_names(alloc, &mut names, &present, &port_names);
    let ghost nt = name_texts(names@);
    proof {
        assert(known == known_names(design, modules, m, reserved));
        lemma_completed(known, present@, reserved);
        assert(nt.dom() =~= names@.dom());
        assert forall|n: Net| m.present.contains(n) implies names@.contains_key(n) by {
            assert(present@.to_set().contains(n));
        }
    }
    let mut cell_members = instantiate_cells(
        alloc,
        design,
        &module.cells,
        &port_names,
        &mut counter,
        is_top,
    );
    proof {
        assert forall|i: int| 0 <= i < present@.len() implies names@.contains_key(
            #[trigger] present@[i],
        ) by {
            assert(nt.contains_key(present@[i]));
        }
    }
    let mut members = declare_wires(&names, &present, module);
    let mut interface: Value = Vec::new();
    let mut ports: Vec<Member<'a>>;
    let mut connecting: Vec<Member<'a>>;
    if is_top {
        let (io_ports, io_assigns) = connect_io(design, &module.cells);
        ports = io_ports;
        connecting = io_assigns;
    } else {
        let mut ins = ascending_nets(&module.in_port_nets);
        let mut outs = ascending_nets(&module.out_port_nets);
        proof {
            assert forall|i: int| 0 <= i < ins@.len() implies names@.contains_key(
                #[trigger] ins@[i],
            ) by {
                assert(ins@.to_set().contains(ins@[i]));
            }
            assert forall|i: int| 0 <= i < outs@.len() implies names@.contains_key(
                #[trigger] outs@[i],
            ) by {
                assert(outs@.to_set().contains(outs@[i]));
            }
        }
        ports = single_ports(&names, &ins, false);
        let mut out_ports = single_ports(&names, &outs, true);
        proof {
            assert(members_view(ports@ + out_ports@) =~= members_view(ports@) + members_view(
                out_ports@,
            ));
            assert(members_view(ports@) =~= ascending(m.in_ports).map_values(
                |n: Net| MemberView::Input(seq![], nt[n], single()),
            ));
            assert(members_view(out_ports@) =~= ascending(m.out_ports).map_values(
                |n: Net| MemberView::Output(seq![], nt[n], single()),
            ));
        }
        ports.append(&mut out_ports);
        interface.append(&mut ins);
        interface.append(&mut outs);
        connecting = Vec::new();
        proof {
            assert(members_view(connecting@) =~= seq![]);
            assert(interface@ =~= boundary(m));
        }
    }
    let ghost assigns = connecting@;
    let ghost subs = sub_members@;
    let ghost insts = cell_members@;
    connecting.append(&mut sub_members);
    connecting.append(&mut cell_members);
    let ghost pending = connecting_members(design, modules, m, is_top);
    proof {
        assert(members_view(assigns + subs + insts) =~= members_view(assigns) + members_view(subs)
            + members_view(insts));
        assert(members_view(connecting@) =~= pending);
        assert forall|i: int| 0 <= i < connecting@.len() implies member_within(
            (#[trigger] connecting@[i])@,
            names@.dom(),
        ) by {
            assert(pending[i] == connecting@[i]@);
        }
    }
    name_members(&mut connecting, &names);
    let ghost wired = members@;
    proof {
        assert(members_view(wired + connecting@) =~= members_view(wired) + members_view(
            connecting@,
        ));
    }
    members.append(&mut connecting);
    let ghost modules0 = index.modules@;
    let mut module = index.modules.remove(&scope).unwrap();
    if !is_top {
        module.interface = Some(interface);
    }
    module.cst = Some(cst::Module { name: module.name, port_members: ports, members });
    index.modules.insert(scope, module);
    proof {
        lemma_view_insert(modules0, scope, module);
        assert(module@.cst->0 == finished(design, modules, m, is_top));
        assert(module@ =~= exported(design, old(index)@, scope).modules[scope]);
        assert(index@ =~= exported(design, old(index)@, scope));
        lemma_exported_wf(design, old(index)@, scope);
    }
}

/// The innermost scope around all cells but inputs and outputs.
pub fn find_top_scope(design: &Design) -> (top: MetaItemRef)
    requires
        design.wf(),
    ensures
        top == design.top_scope(),
        design.is_scope(top),
{
    let mut scopes: Vec<MetaItemRef> = Vec::new();
    for i in 0..design.cells.len()
        invariant
            design.wf(),
            scopes@ == design.logic_scopes(i as nat),
            forall|j: int| 0 <= j < scopes@.len() ==> design.is_scope(#[trigger] scopes@[j]),
    {
        let entry = &design.cells[i];
        proof {
            assert(design.entry_ok(i));
        }
        match &entry.cell {
            Cell::Input(..) | Cell::Output(..) => {},
            _ => {
                let inner = metadata_scopes(design, &entry.metadata);
                scopes.push(reduce_scopes(design, &inner));
            },
        }
    }
    reduce_scopes(design, &scopes)
}

/// Turns a design into Verilog: all of it becomes one module.
pub fn export<'a>(design: &'a Design, alloc: &'a Bump) -> (unit: cst::Unit<'a>)
    requires
        design.exportable(),
    ensures
        unit@ == seq![design.top_verilog()],
        unit_printable(unit@),
{
    let top_scope: MetaItemRef = find_top_scope(design);
    let mut index = HierarchyIndex::new(design, top_scope);
    proof {
        lemma_all_added(design, 0);
    }
    for i in 0..design.cells.len()
        invariant
            design.exportable(),
            design.is_scope(design.top_scope()),
            index.design == design,
            index@ == all_added(design, i as nat),
            index@.wf(design),
    {
        proof {
            lemma_all_added(design, i as nat);
            assert(placement(design, index@, i) is Some);
        }
        index.add_cell(alloc, i);
    }
    for i in 0..design.cells.len()
        invariant
            design.exportable(),
            design.is_scope(design.top_scope()),
            index.design == design,
            index@ == all_linked(design, i as nat),
            index@.wf(design),
    {
        proof {
            lemma_all_linked(design, i as nat);
        }
        index.link_cell_inputs(i);
    }
    let ghost st = index@;
    proof {
        lemma_flat(design, st);
        lemma_top_ready(design, st.modules);
    }
    let order = index.visit_hierarchy(top_scope);
    for i in 0..order.len()
        invariant
            order@ == seq![st.top],
            index.design == design,
            st.wf(design),
            st.modules.contains_key(st.top),
            module_ready(design, st.modules, st.modules[st.top], true),
            index@ == (if i == 0 {
                st
            } else {
                exported(design, st, st.top)
            }),
    {
        export_module(alloc, &mut index, order[i]);
    }
    let mut cst_modules: Vec<cst::Module<'a>> = Vec::new();
    for i in 0..order.len()
        invariant
            order@ == seq![st.top],
            i == 0 ==> index@ == exported(design, st, st.top) && cst_modules@.len() == 0,
            i == 1 ==> cst_modules@.len() == 1 && cst_modules@[0]@ == finished(
                design,
                st.modules,
                st.modules[st.top],
                true,
            ),
    {
        let scope: MetaItemRef = order[i];
        proof {
            assert(index@.modules.contains_key(scope));
            assert(index@.modules[scope] == index.modules@[scope]@);
        }
        let mut module = index.modules.remove(&scope).unwrap();
        cst_modules.push(module.cst.take().unwrap());
        index.modules.insert(scope, module);
    }
    let unit = cst::Unit(cst_modules);
    proof {
        assert(unit@ =~= seq![design.top_verilog()]);
        exported_design_is_printable(design);
    }
    unit
}

} // verus!
