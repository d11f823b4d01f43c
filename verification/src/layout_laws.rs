//! What holds of the names, wires, ports and instances of a module, in terms of its cells.

use vstd::prelude::*;

use crate::cst::{value_expression, ExpressionView, MemberView, Range};
use crate::hierarchy::{IndexState, ModuleState};
use crate::layout::{
    boundary, boundary_ports, cell_instances, completed, connecting_members, exported,
    expression_named, finished, given_name, given_names, instance_connections, io_assigns,
    io_names, io_ports, is_inner, known_names, lemma_completed, member_named, named, net_names,
    nets_expression, reserved_names, scouted, scouted_all, stretch, submodule_instances, wires,
};
use crate::naming::{candidate, candidate_is_injective, lemma_next_free, next_free};
use crate::netlist::{Cell, CellRef, Design, Instance, MetaItemRef, Net};
use crate::nets::ascending;

verus! {

/// The names that only ports may bear are those of the inputs and outputs in the top module, in the
/// order of the cells, and none in another module.
pub proof fn ports_reserve_their_names(d: &Design, cells: Seq<CellRef>, is_top: bool)
    ensures
        ({
            let io = cells.filter(
                |c: CellRef| d.cells@[c as int].cell is Input || d.cells@[c as int].cell is Output,
            );
            let names = reserved_names(d, cells, is_top);
            &&& names.len() == if is_top {
                io.len()
            } else {
                0
            }
            &&& forall|i: int|
                0 <= i < names.len() ==> match d.cells@[io[i] as int].cell {
                    Cell::Input(name, _) => #[trigger] names[i] == name@,
                    Cell::Output(name, _) => names[i] == name@,
                    _ => false,
                }
        }),
    decreases cells.len(),
{
    lemma_io_names(d, cells);
}

proof fn lemma_io_names(d: &Design, cells: Seq<CellRef>)
    ensures
        ({
            let io = cells.filter(
                |c: CellRef| d.cells@[c as int].cell is Input || d.cells@[c as int].cell is Output,
            );
            let names = io_names(d, cells);
            &&& names.len() == io.len()
            &&& forall|i: int|
                0 <= i < names.len() ==> match d.cells@[io[i] as int].cell {
                    Cell::Input(name, _) => #[trigger] names[i] == name@,
                    Cell::Output(name, _) => names[i] == name@,
                    _ => false,
                }
        }),
    decreases cells.len(),
{
    reveal(Seq::filter);
    if cells.len() > 0 {
        lemma_io_names(d, cells.drop_last());
    }
}

/// Whether a cell gives a name to a net and to that net alone, and a name that it may bear.
pub open spec fn labels_net(d: &Design, c: CellRef, reserved: Seq<Seq<char>>, net: Net) -> bool {
    let entry = d.cells@[c as int];
    &&& match entry.cell {
        Cell::Name(_, value) => value@.len() == 1 && value@[0] == net,
        Cell::Debug(_, value) => value@.len() == 1 && value@[0] == net,
        _ => false,
    }
    &&& d.item_name(entry.metadata@) is Some
    &&& !reserved.contains(d.item_name(entry.metadata@)->0)
}

/// Whether no cell from place `from` on labels the net.
pub open spec fn unlabelled_from(
    d: &Design,
    cells: Seq<CellRef>,
    reserved: Seq<Seq<char>>,
    net: Net,
    from: int,
) -> bool {
    forall|j: int|
        from <= j < cells.len() ==> !labels_net(d, #[trigger] cells[j], reserved, net)
}

proof fn lemma_given_name(d: &Design, c: CellRef, reserved: Seq<Seq<char>>, net: Net)
    ensures
        labels_net(d, c, reserved, net) <==> given_name(d, c, reserved) is Some && (given_name(
            d,
            c,
            reserved,
        )->0).0 == net,
        labels_net(d, c, reserved, net) ==> Some((given_name(d, c, reserved)->0).1) == d.item_name(
            d.cells@[c as int].metadata@,
        ),
{
}

proof fn lemma_unlabelled_rest(
    d: &Design,
    cells: Seq<CellRef>,
    reserved: Seq<Seq<char>>,
    net: Net,
    from: int,
)
    requires
        cells.len() > 0,
        0 <= from,
        unlabelled_from(d, cells, reserved, net, from),
    ensures
        unlabelled_from(d, cells.drop_last(), reserved, net, from),
        from < cells.len() ==> !labels_net(d, cells.last(), reserved, net),
{
    let rest = cells.drop_last();
    assert forall|j: int| from <= j < rest.len() implies !labels_net(
        d,
        #[trigger] rest[j],
        reserved,
        net,
    ) by {
        assert(rest[j] == cells[j]);
    }
    assert(cells.last() == cells[cells.len() - 1]);
}

/// A net bears the name that the last cell gives that labels it alone with a name not reserved; a
/// net without such a cell is given none.
pub proof fn last_label_wins(
    d: &Design,
    cells: Seq<CellRef>,
    reserved: Seq<Seq<char>>,
    net: Net,
    k: int,
)
    ensures
        0 <= k < cells.len() && labels_net(d, cells[k], reserved, net) && unlabelled_from(
            d,
            cells,
            reserved,
            net,
            k + 1,
        ) ==> given_names(d, cells, reserved).contains_key(net) && Some(
            given_names(d, cells, reserved)[net],
        ) == d.item_name(d.cells@[cells[k] as int].metadata@),
        unlabelled_from(d, cells, reserved, net, 0) ==> !given_names(
            d,
            cells,
            reserved,
        ).contains_key(net),
    decreases cells.len(),
{
    if cells.len() > 0 {
        let rest = cells.drop_last();
        last_label_wins(d, rest, reserved, net, k);
        lemma_given_name(d, cells.last(), reserved, net);
        if unlabelled_from(d, cells, reserved, net, 0) {
            lemma_unlabelled_rest(d, cells, reserved, net, 0);
        }
        if 0 <= k < cells.len() && unlabelled_from(d, cells, reserved, net, k + 1) {
            lemma_unlabelled_rest(d, cells, reserved, net, k + 1);
        }
    }
}

/// Whether the net behind port `j` of a submodule is `net`, and the port an output or not.
pub open spec fn port_reaches(sub: ModuleState, j: int, outputs: bool, net: Net) -> bool {
    &&& (sub.cst->0.port_members[j] is Output) == outputs
    &&& sub.interface->0[j] == net
}

/// The name of a net after a port of a submodule.
pub open spec fn name_after_port(sub: ModuleState, j: int) -> Seq<char> {
    sub.name + seq!['.'] + match sub.cst->0.port_members[j] {
        MemberView::Output(_, name, _) => name,
        MemberView::Input(_, name, _) => name,
        _ => seq![],
    }
}

/// Whether none of the first `n` ports of a submodule reaches the net.
spec fn none_reaches(sub: ModuleState, outputs: bool, net: Net, n: int) -> bool {
    forall|h: int| 0 <= h < n ==> !#[trigger] port_reaches(sub, h, outputs, net)
}

proof fn lemma_scouted_none(
    names: Map<Net, Seq<char>>,
    present: Set<Net>,
    sub: ModuleState,
    outputs: bool,
    n: nat,
    net: Net,
)
    ensures
        ({
            let after = scouted(names, present, sub, outputs, n);
            &&& names.contains_key(net) ==> after.contains_key(net) && after[net] == names[net]
            &&& !names.contains_key(net) && !present.contains(net) ==> !after.contains_key(net)
            &&& !names.contains_key(net) && none_reaches(sub, outputs, net, n as int)
                ==> !after.contains_key(net)
        }),
    decreases n,
{
    if n > 0 {
        lemma_scouted_none(names, present, sub, outputs, (n - 1) as nat, net);
        if none_reaches(sub, outputs, net, n as int) {
            assert(!port_reaches(sub, n - 1, outputs, net));
            assert(none_reaches(sub, outputs, net, n - 1));
        }
    }
}

proof fn lemma_scouted_first(
    names: Map<Net, Seq<char>>,
    present: Set<Net>,
    sub: ModuleState,
    outputs: bool,
    n: nat,
    net: Net,
    j: int,
)
    requires
        0 <= j < n,
        sub.cst->0.port_members[j] is Output || sub.cst->0.port_members[j] is Input,
        !names.contains_key(net),
        present.contains(net),
        port_reaches(sub, j, outputs, net),
        none_reaches(sub, outputs, net, j),
    ensures
        scouted(names, present, sub, outputs, n).contains_key(net),
        scouted(names, present, sub, outputs, n)[net] == name_after_port(sub, j),
    decreases n,
{
    reveal_strlit(".");
    assert("."@ =~= seq!['.']);
    if j == n - 1 {
        lemma_scouted_none(names, present, sub, outputs, (n - 1) as nat, net);
    } else {
        lemma_scouted_first(names, present, sub, outputs, (n - 1) as nat, net, j);
    }
}

/// Whether no port of the first `i` submodules, and none of the first `j` ports of the next, reaches
/// the net.
pub open spec fn unreached_before(
    modules: Map<MetaItemRef, ModuleState>,
    submodules: Seq<MetaItemRef>,
    outputs: bool,
    net: Net,
    i: int,
    j: int,
) -> bool {
    forall|g: int, h: int|
        0 <= g < submodules.len() && 0 <= h < modules[submodules[g]].cst->0.port_members.len() && (g
            < i || (g == i && h < j)) ==> !#[trigger] port_reaches(
            modules[submodules[g]],
            h,
            outputs,
            net,
        )
}

proof fn lemma_scouted_all_none(
    names: Map<Net, Seq<char>>,
    present: Set<Net>,
    modules: Map<MetaItemRef, ModuleState>,
    submodules: Seq<MetaItemRef>,
    outputs: bool,
    net: Net,
)
    ensures
        ({
            let after = scouted_all(names, present, modules, submodules, outputs);
            &&& names.contains_key(net) ==> after.contains_key(net) && after[net] == names[net]
            &&& !names.contains_key(net) && !present.contains(net) ==> !after.contains_key(net)
            &&& !names.contains_key(net) && unreached_before(
                modules,
                submodules,
                outputs,
                net,
                submodules.len() as int,
                0,
            ) ==> !after.contains_key(net)
        }),
    decreases submodules.len(),
{
    if submodules.len() > 0 {
        let rest = submodules.drop_last();
        let last = submodules.len() - 1;
        let sub = modules[submodules[last]];
        let n = sub.cst->0.port_members.len();
        lemma_scouted_all_none(names, present, modules, rest, outputs, net);
        let before = scouted_all(names, present, modules, rest, outputs);
        lemma_scouted_none(before, present, sub, outputs, n, net);
        if unreached_before(modules, submodules, outputs, net, submodules.len() as int, 0) {
            assert forall|h: int| 0 <= h < n implies !#[trigger] port_reaches(
                sub,
                h,
                outputs,
                net,
            ) by {
                assert(!port_reaches(modules[submodules[last]], h, outputs, net));
            }
            lemma_unreached_rest(modules, submodules, outputs, net);
        }
    }
}

proof fn lemma_unreached_rest(
    modules: Map<MetaItemRef, ModuleState>,
    submodules: Seq<MetaItemRef>,
    outputs: bool,
    net: Net,
)
    requires
        submodules.len() > 0,
        unreached_before(modules, submodules, outputs, net, submodules.len() - 1, 0),
    ensures
        unreached_before(
            modules,
            submodules.drop_last(),
            outputs,
            net,
            submodules.len() - 1,
            0,
        ),
{
    let rest = submodules.drop_last();
    assert forall|g: int, h: int|
        0 <= g < rest.len() && 0 <= h < modules[rest[g]].cst->0.port_members.len() && (g
            < rest.len() || (g == rest.len() && h < 0)) implies !#[trigger] port_reaches(
        modules[rest[g]],
        h,
        outputs,
        net,
    ) by {
        assert(!port_reaches(modules[submodules[g]], h, outputs, net));
    }
}

/// A net that has a name keeps it. One that is present and has none is called after the first port
/// that reaches it, in the order of the submodules and then of their ports; one that no port
/// reaches, or that is not present, gets no name.
pub proof fn first_port_names_the_net(
    names: Map<Net, Seq<char>>,
    present: Set<Net>,
    modules: Map<MetaItemRef, ModuleState>,
    submodules: Seq<MetaItemRef>,
    outputs: bool,
    net: Net,
    i: int,
    j: int,
)
    ensures
        ({
            let after = scouted_all(names, present, modules, submodules, outputs);
            let ports = modules[submodules[i]].cst->0.port_members;
            &&& names.contains_key(net) ==> after.contains_key(net) && after[net] == names[net]
            &&& !names.contains_key(net) && !present.contains(net) ==> !after.contains_key(net)
            &&& !names.contains_key(net) && unreached_before(
                modules,
                submodules,
                outputs,
                net,
                submodules.len() as int,
                0,
            ) ==> !after.contains_key(net)
            &&& !names.contains_key(net) && present.contains(net) && 0 <= i < submodules.len() && 0
                <= j < ports.len() && (ports[j] is Output || ports[j] is Input) && port_reaches(
                modules[submodules[i]],
                j,
                outputs,
                net,
            ) && unreached_before(modules, submodules, outputs, net, i, j) ==> after.contains_key(
                net,
            ) && after[net] == name_after_port(modules[submodules[i]], j)
        }),
    decreases submodules.len(),
{
    lemma_scouted_all_none(names, present, modules, submodules, outputs, net);
    let ports = modules[submodules[i]].cst->0.port_members;
    if !names.contains_key(net) && present.contains(net) && 0 <= i < submodules.len() && 0 <= j
        < ports.len() && (ports[j] is Output || ports[j] is Input) && port_reaches(
        modules[submodules[i]],
        j,
        outputs,
        net,
    ) && unreached_before(modules, submodules, outputs, net, i, j) {
        let rest = submodules.drop_last();
        let last = submodules.len() - 1;
        let sub = modules[submodules[last]];
        let n = sub.cst->0.port_members.len();
        let before = scouted_all(names, present, modules, rest, outputs);
        if i == last {
            assert(unreached_before(modules, submodules, outputs, net, last, 0));
            lemma_unreached_rest(modules, submodules, outputs, net);
            lemma_scouted_all_none(names, present, modules, rest, outputs, net);
            assert forall|h: int| 0 <= h < j implies !#[trigger] port_reaches(
                sub,
                h,
                outputs,
                net,
            ) by {
                assert(!port_reaches(modules[submodules[last]], h, outputs, net));
            }
            lemma_scouted_first(before, present, sub, outputs, n, net, j);
        } else {
            assert forall|g: int, h: int|
                0 <= g < rest.len() && 0 <= h < modules[rest[g]].cst->0.port_members.len() && (g < i
                    || (g == i && h < j)) implies !#[trigger] port_reaches(
                modules[rest[g]],
                h,
                outputs,
                net,
            ) by {
                assert(!port_reaches(modules[submodules[g]], h, outputs, net));
            }
            first_port_names_the_net(names, present, modules, rest, outputs, net, i, j);
            lemma_scouted_none(before, present, sub, outputs, n, net);
        }
    }
}

/// Whether one of the first `i` nets that have no name yet gets the given one.
pub open spec fn goes_to_an_earlier_net(
    names: Map<Net, Seq<char>>,
    all: Map<Net, Seq<char>>,
    nets: Seq<Net>,
    i: int,
    name: Seq<char>,
) -> bool {
    exists|h: int| 0 <= h < i && !names.contains_key(#[trigger] nets[h]) && all[nets[h]] == name
}

/// Whether a net gets the made-up name of the least number that is neither reserved nor gone to an
/// earlier net.
pub open spec fn gets_least_free_name(
    names: Map<Net, Seq<char>>,
    all: Map<Net, Seq<char>>,
    nets: Seq<Net>,
    reserved: Seq<Seq<char>>,
    i: int,
    k: nat,
) -> bool {
    &&& all[nets[i]] == candidate(k)
    &&& !reserved.contains(candidate(k))
    &&& !goes_to_an_earlier_net(names, all, nets, i, candidate(k))
    &&& forall|j: nat|
        j < k ==> reserved.contains(#[trigger] candidate(j)) || goes_to_an_earlier_net(
            names,
            all,
            nets,
            i,
            candidate(j),
        )
}

proof fn lemma_earlier_kept(
    names: Map<Net, Seq<char>>,
    before: Map<Net, Seq<char>>,
    all: Map<Net, Seq<char>>,
    nets: Seq<Net>,
    i: int,
    name: Seq<char>,
)
    requires
        nets.len() > 0,
        nets.no_duplicates(),
        i < nets.len(),
        forall|n: Net| n != nets.last() ==> all[n] == before[n],
    ensures
        goes_to_an_earlier_net(names, before, nets.drop_last(), i, name)
            <==> goes_to_an_earlier_net(names, all, nets, i, name),
{
    let rest = nets.drop_last();
    if goes_to_an_earlier_net(names, before, rest, i, name) {
        let h = choose|h: int|
            0 <= h < i && !names.contains_key(#[trigger] rest[h]) && before[rest[h]] == name;
        assert(nets[h] == rest[h] && nets[h] != nets[nets.len() - 1]);
    }
    if goes_to_an_earlier_net(names, all, nets, i, name) {
        let h = choose|h: int|
            0 <= h < i && !names.contains_key(#[trigger] nets[h]) && all[nets[h]] == name;
        assert(nets[h] == rest[h] && nets[h] != nets[nets.len() - 1]);
    }
}

/// Nets that have a name keep it. Each of the others gets the made-up name of the least number that
/// is neither reserved nor gone to an earlier net. The next number is just behind those.
pub proof fn names_are_made_up_in_turn(
    names: Map<Net, Seq<char>>,
    nets: Seq<Net>,
    reserved: Seq<Seq<char>>,
)
    requires
        nets.no_duplicates(),
    ensures
        ({
            let (all, number) = completed(names, nets, reserved);
            &&& forall|n: Net| #[trigger] names.contains_key(n) ==> all[n] == names[n]
            &&& forall|n: Net| #[trigger]
                all.contains_key(n) <==> names.contains_key(n) || nets.contains(n)
            &&& forall|i: int|
                0 <= i < nets.len() && !names.contains_key(#[trigger] nets[i]) ==> exists|k: nat|
                    k < number && gets_least_free_name(names, all, nets, reserved, i, k)
            &&& forall|j: nat|
                j < number ==> reserved.contains(#[trigger] candidate(j)) || goes_to_an_earlier_net(
                    names,
                    all,
                    nets,
                    nets.len() as int,
                    candidate(j),
                )
            &&& number > 0 ==> goes_to_an_earlier_net(
                names,
                all,
                nets,
                nets.len() as int,
                candidate((number - 1) as nat),
            )
        }),
    decreases nets.len(),
{
    let (all, number) = completed(names, nets, reserved);
    lemma_completed(names, nets, reserved);
    assert forall|n: Net| #[trigger] names.contains_key(n) implies all[n] == names[n] by {
        assert(names.submap_of(all));
        assert(names.dom().contains(n));
        assert(all.dom().contains(n));
    }
    assert forall|n: Net| #[trigger] all.contains_key(n) <==> names.contains_key(n)
        || nets.contains(n) by {
        assert(all.dom().contains(n) <==> names.dom().contains(n) || nets.to_set().contains(n));
    }
    if nets.len() > 0 {
        let rest = nets.drop_last();
        let last = nets.len() - 1;
        assert(rest.no_duplicates());
        names_are_made_up_in_turn(names, rest, reserved);
        let (before, start) = completed(names, rest, reserved);
        assert(!rest.contains(nets.last()));
        assert forall|i: int, name: Seq<char>| i < nets.len() implies (
        #[trigger] goes_to_an_earlier_net(names, before, rest, i, name)
            <==> goes_to_an_earlier_net(names, all, nets, i, name)) by {
            lemma_earlier_kept(names, before, all, nets, i, name);
        }
        assert(start <= number) by {
            lemma_next_free(reserved, start);
        }
        assert forall|i: int|
            0 <= i < last && !names.contains_key(#[trigger] nets[i]) implies exists|k: nat|
            k < number && gets_least_free_name(names, all, nets, reserved, i, k) by {
            assert(rest[i] == nets[i]);
            let k = choose|k: nat|
                k < start && gets_least_free_name(names, before, rest, reserved, i, k);
            assert(all[nets[i]] == before[rest[i]]);
            assert(goes_to_an_earlier_net(names, before, rest, i, candidate(k))
                <==> goes_to_an_earlier_net(names, all, nets, i, candidate(k)));
            assert forall|j: nat| j < k implies reserved.contains(#[trigger] candidate(j))
                || goes_to_an_earlier_net(names, all, nets, i, candidate(j)) by {
                assert(goes_to_an_earlier_net(names, before, rest, i, candidate(j))
                    <==> goes_to_an_earlier_net(names, all, nets, i, candidate(j)));
            }
            assert(gets_least_free_name(names, all, nets, reserved, i, k));
        }
        if !names.contains_key(nets.last()) {
            let k = next_free(reserved, start);
            lemma_next_free(reserved, start);
            assert(!before.contains_key(nets.last()));
            assert(all[nets[last]] == candidate(k));
            assert forall|j: nat| j < k implies reserved.contains(#[trigger] candidate(j))
                || goes_to_an_earlier_net(names, all, nets, last, candidate(j)) by {
                if j < start {
                    assert(goes_to_an_earlier_net(names, before, rest, last, candidate(j))
                        <==> goes_to_an_earlier_net(names, all, nets, last, candidate(j)));
                }
            }
            assert(!goes_to_an_earlier_net(names, all, nets, last, candidate(k))) by {
                if goes_to_an_earlier_net(names, all, nets, last, candidate(k)) {
                    let h = choose|h: int|
                        0 <= h < last && !names.contains_key(#[trigger] nets[h]) && all[nets[h]]
                            == candidate(k);
                    assert(rest[h] == nets[h]);
                    let e = choose|e: nat|
                        e < start && gets_least_free_name(names, before, rest, reserved, h, e);
                    assert(nets[h] != nets[last]);
                    candidate_is_injective(e, k);
                }
            }
            assert(gets_least_free_name(names, all, nets, reserved, last, k));
            assert(goes_to_an_earlier_net(
                names,
                all,
                nets,
                nets.len() as int,
                candidate((number - 1) as nat),
            )) by {
                assert(all[nets[last]] == candidate(k));
            }
        } else {
            assert(names.dom().contains(nets.last()));
        }
        assert forall|j: nat| j < number implies reserved.contains(#[trigger] candidate(j))
            || goes_to_an_earlier_net(names, all, nets, nets.len() as int, candidate(j)) by {
            lemma_earlier_grows(names, before, all, nets, candidate(j));
            if !names.contains_key(nets.last()) && j == number - 1 {
                assert(all[nets[last]] == candidate(j));
            }
        }
        if number > 0 && names.contains_key(nets.last()) {
            lemma_earlier_grows(names, before, all, nets, candidate((number - 1) as nat));
        }
    }
}

proof fn lemma_earlier_grows(
    names: Map<Net, Seq<char>>,
    before: Map<Net, Seq<char>>,
    all: Map<Net, Seq<char>>,
    nets: Seq<Net>,
    name: Seq<char>,
)
    requires
        nets.len() > 0,
        nets.no_duplicates(),
        forall|n: Net| n != nets.last() ==> all[n] == before[n],
    ensures
        goes_to_an_earlier_net(names, before, nets.drop_last(), nets.len() - 1, name)
            ==> goes_to_an_earlier_net(names, all, nets, nets.len() as int, name),
{
    let rest = nets.drop_last();
    if goes_to_an_earlier_net(names, before, rest, nets.len() - 1, name) {
        let h = choose|h: int|
            0 <= h < nets.len() - 1 && !names.contains_key(#[trigger] rest[h]) && before[rest[h]]
                == name;
        assert(nets[h] == rest[h] && nets[h] != nets[nets.len() - 1]);
    }
}

/// The name of an instance.
pub open spec fn instance_name(m: MemberView) -> Seq<char> {
    m->Instantiation_2
}

/// Whether an instance has the made-up name of the least number, from `from` on, that is neither
/// reserved nor gone to an earlier instance.
pub open spec fn has_least_free_name(
    members: Seq<MemberView>,
    reserved: Seq<Seq<char>>,
    from: nat,
    i: int,
    k: nat,
) -> bool {
    &&& from <= k
    &&& instance_name(members[i]) == candidate(k)
    &&& !reserved.contains(candidate(k))
    &&& forall|j: nat|
        from <= j < k ==> reserved.contains(#[trigger] candidate(j)) || exists|h: int|
            0 <= h < i && instance_name(#[trigger] members[h]) == candidate(j)
}

/// Whether there is such a number below `to`.
pub open spec fn is_named_in_turn(
    members: Seq<MemberView>,
    reserved: Seq<Seq<char>>,
    from: nat,
    to: nat,
    i: int,
) -> bool {
    exists|k: nat| k < to && has_least_free_name(members, reserved, from, i, k)
}

/// Each cell that is an instance is written once, in the order of the cells, with its attributes,
/// as an instance of its kind, with its connections. Its name is made up from the next number that
/// is neither reserved nor gone to an earlier instance.
pub proof fn instances_are_written_in_order(
    d: &Design,
    cells: Seq<CellRef>,
    reserved: Seq<Seq<char>>,
    number: nat,
)
    ensures
        ({
            let others = cells.filter(|c: CellRef| d.cells@[c as int].cell is Other);
            let (members, next) = cell_instances(d, cells, reserved, number);
            &&& members.len() == others.len()
            &&& forall|i: int|
                0 <= i < members.len() ==> {
                    let entry = d.cells@[others[i] as int];
                    #[trigger] members[i] == MemberView::Instantiation(
                        d.cell_attrs(entry.metadata@),
                        entry.cell->Other_0.kind@,
                        instance_name(members[i]),
                        instance_connections(entry.cell->Other_0, entry.output@),
                    )
                }
            &&& forall|i: int|
                0 <= i < members.len() ==> #[trigger] is_named_in_turn(
                    members,
                    reserved,
                    number,
                    next,
                    i,
                )
            &&& number <= next
            &&& forall|j: nat|
                number <= j < next ==> reserved.contains(#[trigger] candidate(j)) || exists|h: int|
                    0 <= h < members.len() && instance_name(#[trigger] members[h]) == candidate(j)
        }),
    decreases cells.len(),
{
    reveal(Seq::filter);
    let (members, next) = cell_instances(d, cells, reserved, number);
    if cells.len() > 0 {
        let rest = cells.drop_last();
        instances_are_written_in_order(d, rest, reserved, number);
        let (before, start) = cell_instances(d, rest, reserved, number);
        if d.cells@[cells.last() as int].cell is Other {
            let last = members.len() - 1;
            let k = next_free(reserved, start);
            lemma_next_free(reserved, start);
            assert(instance_name(members[last]) == candidate(k));
            assert forall|h: int| 0 <= h < last implies #[trigger] members[h] == before[h] by {}
            assert forall|j: nat| number <= j < k implies reserved.contains(#[trigger] candidate(j))
                || exists|h: int|
                0 <= h < last && instance_name(#[trigger] members[h]) == candidate(j) by {
                if j < start && !reserved.contains(candidate(j)) {
                    let h = choose|h: int|
                        0 <= h < before.len() && instance_name(#[trigger] before[h]) == candidate(
                            j,
                        );
                    assert(instance_name(members[h]) == candidate(j));
                }
            }
            assert(has_least_free_name(members, reserved, number, last, k));
            assert forall|i: int| 0 <= i < members.len() implies #[trigger] is_named_in_turn(
                members,
                reserved,
                number,
                next,
                i,
            ) by {
                if i < last {
                    assert(is_named_in_turn(before, reserved, number, start, i));
                    let e = choose|e: nat|
                        e < start && has_least_free_name(before, reserved, number, i, e);
                    assert forall|j: nat| number <= j < e implies reserved.contains(
                        #[trigger] candidate(j),
                    ) || exists|h: int|
                        0 <= h < i && instance_name(#[trigger] members[h]) == candidate(j) by {
                        if !reserved.contains(candidate(j)) {
                            let h = choose|h: int|
                                0 <= h < i && instance_name(#[trigger] before[h]) == candidate(j);
                            assert(instance_name(members[h]) == candidate(j));
                        }
                    }
                    assert(has_least_free_name(members, reserved, number, i, e));
                }
            }
            assert forall|j: nat| number <= j < next implies reserved.contains(
                #[trigger] candidate(j),
            ) || exists|h: int|
                0 <= h < members.len() && instance_name(#[trigger] members[h]) == candidate(j) by {
                if j < k {
                    if !reserved.contains(candidate(j)) {
                        let h = choose|h: int|
                            0 <= h < last && instance_name(#[trigger] members[h]) == candidate(j);
                        assert(instance_name(members[h]) == candidate(j));
                    }
                } else {
                    assert(instance_name(members[last]) == candidate(j));
                }
            }
        }
    }
}

/// Every input of an instance is connected to its nets in order. Every output is connected to as
/// many nets as its range holds, and the net at place `j` is the one `j` places behind the start of
/// the range in the output of the cell.
pub proof fn ports_of_instances_meet_their_nets(instance: Instance, output: Seq<Net>)
    requires
        forall|i: int|
            0 <= i < instance.outputs@.len() ==> {
                let range = (#[trigger] instance.outputs@[i]).1;
                range.0 < range.1 ==> range.1 <= output.len()
            },
    ensures
        ({
            let conns = instance_connections(instance, output);
            let n = instance.inputs@.len();
            &&& conns.len() == n + instance.outputs@.len()
            &&& forall|i: int|
                0 <= i < n ==> {
                    let (name, value) = #[trigger] instance.inputs@[i];
                    &&& conns[i].0 == name@
                    &&& conns[i].1 is Concat
                    &&& conns[i].1->Concat_0.len() == value@.len()
                    &&& forall|j: int|
                        0 <= j < value@.len() ==> #[trigger] conns[i].1->Concat_0[j]
                            == ExpressionView::PendingNet(value@[j])
                }
            &&& forall|i: int|
                0 <= i < instance.outputs@.len() ==> {
                    let (name, range) = #[trigger] instance.outputs@[i];
                    let parts = conns[n + i].1->Concat_0;
                    &&& conns[n + i].0 == name@
                    &&& conns[n + i].1 is Concat
                    &&& range.0 <= range.1 ==> parts.len() == range.1 - range.0
                    &&& range.0 > range.1 ==> parts.len() == 0
                    &&& forall|j: int|
                        0 <= j < parts.len() ==> #[trigger] parts[j] == ExpressionView::PendingNet(
                            output[range.0 + j],
                        )
                }
        }),
{
    let conns = instance_connections(instance, output);
    let n = instance.inputs@.len();
    assert forall|i: int| 0 <= i < n implies {
        let (name, value) = #[trigger] instance.inputs@[i];
        &&& conns[i].0 == name@
        &&& conns[i].1 is Concat
        &&& conns[i].1->Concat_0.len() == value@.len()
        &&& forall|j: int|
            0 <= j < value@.len() ==> #[trigger] conns[i].1->Concat_0[j]
                == ExpressionView::PendingNet(value@[j])
    } by {
        let (name, value) = instance.inputs@[i];
        assert(conns[i] == (name@, nets_expression(value@)));
    }
    assert forall|i: int| 0 <= i < instance.outputs@.len() implies {
        let (name, range) = #[trigger] instance.outputs@[i];
        let parts = conns[n + i].1->Concat_0;
        &&& conns[n + i].0 == name@
        &&& conns[n + i].1 is Concat
        &&& range.0 <= range.1 ==> parts.len() == range.1 - range.0
        &&& range.0 > range.1 ==> parts.len() == 0
        &&& forall|j: int|
            0 <= j < parts.len() ==> #[trigger] parts[j] == ExpressionView::PendingNet(
                output[range.0 + j],
            )
    } by {
        let (name, range) = instance.outputs@[i];
        assert(conns[n + i] == (
            name@,
            nets_expression(stretch(output, range)),
        ));
    }
}

/// Each submodule has one instance, in order, of its own module; every port, in order, is connected
/// to the net behind it.
pub proof fn ports_of_submodules_meet_their_nets(
    d: &Design,
    modules: Map<MetaItemRef, ModuleState>,
    submodules: Seq<MetaItemRef>,
    i: int,
    j: int,
)
    requires
        0 <= i < submodules.len(),
    ensures
        ({
            let sub = modules[submodules[i]];
            let ports = sub.cst->0.port_members;
            &&& submodule_instances(d, modules, submodules).len() == submodules.len()
            &&& submodule_instances(d, modules, submodules)[i] matches MemberView::Instantiation(
                attrs,
                type_,
                name,
                conns,
            )
            &&& attrs.len() == 0
            &&& type_ == d.module_name(submodules[i])
            &&& name == sub.name
            &&& conns.len() == ports.len()
            &&& 0 <= j < ports.len() ==> conns[j].1 == ExpressionView::PendingNet(
                sub.interface->0[j],
            ) && match ports[j] {
                MemberView::Input(_, port, _) => conns[j].0 == port,
                MemberView::Output(_, port, _) => conns[j].0 == port,
                _ => true,
            }
        }),
{
}

/// A wire is declared for exactly those present nets that are no ports, in ascending order, each
/// single and under its name.
pub proof fn wires_are_declared(m: ModuleState, names: Map<Net, Seq<char>>)
    ensures
        ({
            let inner = ascending(m.present).filter(
                |n: Net| !m.in_ports.contains(n) && !m.out_ports.contains(n),
            );
            &&& wires(m, names).len() == inner.len()
            &&& forall|i: int|
                0 <= i < inner.len() ==> #[trigger] wires(m, names)[i] == MemberView::Wire(
                    seq![],
                    names[inner[i]],
                    Range { msb: 0, lsb: 0 },
                )
        }),
{
    assert((|n: Net| !m.in_ports.contains(n) && !m.out_ports.contains(n)) =~= (|n: Net|
        is_inner(m, n)));
}

/// Each input and output among the cells has one port, in order, with its name and as many wires as
/// it has bits, and one assignment, in order: an input drives its nets, and nets drive an output,
/// bit by bit.
pub proof fn inputs_and_outputs_are_connected(d: &Design, cells: Seq<CellRef>)
    ensures
        ({
            let io = cells.filter(
                |c: CellRef| d.cells@[c as int].cell is Input || d.cells@[c as int].cell is Output,
            );
            let ports = io_ports(d, cells);
            let assigns = io_assigns(d, cells);
            &&& ports.len() == io.len()
            &&& assigns.len() == io.len()
            &&& forall|i: int|
                0 <= i < io.len() ==> match d.cells@[io[i] as int].cell {
                    Cell::Input(name, size) => #[trigger] ports[i] == MemberView::Input(
                        seq![],
                        name@,
                        Range { msb: (size - 1) as usize, lsb: 0 },
                    ),
                    Cell::Output(name, value) => ports[i] == MemberView::Output(
                        seq![],
                        name@,
                        Range { msb: (value@.len() - 1) as usize, lsb: 0 },
                    ),
                    _ => false,
                }
            &&& forall|i: int|
                0 <= i < io.len() ==> match d.cells@[io[i] as int].cell {
                    Cell::Input(name, _) => #[trigger] assigns[i] == MemberView::Assign(
                        value_expression(d.cells@[io[i] as int].output@),
                        ExpressionView::NamedValue(name@),
                    ),
                    Cell::Output(name, value) => assigns[i] == MemberView::Assign(
                        ExpressionView::NamedValue(name@),
                        value_expression(value@),
                    ),
                    _ => false,
                }
        }),
    decreases cells.len(),
{
    reveal(Seq::filter);
    if cells.len() > 0 {
        inputs_and_outputs_are_connected(d, cells.drop_last());
    }
}

/// Naming a member replaces every net that stands in it, alone or as a part of a concatenation, by
/// its name and leaves everything else as it is.
pub proof fn naming_replaces_every_net(m: MemberView, names: Map<Net, Seq<char>>)
    ensures
        match m {
            MemberView::Assign(left, right) => member_named(m, names) == MemberView::Assign(
                expression_named(left, names),
                expression_named(right, names),
            ),
            MemberView::Instantiation(attrs, type_, name, conns) => {
                &&& member_named(m, names) matches MemberView::Instantiation(
                    attrs1,
                    type1,
                    name1,
                    conns1,
                )
                &&& attrs1 == attrs && type1 == type_ && name1 == name
                &&& conns1.len() == conns.len()
                &&& forall|i: int|
                    0 <= i < conns.len() ==> #[trigger] conns1[i] == (
                        conns[i].0,
                        expression_named(conns[i].1, names),
                    )
            },
            _ => member_named(m, names) == m,
        },
{
}

/// The same for an expression.
pub proof fn naming_replaces_every_part(e: ExpressionView, names: Map<Net, Seq<char>>)
    ensures
        match e {
            ExpressionView::NamedValue(_) => expression_named(e, names) == e,
            ExpressionView::PendingNet(net) => expression_named(e, names)
                == ExpressionView::NamedValue(names[net]),
            ExpressionView::Concat(parts) => {
                &&& expression_named(e, names) matches ExpressionView::Concat(after)
                &&& after.len() == parts.len()
                &&& forall|i: int|
                    0 <= i < parts.len() ==> #[trigger] after[i] == (match parts[i] {
                        ExpressionView::PendingNet(net) => ExpressionView::NamedValue(names[net]),
                        _ => parts[i],
                    })
            },
        },
{
    if let ExpressionView::Concat(parts) = e {
        let after = expression_named(e, names)->Concat_0;
        assert forall|i: int| 0 <= i < parts.len() implies #[trigger] after[i] == (match parts[i] {
            ExpressionView::PendingNet(net) => ExpressionView::NamedValue(names[net]),
            _ => parts[i],
        }) by {
            assert(after[i] == named(parts[i], names));
        }
    }
}

/// A finished module bears the name of the module, and has the ports of the design if it is the top
/// and its own otherwise. Its members are its wires; in the top module, the assignments for inputs
/// and outputs; the instances of its submodules; and those of its cells. The nets in them bear the
/// names that labels give; failing that, that outputs of submodules give; failing that, that inputs
/// of submodules give; and failing that, made-up ones.
pub proof fn members_of_a_finished_module(
    d: &Design,
    modules: Map<MetaItemRef, ModuleState>,
    m: ModuleState,
    is_top: bool,
)
    ensures
        ({
            let reserved = reserved_names(d, m.cells, is_top);
            let labels = given_names(d, m.cells, reserved);
            let outputs = scouted_all(labels, m.present, modules, m.submodules, true);
            let known = scouted_all(outputs, m.present, modules, m.submodules, false);
            let (names, number) = completed(known, ascending(m.present), reserved);
            let result = finished(d, modules, m, is_top);
            let assigns = if is_top {
                io_assigns(d, m.cells)
            } else {
                seq![]
            };
            let subs = submodule_instances(d, modules, m.submodules);
            let instances = cell_instances(d, m.cells, reserved, number).0;
            let w = wires(m, names).len();
            let a = w + assigns.len();
            let s = a + subs.len();
            &&& net_names(d, modules, m, reserved) == (names, number)
            &&& result.name == m.name
            &&& result.port_members == if is_top {
                io_ports(d, m.cells)
            } else {
                boundary_ports(m, names)
            }
            &&& result.members.len() == s + instances.len()
            &&& forall|i: int| 0 <= i < w ==> #[trigger] result.members[i] == wires(m, names)[i]
            &&& forall|i: int|
                0 <= i < assigns.len() ==> result.members[w + i] == member_named(
                    #[trigger] assigns[i],
                    names,
                )
            &&& forall|i: int|
                0 <= i < subs.len() ==> result.members[a + i] == member_named(
                    #[trigger] subs[i],
                    names,
                )
            &&& forall|i: int|
                0 <= i < instances.len() ==> result.members[s + i] == member_named(
                    #[trigger] instances[i],
                    names,
                )
        }),
{
    let reserved = reserved_names(d, m.cells, is_top);
    let (names, number) = net_names(d, modules, m, reserved);
    let assigns = if is_top {
        io_assigns(d, m.cells)
    } else {
        seq![]
    };
    let subs = submodule_instances(d, modules, m.submodules);
    let instances = cell_instances(d, m.cells, reserved, number).0;
    let pending = connecting_members(d, modules, m, is_top);
    assert(pending == assigns + subs + instances);
    let a = assigns.len();
    let s = a + subs.len();
    assert forall|i: int| 0 <= i < assigns.len() implies pending[i] == #[trigger] assigns[i] by {}
    assert forall|i: int| 0 <= i < subs.len() implies pending[a + i] == #[trigger] subs[i] by {}
    assert forall|i: int| 0 <= i < instances.len() implies pending[s + i]
        == #[trigger] instances[i] by {}
    assert(known_names(d, modules, m, reserved) == scouted_all(
        scouted_all(
            given_names(d, m.cells, reserved),
            m.present,
            modules,
            m.submodules,
            true,
        ),
        m.present,
        modules,
        m.submodules,
        false,
    ));
}

/// A module other than the top has a single port for each net that comes in, and behind those one
/// for each net that goes out, both in ascending order and under the name of the net. The interface
/// lists the same nets. No other module changes, and nothing else in this one.
pub proof fn interfaces_match_the_ports(d: &Design, st: IndexState, s: MetaItemRef, i: int)
    ensures
        ({
            let m = st.modules[s];
            let m1 = exported(d, st, s).modules[s];
            let names = net_names(d, st.modules, m, reserved_names(d, m.cells, s == st.top)).0;
            let ins = ascending(m.in_ports);
            let outs = ascending(m.out_ports);
            let single = Range { msb: 0, lsb: 0 };
            &&& m1.cst == Some(finished(d, st.modules, m, s == st.top))
            &&& s == st.top ==> m1.interface == m.interface
            &&& s != st.top ==> m1.interface == Some(ins + outs) && m1.cst->0.port_members.len()
                == ins.len() + outs.len()
            &&& s != st.top && 0 <= i < ins.len() ==> m1.cst->0.port_members[i]
                == MemberView::Input(seq![], names[ins[i]], single)
            &&& s != st.top && 0 <= i < outs.len() ==> m1.cst->0.port_members[ins.len() + i]
                == MemberView::Output(seq![], names[outs[i]], single)
            &&& m1 == ModuleState { cst: m1.cst, interface: m1.interface, ..m }
            &&& exported(d, st, s) == IndexState { modules: st.modules.insert(s, m1), ..st }
        }),
{
    let m = st.modules[s];
    let m1 = exported(d, st, s).modules[s];
    assert(boundary(m) == ascending(m.in_ports) + ascending(m.out_ports));
    assert(exported(d, st, s).modules =~= st.modules.insert(s, m1));
}

} // verus!
