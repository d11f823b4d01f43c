//! What holds of the Verilog modules that a design becomes.

use vstd::prelude::*;

use crate::cst::{
    member_resolved, module_printable, port_name, resolved, unit_printable, ExpressionView,
    MemberView,
};
use crate::hierarchy::{visit_order, IndexState, ModuleState};
use crate::hierarchy_laws::{hierarchy_is_visited_inside_out, inner_first};
use crate::layout::{
    boundary, boundary_ports, cell_instances, completed, connecting_members, exported,
    expression_named, finished, given_names, io_assigns, io_names, io_ports, is_inner,
    known_names, lemma_completed, member_named, named, net_names, reserved_names, scouted,
    scouted_all, single, single_port, sub_ready, submodule_instances, wires,
};
use crate::naming::{candidate, candidate_is_injective, lemma_next_free, next_free};
use crate::netlist::{Cell, CellRef, Design, MetaItemRef, Net};
use crate::nets::{ascending, is_ascending, lemma_ascending, lemma_front_or_last};

verus! {

/// Whether an expression contains no concatenation inside a concatenation.
spec fn is_shallow(e: ExpressionView) -> bool {
    match e {
        ExpressionView::Concat(parts) => forall|i: int|
            0 <= i < parts.len() ==> !(#[trigger] parts[i] is Concat),
        _ => true,
    }
}

spec fn is_shallow_member(m: MemberView) -> bool {
    match m {
        MemberView::Assign(left, right) => is_shallow(left) && is_shallow(right),
        MemberView::Instantiation(_, _, _, conns) => forall|i: int|
            0 <= i < conns.len() ==> is_shallow((#[trigger] conns[i]).1),
        _ => true,
    }
}

proof fn lemma_named_resolved(e: ExpressionView, names: Map<Net, Seq<char>>)
    requires
        is_shallow(e),
    ensures
        resolved(expression_named(e, names)),
{
    if let ExpressionView::Concat(parts) = e {
        let after = expression_named(e, names)->Concat_0;
        assert forall|i: int| 0 <= i < after.len() implies resolved(#[trigger] after[i]) by {
            assert(!(parts[i] is Concat));
            assert(after[i] == named(parts[i], names));
        }
    }
}

proof fn lemma_member_resolved(m: MemberView, names: Map<Net, Seq<char>>)
    requires
        is_shallow_member(m),
    ensures
        member_resolved(member_named(m, names)),
{
    match m {
        MemberView::Assign(left, right) => {
            lemma_named_resolved(left, names);
            lemma_named_resolved(right, names);
        },
        MemberView::Instantiation(_, _, _, conns) => {
            let after = member_named(m, names)->Instantiation_3;
            assert forall|i: int| 0 <= i < after.len() implies resolved(
                (#[trigger] after[i]).1,
            ) by {
                assert(is_shallow(conns[i].1));
                lemma_named_resolved(conns[i].1, names);
            }
        },
        _ => {},
    }
}

proof fn lemma_io_shapes(d: &Design, cells: Seq<CellRef>)
    ensures
        forall|i: int|
            0 <= i < io_assigns(d, cells).len() ==> is_shallow_member(
                #[trigger] io_assigns(d, cells)[i],
            ),
        forall|i: int|
            0 <= i < io_ports(d, cells).len() ==> port_name(#[trigger] io_ports(d, cells)[i]) is Some,
    decreases cells.len(),
{
    if cells.len() > 0 {
        let rest = cells.drop_last();
        lemma_io_shapes(d, rest);
        let assigns = io_assigns(d, cells);
        assert forall|i: int| 0 <= i < assigns.len() implies is_shallow_member(
            #[trigger] assigns[i],
        ) by {
            if i < io_assigns(d, rest).len() {
                assert(assigns[i] == io_assigns(d, rest)[i]);
            }
        }
        let ports = io_ports(d, cells);
        assert forall|i: int| 0 <= i < ports.len() implies port_name(
            #[trigger] ports[i],
        ) is Some by {
            if i < io_ports(d, rest).len() {
                assert(ports[i] == io_ports(d, rest)[i]);
            }
        }
    }
}

proof fn lemma_instance_shapes(
    d: &Design,
    cells: Seq<CellRef>,
    reserved: Seq<Seq<char>>,
    number: nat,
)
    ensures
        forall|i: int|
            0 <= i < cell_instances(d, cells, reserved, number).0.len() ==> is_shallow_member(
                #[trigger] cell_instances(d, cells, reserved, number).0[i],
            ),
    decreases cells.len(),
{
    if cells.len() > 0 {
        let rest = cells.drop_last();
        lemma_instance_shapes(d, rest, reserved, number);
        let before = cell_instances(d, rest, reserved, number).0;
        let all = cell_instances(d, cells, reserved, number).0;
        assert forall|i: int| 0 <= i < all.len() implies is_shallow_member(#[trigger] all[i]) by {
            if i < before.len() {
                assert(all[i] == before[i]);
            }
        }
    }
}

/// A finished module can be written: its ports are ports, and no net in it still lacks a name.
pub proof fn finished_modules_are_printable(
    d: &Design,
    modules: Map<MetaItemRef, ModuleState>,
    m: ModuleState,
    is_top: bool,
)
    ensures
        module_printable(finished(d, modules, m, is_top)),
{
    let reserved = reserved_names(d, m.cells, is_top);
    let (names, number) = net_names(d, modules, m, reserved);
    let result = finished(d, modules, m, is_top);
    lemma_io_shapes(d, m.cells);
    lemma_instance_shapes(d, m.cells, reserved, number);
    let assigns = if is_top {
        io_assigns(d, m.cells)
    } else {
        seq![]
    };
    let subs = submodule_instances(d, modules, m.submodules);
    let instances = cell_instances(d, m.cells, reserved, number).0;
    let pending = connecting_members(d, modules, m, is_top);
    let declared = wires(m, names);
    assert(pending == assigns + subs + instances);
    assert forall|i: int| 0 <= i < result.members.len() implies member_resolved(
        #[trigger] result.members[i],
    ) by {
        if i < declared.len() {
            assert(result.members[i] == declared[i]);
            assert(declared[i] is Wire);
        } else {
            let k = i - declared.len();
            assert(result.members[i] == member_named(pending[k], names));
            if k < assigns.len() {
                assert(pending[k] == assigns[k]);
            } else if k < assigns.len() + subs.len() {
                assert(pending[k] == subs[k - assigns.len()]);
            } else {
                assert(pending[k] == instances[k - assigns.len() - subs.len()]);
            }
            lemma_member_resolved(pending[k], names);
        }
    }
}

/// What is exported can be written out as text.
pub proof fn exported_design_is_printable(d: &Design)
    ensures
        unit_printable(seq![d.top_verilog()]),
{
    finished_modules_are_printable(d, Map::empty(), d.top_module(), true);
}

/// A made-up name for a net is not reserved, is made from a number already passed, and is made up
/// for no other net.
pub proof fn made_up_names_are_fresh(
    names: Map<Net, Seq<char>>,
    nets: Seq<Net>,
    reserved: Seq<Seq<char>>,
)
    ensures
        ({
            let (all, number) = completed(names, nets, reserved);
            &&& forall|n: Net| #[trigger]
                all.contains_key(n) && !names.contains_key(n) ==> is_made_up(
                    all[n],
                    reserved,
                    0,
                    number,
                )
            &&& forall|m: Net, n: Net|
                m != n && #[trigger] all.contains_key(m) && #[trigger] all.contains_key(n)
                    && !names.contains_key(m) && !names.contains_key(n) ==> all[m] != all[n]
        }),
    decreases nets.len(),
{
    let (all, number) = completed(names, nets, reserved);
    if nets.len() > 0 {
        let rest = nets.drop_last();
        made_up_names_are_fresh(names, rest, reserved);
        let (before, start) = completed(names, rest, reserved);
        let net = nets.last();
        if !before.contains_key(net) {
            let k = next_free(reserved, start);
            lemma_next_free(reserved, start);
            assert(!reserved.contains(candidate(k)));
            assert(all[net] == candidate(k));
            lemma_completed(names, rest, reserved);
            assert forall|n: Net| #[trigger]
                all.contains_key(n) && !names.contains_key(n) implies is_made_up(
                all[n],
                reserved,
                0,
                number,
            ) by {
                if n != net {
                    assert(before.contains_key(n));
                    let j = choose|j: nat| 0 <= j < start && all[n] == #[trigger] candidate(j);
                    assert(0 <= j < number && all[n] == candidate(j));
                } else {
                    assert(0 <= k < number && all[n] == candidate(k));
                }
            }
            assert forall|n: Net|
                n != net && #[trigger] all.contains_key(n) && !names.contains_key(n) implies all[n]
                != all[net] by {
                assert(before.contains_key(n));
                assert(is_made_up(before[n], reserved, 0, start));
                let j = choose|j: nat| 0 <= j < start && before[n] == #[trigger] candidate(j);
                candidate_is_injective(j, k);
            }
            assert forall|m: Net, n: Net|
                m != n && #[trigger] all.contains_key(m) && #[trigger] all.contains_key(n)
                    && !names.contains_key(m) && !names.contains_key(n) implies all[m]
                != all[n] by {
                if m != net && n != net {
                    assert(before.contains_key(m) && before.contains_key(n));
                }
            }
        }
    }
}

/// Whether a name is made up from a number between the bounds, the second left out, and is not
/// reserved.
pub open spec fn is_made_up(
    name: Seq<char>,
    reserved: Seq<Seq<char>>,
    from: nat,
    to: nat,
) -> bool {
    &&& exists|k: nat| from <= k < to && name == #[trigger] candidate(k)
    &&& !reserved.contains(name)
}

/// The name of an instance is made up from a number not passed before, is not reserved, and is
/// that of no other instance.
pub proof fn instance_names_are_fresh(
    d: &Design,
    cells: Seq<CellRef>,
    reserved: Seq<Seq<char>>,
    number: nat,
)
    ensures
        ({
            let (members, next) = cell_instances(d, cells, reserved, number);
            &&& number <= next
            &&& forall|i: int|
                0 <= i < members.len() ==> #[trigger] members[i] is Instantiation && is_made_up(
                    members[i]->Instantiation_2,
                    reserved,
                    number,
                    next,
                )
            &&& forall|i: int, j: int|
                0 <= i < j < members.len() ==> (#[trigger] members[i])->Instantiation_2 != (
                #[trigger] members[j])->Instantiation_2
        }),
    decreases cells.len(),
{
    let (members, next) = cell_instances(d, cells, reserved, number);
    if cells.len() > 0 {
        let rest = cells.drop_last();
        instance_names_are_fresh(d, rest, reserved, number);
        let (before, start) = cell_instances(d, rest, reserved, number);
        if let Cell::Other(instance) = d.cells@[cells.last() as int].cell {
            let k = next_free(reserved, start);
            lemma_next_free(reserved, start);
            let last = members.len() - 1;
            assert(members[last]->Instantiation_2 == candidate(k));
            assert forall|i: int| 0 <= i < members.len() implies #[trigger] members[i] is Instantiation
                && is_made_up(members[i]->Instantiation_2, reserved, number, next) by {
                if i < last {
                    assert(members[i] == before[i]);
                    let name = before[i]->Instantiation_2;
                    assert(is_made_up(name, reserved, number, start));
                    let j = choose|j: nat| number <= j < start && name == #[trigger] candidate(j);
                    assert(number <= j < next && name == candidate(j));
                } else {
                    assert(number <= k < next && members[i]->Instantiation_2 == candidate(k));
                }
            }
            assert forall|i: int, j: int| 0 <= i < j < members.len() implies (
            #[trigger] members[i])->Instantiation_2 != (#[trigger] members[j])->Instantiation_2 by {
                assert(members[i] == before[i]);
                if j < last {
                    assert(members[j] == before[j]);
                } else {
                    let name = before[i]->Instantiation_2;
                    assert(is_made_up(name, reserved, number, start));
                    let e = choose|e: nat| number <= e < start && name == #[trigger] candidate(e);
                    candidate_is_injective(e, k);
                }
            }
        }
    }
}

/// No instance of a cell has the made-up name of a net of the same module.
pub proof fn made_up_names_are_never_shared(
    d: &Design,
    modules: Map<MetaItemRef, ModuleState>,
    m: ModuleState,
    is_top: bool,
    net: Net,
    i: int,
)
    requires
        ({
            let reserved = reserved_names(d, m.cells, is_top);
            let (names, number) = net_names(d, modules, m, reserved);
            &&& names.contains_key(net)
            &&& !known_names(d, modules, m, reserved).contains_key(net)
            &&& 0 <= i < cell_instances(d, m.cells, reserved, number).0.len()
        }),
    ensures
        ({
            let reserved = reserved_names(d, m.cells, is_top);
            let (names, number) = net_names(d, modules, m, reserved);
            cell_instances(d, m.cells, reserved, number).0[i]->Instantiation_2 != names[net]
        }),
{
    let reserved = reserved_names(d, m.cells, is_top);
    let (names, number) = net_names(d, modules, m, reserved);
    let known = known_names(d, modules, m, reserved);
    let (members, next) = cell_instances(d, m.cells, reserved, number);
    made_up_names_are_fresh(known, ascending(m.present), reserved);
    instance_names_are_fresh(d, m.cells, reserved, number);
    assert(is_made_up(names[net], reserved, 0, number));
    assert(members[i] is Instantiation);
    let name = members[i]->Instantiation_2;
    let j = choose|j: nat| 0 <= j < number && names[net] == #[trigger] candidate(j);
    let k = choose|k: nat| number <= k < next && name == #[trigger] candidate(k);
    candidate_is_injective(j, k);
}

/// A name that a cell gives to a net is never reserved.
pub proof fn given_names_are_not_reserved(
    d: &Design,
    cells: Seq<CellRef>,
    reserved: Seq<Seq<char>>,
)
    ensures
        forall|n: Net| #[trigger]
            given_names(d, cells, reserved).contains_key(n) ==> !reserved.contains(
                given_names(d, cells, reserved)[n],
            ),
    decreases cells.len(),
{
    if cells.len() > 0 {
        let rest = cells.drop_last();
        given_names_are_not_reserved(d, rest, reserved);
        let before = given_names(d, rest, reserved);
        let all = given_names(d, cells, reserved);
        assert forall|n: Net| #[trigger] all.contains_key(n) implies !reserved.contains(all[n]) by {
            if before.contains_key(n) {
                assert(!reserved.contains(before[n]));
            }
        }
    }
}

/// No net of an exported design bears the name of an input or output of the design.
pub proof fn nets_never_bear_port_names(d: &Design)
    ensures
        ({
            let m = d.top_module();
            let ports = io_names(d, m.cells);
            let names = net_names(d, Map::empty(), m, ports).0;
            forall|n: Net| #[trigger] names.contains_key(n) ==> !ports.contains(names[n])
        }),
{
    let m = d.top_module();
    let ports = io_names(d, m.cells);
    let known = given_names(d, m.cells, ports);
    given_names_are_not_reserved(d, m.cells, ports);
    assert(known_names(d, Map::empty(), m, ports) == known);
    made_up_names_are_fresh(known, ascending(m.present), ports);
    lemma_completed(known, ascending(m.present), ports);
}

/// Every net that is present in a module has a name there.
pub proof fn present_nets_are_named(
    d: &Design,
    modules: Map<MetaItemRef, ModuleState>,
    m: ModuleState,
    reserved: Seq<Seq<char>>,
)
    requires
        m.present.finite(),
    ensures
        m.present.subset_of(net_names(d, modules, m, reserved).0.dom()),
{
    lemma_ascending(m.present);
    lemma_completed(known_names(d, modules, m, reserved), ascending(m.present), reserved);
}

/// Whether a member declares a single wire of the given name.
pub open spec fn declares(member: MemberView, name: Seq<char>) -> bool {
    member == MemberView::Wire(seq![], name, single())
}

/// The wires of a module are the nets present in it that are no ports, each declared once, in
/// ascending order.
pub proof fn wires_are_the_inner_nets(m: ModuleState, names: Map<Net, Seq<char>>) -> (inner: Seq<
    Net,
>)
    requires
        m.present.finite(),
    ensures
        is_ascending(inner),
        forall|n: Net| #[trigger] inner.contains(n) <==> m.present.contains(n) && is_inner(m, n),
        wires(m, names).len() == inner.len(),
        forall|i: int|
            0 <= i < inner.len() ==> declares(#[trigger] wires(m, names)[i], names[inner[i]]),
{
    let all = ascending(m.present);
    let pred = |n: Net| is_inner(m, n);
    lemma_ascending(m.present);
    lemma_filter(all, pred);
    let inner = all.filter(pred);
    assert forall|n: Net| #[trigger] inner.contains(n) <==> m.present.contains(n) && is_inner(m, n) by {
        assert(all.to_set().contains(n) <==> m.present.contains(n));
    }
    inner
}

proof fn lemma_filter(s: Seq<Net>, pred: spec_fn(Net) -> bool)
    requires
        is_ascending(s),
    ensures
        is_ascending(s.filter(pred)),
        forall|n: Net| #[trigger] s.filter(pred).contains(n) <==> s.contains(n) && pred(n),
    decreases s.len(),
{
    reveal(Seq::filter);
    if s.len() > 0 {
        let rest = s.drop_last();
        lemma_filter(rest, pred);
        let kept = rest.filter(pred);
        let all = s.filter(pred);
        lemma_front_or_last(s);
        if pred(s.last()) {
            assert(all.drop_last() =~= kept);
            lemma_front_or_last(all);
        }
        assert forall|i: int, j: int| 0 <= i < j < all.len() implies all[i] < all[j] by {
            if j == kept.len() {
                assert(kept.contains(kept[i]));
                let k = choose|k: int| 0 <= k < rest.len() && rest[k] == kept[i];
                assert(s[k] < s[s.len() - 1]);
            }
        }
    }
}

/// A finished module other than the top can be instantiated: behind each of its ports there is a
/// net, and all of them are single wires.
pub proof fn finished_submodules_are_ready(d: &Design, st: IndexState, s: MetaItemRef)
    requires
        s != st.top,
    ensures
        sub_ready(exported(d, st, s).modules[s]),
{
    let m = st.modules[s];
    let names = net_names(d, st.modules, m, reserved_names(d, m.cells, false)).0;
    let ports = boundary_ports(m, names);
    let ins = ascending(m.in_ports);
    assert forall|i: int| 0 <= i < ports.len() implies single_port(#[trigger] ports[i]) by {
        if i < ins.len() {
            assert(ports[i] is Input);
        } else {
            assert(ports[i] is Output);
        }
    }
    assert(ports.len() == boundary(m).len());
}

/// The state once the modules of the first `n` scopes are finished in turn.
pub open spec fn exported_all(
    d: &Design,
    st: IndexState,
    order: Seq<MetaItemRef>,
    n: nat,
) -> IndexState
    decreases n,
{
    if n == 0 {
        st
    } else {
        exported(d, exported_all(d, st, order, (n - 1) as nat), order[n - 1])
    }
}

proof fn lemma_exported_all(d: &Design, st: IndexState, order: Seq<MetaItemRef>, n: nat)
    requires
        n <= order.len(),
        forall|i: int| 0 <= i < order.len() ==> st.modules.contains_key(#[trigger] order[i]),
    ensures
        ({
            let st1 = exported_all(d, st, order, n);
            &&& st1.top == st.top
            &&& st1.modules.dom() == st.modules.dom()
            &&& forall|i: int|
                0 <= i < n && #[trigger] order[i] != st.top ==> sub_ready(st1.modules[order[i]])
        }),
    decreases n,
{
    if n > 0 {
        let k = (n - 1) as nat;
        lemma_exported_all(d, st, order, k);
        let before = exported_all(d, st, order, k);
        let s = order[k as int];
        assert(before.modules.dom().contains(s));
        let st1 = exported_all(d, st, order, n);
        assert(st1.modules.dom() =~= st.modules.dom());
        if s != st.top {
            finished_submodules_are_ready(d, before, s);
        }
    }
}

/// Finishing modules in the order of a walk from the top finds, at each module, all its
/// submodules finished.
pub proof fn submodules_are_finished_first(d: &Design, st: IndexState, n: int, i: int)
    requires
        st.wf(d),
        st.modules.contains_key(st.top),
        0 <= n < visit_order(d, st.modules, st.top).len(),
        0 <= i < st.modules[visit_order(d, st.modules, st.top)[n]].submodules.len(),
    ensures
        ({
            let order = visit_order(d, st.modules, st.top);
            let sub = st.modules[order[n]].submodules[i];
            sub_ready(exported_all(d, st, order, n as nat).modules[sub])
        }),
{
    let top = st.top;
    let order = visit_order(d, st.modules, top);
    hierarchy_is_visited_inside_out(d, st, top);
    let s = order[n];
    assert(order.contains(s));
    let sub = st.modules[s].submodules[i];
    assert(st.modules.contains_key(sub) && d.parent(sub) == s);
    d.lemma_within_parent(sub, s);
    d.lemma_within_parent(sub, top);
    d.within_is_transitive(sub, s, top);
    assert(order.contains(sub));
    let k = choose|k: int| 0 <= k < order.len() && order[k] == sub;
    assert(inner_first(d, order));
    assert(d.is_within(order[k], order[n]));
    if sub == top {
        d.lemma_within_order(s, top);
    }
    d.lemma_within_order(sub, s);
    assert(k < n);
    assert forall|j: int| 0 <= j < order.len() implies st.modules.contains_key(
        #[trigger] order[j],
    ) by {
        assert(order.contains(order[j]));
    }
    lemma_exported_all(d, st, order, n as nat);
    assert(order[k] != st.top);
}

proof fn lemma_submap(a: Map<Net, Seq<char>>, b: Map<Net, Seq<char>>, c: Map<Net, Seq<char>>)
    requires
        a.submap_of(b),
        forall|n: Net| #[trigger] b.contains_key(n) ==> c.contains_key(n) && c[n] == b[n],
    ensures
        a.submap_of(c),
{
    assert forall|n: Net| #[trigger] a.dom().contains(n) implies c.dom().contains(n) && a[n]
        == c[n] by {
        assert(b.dom().contains(n));
        assert(b.contains_key(n));
    }
}

proof fn lemma_scouted_keeps(
    names: Map<Net, Seq<char>>,
    present: Set<Net>,
    sub: ModuleState,
    outputs: bool,
    n: nat,
)
    ensures
        names.submap_of(scouted(names, present, sub, outputs, n)),
    decreases n,
{
    if n > 0 {
        lemma_scouted_keeps(names, present, sub, outputs, (n - 1) as nat);
        let before = scouted(names, present, sub, outputs, (n - 1) as nat);
        lemma_submap(names, before, scouted(names, present, sub, outputs, n));
    }
}

proof fn lemma_scouted_all_keeps(
    names: Map<Net, Seq<char>>,
    present: Set<Net>,
    modules: Map<MetaItemRef, ModuleState>,
    submodules: Seq<MetaItemRef>,
    outputs: bool,
)
    ensures
        names.submap_of(scouted_all(names, present, modules, submodules, outputs)),
    decreases submodules.len(),
{
    if submodules.len() > 0 {
        let rest = submodules.drop_last();
        lemma_scouted_all_keeps(names, present, modules, rest, outputs);
        let before = scouted_all(names, present, modules, rest, outputs);
        let sub = modules[submodules.last()];
        let n = sub.cst->0.port_members.len();
        lemma_scouted_keeps(before, present, sub, outputs, n);
        lemma_submap(names, before, scouted(before, present, sub, outputs, n));
    }
}

/// A net that a cell gives a name to keeps it; one named after an output of a submodule keeps that
/// over the name of an input; and a name is made up only where there is no other.
pub proof fn known_names_take_precedence(
    d: &Design,
    modules: Map<MetaItemRef, ModuleState>,
    m: ModuleState,
    reserved: Seq<Seq<char>>,
)
    ensures
        ({
            let given = given_names(d, m.cells, reserved);
            let outputs = scouted_all(given, m.present, modules, m.submodules, true);
            let known = known_names(d, modules, m, reserved);
            &&& given.submap_of(outputs)
            &&& outputs.submap_of(known)
            &&& known.submap_of(net_names(d, modules, m, reserved).0)
        }),
{
    let given = given_names(d, m.cells, reserved);
    let outputs = scouted_all(given, m.present, modules, m.submodules, true);
    lemma_scouted_all_keeps(given, m.present, modules, m.submodules, true);
    lemma_scouted_all_keeps(outputs, m.present, modules, m.submodules, false);
    lemma_completed(known_names(d, modules, m, reserved), ascending(m.present), reserved);
}

/// The first `n` cells of a design.
pub open spec fn first_cells(n: nat) -> Seq<CellRef> {
    Seq::new(n, |i: int| i as usize)
}

proof fn lemma_top_io(d: &Design, n: nat)
    requires
        n <= d.cells@.len(),
    ensures
        io_ports(d, d.top_cells(n)) == io_ports(d, first_cells(n)),
        io_assigns(d, d.top_cells(n)) == io_assigns(d, first_cells(n)),
    decreases n,
{
    if n > 0 {
        let k = (n - 1) as nat;
        let c = k as usize;
        lemma_top_io(d, k);
        assert(first_cells(n).drop_last() =~= first_cells(k));
        if d.in_top(c) {
            assert(d.top_cells(n).drop_last() =~= d.top_cells(k));
        }
    } else {
        assert(first_cells(0) =~= d.top_cells(0));
    }
}

/// Whichever scope is the top, the ports of the module are all inputs and outputs of the design,
/// in order, and the first members behind its wires connect each of them.
pub proof fn inputs_and_outputs_become_the_ports(d: &Design)
    ensures
        ({
            let m = d.top_module();
            let names = net_names(d, Map::empty(), m, io_names(d, m.cells)).0;
            let all = first_cells(d.cells@.len());
            let from = wires(m, names).len();
            &&& d.top_verilog().port_members == io_ports(d, all)
            &&& from + io_assigns(d, all).len() <= d.top_verilog().members.len()
            &&& forall|i: int|
                0 <= i < io_assigns(d, all).len() ==> d.top_verilog().members[from + i]
                    == member_named(#[trigger] io_assigns(d, all)[i], names)
        }),
{
    lemma_top_io(d, d.cells@.len());
    let m = d.top_module();
    let names = net_names(d, Map::empty(), m, io_names(d, m.cells)).0;
    let from = wires(m, names).len();
    let assigns = io_assigns(d, first_cells(d.cells@.len()));
    let pending = connecting_members(d, Map::empty(), m, true);
    assert forall|i: int| 0 <= i < assigns.len() implies d.top_verilog().members[from + i]
        == member_named(#[trigger] assigns[i], names) by {
        assert(pending[i] == assigns[i]);
    }
}

} // verus!
