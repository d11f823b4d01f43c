//! Deciding whether a design can be written out.

use std::collections::BTreeSet;
use vstd::prelude::*;

use crate::export::{find_top_scope, label_names, port_names};
use crate::hierarchy::input_nets;
use crate::layout::{cell_ready, range_ready};
use crate::naming::{name_texts, texts};
use crate::netlist::{
    is_cell, is_cell_net, Cell, CellRef, Design, Instance, MetaItem, MetaItemRef, Net, ParamValue,
    NONE,
};
use crate::nets::{ascending_nets, lemma_front_or_last};

verus! {

broadcast use vstd::std_specs::btree::group_btree_axioms;

fn refers_to_scope(design: &Design, r: MetaItemRef) -> (b: bool)
    ensures
        b == design.is_scope(r),
{
    if r == NONE {
        return true;
    }
    if r >= design.metadata.len() {
        return false;
    }
    match &design.metadata[r] {
        MetaItem::NamedScope { .. } => true,
        MetaItem::IndexedScope { .. } => true,
        _ => false,
    }
}

fn has_good_items(design: &Design) -> (b: bool)
    ensures
        b == forall|r: MetaItemRef|
            r < design.metadata@.len() ==> #[trigger] design.item_ok(r),
{
    for i in 0..design.metadata.len()
        invariant
            forall|r: MetaItemRef| r < i ==> #[trigger] design.item_ok(r),
    {
        let good = match &design.metadata[i] {
            MetaItem::NamedScope { parent, .. } => *parent < i && refers_to_scope(design, *parent),
            MetaItem::IndexedScope { parent, .. } => *parent < i && refers_to_scope(
                design,
                *parent,
            ),
            MetaItem::Ident { scope, .. } => refers_to_scope(design, *scope),
            _ => true,
        };
        if !good {
            proof {
                assert(!design.item_ok(i));
            }
            return false;
        }
    }
    true
}

fn has_good_entry(design: &Design, cell: CellRef) -> (b: bool)
    requires
        cell < design.cells@.len(),
    ensures
        b == design.entry_ok(cell),
{
    let items = &design.cells[cell].metadata;
    for i in 0..items.len()
        invariant
            *items == design.cells@[cell as int].metadata,
            forall|j: int| 0 <= j < i ==> #[trigger] items@[j] < design.metadata@.len(),
    {
        if items[i] >= design.metadata.len() {
            proof {
                assert(design.cells@[cell as int].metadata@[i as int] >= design.metadata@.len());
            }
            return false;
        }
    }
    true
}

/// Whether the metadata of a design hangs together.
pub fn is_well_formed(design: &Design) -> (b: bool)
    ensures
        b == design.wf(),
{
    if design.metadata.len() == 0 {
        return false;
    }
    match &design.metadata[0] {
        MetaItem::Empty => {},
        _ => {
            return false;
        },
    }
    if !has_good_items(design) {
        return false;
    }
    for c in 0..design.cells.len()
        invariant
            forall|e: CellRef| e < c ==> #[trigger] design.entry_ok(e),
    {
        if !has_good_entry(design, c) {
            return false;
        }
    }
    true
}

/// Adds nets to a set.
fn insert_nets(set: &mut BTreeSet<Net>, nets: &Vec<Net>)
    ensures
        final(set)@ == old(set)@.union(nets@.to_set()),
{
    for i in 0..nets.len()
        invariant
            forall|n: Net| #[trigger]
                set@.contains(n) <==> old(set)@.contains(n) || nets@.take(i as int).contains(n),
    {
        let ghost before = set@;
        set.insert(nets[i]);
        proof {
            let prefix = nets@.take(i as int);
            let longer = nets@.take(i + 1);
            assert(longer.drop_last() =~= prefix);
            lemma_front_or_last(longer);
        }
    }
    proof {
        assert(nets@.take(nets@.len() as int) =~= nets@);
        assert(set@ =~= old(set)@.union(nets@.to_set()));
    }
}

/// The nets that cells drive.
fn driven_nets(design: &Design) -> (set: BTreeSet<Net>)
    ensures
        forall|net: Net| #[trigger]
            set@.contains(net) <==> design.is_driven(design.cells@.len(), net),
{
    let mut set: BTreeSet<Net> = BTreeSet::new();
    for c in 0..design.cells.len()
        invariant
            forall|net: Net| #[trigger] set@.contains(net) <==> design.is_driven(c as nat, net),
    {
        let ghost before = set@;
        insert_nets(&mut set, &design.cells[c].output);
        proof {
            assert forall|net: Net| #[trigger] set@.contains(net) <==> design.is_driven(
                (c + 1) as nat,
                net,
            ) by {
                if design.is_driven((c + 1) as nat, net) {
                    let e = choose|e: CellRef|
                        e < c + 1 && #[trigger] design.outputs(e).contains(net);
                    if e < c {
                        assert(design.is_driven(c as nat, net));
                        assert(before.contains(net));
                    }
                }
                if before.contains(net) {
                    let e = choose|e: CellRef| e < c && #[trigger] design.outputs(e).contains(net);
                    assert(e < c + 1 && design.outputs(e).contains(net));
                }
                if design.outputs(c).contains(net) {
                    assert(c < c + 1);
                }
            }
        }
    }
    set
}

/// Whether every net that a cell reads is a constant or in `driven`.
fn reads_driven(nets: &Vec<Net>, driven: &BTreeSet<Net>) -> (b: bool)
    ensures
        b == forall|i: int|
            0 <= i < nets@.len() && is_cell_net(#[trigger] nets@[i]) ==> driven@.contains(nets@[i]),
{
    for i in 0..nets.len()
        invariant
            forall|j: int|
                0 <= j < i && is_cell_net(#[trigger] nets@[j]) ==> driven@.contains(nets@[j]),
    {
        if is_cell(nets[i]) && !driven.contains(&nets[i]) {
            proof {
                assert(is_cell_net(nets@[i as int]));
            }
            return false;
        }
    }
    true
}

/// Whether what cells read is driven.
fn is_all_driven(design: &Design) -> (b: bool)
    ensures
        b == design.all_driven(),
{
    let driven = driven_nets(design);
    let ghost n = design.cells@.len();
    for c in 0..design.cells.len()
        invariant
            n == design.cells@.len(),
            forall|net: Net| #[trigger] driven@.contains(net) <==> design.is_driven(n, net),
            forall|e: CellRef, i: int|
                e < c && !design.is_label(e) && 0 <= i < design.inputs(e).len() && is_cell_net(
                    #[trigger] design.inputs(e)[i],
                ) ==> design.is_driven(n, design.inputs(e)[i]),
    {
        let is_label = match &design.cells[c].cell {
            Cell::Name(..) => true,
            Cell::Debug(..) => true,
            _ => false,
        };
        if !is_label {
            let nets = input_nets(&design.cells[c].cell);
            if !reads_driven(&nets, &driven) {
                proof {
                    let i = choose|i: int|
                        0 <= i < nets@.len() && is_cell_net(#[trigger] nets@[i])
                            && !driven@.contains(nets@[i]);
                    assert(is_cell_net(design.inputs(c)[i]));
                    assert(!design.is_driven(n, design.inputs(c)[i]));
                }
                return false;
            }
            proof {
                assert forall|i: int|
                    0 <= i < design.inputs(c).len() && is_cell_net(
                        #[trigger] design.inputs(c)[i],
                    ) implies design.is_driven(n, design.inputs(c)[i]) by {
                    assert(driven@.contains(nets@[i]));
                }
            }
        }
    }
    true
}

/// Whether the items can be written as attributes.
fn has_good_attrs(design: &Design, items: &Vec<MetaItemRef>) -> (b: bool)
    requires
        forall|i: int| 0 <= i < items@.len() ==> #[trigger] items@[i] < design.metadata@.len(),
    ensures
        b == design.attrs_ok(items@),
{
    for i in 0..items.len()
        invariant
            forall|i: int| 0 <= i < items@.len() ==> #[trigger] items@[i] < design.metadata@.len(),
            forall|j: int| 0 <= j < i ==> design.attr_ok(#[trigger] items@[j]),
    {
        let good = match &design.metadata[items[i]] {
            MetaItem::Attr { value, .. } => match value {
                ParamValue::Text(_) => true,
                ParamValue::Other => false,
            },
            MetaItem::Source { start, end, .. } => {
                start.line < u32::MAX && start.column < u32::MAX && end.line < u32::MAX
                    && end.column < u32::MAX
            },
            _ => true,
        };
        if !good {
            proof {
                assert(!design.attr_ok(items@[i as int]));
            }
            return false;
        }
    }
    true
}

/// Whether the outputs of an instance are parts of an output of the given width.
fn has_good_outputs(instance: &Instance, width: usize) -> (b: bool)
    ensures
        b == forall|i: int|
            0 <= i < instance.outputs@.len() ==> range_ready(
                (#[trigger] instance.outputs@[i]).1,
                width as nat,
            ),
{
    for i in 0..instance.outputs.len()
        invariant
            forall|j: int|
                0 <= j < i ==> range_ready((#[trigger] instance.outputs@[j]).1, width as nat),
    {
        let range = &instance.outputs[i].1;
        if range.0 < range.1 && range.1 > width {
            proof {
                assert(!range_ready(instance.outputs@[i as int].1, width as nat));
            }
            return false;
        }
    }
    true
}

/// Whether a cell of the top module can be written out.
fn is_cell_ready(design: &Design, cell: CellRef) -> (b: bool)
    requires
        design.wf(),
        cell < design.cells@.len(),
    ensures
        b == cell_ready(design, cell, true),
{
    let entry = &design.cells[cell];
    proof {
        assert(design.entry_ok(cell));
    }
    match &entry.cell {
        Cell::Coarse(_) => false,
        Cell::Other(instance) => {
            instance.params.len() == 0 && instance.ios.len() == 0 && has_good_attrs(
                design,
                &entry.metadata,
            ) && has_good_outputs(instance, entry.output.len())
        },
        Cell::Input(_, size) => *size > 0 && entry.output.len() > 0,
        Cell::Output(_, value) => value.len() > 0,
        _ => true,
    }
}

/// The cells of the top module, and the nets that they drive.
fn top_contents(design: &Design) -> (r: (Vec<CellRef>, BTreeSet<Net>))
    requires
        design.wf(),
    ensures
        r.0@ == design.top_cells(design.cells@.len()),
        r.1@ == design.top_nets(design.cells@.len()),
        forall|i: int| 0 <= i < r.0@.len() ==> #[trigger] r.0@[i] < design.cells@.len(),
        forall|c: CellRef|
            c < design.cells@.len() ==> (r.0@.contains(c) <==> #[trigger] design.in_top(c)),
{
    let top: MetaItemRef = find_top_scope(design);
    let mut cells: Vec<CellRef> = Vec::new();
    let mut nets: BTreeSet<Net> = BTreeSet::new();
    for c in 0..design.cells.len()
        invariant
            top == design.top_scope(),
            cells@ == design.top_cells(c as nat),
            nets@ == design.top_nets(c as nat),
            forall|i: int| 0 <= i < cells@.len() ==> #[trigger] cells@[i] < c,
            forall|e: CellRef| e < c ==> (cells@.contains(e) <==> #[trigger] design.in_top(e)),
    {
        let entry = &design.cells[c];
        let ghost before = cells@;
        let is_io = match &entry.cell {
            Cell::Input(..) => true,
            Cell::Output(..) => true,
            _ => false,
        };
        if top == NONE || is_io {
            cells.push(c);
            insert_nets(&mut nets, &entry.output);
        }
        proof {
            if design.in_top(c) {
                assert(cells@.drop_last() =~= before);
                lemma_front_or_last(cells@);
            }
            assert(!before.contains(c));
        }
    }
    (cells, nets)
}

/// Whether a design can be written out.
pub fn is_exportable(design: &Design) -> (b: bool)
    ensures
        b == design.exportable(),
{
    if !is_well_formed(design) || !is_all_driven(design) {
        return false;
    }
    let (cells, nets) = top_contents(design);
    let ghost n = design.cells@.len();
    if cells.len() == 0 {
        return false;
    }
    let ports = port_names(design, &cells);
    let names = label_names(design, &cells, &ports);
    proof {
        assert(name_texts(names@).dom() =~= names@.dom());
        assert(design.top_named() =~= names@.dom().union(nets@));
    }
    for k in 0..cells.len()
        invariant
            n == design.cells@.len(),
            design.wf(),
            cells@ == design.top_cells(n),
            forall|i: int| 0 <= i < cells@.len() ==> #[trigger] cells@[i] < n,
            forall|c: CellRef| c < n ==> (cells@.contains(c) <==> #[trigger] design.in_top(c)),
            design.top_named() == names@.dom().union(nets@),
            forall|i: int| 0 <= i < k ==> design.top_cell_ready(#[trigger] cells@[i]),
    {
        let c: CellRef = cells[k];
        proof {
            assert(cells@.contains(c));
            assert(design.in_top(c));
        }
        if !is_cell_ready(design, c) {
            proof {
                assert(!design.top_cell_ready(c));
            }
            return false;
        }
        let shows_inputs = match &design.cells[c].cell {
            Cell::Output(..) => true,
            Cell::Other(..) => true,
            _ => false,
        };
        if shows_inputs {
            let inputs = input_nets(&design.cells[c].cell);
            for i in 0..inputs.len()
                invariant
                    n == design.cells@.len(),
                    c < n,
                    design.in_top(c),
                    design.shows_inputs(c),
                    inputs@ == design.inputs(c),
                    design.top_named() == names@.dom().union(nets@),
                    forall|j: int|
                        0 <= j < i ==> design.top_named().contains(
                            #[trigger] design.inputs(c)[j],
                        ),
            {
                if !nets.contains(&inputs[i]) && !names.contains_key(&inputs[i]) {
                    proof {
                        assert(!design.top_named().contains(design.inputs(c)[i as int]));
                        assert(!design.top_cell_ready(c));
                    }
                    return false;
                }
            }
        }
    }
    proof {
        assert forall|c: CellRef| c < n && design.in_top(c) implies #[trigger] design.top_cell_ready(
            c,
        ) by {
            assert(cells@.contains(c));
        }
        assert(texts(ports@).len() == ports@.len());
    }
    let net_count: usize = ascending_nets(&nets).len();
    match net_count.checked_add(cells.len()) {
        Some(sum) => sum.checked_add(ports.len()).is_some(),
        None => false,
    }
}

} // verus!
