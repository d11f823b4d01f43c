use bumpalo::Bump;
use std::collections::BTreeSet;
use verilogout::hierarchy::{input_nets, HierarchyIndex};
use verilogout::metadata::{
    map_metadata, metadata_name, metadata_scopes, reduce_scopes, verilog_module_name,
};
use verilogout::netlist::{
    is_cell, Cell, CellEntry, Design, Instance, MetaItem, ParamValue, SourcePosition, NONE,
    UNDEF_NET,
};
use verilogout::nets::ascending_nets;
use verilogout::scope::{common_scope, scope_level};

fn scope(name: &str, parent: usize) -> MetaItem {
    MetaItem::NamedScope { name: name.to_string(), parent }
}

fn logic(inputs: &[u32], metadata: &[usize], output: &[u32]) -> CellEntry {
    CellEntry {
        cell: Cell::Fine(inputs.to_vec()),
        metadata: metadata.to_vec(),
        output: output.to_vec(),
    }
}

// The root holds 1 and 4; 1 holds 2 and 3.
fn tree() -> Vec<MetaItem> {
    vec![
        MetaItem::Empty,
        scope("a", NONE),
        scope("b", 1),
        MetaItem::IndexedScope { index: -7, parent: 1 },
        scope("c", NONE),
    ]
}

fn design(cells: Vec<CellEntry>) -> Design {
    Design { metadata: tree(), cells }
}

fn set(nets: &[u32]) -> BTreeSet<u32> {
    nets.iter().copied().collect()
}

#[test]
fn levels_count_the_scopes_around() {
    let d = design(vec![]);
    let levels: Vec<usize> = (0..5).map(|s| scope_level(&d, s)).collect();
    assert_eq!(levels, vec![0, 1, 2, 2, 1]);
    assert_eq!(d.scope_parent(NONE), None);
    assert_eq!(d.scope_parent(3), Some(1));
}

#[test]
fn common_scope_is_the_innermost_around_both() {
    let d = design(vec![]);
    assert_eq!(common_scope(&d, 2, 3), 1);
    assert_eq!(common_scope(&d, 3, 2), 1);
    assert_eq!(common_scope(&d, 2, 2), 2);
    assert_eq!(common_scope(&d, 2, 1), 1);
    assert_eq!(common_scope(&d, 2, 4), NONE);
    assert_eq!(common_scope(&d, NONE, 3), NONE);
}

#[test]
fn common_scope_is_associative() {
    let d = design(vec![]);
    for a in 0..5 {
        for b in 0..5 {
            for c in 0..5 {
                assert_eq!(
                    common_scope(&d, common_scope(&d, a, b), c),
                    common_scope(&d, a, common_scope(&d, b, c))
                );
            }
        }
    }
}

#[test]
fn scopes_of_many_are_reduced_to_one() {
    let d = design(vec![]);
    assert_eq!(reduce_scopes(&d, &vec![]), NONE);
    assert_eq!(reduce_scopes(&d, &vec![3]), 3);
    assert_eq!(reduce_scopes(&d, &vec![2, 3, 1]), 1);
    assert_eq!(reduce_scopes(&d, &vec![2, 3, 4]), NONE);
}

#[test]
fn module_names_spell_the_path_from_the_top() {
    let d = design(vec![]);
    assert_eq!(verilog_module_name(&d, NONE), "top");
    assert_eq!(verilog_module_name(&d, 1), "top.a");
    assert_eq!(verilog_module_name(&d, 2), "top.a.b");
    assert_eq!(verilog_module_name(&d, 3), "top.a[-7]");
    for s in 0..5 {
        assert!(verilog_module_name(&d, s).starts_with("top"));
    }
}

#[test]
fn metadata_gives_scopes_names_and_attributes() {
    let source = |file: &str, line: u32| MetaItem::Source {
        file: file.to_string(),
        start: SourcePosition { line, column: 4 },
        end: SourcePosition { line: line + 1, column: 0 },
    };
    let mut metadata = tree();
    metadata.push(MetaItem::Ident { name: "q".to_string(), scope: 4 });
    metadata.push(source("x.v", 9));
    metadata.push(MetaItem::Attr {
        name: "init".to_string(),
        value: ParamValue::Text("one".to_string()),
    });
    metadata.push(source("y.v", 0));
    metadata.push(MetaItem::Ident { name: "r".to_string(), scope: NONE });
    let d = Design { metadata, cells: vec![] };
    let items = vec![2, 5, 6, 7, 8, 9, 0];
    assert_eq!(metadata_scopes(&d, &items), vec![2, 4, NONE]);
    assert_eq!(metadata_name(&d, &items), Some("q"));
    assert_eq!(metadata_name(&d, &vec![2, 6]), None);
    let alloc = Bump::new();
    let attrs = map_metadata(&alloc, &d, &items);
    assert_eq!(attrs.0, vec![("init", "one"), ("src", "x.v:10.5-11.1|y.v:1.5-2.1")]);
    assert_eq!(map_metadata(&alloc, &d, &vec![1, 5]).0, vec![]);
}

#[test]
fn constants_are_no_cell_outputs() {
    assert!(!is_cell(0));
    assert!(!is_cell(1));
    assert!(is_cell(2));
    assert!(is_cell(UNDEF_NET - 1));
    assert!(!is_cell(UNDEF_NET));
}

#[test]
fn nets_come_in_ascending_order() {
    assert_eq!(ascending_nets(&set(&[9, 2, 300, 4])), vec![2, 4, 9, 300]);
    assert_eq!(ascending_nets(&set(&[])), vec![]);
}

#[test]
fn inputs_of_a_cell_come_in_order() {
    let instance = Instance {
        kind: "K".to_string(),
        params: vec![],
        inputs: vec![("A".to_string(), vec![5, 4]), ("B".to_string(), vec![9])],
        outputs: vec![("Y".to_string(), (0, 1))],
        ios: vec![],
    };
    assert_eq!(input_nets(&Cell::Other(instance)), vec![5, 4, 9]);
    assert_eq!(input_nets(&Cell::Input("i".to_string(), 3)), vec![]);
    assert_eq!(input_nets(&Cell::Output("o".to_string(), vec![7, 1])), vec![7, 1]);
}

#[test]
fn flat_regime_puts_logic_into_the_root() {
    let d = design(vec![logic(&[], &[2], &[2])]);
    let alloc = Bump::new();
    let mut index = HierarchyIndex::new(&d, 1);
    assert!(index.flat_regime);
    assert_eq!(index.find_common_scope(0), NONE);
    assert_eq!(index.find_name_scope(0), Some(NONE));
    index.add_cell(&alloc, 0);
    assert_eq!(index.modules.len(), 1);
    assert_eq!(index.modules[&NONE].cells, vec![0]);
    assert_eq!(index.driver_scopes[&2], NONE);
}

#[test]
fn adding_a_cell_opens_the_scopes_around_it() {
    let d = design(vec![
        logic(&[], &[2], &[2, 3]),
        logic(&[], &[3], &[4]),
        logic(&[], &[4], &[5]),
        logic(&[], &[2, 3], &[6]),
    ]);
    let alloc = Bump::new();
    let mut index = HierarchyIndex::new(&d, NONE);
    index.flat_regime = false;
    assert_eq!(index.find_common_scope(3), 1);
    assert_eq!(index.find_name_scope(3), None);
    assert_eq!(index.find_name_scope(2), Some(4));
    for c in 0..4 {
        index.add_cell(&alloc, c);
    }
    assert_eq!(index.modules[&NONE].submodules, vec![1, 4]);
    assert_eq!(index.modules[&1].submodules, vec![2, 3]);
    assert_eq!(index.modules[&2].name, "top.a.b");
    assert_eq!(index.modules[&2].present_nets, set(&[2, 3]));
    assert_eq!(index.modules[&1].cells, vec![3]);
    assert_eq!(index.driver_scopes[&4], 3);
    for module in index.modules.values() {
        assert!(module.in_port_nets.is_empty() && module.out_port_nets.is_empty());
    }
    assert_eq!(index.visit_hierarchy(NONE), vec![2, 3, 1, 4, 0]);
    assert_eq!(index.visit_hierarchy(1), vec![2, 3, 1]);
}

#[test]
fn linking_takes_nets_through_the_ports_on_the_way() {
    let d = design(vec![
        logic(&[], &[2], &[2]),
        logic(&[2, 1], &[4], &[3]),
        logic(&[2], &[3], &[4]),
    ]);
    let alloc = Bump::new();
    let mut index = HierarchyIndex::new(&d, NONE);
    index.flat_regime = false;
    for c in 0..3 {
        index.add_cell(&alloc, c);
    }
    index.link_cell_inputs(2);
    assert_eq!(index.modules[&2].out_port_nets, set(&[2]));
    assert_eq!(index.modules[&3].in_port_nets, set(&[2]));
    assert_eq!(index.modules[&1].present_nets, set(&[2]));
    assert!(index.modules[&1].out_port_nets.is_empty());
    index.link_cell_inputs(1);
    assert_eq!(index.modules[&1].out_port_nets, set(&[2]));
    assert_eq!(index.modules[&4].in_port_nets, set(&[2]));
    assert_eq!(index.modules[&NONE].present_nets, set(&[2]));
    assert!(index.modules[&NONE].in_port_nets.is_empty());
    for module in index.modules.values() {
        assert!(module.in_port_nets.is_disjoint(&module.out_port_nets));
    }
    index.link_net_to_scope(1, 3);
    index.link_net_to_scope(2, 2);
    assert_eq!(index.modules[&2].present_nets, set(&[2]));
}

#[test]
fn labels_read_nothing() {
    let d = design(vec![
        logic(&[], &[2], &[2]),
        CellEntry { cell: Cell::Name("n".to_string(), vec![2]), metadata: vec![4], output: vec![] },
    ]);
    let alloc = Bump::new();
    let mut index = HierarchyIndex::new(&d, NONE);
    index.flat_regime = false;
    index.add_cell(&alloc, 0);
    index.add_cell(&alloc, 1);
    index.link_cell_inputs(1);
    assert!(index.modules[&4].present_nets.is_empty());
    assert_eq!(index.modules[&4].cells, vec![1]);
}

#[test]
fn linking_in_any_order_gives_the_same_ports() {
    let d = design(vec![
        logic(&[4], &[2], &[2]),
        logic(&[2], &[4], &[3]),
        logic(&[2, 3], &[3], &[4]),
    ]);
    let ports_after = |order: [usize; 3]| {
        let alloc = Bump::new();
        let mut index = HierarchyIndex::new(&d, NONE);
        index.flat_regime = false;
        for c in 0..3 {
            index.add_cell(&alloc, c);
        }
        for c in order {
            index.link_cell_inputs(c);
        }
        index
            .modules
            .values()
            .map(|m| (m.in_port_nets.clone(), m.out_port_nets.clone(), m.present_nets.clone()))
            .collect::<Vec<_>>()
    };
    let forwards = ports_after([0, 1, 2]);
    assert_eq!(forwards, ports_after([2, 1, 0]));
    assert_eq!(forwards, ports_after([1, 2, 0]));
    assert_eq!(forwards[2], (set(&[4]), set(&[2]), set(&[2, 4])));
    assert_eq!(forwards[1], (set(&[3]), set(&[2]), set(&[2, 3, 4])));
}

#[test]
fn constants_can_be_linked_to_scopes_without_a_module() {
    let d = design(vec![
        logic(&[], &[2], &[2]),
        CellEntry {
            cell: Cell::Output("o".to_string(), vec![0, UNDEF_NET]),
            metadata: vec![4],
            output: vec![],
        },
    ]);
    let alloc = Bump::new();
    let mut index = HierarchyIndex::new(&d, 2);
    index.flat_regime = false;
    index.add_cell(&alloc, 0);
    index.add_cell(&alloc, 1);
    assert!(!index.modules.contains_key(&4));
    index.link_net_to_scope(1, 4);
    index.link_net_to_scope(UNDEF_NET, 3);
    index.link_cell_inputs(1);
    assert!(!index.modules.contains_key(&4));
    assert_eq!(index.modules.keys().copied().collect::<Vec<usize>>(), vec![0, 1, 2]);
    assert_eq!(index.modules[&2].present_nets, set(&[2]));
    for module in index.modules.values() {
        assert!(module.in_port_nets.is_empty() && module.out_port_nets.is_empty());
    }
}

#[test]
fn linking_twice_changes_nothing_more() {
    let d = design(vec![logic(&[], &[2], &[2]), logic(&[2], &[4], &[3])]);
    let alloc = Bump::new();
    let mut index = HierarchyIndex::new(&d, NONE);
    index.flat_regime = false;
    index.add_cell(&alloc, 0);
    index.add_cell(&alloc, 1);
    for _ in 0..2 {
        index.link_net_to_scope(2, 4);
        assert_eq!(index.modules[&2].out_port_nets, set(&[2]));
        assert_eq!(index.modules[&1].out_port_nets, set(&[2]));
        assert_eq!(index.modules[&4].in_port_nets, set(&[2]));
        assert_eq!(index.modules[&NONE].present_nets, set(&[2]));
        assert_eq!(index.modules[&4].present_nets, set(&[2, 3]));
    }
}
