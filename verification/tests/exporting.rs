use bumpalo::Bump;
use verilogout::export::{export, export_module, find_top_scope};
use verilogout::hierarchy::HierarchyIndex;
use verilogout::netlist::{
    Cell, CellEntry, Design, Instance, MetaItem, Net, ParamValue, SourcePosition, NONE, UNDEF_NET,
};
use verilogout::validity::{is_exportable, is_well_formed};

fn entry(cell: Cell, metadata: &[usize], output: &[Net]) -> CellEntry {
    CellEntry { cell, metadata: metadata.to_vec(), output: output.to_vec() }
}

fn input(name: &str, output: &[Net]) -> CellEntry {
    entry(Cell::Input(name.to_string(), output.len()), &[], output)
}

fn output(name: &str, value: &[Net]) -> CellEntry {
    entry(Cell::Output(name.to_string(), value.to_vec()), &[], &[])
}

fn instance(kind: &str, inputs: &[(&str, &[Net])], outputs: &[(&str, (usize, usize))]) -> Cell {
    Cell::Other(Instance {
        kind: kind.to_string(),
        params: vec![],
        inputs: inputs.iter().map(|(name, value)| (name.to_string(), value.to_vec())).collect(),
        outputs: outputs.iter().map(|(name, range)| (name.to_string(), *range)).collect(),
        ios: vec![],
    })
}

fn ident(name: &str, scope: usize) -> MetaItem {
    MetaItem::Ident { name: name.to_string(), scope }
}

fn named_scope(name: &str, parent: usize) -> MetaItem {
    MetaItem::NamedScope { name: name.to_string(), parent }
}

fn exported_text(design: &Design) -> String {
    assert!(is_exportable(design));
    let alloc = Bump::new();
    let unit = export(design, &alloc);
    let mut text = String::new();
    unit.fmt(&mut text);
    text
}

fn adder() -> Design {
    Design {
        metadata: vec![
            MetaItem::Empty,
            ident("sum", NONE),
            MetaItem::Source {
                file: "a.v".to_string(),
                start: SourcePosition { line: 0, column: 0 },
                end: SourcePosition { line: 2, column: 9 },
            },
            MetaItem::Attr {
                name: "keep".to_string(),
                value: ParamValue::Text("yes".to_string()),
            },
        ],
        cells: vec![
            input("a", &[2, 3]),
            input("_00001_", &[4]),
            entry(
                instance("ADD", &[("A", &[2, 3]), ("B", &[4])], &[("Y", (0, 2))]),
                &[2, 3],
                &[5, 6],
            ),
            entry(Cell::Name("sum".to_string(), vec![5]), &[1], &[]),
            output("y", &[5, 6]),
        ],
    }
}

#[test]
fn flat_design_becomes_one_module() {
    assert_eq!(
        exported_text(&adder()),
        "module \\top (\n\
         \x20 \\a ,\n\
         \x20 \\_00001_ ,\n\
         \x20 \\y \n\
         );\n\
         \x20 input [1:0] \\a ;\n\
         \x20 input \\_00001_ ;\n\
         \x20 output [1:0] \\y ;\n\
         \x20 wire \\_00000_ ;\n\
         \x20 wire \\_00002_ ;\n\
         \x20 wire \\_00003_ ;\n\
         \x20 wire \\sum ;\n\
         \x20 wire \\_00004_ ;\n\
         \x20 assign {\\_00002_ , \\_00000_ } = \\a ;\n\
         \x20 assign \\_00003_  = \\_00001_ ;\n\
         \x20 assign \\y  = {\\_00004_ , \\sum };\n\
         \x20 (* keep = \"yes\" *)\n\
         (* src = \"a.v:1.1-3.10\" *)\n\
         \\ADD \\_00005_ (\n\
         \x20   .\\A ({\\_00000_ , \\_00002_ }),\n\
         \x20   .\\B ({\\_00003_ }),\n\
         \x20   .\\Y ({\\sum , \\_00004_ })\n\
         \x20 );\n\
         endmodule\n\n"
    );
}

#[test]
fn exported_unit_has_exactly_one_module() {
    let design = adder();
    let alloc = Bump::new();
    let unit = export(&design, &alloc);
    assert_eq!(unit.0.len(), 1);
    assert_eq!(unit.0[0].name, "top");
    assert_eq!(unit.0[0].port_members.len(), 3);
    assert_eq!(unit.0[0].members.len(), 9);
}

#[test]
fn innermost_common_scope_is_the_top() {
    let design = Design {
        metadata: vec![MetaItem::Empty, named_scope("core", NONE), named_scope("alu", 1)],
        cells: vec![
            input("i", &[2]),
            entry(instance("BUF", &[("A", &[2])], &[("Y", (0, 1))]), &[2], &[3]),
            entry(instance("BUF", &[("A", &[3])], &[("Y", (0, 1))]), &[1], &[4]),
            output("o", &[2]),
        ],
    };
    assert_eq!(find_top_scope(&design), 1);
    assert_eq!(
        exported_text(&design),
        "module \\top.core (\n\
         \x20 \\i ,\n\
         \x20 \\o \n\
         );\n\
         \x20 input \\i ;\n\
         \x20 output \\o ;\n\
         \x20 assign \\_00000_  = \\i ;\n\
         \x20 assign \\o  = \\_00000_ ;\n\
         endmodule\n\n"
    );
}

#[test]
fn unread_input_is_declared_inside_a_scope() {
    let design = Design {
        metadata: vec![MetaItem::Empty, named_scope("core", NONE)],
        cells: vec![
            input("i", &[2]),
            input("unused", &[7]),
            entry(instance("BUF", &[("A", &[2])], &[("Y", (0, 1))]), &[1], &[3]),
        ],
    };
    assert_eq!(
        exported_text(&design),
        "module \\top.core (\n\
         \x20 \\i ,\n\
         \x20 \\unused \n\
         );\n\
         \x20 input \\i ;\n\
         \x20 input \\unused ;\n\
         \x20 wire \\_00001_ ;\n\
         \x20 assign \\_00000_  = \\i ;\n\
         \x20 assign \\_00001_  = \\unused ;\n\
         endmodule\n\n"
    );
}

#[test]
fn top_scope_ignores_inputs_and_outputs() {
    let mut design = adder();
    assert_eq!(find_top_scope(&design), NONE);
    design.cells.truncate(2);
    assert_eq!(find_top_scope(&design), NONE);
    design.metadata.push(named_scope("core", NONE));
    design.cells.push(entry(instance("X", &[], &[]), &[4], &[]));
    assert_eq!(find_top_scope(&design), 4);
}

#[test]
fn later_label_wins_and_wide_or_reserved_labels_are_ignored() {
    let design = Design {
        metadata: vec![
            MetaItem::Empty,
            ident("first", NONE),
            ident("second", NONE),
            ident("a", NONE),
            ident("wide", NONE),
        ],
        cells: vec![
            input("a", &[2, 3]),
            entry(Cell::Name("x".to_string(), vec![2]), &[1], &[]),
            entry(Cell::Debug("x".to_string(), vec![2]), &[2, 1], &[]),
            entry(Cell::Name("x".to_string(), vec![3]), &[3], &[]),
            entry(Cell::Name("x".to_string(), vec![2, 3]), &[4], &[]),
            entry(Cell::Name("x".to_string(), vec![3]), &[], &[]),
        ],
    };
    assert_eq!(
        exported_text(&design),
        "module \\top (\n\
         \x20 \\a \n\
         );\n\
         \x20 input [1:0] \\a ;\n\
         \x20 wire \\second ;\n\
         \x20 wire \\_00000_ ;\n\
         \x20 assign {\\_00000_ , \\second } = \\a ;\n\
         endmodule\n\n"
    );
}

#[test]
fn gates_are_declared_but_not_written() {
    let design = Design {
        metadata: vec![MetaItem::Empty],
        cells: vec![input("a", &[2]), entry(Cell::Fine(vec![2, 0]), &[], &[3]), output("y", &[3])],
    };
    assert_eq!(
        exported_text(&design),
        "module \\top (\n\
         \x20 \\a ,\n\
         \x20 \\y \n\
         );\n\
         \x20 input \\a ;\n\
         \x20 output \\y ;\n\
         \x20 wire \\_00000_ ;\n\
         \x20 wire \\_00001_ ;\n\
         \x20 assign \\_00000_  = \\a ;\n\
         \x20 assign \\y  = \\_00001_ ;\n\
         endmodule\n\n"
    );
}

#[test]
fn constant_can_be_written_once_it_is_labelled() {
    let mut design = Design {
        metadata: vec![MetaItem::Empty, ident("tied", NONE)],
        cells: vec![output("y", &[UNDEF_NET])],
    };
    assert!(!is_exportable(&design));
    design.cells.push(entry(Cell::Debug("t".to_string(), vec![UNDEF_NET]), &[1], &[]));
    assert_eq!(
        exported_text(&design),
        "module \\top (\n\
         \x20 \\y \n\
         );\n\
         \x20 output \\y ;\n\
         \x20 assign \\y  = \\tied ;\n\
         endmodule\n\n"
    );
}

#[test]
fn empty_stretches_and_empty_inputs_are_empty_concatenations() {
    let design = Design {
        metadata: vec![MetaItem::Empty],
        cells: vec![entry(
            instance("X", &[("A", &[])], &[("P", (1, 1)), ("Q", (9, 3)), ("R", (1, 2))]),
            &[],
            &[2, 3],
        )],
    };
    assert_eq!(
        exported_text(&design),
        "module \\top (\n\
         );\n\
         \x20 wire \\_00000_ ;\n\
         \x20 wire \\_00001_ ;\n\
         \x20 \\X \\_00002_ (\n\
         \x20   .\\A ({}),\n\
         \x20   .\\P ({}),\n\
         \x20   .\\Q ({}),\n\
         \x20   .\\R ({\\_00001_ })\n\
         \x20 );\n\
         endmodule\n\n"
    );
}

#[test]
fn made_up_names_stay_distinct_and_skip_ports() {
    let mut design = Design { metadata: vec![MetaItem::Empty], cells: vec![] };
    design.cells.push(input("_00000_", &[2]));
    design.cells.push(input("_00001_", &[3]));
    design.cells.push(input("_00003_", &[4]));
    design.cells.push(entry(instance("X", &[], &[]), &[], &[]));
    design.cells.push(entry(instance("Y", &[], &[]), &[], &[]));
    let text = exported_text(&design);
    assert!(text.contains("assign \\_00002_  = \\_00000_ ;"));
    assert!(text.contains("assign \\_00004_  = \\_00001_ ;"));
    assert!(text.contains("assign \\_00005_  = \\_00003_ ;"));
    assert!(text.contains("\\X \\_00006_ ("));
    assert!(text.contains("\\Y \\_00007_ ("));
}

fn nested() -> Design {
    Design {
        metadata: vec![
            MetaItem::Empty,
            named_scope("u", NONE),
            MetaItem::IndexedScope { index: 3, parent: 1 },
        ],
        cells: vec![
            input("x", &[2]),
            entry(instance("BUF", &[("A", &[2])], &[("Y", (0, 1))]), &[1], &[3]),
            entry(instance("INV", &[("A", &[3])], &[("Y", (0, 1))]), &[2], &[4]),
            output("z", &[4]),
        ],
    }
}

#[test]
fn hierarchy_is_exported_inside_out() {
    let design = nested();
    let alloc = Bump::new();
    let mut index = HierarchyIndex::new(&design, NONE);
    index.flat_regime = false;
    for c in 0..design.cells.len() {
        index.add_cell(&alloc, c);
    }
    for c in 0..design.cells.len() {
        index.link_cell_inputs(c);
    }
    let order = index.visit_hierarchy(NONE);
    assert_eq!(order, vec![2, 1, 0]);
    let mut text = String::new();
    for scope in order {
        export_module(&alloc, &mut index, scope);
        index.modules[&scope].cst.as_ref().unwrap().fmt(&mut text);
    }
    assert_eq!(index.modules[&2].interface, Some(vec![3, 4]));
    assert_eq!(index.modules[&1].interface, Some(vec![2, 4]));
    assert_eq!(index.modules[&0].interface, None);
    assert_eq!(
        text,
        "module \\top.u[3] (\n\
         \x20 \\_00000_ ,\n\
         \x20 \\_00001_ \n\
         );\n\
         \x20 input \\_00000_ ;\n\
         \x20 output \\_00001_ ;\n\
         \x20 \\INV \\_00002_ (\n\
         \x20   .\\A ({\\_00000_ }),\n\
         \x20   .\\Y ({\\_00001_ })\n\
         \x20 );\n\
         endmodule\n\n\
         module \\top.u (\n\
         \x20 \\_00000_ ,\n\
         \x20 \\top.u[3]._00001_ \n\
         );\n\
         \x20 input \\_00000_ ;\n\
         \x20 output \\top.u[3]._00001_ ;\n\
         \x20 wire \\top.u[3]._00000_ ;\n\
         \x20 \\top.u[3] \\top.u[3] (\n\
         \x20   .\\_00000_ (\\top.u[3]._00000_ ),\n\
         \x20   .\\_00001_ (\\top.u[3]._00001_ )\n\
         \x20 );\n\
         \x20 \\BUF \\_00001_ (\n\
         \x20   .\\A ({\\_00000_ }),\n\
         \x20   .\\Y ({\\top.u[3]._00000_ })\n\
         \x20 );\n\
         endmodule\n\n\
         module \\top (\n\
         \x20 \\x ,\n\
         \x20 \\z \n\
         );\n\
         \x20 input \\x ;\n\
         \x20 output \\z ;\n\
         \x20 wire \\top.u._00000_ ;\n\
         \x20 wire \\top.u.top.u[3]._00001_ ;\n\
         \x20 assign \\top.u._00000_  = \\x ;\n\
         \x20 assign \\z  = \\top.u.top.u[3]._00001_ ;\n\
         \x20 \\top.u \\top.u (\n\
         \x20   .\\_00000_ (\\top.u._00000_ ),\n\
         \x20   .\\top.u[3]._00001_ (\\top.u.top.u[3]._00001_ )\n\
         \x20 );\n\
         endmodule\n\n"
    );
}

#[test]
fn design_without_cells_cannot_be_exported() {
    let design = Design { metadata: vec![MetaItem::Empty], cells: vec![] };
    assert!(is_well_formed(&design));
    assert!(!is_exportable(&design));
}

#[test]
fn scoped_design_without_ports_cannot_be_exported() {
    let mut design = Design {
        metadata: vec![MetaItem::Empty, named_scope("core", NONE)],
        cells: vec![entry(instance("X", &[], &[]), &[1], &[2])],
    };
    assert!(!is_exportable(&design));
    design.cells.push(input("i", &[3]));
    assert!(is_exportable(&design));
}

#[test]
fn broken_metadata_is_not_well_formed() {
    let broken = |metadata: Vec<MetaItem>, items: &[usize]| {
        !is_well_formed(&Design {
            metadata,
            cells: vec![entry(instance("X", &[], &[]), items, &[])],
        })
    };
    assert!(broken(vec![], &[]));
    assert!(broken(vec![ident("a", NONE)], &[]));
    assert!(broken(vec![MetaItem::Empty, named_scope("a", 1)], &[]));
    assert!(broken(vec![MetaItem::Empty, ident("a", NONE), named_scope("b", 1)], &[]));
    assert!(broken(vec![MetaItem::Empty, MetaItem::IndexedScope { index: 0, parent: 7 }], &[]));
    assert!(broken(vec![MetaItem::Empty, ident("a", 9)], &[]));
    assert!(broken(vec![MetaItem::Empty], &[1]));
    assert!(!broken(vec![MetaItem::Empty, ident("a", 2), named_scope("b", NONE)], &[2, 1, 0]));
}

#[test]
fn cells_without_verilog_form_cannot_be_exported() {
    let refused = |cell: Cell, output: &[Net]| {
        !is_exportable(&Design {
            metadata: vec![MetaItem::Empty],
            cells: vec![entry(cell, &[], output)],
        })
    };
    assert!(refused(Cell::Coarse(vec![]), &[2]));
    assert!(refused(Cell::Input("a".to_string(), 0), &[]));
    assert!(refused(Cell::Output("a".to_string(), vec![]), &[]));
    assert!(refused(instance("X", &[("A", &[5])], &[]), &[2]));
    assert!(refused(instance("X", &[("A", &[0])], &[]), &[2]));
    assert!(refused(instance("X", &[], &[("Y", (0, 2))]), &[2]));
    assert!(!refused(instance("X", &[], &[("Y", (0, 1))]), &[2]));
    assert!(refused(
        Cell::Other(Instance {
            kind: "X".to_string(),
            params: vec![("P".to_string(), ParamValue::Other)],
            inputs: vec![],
            outputs: vec![],
            ios: vec![],
        }),
        &[]
    ));
    assert!(refused(
        Cell::Other(Instance {
            kind: "X".to_string(),
            params: vec![],
            inputs: vec![],
            outputs: vec![],
            ios: vec![("PAD".to_string(), vec![0])],
        }),
        &[]
    ));
    assert!(refused(Cell::Fine(vec![9]), &[2]));
}

#[test]
fn attributes_must_be_strings_and_positions_must_be_countable() {
    let with_item = |item: MetaItem| Design {
        metadata: vec![MetaItem::Empty, item],
        cells: vec![entry(instance("X", &[], &[]), &[1], &[])],
    };
    let source = |line: u32| MetaItem::Source {
        file: "f".to_string(),
        start: SourcePosition { line: 0, column: 0 },
        end: SourcePosition { line, column: 0 },
    };
    let number = MetaItem::Attr { name: "n".to_string(), value: ParamValue::Other };
    assert!(!is_exportable(&with_item(number)));
    assert!(!is_exportable(&with_item(source(u32::MAX))));
    assert!(is_exportable(&with_item(source(u32::MAX - 1))));
}

#[test]
fn labels_take_precedence_over_ports_of_submodules() {
    let mut design = nested();
    design.metadata.push(ident("mid", 1));
    design.cells.push(entry(Cell::Name("mid".to_string(), vec![3]), &[3], &[]));
    let alloc = Bump::new();
    let mut index = HierarchyIndex::new(&design, NONE);
    index.flat_regime = false;
    for c in 0..design.cells.len() {
        index.add_cell(&alloc, c);
    }
    for c in 0..design.cells.len() {
        index.link_cell_inputs(c);
    }
    for scope in index.visit_hierarchy(NONE) {
        export_module(&alloc, &mut index, scope);
    }
    let mut text = String::new();
    index.modules[&1].cst.as_ref().unwrap().fmt(&mut text);
    assert!(text.contains("  wire \\mid ;\n"));
    assert!(text.contains(".\\_00000_ (\\mid )"));
}

#[test]
fn exported_units_can_be_written() {
    let design = adder();
    let alloc = Bump::new();
    assert!(export(&design, &alloc).is_printable());
}

#[test]
fn nets_beyond_the_ports_of_a_submodule_are_ignored() {
    let design = nested();
    let alloc = Bump::new();
    let mut index = HierarchyIndex::new(&design, NONE);
    index.flat_regime = false;
    for c in 0..design.cells.len() {
        index.add_cell(&alloc, c);
    }
    for c in 0..design.cells.len() {
        index.link_cell_inputs(c);
    }
    export_module(&alloc, &mut index, 2);
    index.modules.get_mut(&2).unwrap().interface.as_mut().unwrap().push(2);
    export_module(&alloc, &mut index, 1);
    let mut text = String::new();
    index.modules[&1].cst.as_ref().unwrap().fmt(&mut text);
    assert!(text.contains(
        "  \\top.u[3] \\top.u[3] (\n    .\\_00000_ (\\top.u[3]._00000_ ),\n    .\\_00001_ (\\top.u[3]._00001_ )\n  );\n"
    ));
    assert_eq!(index.modules[&1].interface, Some(vec![2, 4]));
}
