use bumpalo::Bump;
use verilogout::arena::intern;
use verilogout::cst::{
    Assign, Attrs, Concat, Expression, Input, Instantiation, Member, Module, NamedValue, Output,
    PendingNet, Range, Unit, Wire,
};
use verilogout::naming::{contains_text, next_name, Counter};
use verilogout::text::{join, push_decimal, push_padded, push_signed};

fn no_attrs() -> Attrs<'static> {
    Attrs(vec![])
}

fn one_bit() -> Range {
    Range { msb: 0, lsb: 0 }
}

fn member_text(member: &Member) -> String {
    let mut text = String::new();
    member.fmt(&mut text);
    text
}

#[test]
fn ranges_count_both_bounds() {
    assert_eq!(Range { msb: 7, lsb: 0 }.len(), 8);
    assert_eq!(Range { msb: 0, lsb: 7 }.len(), 8);
    assert_eq!(Range { msb: 3, lsb: 3 }.len(), 1);
}

#[test]
fn ranges_of_one_bit_at_zero_are_not_written() {
    let text = |range: Range| {
        let mut text = String::new();
        range.fmt(&mut text);
        text
    };
    assert_eq!(text(one_bit()), "");
    assert_eq!(text(Range { msb: 10, lsb: 2 }), " [10:2]");
    assert_eq!(text(Range { msb: 0, lsb: 5 }), " [0:5]");
    assert_eq!(text(Range { msb: 1, lsb: 1 }), " [1:1]");
}

#[test]
fn value_of_one_net_stands_alone_and_others_are_reversed() {
    assert!(matches!(Expression::from_value(&vec![9]), PendingNet(9)));
    match Expression::from_value(&vec![4, 5, 6]) {
        Concat(parts) => {
            assert_eq!(parts.len(), 3);
            assert!(matches!(parts[0], PendingNet(6)));
            assert!(matches!(parts[1], PendingNet(5)));
            assert!(matches!(parts[2], PendingNet(4)));
        }
        _ => unreachable!(),
    }
}

#[test]
fn expressions_are_written_with_escaped_names() {
    let mut text = String::new();
    Concat(vec![NamedValue("a"), NamedValue("b.c"), Concat(vec![])]).fmt(&mut text);
    assert_eq!(text, "{\\a , \\b.c , {}}");
}

#[test]
fn attributes_are_written_line_by_line() {
    let mut text = String::from(">");
    Attrs(vec![("a", "1"), ("src", "x")]).fmt(&mut text);
    assert_eq!(text, ">(* a = \"1\" *)\n(* src = \"x\" *)\n");
}

#[test]
fn members_are_written_without_semicolon() {
    assert_eq!(member_text(&Input(no_attrs(), "i", Range { msb: 3, lsb: 0 })), "input [3:0] \\i ");
    assert_eq!(member_text(&Output(no_attrs(), "o", one_bit())), "output \\o ");
    assert_eq!(
        member_text(&Wire(Attrs(vec![("k", "v")]), "w", one_bit())),
        "(* k = \"v\" *)\nwire \\w "
    );
    assert_eq!(
        member_text(&Assign(NamedValue("x"), NamedValue("y"))),
        "assign \\x  = \\y "
    );
    assert_eq!(
        member_text(&Instantiation(
            no_attrs(),
            "T",
            "u",
            vec![("p", NamedValue("x")), ("q", Concat(vec![NamedValue("y")]))]
        )),
        "\\T \\u (\n    .\\p (\\x ),\n    .\\q ({\\y })\n  )"
    );
    assert_eq!(member_text(&Instantiation(no_attrs(), "T", "u", vec![])), "\\T \\u (\n  )");
}

#[test]
fn modules_of_a_unit_follow_one_another() {
    let unit = Unit(vec![
        Module { name: "m", port_members: vec![], members: vec![] },
        Module {
            name: "n",
            port_members: vec![Input(no_attrs(), "i", one_bit())],
            members: vec![Wire(no_attrs(), "w", one_bit())],
        },
    ]);
    let mut text = String::new();
    unit.fmt(&mut text);
    assert_eq!(
        text,
        "module \\m (\n);\nendmodule\n\n\
         module \\n (\n  \\i \n);\n  input \\i ;\n  wire \\w ;\nendmodule\n\n"
    );
}

#[test]
fn visits_reach_parts_before_the_whole() {
    let mut seen: Vec<String> = vec![];
    let mut member = Assign(
        Concat(vec![PendingNet(1), NamedValue("a")]),
        PendingNet(2),
    );
    member.visit_expressions(&mut |expr| {
        seen.push(format!("{:?}", expr));
        if let PendingNet(net) = expr {
            *expr = if *net == 1 { NamedValue("one") } else { NamedValue("two") };
        }
    });
    assert_eq!(
        seen,
        vec![
            "PendingNet(1)",
            "NamedValue(\"a\")",
            "Concat([NamedValue(\"one\"), NamedValue(\"a\")])",
            "PendingNet(2)",
        ]
    );
    assert_eq!(member_text(&member), "assign {\\one , \\a } = \\two ");
}

#[test]
fn visits_reach_connections_but_no_declarations() {
    let mut count = 0;
    let mut instance = Instantiation(
        no_attrs(),
        "T",
        "u",
        vec![("p", PendingNet(3)), ("q", Concat(vec![PendingNet(3), PendingNet(4)]))],
    );
    instance.visit_expressions(&mut |_| count += 1);
    assert_eq!(count, 4);
    Wire(no_attrs(), "w", one_bit()).visit_expressions(&mut |_| count += 1);
    assert_eq!(count, 4);
}

#[test]
fn visits_do_not_descend_into_inner_concatenations() {
    let mut expression = Concat(vec![Concat(vec![PendingNet(5)])]);
    let mut count = 0;
    expression.visit_expressions(&mut |_| count += 1);
    assert_eq!(count, 2);
}

#[test]
fn counters_hand_out_each_number_once() {
    let mut counter = Counter(0);
    assert_eq!(counter.advance(), 0);
    assert_eq!(counter.advance(), 1);
    assert_eq!(counter.0, 2);
}

#[test]
fn next_names_pass_over_ports() {
    let alloc = Bump::new();
    let ports = vec!["_00000_", "clk", "_00002_", "_00003_"];
    let mut counter = Counter(0);
    assert_eq!(next_name(&alloc, &mut counter, &ports), "_00001_");
    assert_eq!(next_name(&alloc, &mut counter, &ports), "_00004_");
    assert_eq!(counter.0, 5);
    let mut late = Counter(123456);
    assert_eq!(next_name(&alloc, &mut late, &ports), "_123456_");
}

#[test]
fn texts_are_found_by_their_characters() {
    let list = vec!["a", "bc"];
    assert!(contains_text(&list, &String::from("bc")));
    assert!(!contains_text(&list, "b"));
    assert!(!contains_text(&list, ""));
    assert!(!contains_text(&vec![], "a"));
}

#[test]
fn interned_strings_keep_their_text() {
    let alloc = Bump::new();
    let first = intern(&alloc, String::from("one"));
    let second = intern(&alloc, String::from("two"));
    assert_eq!((first, second), ("one", "two"));
}

#[test]
fn numbers_are_written_in_decimal() {
    let mut text = String::new();
    push_decimal(&mut text, 0);
    text.push(' ');
    push_decimal(&mut text, u64::MAX);
    text.push(' ');
    push_signed(&mut text, i32::MIN);
    text.push(' ');
    push_signed(&mut text, 42);
    text.push(' ');
    push_padded(&mut text, 42, 5);
    text.push(' ');
    push_padded(&mut text, 1234567, 5);
    assert_eq!(text, "0 18446744073709551615 -2147483648 42 00042 1234567");
}

#[test]
fn parts_are_joined_by_the_separator() {
    let parts = |list: &[&str]| list.iter().map(|s| s.to_string()).collect::<Vec<String>>();
    assert_eq!(join(&parts(&[]), "|"), "");
    assert_eq!(join(&parts(&["a"]), "|"), "a");
    assert_eq!(join(&parts(&["a", "", "c"]), "|"), "a||c");
}

#[test]
fn nets_without_names_cannot_be_written() {
    assert!(!PendingNet(2).is_resolved());
    assert!(!Concat(vec![NamedValue("a"), Concat(vec![PendingNet(2)])]).is_resolved());
    assert!(Concat(vec![NamedValue("a"), Concat(vec![])]).is_resolved());
    assert!(!Assign(NamedValue("a"), PendingNet(2)).is_resolved());
    assert!(!Instantiation(no_attrs(), "T", "u", vec![("p", PendingNet(2))]).is_resolved());
    let unit = |port: Member<'static>, member: Member<'static>| {
        Unit(vec![Module { name: "m", port_members: vec![port], members: vec![member] }])
    };
    let input = || Input(no_attrs(), "i", one_bit());
    let wire = || Wire(no_attrs(), "w", one_bit());
    assert!(unit(input(), wire()).is_printable());
    assert!(!unit(wire(), wire()).is_printable());
    assert!(!unit(input(), Assign(NamedValue("a"), PendingNet(2))).is_printable());
}
