//! What holds of the syntax tree: its visits, and its text piece by piece.

use vstd::prelude::*;

use crate::cst::{
    attrs_text, body_text, connections_text, connections_view, expression_text, member_related,
    member_resolved, member_text, module_printable, module_text, parts_related, parts_text,
    port_list_text, port_name, range_text, resolved, unit_printable, unit_text,
    value_expression, visit_related, Attrs, AttrsView, Connections, ConnectionsView,
    Expression, ExpressionView, Member, MemberView, Module, ModuleView, Range, Unit,
};
use crate::netlist::Net;
use crate::text::decimal;

verus! {

/// The expression for a single net is that net. For more it is a concatenation of as many parts,
/// and bit `k` of the value is the part that has `k` parts behind it.
pub proof fn bits_keep_their_significance(value: Seq<Net>, k: int)
    requires
        0 <= k < value.len(),
    ensures
        value.len() == 1 ==> value_expression(value) == ExpressionView::PendingNet(value[0]),
        value.len() > 1 ==> {
            &&& value_expression(value) matches ExpressionView::Concat(parts)
            &&& parts.len() == value.len()
            &&& parts[value.len() - 1 - k] == ExpressionView::PendingNet(value[k])
        },
{
}

/// Bounds that differ by `n` hold `n` wires and one more, whichever is the larger.
pub proof fn bounds_are_both_counted(low: usize, high: usize)
    requires
        low <= high,
    ensures
        (Range { msb: high, lsb: low }).width() == high - low + 1,
        (Range { msb: low, lsb: high }).width() == high - low + 1,
{
}

/// The view of a concatenation has a part for each of its parts, and a name or net shows as it is.
pub proof fn expressions_show_every_part<'a>(e: Expression<'a>)
    ensures
        match e {
            Expression::NamedValue(name) => e@ == ExpressionView::NamedValue(name@),
            Expression::PendingNet(net) => e@ == ExpressionView::PendingNet(net),
            Expression::Concat(parts) => {
                &&& e@ matches ExpressionView::Concat(views)
                &&& views.len() == parts@.len()
                &&& forall|i: int| 0 <= i < parts@.len() ==> #[trigger] views[i] == parts@[i]@
            },
        },
{
}

/// The view of a member shows all of it.
pub proof fn members_show_everything<'a>(m: Member<'a>)
    ensures
        match m {
            Member::Output(attrs, name, range) => m@ == MemberView::Output(attrs@, name@, range),
            Member::Input(attrs, name, range) => m@ == MemberView::Input(attrs@, name@, range),
            Member::Wire(attrs, name, range) => m@ == MemberView::Wire(attrs@, name@, range),
            Member::Assign(left, right) => m@ == MemberView::Assign(left@, right@),
            Member::Instantiation(attrs, type_, name, conns) => {
                &&& m@ == MemberView::Instantiation(
                    attrs@,
                    type_@,
                    name@,
                    connections_view(conns@),
                )
                &&& connections_view(conns@).len() == conns@.len()
                &&& forall|i: int|
                    0 <= i < conns@.len() ==> #[trigger] connections_view(conns@)[i] == (
                        conns@[i].0@,
                        conns@[i].1@,
                    )
            },
        },
{
}

/// The views of attributes, modules and source files show all of them, in order.
pub proof fn units_show_everything<'a>(attrs: Attrs<'a>, module: Module<'a>, unit: Unit<'a>)
    ensures
        attrs@.len() == attrs.0@.len(),
        forall|i: int|
            0 <= i < attrs.0@.len() ==> #[trigger] attrs@[i] == (attrs.0@[i].0@, attrs.0@[i].1@),
        module@.name == module.name@,
        module@.port_members.len() == module.port_members@.len(),
        forall|i: int|
            0 <= i < module.port_members@.len() ==> #[trigger] module@.port_members[i]
                == module.port_members@[i]@,
        module@.members.len() == module.members@.len(),
        forall|i: int|
            0 <= i < module.members@.len() ==> #[trigger] module@.members[i]
                == module.members@[i]@,
        unit@.len() == unit.0@.len(),
        forall|i: int| 0 <= i < unit.0@.len() ==> #[trigger] unit@[i] == unit.0@[i]@,
{
}

/// A visit to a concatenation calls the function on each of its parts and then on what they have
/// become; a visit to another expression is one call.
pub proof fn visits_reach_every_part<'a>(
    rel: spec_fn(Expression<'a>, Expression<'a>) -> bool,
    before: Expression<'a>,
    after: Expression<'a>,
)
    ensures
        visit_related(rel, before, after) <==> match before {
            Expression::Concat(parts) => exists|mid: Vec<Expression<'a>>|
                mid@.len() == parts@.len() && (forall|i: int|
                    0 <= i < parts@.len() ==> rel(parts@[i], #[trigger] mid@[i]))
                    && #[trigger] rel(Expression::Concat(mid), after),
            _ => rel(before, after),
        },
{
    if let Expression::Concat(parts) = before {
        if visit_related(rel, before, after) {
            let mid = choose|mid: Vec<Expression<'a>>| #[trigger]
                parts_related(rel, parts@, mid@) && rel(
                    Expression::Concat(mid),
                    after,
                );
            assert forall|i: int| 0 <= i < parts@.len() implies rel(
                parts@[i],
                #[trigger] mid@[i],
            ) by {
                assert(rel(parts@[i], mid@[i]));
            }
            assert(rel(Expression::Concat(mid), after));
        }
        if exists|mid: Vec<Expression<'a>>|
            mid@.len() == parts@.len() && (forall|i: int|
                0 <= i < parts@.len() ==> rel(parts@[i], #[trigger] mid@[i]))
                && #[trigger] rel(Expression::Concat(mid), after) {
            let mid = choose|mid: Vec<Expression<'a>>|
                mid@.len() == parts@.len() && (forall|i: int|
                    0 <= i < parts@.len() ==> rel(parts@[i], #[trigger] mid@[i]))
                    && #[trigger] rel(Expression::Concat(mid), after);
            assert forall|i: int| 0 <= i < parts@.len() implies rel(
                #[trigger] parts@[i],
                mid@[i],
            ) by {
                assert(rel(parts@[i], mid@[i]));
            }
            assert(parts_related(rel, parts@, mid@));
        }
    }
}

/// A visit to a member visits both sides of an assignment and every connection of an instance, and
/// changes nothing else.
pub proof fn visits_reach_every_expression<'a>(
    rel: spec_fn(Expression<'a>, Expression<'a>) -> bool,
    before: Member<'a>,
    after: Member<'a>,
)
    requires
        member_related(rel, before, after),
    ensures
        match before {
            Member::Assign(left, right) => {
                &&& after matches Member::Assign(left1, right1)
                &&& visit_related(rel, left, left1)
                &&& visit_related(rel, right, right1)
            },
            Member::Instantiation(attrs, type_, name, conns) => {
                &&& after matches Member::Instantiation(attrs1, type1, name1, conns1)
                &&& attrs1 == attrs && type1 == type_ && name1 == name
                &&& conns1@.len() == conns@.len()
                &&& forall|i: int|
                    0 <= i < conns@.len() ==> (#[trigger] conns1@[i]).0 == conns@[i].0
                        && visit_related(rel, conns@[i].1, conns1@[i].1)
            },
            _ => after == before,
        },
{
}

/// A member or module can be written exactly if none of its expressions is or contains a net
/// without a name and its ports are inputs and outputs.
pub proof fn nets_need_names(e: ExpressionView, m: MemberView, module: ModuleView)
    ensures
        resolved(e) <==> match e {
            ExpressionView::NamedValue(_) => true,
            ExpressionView::PendingNet(_) => false,
            ExpressionView::Concat(parts) => forall|i: int|
                0 <= i < parts.len() ==> resolved(#[trigger] parts[i]),
        },
        member_resolved(m) <==> match m {
            MemberView::Assign(left, right) => resolved(left) && resolved(right),
            MemberView::Instantiation(_, _, _, conns) => forall|i: int|
                0 <= i < conns.len() ==> resolved((#[trigger] conns[i]).1),
            _ => true,
        },
        module_printable(module) <==> {
            &&& forall|i: int|
                0 <= i < module.port_members.len() ==> #[trigger] module.port_members[i] is Input
                    || module.port_members[i] is Output
            &&& forall|i: int|
                0 <= i < module.members.len() ==> member_resolved(#[trigger] module.members[i])
        },
        unit_printable(seq![module]) <==> module_printable(module),
{
    if module_printable(module) {
        assert forall|i: int|
            0 <= i < module.port_members.len() implies #[trigger] module.port_members[i] is Input
            || module.port_members[i] is Output by {
            assert(port_name(module.port_members[i]) is Some);
        }
        assert(unit_printable(seq![module]));
    } else if unit_printable(seq![module]) {
        assert(module_printable(seq![module][0]));
    }
}

/// A source file can be written exactly if each of its modules can.
pub proof fn units_need_every_module(u: Seq<ModuleView>)
    ensures
        unit_printable(u) <==> forall|i: int| 0 <= i < u.len() ==> module_printable(
            #[trigger] u[i],
        ),
{
}

/// A name is escaped: a backslash before it and a space behind it. A concatenation stands in
/// braces.
pub proof fn names_are_escaped(name: Seq<char>, parts: Seq<ExpressionView>)
    ensures
        expression_text(ExpressionView::NamedValue(name)) == seq!['\\'] + name + seq![' '],
        expression_text(ExpressionView::Concat(parts)) == seq!['{'] + parts_text(parts) + seq!['}'],
{
    reveal_strlit("\\");
    reveal_strlit(" ");
    reveal_strlit("{");
    reveal_strlit("}");
    assert("\\"@ =~= seq!['\\']);
    assert(" "@ =~= seq![' ']);
    assert("{"@ =~= seq!['{']);
    assert("}"@ =~= seq!['}']);
}

/// The parts of a concatenation are written one behind the other with a comma and a space between.
pub proof fn parts_are_written_in_order(
    first: Seq<ExpressionView>,
    second: Seq<ExpressionView>,
    e: ExpressionView,
)
    ensures
        first.len() > 0 && second.len() > 0 ==> parts_text(first + second) == parts_text(first)
            + seq![',', ' '] + parts_text(second),
        parts_text(seq![e]) == expression_text(e),
        parts_text(seq![]) == Seq::<char>::empty(),
    decreases second.len(),
{
    reveal_strlit(", ");
    assert(", "@ =~= seq![',', ' ']);
    reveal_with_fuel(parts_text, 2);
    if first.len() > 0 && second.len() > 0 {
        let rest = second.drop_last();
        assert((first + second).drop_last() =~= first + rest);
        assert((first + second).last() == second.last());
        if rest.len() == 0 {
            assert(first + rest =~= first);
            assert(second[0] == second.last());
            assert(parts_text(second) == expression_text(second.last()));
        } else {
            parts_are_written_in_order(first, rest, e);
        }
        assert(parts_text(first + second) =~= parts_text(first) + seq![',', ' '] + parts_text(
            second,
        ));
    }
}

/// Attributes are written one behind the other, each on a line of its own with its value in quotes.
pub proof fn attributes_are_written_in_order(
    first: AttrsView,
    second: AttrsView,
    name: Seq<char>,
    value: Seq<char>,
)
    ensures
        attrs_text(first + second) == attrs_text(first) + attrs_text(second),
        attrs_text(seq![(name, value)]) == seq!['(', '*', ' '] + name + seq![' ', '=', ' ', '"']
            + value + seq!['"', ' ', '*', ')', '\n'],
        attrs_text(seq![]) == Seq::<char>::empty(),
    decreases second.len(),
{
    reveal_strlit("(* ");
    reveal_strlit(" = \"");
    reveal_strlit("\" *)\n");
    assert("(* "@ =~= seq!['(', '*', ' ']);
    assert(" = \""@ =~= seq![' ', '=', ' ', '"']);
    assert("\" *)\n"@ =~= seq!['"', ' ', '*', ')', '\n']);
    let one: AttrsView = seq![(name, value)];
    assert(one.drop_last() =~= seq![]);
    assert(attrs_text(one.drop_last()) =~= seq![]);
    assert(attrs_text(one) =~= seq!['(', '*', ' '] + name + seq![' ', '=', ' ', '"'] + value + seq![
        '"',
        ' ',
        '*',
        ')',
        '\n',
    ]);
    if second.len() > 0 {
        attributes_are_written_in_order(first, second.drop_last(), name, value);
        assert((first + second).drop_last() =~= first + second.drop_last());
        assert((first + second).last() == second.last());
        assert(attrs_text(first + second) =~= attrs_text(first) + attrs_text(second));
    } else {
        assert(first + second =~= first);
        assert(attrs_text(first) + attrs_text(second) =~= attrs_text(first));
    }
}

/// Bounds are written in brackets with a colon between, but those of a single wire numbered zero
/// are left out.
pub proof fn bounds_are_written(range: Range)
    ensures
        range_text(range) == (if range.msb == 0 && range.lsb == 0 {
            seq![]
        } else {
            seq![' ', '['] + decimal(range.msb as nat) + seq![':'] + decimal(range.lsb as nat)
                + seq![']']
        }),
{
    reveal_strlit(" [");
    reveal_strlit(":");
    reveal_strlit("]");
    assert(" ["@ =~= seq![' ', '[']);
    assert(":"@ =~= seq![':']);
    assert("]"@ =~= seq![']']);
}

/// Connections are written one behind the other with commas between, each on a line of its own.
pub proof fn connections_are_written_in_order(
    first: ConnectionsView,
    second: ConnectionsView,
    name: Seq<char>,
    e: ExpressionView,
)
    ensures
        first.len() > 0 && second.len() > 0 ==> connections_text(first + second)
            == connections_text(first) + seq![','] + connections_text(second),
        connections_text(seq![(name, e)]) == seq!['\n', ' ', ' ', ' ', ' ', '.', '\\'] + name
            + seq![' ', '('] + expression_text(e) + seq![')'],
        connections_text(seq![]) == Seq::<char>::empty(),
    decreases second.len(),
{
    reveal_strlit(",");
    reveal_strlit("\n    .\\");
    reveal_strlit(" (");
    reveal_strlit(")");
    assert(","@ =~= seq![',']);
    assert("\n    .\\"@ =~= seq!['\n', ' ', ' ', ' ', ' ', '.', '\\']);
    assert(" ("@ =~= seq![' ', '(']);
    assert(")"@ =~= seq![')']);
    let one: ConnectionsView = seq![(name, e)];
    assert(one.drop_last() =~= seq![]);
    assert(connections_text(one.drop_last()) =~= seq![]);
    assert(connections_text(one) =~= seq!['\n', ' ', ' ', ' ', ' ', '.', '\\'] + name + seq![
        ' ',
        '(',
    ] + expression_text(e) + seq![')']);
    if first.len() > 0 && second.len() > 0 {
        let rest = second.drop_last();
        assert((first + second).drop_last() =~= first + rest);
        assert((first + second).last() == second.last());
        if rest.len() == 0 {
            assert(first + rest =~= first);
            assert(connections_text(rest) =~= seq![]);
        } else {
            connections_are_written_in_order(first, rest, name, e);
        }
        assert(connections_text(first + second) =~= connections_text(first) + seq![',']
            + connections_text(second));
    }
}

/// A declaration is its attributes, its keyword, its bounds and its escaped name; an assignment has
/// an equals sign between its sides; an instance is its attributes, what it is an instance of, its
/// own name, and its connections in parentheses.
pub proof fn members_are_written(
    attrs: AttrsView,
    type_: Seq<char>,
    name: Seq<char>,
    range: Range,
    conns: ConnectionsView,
    left: ExpressionView,
    right: ExpressionView,
)
    ensures
        member_text(MemberView::Input(attrs, name, range)) == attrs_text(attrs) + seq![
            'i',
            'n',
            'p',
            'u',
            't',
        ] + range_text(range) + seq![' ', '\\'] + name + seq![' '],
        member_text(MemberView::Output(attrs, name, range)) == attrs_text(attrs) + seq![
            'o',
            'u',
            't',
            'p',
            'u',
            't',
        ] + range_text(range) + seq![' ', '\\'] + name + seq![' '],
        member_text(MemberView::Wire(attrs, name, range)) == attrs_text(attrs) + seq![
            'w',
            'i',
            'r',
            'e',
        ] + range_text(range) + seq![' ', '\\'] + name + seq![' '],
        member_text(MemberView::Assign(left, right)) == seq!['a', 's', 's', 'i', 'g', 'n', ' ']
            + expression_text(left) + seq![' ', '=', ' '] + expression_text(right),
        member_text(MemberView::Instantiation(attrs, type_, name, conns)) == attrs_text(attrs)
            + seq!['\\'] + type_ + seq![' ', '\\'] + name + seq![' ', '('] + connections_text(conns)
            + seq!['\n', ' ', ' ', ')'],
{
    reveal_strlit("input");
    reveal_strlit("output");
    reveal_strlit("wire");
    reveal_strlit("assign ");
    reveal_strlit(" = ");
    reveal_strlit(" \\");
    reveal_strlit(" ");
    reveal_strlit("\\");
    reveal_strlit(" (");
    reveal_strlit("\n  )");
    assert("input"@ =~= seq!['i', 'n', 'p', 'u', 't']);
    assert("output"@ =~= seq!['o', 'u', 't', 'p', 'u', 't']);
    assert("wire"@ =~= seq!['w', 'i', 'r', 'e']);
    assert("assign "@ =~= seq!['a', 's', 's', 'i', 'g', 'n', ' ']);
    assert(" = "@ =~= seq![' ', '=', ' ']);
    assert(" \\"@ =~= seq![' ', '\\']);
    assert(" "@ =~= seq![' ']);
    assert("\\"@ =~= seq!['\\']);
    assert(" ("@ =~= seq![' ', '(']);
    assert("\n  )"@ =~= seq!['\n', ' ', ' ', ')']);
}

/// The port list has the escaped names of the ports, in order, with commas between.
pub proof fn port_lists_are_written_in_order(
    first: Seq<MemberView>,
    second: Seq<MemberView>,
    attrs: AttrsView,
    name: Seq<char>,
    range: Range,
)
    ensures
        first.len() > 0 && second.len() > 0 ==> port_list_text(first + second) == port_list_text(
            first,
        ) + seq![','] + port_list_text(second),
        port_list_text(seq![MemberView::Input(attrs, name, range)]) == seq!['\n', ' ', ' ', '\\']
            + name + seq![' '],
        port_list_text(seq![MemberView::Output(attrs, name, range)]) == seq!['\n', ' ', ' ', '\\']
            + name + seq![' '],
        port_list_text(seq![]) == Seq::<char>::empty(),
    decreases second.len(),
{
    reveal_strlit(",");
    reveal_strlit("\n  \\");
    reveal_strlit(" ");
    assert(","@ =~= seq![',']);
    assert("\n  \\"@ =~= seq!['\n', ' ', ' ', '\\']);
    assert(" "@ =~= seq![' ']);
    let input = seq![MemberView::Input(attrs, name, range)];
    let output = seq![MemberView::Output(attrs, name, range)];
    let text = seq!['\n', ' ', ' ', '\\'] + name + seq![' '];
    assert(input.drop_last() =~= seq![]);
    assert(output.drop_last() =~= seq![]);
    assert(port_list_text(input.drop_last()) =~= seq![]);
    assert(port_list_text(input) =~= text);
    assert(port_list_text(output) =~= text);
    if first.len() > 0 && second.len() > 0 {
        let rest = second.drop_last();
        assert((first + second).drop_last() =~= first + rest);
        assert((first + second).last() == second.last());
        if rest.len() == 0 {
            assert(first + rest =~= first);
            assert(port_list_text(rest) =~= seq![]);
        } else {
            port_lists_are_written_in_order(first, rest, attrs, name, range);
        }
        assert(port_list_text(first + second) =~= port_list_text(first) + seq![',']
            + port_list_text(second));
    }
}

/// Members are written one behind the other, each indented and closed by a semicolon.
pub proof fn bodies_are_written_in_order(
    first: Seq<MemberView>,
    second: Seq<MemberView>,
    m: MemberView,
)
    ensures
        body_text(first + second) == body_text(first) + body_text(second),
        body_text(seq![m]) == seq![' ', ' '] + member_text(m) + seq![';', '\n'],
        body_text(seq![]) == Seq::<char>::empty(),
    decreases second.len(),
{
    reveal_strlit("  ");
    reveal_strlit(";\n");
    assert("  "@ =~= seq![' ', ' ']);
    assert(";\n"@ =~= seq![';', '\n']);
    let one = seq![m];
    assert(one.drop_last() =~= seq![]);
    assert(body_text(one.drop_last()) =~= seq![]);
    assert(body_text(one) =~= seq![' ', ' '] + member_text(m) + seq![';', '\n']);
    if second.len() > 0 {
        bodies_are_written_in_order(first, second.drop_last(), m);
        assert((first + second).drop_last() =~= first + second.drop_last());
        assert((first + second).last() == second.last());
        assert(body_text(first + second) =~= body_text(first) + body_text(second));
    } else {
        assert(first + second =~= first);
        assert(body_text(first) + body_text(second) =~= body_text(first));
    }
}

/// A module is its escaped name, its port list, the declarations of its ports, and its members.
/// The modules of a source file follow one another.
pub proof fn modules_are_written_in_order(
    m: ModuleView,
    first: Seq<ModuleView>,
    second: Seq<ModuleView>,
)
    ensures
        module_text(m) == seq!['m', 'o', 'd', 'u', 'l', 'e', ' ', '\\'] + m.name + seq![' ', '(']
            + port_list_text(m.port_members) + seq!['\n', ')', ';', '\n'] + body_text(
            m.port_members + m.members,
        ) + seq!['e', 'n', 'd', 'm', 'o', 'd', 'u', 'l', 'e', '\n', '\n'],
        unit_text(seq![m]) == module_text(m),
        unit_text(first + second) == unit_text(first) + unit_text(second),
        unit_text(seq![]) == Seq::<char>::empty(),
    decreases second.len(),
{
    reveal_strlit("module \\");
    reveal_strlit(" (");
    reveal_strlit("\n);\n");
    reveal_strlit("endmodule\n\n");
    assert("module \\"@ =~= seq!['m', 'o', 'd', 'u', 'l', 'e', ' ', '\\']);
    assert(" ("@ =~= seq![' ', '(']);
    assert("\n);\n"@ =~= seq!['\n', ')', ';', '\n']);
    assert("endmodule\n\n"@ =~= seq!['e', 'n', 'd', 'm', 'o', 'd', 'u', 'l', 'e', '\n', '\n']);
    bodies_are_written_in_order(
        m.port_members,
        m.members,
        MemberView::Assign(ExpressionView::PendingNet(0), ExpressionView::PendingNet(0)),
    );
    assert(module_text(m) =~= seq!['m', 'o', 'd', 'u', 'l', 'e', ' ', '\\'] + m.name + seq![
        ' ',
        '(',
    ] + port_list_text(m.port_members) + seq!['\n', ')', ';', '\n'] + body_text(
        m.port_members + m.members,
    ) + seq!['e', 'n', 'd', 'm', 'o', 'd', 'u', 'l', 'e', '\n', '\n']);
    let one = seq![m];
    assert(one.drop_last() =~= seq![]);
    assert(unit_text(one.drop_last()) =~= seq![]);
    assert(unit_text(one) =~= module_text(m));
    if second.len() > 0 {
        modules_are_written_in_order(m, first, second.drop_last());
        assert((first + second).drop_last() =~= first + second.drop_last());
        assert((first + second).last() == second.last());
        assert(unit_text(first + second) =~= unit_text(first) + unit_text(second));
    } else {
        assert(first + second =~= first);
        assert(unit_text(first) + unit_text(second) =~= unit_text(first));
    }
}

} // verus!
