//! The syntax tree of a Verilog source file, and its text.

use vstd::prelude::*;
use vstd::string::*;

use crate::netlist::{Net, Value};
use crate::text::{decimal, push_decimal};

pub use Expression::{Concat, NamedValue, PendingNet};
pub use Member::{Assign, Input, Instantiation, Output, Wire};

verus! {

/// An expression.
#[derive(Debug)]
pub enum Expression<'a> {
    /// What goes by a name.
    NamedValue(&'a str),
    /// A net that has no name yet.
    PendingNet(Net),
    /// A concatenation, most significant part first.
    Concat(Vec<Expression<'a>>),
}

/// The name of a module to be instantiated.
pub type Type<'a> = &'a str;

/// An identifier.
pub type Name<'a> = &'a str;

/// Attributes, each a name with its value.
pub struct Attrs<'a>(pub Vec<(&'a str, &'a str)>);

/// What the ports of an instance are connected to.
pub type Connections<'a> = Vec<(Name<'a>, Expression<'a>)>;

/// The bounds of a vector of wires.
#[derive(Clone, Copy, Debug, PartialEq, Eq, Structural)]
pub struct Range {
    pub msb: usize,
    pub lsb: usize,
}

/// What can stand in a module.
pub enum Member<'a> {
    Output(Attrs<'a>, Name<'a>, Range),
    Input(Attrs<'a>, Name<'a>, Range),
    Wire(Attrs<'a>, Name<'a>, Range),
    Assign(Expression<'a>, Expression<'a>),
    Instantiation(Attrs<'a>, Type<'a>, Name<'a>, Connections<'a>),
}

/// A module: its ports, then what stands in it.
pub struct Module<'a> {
    pub name: &'a str,
    pub port_members: Vec<Member<'a>>,
    pub members: Vec<Member<'a>>,
}

/// A source file: its modules in order.
pub struct Unit<'a>(pub Vec<Module<'a>>);

/// An expression, with names as sequences of characters.
pub enum ExpressionView {
    NamedValue(Seq<char>),
    PendingNet(Net),
    Concat(Seq<ExpressionView>),
}

/// Attributes as pairs of name and value.
pub type AttrsView = Seq<(Seq<char>, Seq<char>)>;

/// Connections as pairs of port name and expression.
pub type ConnectionsView = Seq<(Seq<char>, ExpressionView)>;

/// A member, with names as sequences of characters.
pub enum MemberView {
    Output(AttrsView, Seq<char>, Range),
    Input(AttrsView, Seq<char>, Range),
    Wire(AttrsView, Seq<char>, Range),
    Assign(ExpressionView, ExpressionView),
    Instantiation(AttrsView, Seq<char>, Seq<char>, ConnectionsView),
}

/// A module, with names as sequences of characters.
pub struct ModuleView {
    pub name: Seq<char>,
    pub port_members: Seq<MemberView>,
    pub members: Seq<MemberView>,
}

impl<'a> Expression<'a> {
    /// The expression with names as sequences of characters.
    pub open spec fn spec_view(self) -> ExpressionView
        decreases self,
    {
        match self {
            Expression::NamedValue(name) => ExpressionView::NamedValue(name@),
            Expression::PendingNet(net) => ExpressionView::PendingNet(net),
            Expression::Concat(parts) => ExpressionView::Concat(
                Seq::new(
                    parts@.len(),
                    |i: int|
                        if 0 <= i < parts@.len() {
                            parts@[i].spec_view()
                        } else {
                            ExpressionView::PendingNet(0)
                        },
                ),
            ),
        }
    }
}

impl<'a> View for Expression<'a> {
    type V = ExpressionView;

    open spec fn view(&self) -> ExpressionView {
        self.spec_view()
    }
}

impl<'a> View for Attrs<'a> {
    type V = AttrsView;

    open spec fn view(&self) -> AttrsView {
        self.0@.map_values(|p: (&str, &str)| (p.0@, p.1@))
    }
}

/// Connections as pairs of port name and expression.
pub open spec fn connections_view<'a>(conns: Seq<(Name<'a>, Expression<'a>)>) -> ConnectionsView {
    conns.map_values(|c: (Name<'a>, Expression<'a>)| (c.0@, c.1@))
}

impl<'a> View for Member<'a> {
    type V = MemberView;

    open spec fn view(&self) -> MemberView {
        match *self {
            Member::Output(attrs, name, range) => MemberView::Output(attrs@, name@, range),
            Member::Input(attrs, name, range) => MemberView::Input(attrs@, name@, range),
            Member::Wire(attrs, name, range) => MemberView::Wire(attrs@, name@, range),
            Member::Assign(left, right) => MemberView::Assign(left@, right@),
            Member::Instantiation(attrs, type_, name, conns) => MemberView::Instantiation(
                attrs@,
                type_@,
                name@,
                connections_view(conns@),
            ),
        }
    }
}

/// The views of members.
pub open spec fn members_view<'a>(members: Seq<Member<'a>>) -> Seq<MemberView> {
    members.map_values(|m: Member<'a>| m@)
}

impl<'a> View for Module<'a> {
    type V = ModuleView;

    open spec fn view(&self) -> ModuleView {
        ModuleView {
            name: self.name@,
            port_members: members_view(self.port_members@),
            members: members_view(self.members@),
        }
    }
}

impl<'a> View for Unit<'a> {
    type V = Seq<ModuleView>;

    open spec fn view(&self) -> Seq<ModuleView> {
        self.0@.map_values(|m: Module<'a>| m@)
    }
}

/// The expression for a value: its only net, or the concatenation of its nets, most significant
/// first.
pub open spec fn value_expression(value: Seq<Net>) -> ExpressionView {
    if value.len() == 1 {
        ExpressionView::PendingNet(value[0])
    } else {
        ExpressionView::Concat(value.reverse().map_values(|n: Net| ExpressionView::PendingNet(n)))
    }
}

/// Whether `f` may be called on an expression that is `before`.
pub open spec fn callable<'a, F: FnMut(&mut Expression<'a>)>(f: F, before: Expression<'a>) -> bool {
    forall|x: &mut Expression<'a>| *x == before ==> #[trigger] call_requires(f, (x,))
}

/// Whether `f` may visit an expression: may be called on each part of a concatenation and on
/// whatever concatenation of as many parts that leaves, or on an expression that is none.
pub open spec fn visitable<'a, F: FnMut(&mut Expression<'a>)>(f: F, e: Expression<'a>) -> bool {
    match e {
        Expression::Concat(parts) => {
            &&& forall|i: int| 0 <= i < parts@.len() ==> callable(f, #[trigger] parts@[i])
            &&& forall|whole: Vec<Expression<'a>>|
                whole@.len() == parts@.len() ==> #[trigger] callable(f, Expression::Concat(whole))
        },
        _ => callable(f, e),
    }
}

/// Whether calls of `f` and of `g` are allowed on the same expressions, and the same is known of
/// them. What a function keeps from one call to the next may differ.
pub open spec fn asks_and_promises_alike<'a, F: FnMut(&mut Expression<'a>)>(f: F, g: F) -> bool {
    &&& forall|x: &mut Expression<'a>| #[trigger]
        call_requires(g, (x,)) <==> call_requires(f, (x,))
    &&& forall|x: &mut Expression<'a>| #[trigger]
        call_ensures(g, (x,), ()) <==> call_ensures(f, (x,), ())
}

/// Whether `after` comes from `before` part by part, as `rel` relates them.
pub open spec fn parts_related<'a>(
    rel: spec_fn(Expression<'a>, Expression<'a>) -> bool,
    before: Seq<Expression<'a>>,
    after: Seq<Expression<'a>>,
) -> bool {
    &&& before.len() == after.len()
    &&& forall|i: int| 0 <= i < before.len() ==> rel(#[trigger] before[i], after[i])
}

/// Whether a visit by a function whose calls `rel` relates may turn `before` into `after`.
pub open spec fn visit_related<'a>(
    rel: spec_fn(Expression<'a>, Expression<'a>) -> bool,
    before: Expression<'a>,
    after: Expression<'a>,
) -> bool {
    match before {
        Expression::Concat(parts) => exists|mid: Vec<Expression<'a>>| #[trigger]
            parts_related(rel, parts@, mid@) && rel(Expression::Concat(mid), after),
        _ => rel(before, after),
    }
}

/// Where one function may visit an expression, one that asks alike may too.
proof fn lemma_visitable_alike<'a, F: FnMut(&mut Expression<'a>)>(f: F, g: F, e: Expression<'a>)
    requires
        asks_and_promises_alike(f, g),
        visitable(f, e),
    ensures
        visitable(g, e),
{
    assert forall|before: Expression<'a>| callable(f, before) implies #[trigger] callable(
        g,
        before,
    ) by {
        assert forall|x: &mut Expression<'a>| *x == before implies #[trigger] call_requires(
            g,
            (x,),
        ) by {
            assert(call_requires(f, (x,)));
        }
    }
    if let Expression::Concat(parts) = e {
        assert forall|i: int| 0 <= i < parts@.len() implies callable(g, #[trigger] parts@[i]) by {
            assert(callable(f, parts@[i]));
        }
        assert forall|whole: Vec<Expression<'a>>|
            whole@.len() == parts@.len() implies #[trigger] callable(
            g,
            Expression::Concat(whole),
        ) by {
            assert(callable(f, Expression::Concat(whole)));
        }
    }
}

fn visit_parts<'a>(parts: &mut Vec<Expression<'a>>, f: &mut impl FnMut(&mut Expression<'a>))
    requires
        forall|i: int| 0 <= i < old(parts)@.len() ==> callable(*old(f), #[trigger] old(parts)@[i]),
    ensures
        forall|rel: spec_fn(Expression<'a>, Expression<'a>) -> bool|
            (forall|x: &mut Expression<'a>| #[trigger]
                call_ensures(*old(f), (x,), ()) ==> rel(*x, *final(x))) ==> #[trigger] parts_related(
                rel,
                old(parts)@,
                final(parts)@,
            ),
        final(parts)@.len() == old(parts)@.len(),
        asks_and_promises_alike(*old(f), *final(f)),
{
    let ghost f0 = *f;
    let ghost v0 = parts@;
    let n: usize = parts.len();
    let mut i: usize = 0;
    while i < n
        invariant
            asks_and_promises_alike(f0, *f),
            i <= n,
            n == v0.len(),
            parts@.len() == v0.len(),
            forall|rel: spec_fn(Expression<'a>, Expression<'a>) -> bool|
                (forall|x: &mut Expression<'a>| #[trigger]
                    call_ensures(f0, (x,), ()) ==> rel(*x, *final(x))) ==> #[trigger] parts_related(
                    rel,
                    v0.take(i as int),
                    parts@.take(i as int),
                ),
            forall|j: int| i <= j < v0.len() ==> v0[j] == #[trigger] parts@[j],
            forall|j: int| 0 <= j < v0.len() ==> callable(f0, #[trigger] v0[j]),
        decreases n - i,
    {
        let ghost v1 = parts@;
        assert(callable(f0, v0[i as int]));
        f(&mut parts[i]);
        proof {
            assert forall|rel: spec_fn(Expression<'a>, Expression<'a>) -> bool|
                (forall|x: &mut Expression<'a>| #[trigger]
                    call_ensures(f0, (x,), ()) ==> rel(*x, *final(x))) implies #[trigger] parts_related(
                rel,
                v0.take(i + 1),
                parts@.take(i + 1),
            ) by {
                assert(parts_related(rel, v0.take(i as int), v1.take(i as int)));
                assert forall|j: int| 0 <= j < i + 1 implies rel(
                    #[trigger] v0.take(i + 1)[j],
                    parts@.take(i + 1)[j],
                ) by {
                    if j < i {
                        assert(rel(v0.take(i as int)[j], v1.take(i as int)[j]));
                    }
                }
            }
        }
        i = i + 1;
    }
    proof {
        assert(v0.take(n as int) =~= v0);
        assert(parts@.take(n as int) =~= parts@);
    }
}

impl<'a> Expression<'a> {
    /// Calls `f` on the expression; on a concatenation, on each of its parts first, in order.
    ///
    /// The contract speaks of the expressions alone: what `f` keeps from one call to the next, and
    /// with it the order of calls on different parts, is left open.
    pub fn visit_expressions(&mut self, f: &mut impl FnMut(&mut Expression<'a>))
        requires
            visitable(*old(f), *old(self)),
        ensures
            forall|rel: spec_fn(Expression<'a>, Expression<'a>) -> bool|
                (forall|x: &mut Expression<'a>| #[trigger]
                    call_ensures(*old(f), (x,), ()) ==> rel(*x, *final(x)))
                    ==> #[trigger] visit_related(rel, *old(self), *final(self)),
            asks_and_promises_alike(*old(f), *final(f)),
    {
        let ghost f0 = *f;
        match self {
            Concat(vec) => {
                visit_parts(vec, f);
            },
            _ => {},
        }
        let ghost mid = *self;
        proof {
            lemma_visitable_alike(f0, *f, *old(self));
            if let Expression::Concat(parts) = mid {
                assert(callable(*f, Expression::Concat(parts)));
            }
        }
        f(self);
        proof {
            assert forall|rel: spec_fn(Expression<'a>, Expression<'a>) -> bool|
                (forall|x: &mut Expression<'a>| #[trigger]
                    call_ensures(f0, (x,), ()) ==> rel(*x, *final(x))) implies #[trigger] visit_related(
                rel,
                *old(self),
                *self,
            ) by {
                if let Expression::Concat(before) = *old(self) {
                    if let Expression::Concat(parts) = mid {
                        assert(parts_related(rel, before@, parts@));
                    }
                }
            }
        }
    }
}


/// Whether a visit by a function whose calls `rel` relates may turn the connections `before` into
/// `after`.
pub open spec fn connections_related<'a>(
    rel: spec_fn(Expression<'a>, Expression<'a>) -> bool,
    before: Seq<(Name<'a>, Expression<'a>)>,
    after: Seq<(Name<'a>, Expression<'a>)>,
) -> bool {
    &&& before.len() == after.len()
    &&& forall|i: int|
        0 <= i < before.len() ==> (#[trigger] after[i]).0 == before[i].0 && visit_related(
            rel,
            before[i].1,
            after[i].1,
        )
}

/// Whether a visit by a function whose calls `rel` relates may turn the member `before` into
/// `after`: its expressions are visited, the rest stays as it is.
pub open spec fn member_related<'a>(
    rel: spec_fn(Expression<'a>, Expression<'a>) -> bool,
    before: Member<'a>,
    after: Member<'a>,
) -> bool {
    match before {
        Member::Instantiation(attrs, type_, name, conns) => {
            &&& after matches Member::Instantiation(attrs1, type1, name1, conns1)
            &&& attrs1 == attrs
            &&& type1 == type_
            &&& name1 == name
            &&& connections_related(rel, conns@, conns1@)
        },
        Member::Assign(left, right) => {
            &&& after matches Member::Assign(left1, right1)
            &&& visit_related(rel, left, left1)
            &&& visit_related(rel, right, right1)
        },
        _ => after == before,
    }
}

/// Whether `f` may visit the expressions of a member.
pub open spec fn member_visitable<'a, F: FnMut(&mut Expression<'a>)>(
    f: F,
    member: Member<'a>,
) -> bool {
    match member {
        Member::Instantiation(_, _, _, conns) => forall|i: int|
            0 <= i < conns@.len() ==> visitable(f, (#[trigger] conns@[i]).1),
        Member::Assign(left, right) => visitable(f, left) && visitable(f, right),
        _ => true,
    }
}

fn visit_connections<'a>(
    conns: &mut Connections<'a>,
    f: &mut impl FnMut(&mut Expression<'a>),
)
    requires
        forall|i: int|
            0 <= i < old(conns)@.len() ==> visitable(*old(f), (#[trigger] old(conns)@[i]).1),
    ensures
        forall|rel: spec_fn(Expression<'a>, Expression<'a>) -> bool|
            (forall|x: &mut Expression<'a>| #[trigger]
                call_ensures(*old(f), (x,), ()) ==> rel(*x, *final(x)))
                ==> #[trigger] connections_related(rel, old(conns)@, final(conns)@),
        asks_and_promises_alike(*old(f), *final(f)),
{
    let ghost f0 = *f;
    let ghost v0 = conns@;
    let n: usize = conns.len();
    let mut i: usize = 0;
    while i < n
        invariant
            asks_and_promises_alike(f0, *f),
            i <= n,
            n == v0.len(),
            conns@.len() == v0.len(),
            forall|rel: spec_fn(Expression<'a>, Expression<'a>) -> bool|
                (forall|x: &mut Expression<'a>| #[trigger]
                    call_ensures(f0, (x,), ()) ==> rel(*x, *final(x)))
                    ==> #[trigger] connections_related(
                    rel,
                    v0.take(i as int),
                    conns@.take(i as int),
                ),
            forall|j: int| i <= j < v0.len() ==> v0[j] == #[trigger] conns@[j],
            forall|j: int| 0 <= j < v0.len() ==> visitable(f0, (#[trigger] v0[j]).1),
        decreases n - i,
    {
        let ghost v1 = conns@;
        proof {
            lemma_visitable_alike(f0, *f, v0[i as int].1);
        }
        conns[i].1.visit_expressions(f);
        proof {
            assert forall|rel: spec_fn(Expression<'a>, Expression<'a>) -> bool|
                (forall|x: &mut Expression<'a>| #[trigger]
                    call_ensures(f0, (x,), ()) ==> rel(*x, *final(x)))
                implies #[trigger] connections_related(
                rel,
                v0.take(i + 1),
                conns@.take(i + 1),
            ) by {
                assert(connections_related(rel, v0.take(i as int), v1.take(i as int)));
                assert(visit_related(rel, v0[i as int].1, conns@[i as int].1));
                assert forall|j: int| 0 <= j < i + 1 implies (#[trigger] conns@.take(i + 1)[j]).0
                    == v0.take(i + 1)[j].0 && visit_related(
                    rel,
                    v0.take(i + 1)[j].1,
                    conns@.take(i + 1)[j].1,
                ) by {
                    if j < i {
                        assert(v1.take(i as int)[j] == conns@.take(i + 1)[j]);
                        assert(v0.take(i as int)[j] == v0.take(i + 1)[j]);
                    }
                }
            }
        }
        i = i + 1;
    }
    proof {
        assert(v0.take(n as int) =~= v0);
        assert(conns@.take(n as int) =~= conns@);
    }
}

impl<'a> Member<'a> {
    /// Calls `f` on every expression of the member, in order, and on the parts of each
    /// concatenation before the concatenation itself.
    ///
    /// The contract speaks of the expressions alone: what `f` keeps from one call to the next, and
    /// with it the order of calls on different expressions, is left open.
    pub fn visit_expressions(&mut self, f: &mut impl FnMut(&mut Expression<'a>))
        requires
            member_visitable(*old(f), *old(self)),
        ensures
            forall|rel: spec_fn(Expression<'a>, Expression<'a>) -> bool|
                (forall|x: &mut Expression<'a>| #[trigger]
                    call_ensures(*old(f), (x,), ()) ==> rel(*x, *final(x)))
                    ==> #[trigger] member_related(rel, *old(self), *final(self)),
            asks_and_promises_alike(*old(f), *final(f)),
    {
        match self {
            Member::Instantiation(_, _, _, conns) => {
                visit_connections(conns, f);
            },
            Member::Assign(left, right) => {
                let ghost f0 = *f;
                left.visit_expressions(f);
                proof {
                    lemma_visitable_alike(f0, *f, *right);
                }
                right.visit_expressions(f);
            },
            _ => {},
        }
    }
}

impl Range {
    /// How many wires there are between the bounds, both included.
    pub open spec fn width(self) -> int {
        if self.msb >= self.lsb {
            self.msb - self.lsb + 1
        } else {
            self.lsb - self.msb + 1
        }
    }

    /// How many wires there are between the bounds, both included.
    pub fn len(self) -> (r: usize)
        requires
            self.width() <= usize::MAX,
        ensures
            r == self.width(),
    {
        if self.msb >= self.lsb {
            self.msb - self.lsb + 1
        } else {
            self.lsb - self.msb + 1
        }
    }
}

impl<'a> Expression<'a> {
    /// The expression for a value that is not empty.
    pub fn from_value<'x, 'y>(value: &'x Value) -> (r: Expression<'y>)
        requires
            value@.len() > 0,
        ensures
            r@ == value_expression(value@),
    {
        if value.len() == 1 {
            return Expression::PendingNet(value[0]);
        }
        let mut parts: Vec<Expression<'y>> = Vec::new();
        let n: usize = value.len();
        for i in 0..n
            invariant
                n == value@.len(),
                parts@.len() == i,
                forall|j: int|
                    0 <= j < i ==> #[trigger] parts@[j] == Expression::<'y>::PendingNet(
                        value@[n - 1 - j],
                    ),
        {
            parts.push(Expression::PendingNet(value[n - 1 - i]));
        }
        let r = Expression::Concat(parts);
        proof {
            reveal_with_fuel(Expression::spec_view, 2);
            assert(r@->Concat_0 =~= value_expression(value@)->Concat_0);
        }
        r
    }
}

/// Whether no net in the expression still lacks a name.
pub open spec fn resolved(e: ExpressionView) -> bool
    decreases e,
{
    match e {
        ExpressionView::NamedValue(_) => true,
        ExpressionView::PendingNet(_) => false,
        ExpressionView::Concat(parts) => forall|i: int|
            0 <= i < parts.len() ==> resolved(#[trigger] parts[i]),
    }
}

/// Whether no net in the member still lacks a name.
pub open spec fn member_resolved(m: MemberView) -> bool {
    match m {
        MemberView::Assign(left, right) => resolved(left) && resolved(right),
        MemberView::Instantiation(_, _, _, conns) => forall|i: int|
            0 <= i < conns.len() ==> resolved((#[trigger] conns[i]).1),
        _ => true,
    }
}

impl<'a> Expression<'a> {
    /// Whether no net in the expression still lacks a name.
    pub fn is_resolved(&self) -> (r: bool)
        ensures
            r == resolved(self@),
        decreases self,
    {
        match self {
            Expression::NamedValue(_) => true,
            Expression::PendingNet(_) => false,
            Expression::Concat(parts) => {
                let ghost views = self@->Concat_0;
                for i in 0..parts.len()
                    invariant
                        *self == Expression::Concat(*parts),
                        views == self@->Concat_0,
                        forall|j: int| 0 <= j < i ==> resolved(#[trigger] views[j]),
                {
                    proof {
                        assert(views[i as int] == parts@[i as int]@);
                        assert(self@ == ExpressionView::Concat(views));
                        assert(decreases_to!(*self => parts@[i as int]));
                    }
                    if !parts[i].is_resolved() {
                        proof {
                            assert(!resolved(views[i as int]));
                        }
                        return false;
                    }
                }
                proof {
                    assert(self@ == ExpressionView::Concat(views));
                }
                true
            },
        }
    }
}

impl<'a> Member<'a> {
    /// Whether no net in the member still lacks a name.
    pub fn is_resolved(&self) -> (r: bool)
        ensures
            r == member_resolved(self@),
    {
        match self {
            Member::Assign(left, right) => left.is_resolved() && right.is_resolved(),
            Member::Instantiation(_, _, _, conns) => {
                let ghost views = connections_view(conns@);
                for i in 0..conns.len()
                    invariant
                        views == connections_view(conns@),
                        self@ is Instantiation,
                        self@->Instantiation_3 == views,
                        forall|j: int| 0 <= j < i ==> resolved((#[trigger] views[j]).1),
                {
                    if !conns[i].1.is_resolved() {
                        proof {
                            assert(!resolved(views[i as int].1));
                        }
                        return false;
                    }
                }
                true
            },
            _ => true,
        }
    }
}

impl<'a> Module<'a> {
    /// Whether the module can be written.
    pub fn is_printable(&self) -> (r: bool)
        ensures
            r == module_printable(self@),
    {
        for i in 0..self.port_members.len()
            invariant
                forall|j: int| 0 <= j < i ==> port_name(#[trigger] self@.port_members[j]) is Some,
        {
            match &self.port_members[i] {
                Member::Input(..) => {},
                Member::Output(..) => {},
                _ => {
                    proof {
                        assert(port_name(self@.port_members[i as int]) is None);
                    }
                    return false;
                },
            }
        }
        for i in 0..self.members.len()
            invariant
                forall|j: int| 0 <= j < i ==> member_resolved(#[trigger] self@.members[j]),
        {
            if !self.members[i].is_resolved() {
                proof {
                    assert(!member_resolved(self@.members[i as int]));
                }
                return false;
            }
        }
        true
    }
}

impl<'a> Unit<'a> {
    /// Whether all modules can be written.
    pub fn is_printable(&self) -> (r: bool)
        ensures
            r == unit_printable(self@),
    {
        for i in 0..self.0.len()
            invariant
                forall|j: int| 0 <= j < i ==> module_printable(#[trigger] self@[j]),
        {
            if !self.0[i].is_printable() {
                proof {
                    assert(!module_printable(self@[i as int]));
                }
                return false;
            }
        }
        true
    }
}

/// The name of a port.
pub open spec fn port_name(m: MemberView) -> Option<Seq<char>> {
    match m {
        MemberView::Output(_, name, _) => Some(name),
        MemberView::Input(_, name, _) => Some(name),
        _ => None,
    }
}

/// Whether a module can be written: its ports are ports, and every net has a name.
pub open spec fn module_printable(m: ModuleView) -> bool {
    &&& forall|i: int| 0 <= i < m.port_members.len() ==> port_name(#[trigger] m.port_members[i]) is Some
    &&& forall|i: int| 0 <= i < m.members.len() ==> member_resolved(#[trigger] m.members[i])
}

/// Whether all modules of a source file can be written.
pub open spec fn unit_printable(u: Seq<ModuleView>) -> bool {
    forall|i: int| 0 <= i < u.len() ==> module_printable(#[trigger] u[i])
}

/// The text of an expression. A name is escaped: a backslash before it and a space behind it.
pub open spec fn expression_text(e: ExpressionView) -> Seq<char>
    decreases e,
{
    match e {
        ExpressionView::NamedValue(name) => "\\"@ + name + " "@,
        ExpressionView::PendingNet(_) => seq![],
        ExpressionView::Concat(parts) => "{"@ + parts_text(parts) + "}"@,
    }
}

/// The texts of the parts of a concatenation, with commas between them.
pub open spec fn parts_text(parts: Seq<ExpressionView>) -> Seq<char>
    decreases parts,
{
    if parts.len() == 0 {
        seq![]
    } else if parts.len() == 1 {
        expression_text(parts[0])
    } else {
        parts_text(parts.drop_last()) + ", "@ + expression_text(parts.last())
    }
}

/// The text of attributes, a line for each.
pub open spec fn attrs_text(attrs: AttrsView) -> Seq<char>
    decreases attrs.len(),
{
    if attrs.len() == 0 {
        seq![]
    } else {
        attrs_text(attrs.drop_last()) + "(* "@ + attrs.last().0 + " = \""@ + attrs.last().1
            + "\" *)\n"@
    }
}

/// The text of bounds; nothing for a single wire numbered zero.
pub open spec fn range_text(r: Range) -> Seq<char> {
    if r.msb != 0 || r.lsb != 0 {
        " ["@ + decimal(r.msb as nat) + ":"@ + decimal(r.lsb as nat) + "]"@
    } else {
        seq![]
    }
}

/// The text of connections, with commas between them.
pub open spec fn connections_text(conns: ConnectionsView) -> Seq<char>
    decreases conns.len(),
{
    if conns.len() == 0 {
        seq![]
    } else {
        let sep = if conns.len() == 1 {
            seq![]
        } else {
            ","@
        };
        connections_text(conns.drop_last()) + sep + "\n    .\\"@ + conns.last().0 + " ("@
            + expression_text(conns.last().1) + ")"@
    }
}

/// The text of a declaration.
pub open spec fn declaration_text(
    attrs: AttrsView,
    keyword: Seq<char>,
    range: Range,
    name: Seq<char>,
) -> Seq<char> {
    attrs_text(attrs) + keyword + range_text(range) + " \\"@ + name + " "@
}

/// The text of a member, without the semicolon behind it.
pub open spec fn member_text(m: MemberView) -> Seq<char> {
    match m {
        MemberView::Input(attrs, name, range) => declaration_text(attrs, "input"@, range, name),
        MemberView::Output(attrs, name, range) => declaration_text(attrs, "output"@, range, name),
        MemberView::Wire(attrs, name, range) => declaration_text(attrs, "wire"@, range, name),
        MemberView::Assign(left, right) => "assign "@ + expression_text(left) + " = "@
            + expression_text(right),
        MemberView::Instantiation(attrs, type_, name, conns) => attrs_text(attrs) + "\\"@ + type_
            + " \\"@ + name + " ("@ + connections_text(conns) + "\n  )"@,
    }
}

/// The names of ports, with commas between them.
pub open spec fn port_list_text(ports: Seq<MemberView>) -> Seq<char>
    decreases ports.len(),
{
    if ports.len() == 0 {
        seq![]
    } else {
        let sep = if ports.len() == 1 {
            seq![]
        } else {
            ","@
        };
        port_list_text(ports.drop_last()) + sep + "\n  \\"@ + port_name(ports.last())->0 + " "@
    }
}

/// Members, each closed by a semicolon.
pub open spec fn body_text(members: Seq<MemberView>) -> Seq<char>
    decreases members.len(),
{
    if members.len() == 0 {
        seq![]
    } else {
        body_text(members.drop_last()) + "  "@ + member_text(members.last()) + ";\n"@
    }
}

/// The text of a module.
pub open spec fn module_text(m: ModuleView) -> Seq<char> {
    "module \\"@ + m.name + " ("@ + port_list_text(m.port_members) + "\n);\n"@ + body_text(
        m.port_members,
    ) + body_text(m.members) + "endmodule\n\n"@
}

/// The text of a source file: its modules one behind the other.
pub open spec fn unit_text(u: Seq<ModuleView>) -> Seq<char>
    decreases u.len(),
{
    if u.len() == 0 {
        seq![]
    } else {
        unit_text(u.drop_last()) + module_text(u.last())
    }
}

impl<'a> Expression<'a> {
    /// Writes the expression, in which every net has a name.
    pub fn fmt(&self, f: &mut String)
        requires
            resolved(self@),
        ensures
            final(f)@ == old(f)@ + expression_text(self@),
        decreases self,
    {
        match self {
            Expression::NamedValue(name) => {
                f.append("\\");
                f.append(name);
                f.append(" ");
            },
            Expression::Concat(parts) => {
                let ghost views = self@->Concat_0;
                f.append("{");
                let ghost start = f@;
                for i in 0..parts.len()
                    invariant
                        *self == Expression::Concat(*parts),
                        views == self@->Concat_0,
                        resolved(self@),
                        f@ == start + parts_text(views.take(i as int)),
                {
                    proof {
                        assert(views.take(i + 1).drop_last() =~= views.take(i as int));
                        assert(views[i as int] == parts@[i as int]@);
                        assert(self@ == ExpressionView::Concat(views));
                        assert(resolved(views[i as int]));
                        assert(decreases_to!(*self => parts@[i as int]));
                    }
                    if i > 0 {
                        f.append(", ");
                    }
                    parts[i].fmt(f);
                }
                proof {
                    assert(views.take(parts@.len() as int) =~= views);
                }
                f.append("}");
            },
            Expression::PendingNet(_) => {},
        }
    }
}

impl Range {
    /// Writes the bounds, unless they are those of a single wire numbered zero.
    pub fn fmt(&self, f: &mut String)
        ensures
            final(f)@ == old(f)@ + range_text(*self),
    {
        if self.msb != 0 || self.lsb != 0 {
            f.append(" [");
            push_decimal(f, self.msb as u64);
            f.append(":");
            push_decimal(f, self.lsb as u64);
            f.append("]");
        }
    }
}

impl<'a> Attrs<'a> {
    /// Writes the attributes, each on a line.
    pub fn fmt(&self, f: &mut String)
        ensures
            final(f)@ == old(f)@ + attrs_text(self@),
    {
        let ghost start = f@;
        for i in 0..self.0.len()
            invariant
                f@ == start + attrs_text(self@.take(i as int)),
        {
            proof {
                assert(self@.take(i + 1).drop_last() =~= self@.take(i as int));
            }
            f.append("(* ");
            f.append(self.0[i].0);
            f.append(" = \"");
            f.append(self.0[i].1);
            f.append("\" *)\n");
        }
        proof {
            assert(self@.take(self.0@.len() as int) =~= self@);
        }
    }
}

fn fmt_declaration<'a>(
    attrs: &Attrs<'a>,
    keyword: &str,
    range: &Range,
    name: &str,
    f: &mut String,
)
    ensures
        final(f)@ == old(f)@ + declaration_text(attrs@, keyword@, *range, name@),
{
    attrs.fmt(f);
    f.append(keyword);
    range.fmt(f);
    f.append(" \\");
    f.append(name);
    f.append(" ");
}

proof fn lemma_connections_resolved<'a>(m: Member<'a>, conns: Connections<'a>)
    requires
        member_resolved(m@),
        m is Instantiation,
        m->Instantiation_3 == conns,
    ensures
        forall|i: int|
            0 <= i < connections_view(conns@).len() ==> resolved(
                (#[trigger] connections_view(conns@)[i]).1,
            ),
{
    assert(m@->Instantiation_3 == connections_view(conns@));
}

fn fmt_connections<'a>(conns: &Connections<'a>, f: &mut String)
    requires
        forall|i: int|
            0 <= i < connections_view(conns@).len() ==> resolved(
                (#[trigger] connections_view(conns@)[i]).1,
            ),
    ensures
        final(f)@ == old(f)@ + connections_text(connections_view(conns@)),
{
    let ghost start = f@;
    let ghost views = connections_view(conns@);
    for i in 0..conns.len()
        invariant
            views == connections_view(conns@),
            forall|i: int| 0 <= i < views.len() ==> resolved((#[trigger] views[i]).1),
            f@ == start + connections_text(views.take(i as int)),
    {
        proof {
            assert(views.take(i + 1).drop_last() =~= views.take(i as int));
            assert(views[i as int].1 == conns@[i as int].1@);
        }
        if i > 0 {
            f.append(",");
        }
        f.append("\n    .\\");
        f.append(conns[i].0);
        f.append(" (");
        conns[i].1.fmt(f);
        f.append(")");
    }
    proof {
        assert(views.take(conns@.len() as int) =~= views);
    }
}

impl<'a> Member<'a> {
    /// Writes the member, in which every net has a name.
    pub fn fmt(&self, f: &mut String)
        requires
            member_resolved(self@),
        ensures
            final(f)@ == old(f)@ + member_text(self@),
    {
        match self {
            Member::Input(attrs, name, range) => {
                fmt_declaration(attrs, "input", range, name, f);
            },
            Member::Output(attrs, name, range) => {
                fmt_declaration(attrs, "output", range, name, f);
            },
            Member::Wire(attrs, name, range) => {
                fmt_declaration(attrs, "wire", range, name, f);
            },
            Member::Assign(left, right) => {
                f.append("assign ");
                left.fmt(f);
                f.append(" = ");
                right.fmt(f);
            },
            Member::Instantiation(attrs, type_, name, conns) => {
                attrs.fmt(f);
                f.append("\\");
                f.append(type_);
                f.append(" \\");
                f.append(name);
                f.append(" (");
                proof {
                    lemma_connections_resolved(*self, *conns);
                }
                fmt_connections(conns, f);
                f.append("\n  )");
            },
        }
    }
}

fn fmt_port_list<'a>(ports: &Vec<Member<'a>>, f: &mut String)
    requires
        forall|i: int|
            0 <= i < ports@.len() ==> port_name(#[trigger] members_view(ports@)[i]) is Some,
    ensures
        final(f)@ == old(f)@ + port_list_text(members_view(ports@)),
{
    let ghost start = f@;
    let ghost views = members_view(ports@);
    for i in 0..ports.len()
        invariant
            views == members_view(ports@),
            forall|i: int| 0 <= i < ports@.len() ==> port_name(#[trigger] views[i]) is Some,
            f@ == start + port_list_text(views.take(i as int)),
    {
        proof {
            assert(views.take(i + 1).drop_last() =~= views.take(i as int));
            assert(views[i as int] == ports@[i as int]@);
        }
        match &ports[i] {
            Member::Input(_, name, _) | Member::Output(_, name, _) => {
                if i > 0 {
                    f.append(",");
                }
                f.append("\n  \\");
                f.append(name);
                f.append(" ");
            },
            _ => {},
        }
    }
    proof {
        assert(views.take(ports@.len() as int) =~= views);
    }
}

fn fmt_body<'a>(members: &Vec<Member<'a>>, f: &mut String)
    requires
        forall|i: int|
            0 <= i < members@.len() ==> member_resolved(#[trigger] members_view(members@)[i]),
    ensures
        final(f)@ == old(f)@ + body_text(members_view(members@)),
{
    let ghost start = f@;
    let ghost views = members_view(members@);
    for i in 0..members.len()
        invariant
            views == members_view(members@),
            forall|i: int| 0 <= i < members@.len() ==> member_resolved(#[trigger] views[i]),
            f@ == start + body_text(views.take(i as int)),
    {
        proof {
            assert(views.take(i + 1).drop_last() =~= views.take(i as int));
            assert(views[i as int] == members@[i as int]@);
        }
        f.append("  ");
        members[i].fmt(f);
        f.append(";\n");
    }
    proof {
        assert(views.take(members@.len() as int) =~= views);
    }
}

impl<'a> Module<'a> {
    /// Writes the module, whose ports are ports and in which every net has a name.
    pub fn fmt(&self, f: &mut String)
        requires
            module_printable(self@),
        ensures
            final(f)@ == old(f)@ + module_text(self@),
    {
        f.append("module \\");
        f.append(self.name);
        f.append(" (");
        fmt_port_list(&self.port_members, f);
        f.append("\n);\n");
        proof {
            assert forall|i: int| 0 <= i < self.port_members@.len() implies member_resolved(
                #[trigger] members_view(self.port_members@)[i],
            ) by {
                assert(port_name(self@.port_members[i]) is Some);
            }
        }
        fmt_body(&self.port_members, f);
        proof {
            assert forall|i: int| 0 <= i < self.members@.len() implies member_resolved(
                #[trigger] members_view(self.members@)[i],
            ) by {
                assert(member_resolved(self@.members[i]));
            }
        }
        fmt_body(&self.members, f);
        f.append("endmodule\n\n");
    }
}

impl<'a> Unit<'a> {
    /// Writes the source file.
    pub fn fmt(&self, f: &mut String)
        requires
            unit_printable(self@),
        ensures
            final(f)@ == old(f)@ + unit_text(self@),
    {
        let ghost start = f@;
        for i in 0..self.0.len()
            invariant
                unit_printable(self@),
                f@ == start + unit_text(self@.take(i as int)),
        {
            proof {
                assert(self@.take(i + 1).drop_last() =~= self@.take(i as int));
                assert(self@[i as int] == self.0@[i as int]@);
                assert(unit_text(self@.take(i + 1)) == unit_text(self@.take(i as int))
                    + module_text(self@[i as int]));
            }
            let ghost before = f@;
            self.0[i].fmt(f);
            proof {
                assert(before + module_text(self@[i as int]) =~= start + unit_text(
                    self@.take(i + 1),
                ));
            }
        }
        proof {
            assert(self@.take(self.0@.len() as int) =~= self@);
        }
    }
}

} // verus!
