//! What the metadata of a cell says: its scopes, its name, its attributes; and the names of
//! scopes.

use bumpalo::Bump;
use vstd::prelude::*;
use vstd::string::*;

use crate::arena::intern;
use crate::cst::Attrs;
use crate::netlist::{Design, MetaItem, MetaItemRef, ParamValue, SourcePosition, NONE};
use crate::scope::common_scope;
use crate::text::{join, push_decimal, push_signed};

verus! {

impl Design {
    /// The scope that an item opens, or that the name in it belongs to.
    pub open spec fn item_scope(&self, r: MetaItemRef) -> Option<MetaItemRef> {
        match self.metadata@[r as int] {
            MetaItem::NamedScope { .. } => Some(r),
            MetaItem::IndexedScope { .. } => Some(r),
            MetaItem::Ident { scope, .. } => Some(scope),
            _ => None,
        }
    }

    /// The scopes that the items speak of, in order.
    pub open spec fn item_scopes(&self, items: Seq<MetaItemRef>) -> Seq<MetaItemRef>
        decreases items.len(),
    {
        if items.len() == 0 {
            seq![]
        } else {
            let before = self.item_scopes(items.drop_last());
            match self.item_scope(items.last()) {
                Some(scope) => before.push(scope),
                None => before,
            }
        }
    }

    /// The innermost scope that is around all of `scopes`; the root, if there are none.
    pub open spec fn common_of(&self, scopes: Seq<MetaItemRef>) -> MetaItemRef
        decreases scopes.len(),
    {
        if scopes.len() == 0 {
            NONE
        } else if scopes.len() == 1 {
            scopes[0]
        } else {
            self.common(self.common_of(scopes.drop_last()), scopes.last())
        }
    }

    /// The first name among the items.
    pub open spec fn item_name(&self, items: Seq<MetaItemRef>) -> Option<Seq<char>>
        decreases items.len(),
    {
        if items.len() == 0 {
            None
        } else {
            match self.metadata@[items[0] as int] {
                MetaItem::Ident { name, .. } => Some(name@),
                _ => self.item_name(items.skip(1)),
            }
        }
    }

    /// The name of the Verilog module for a scope: the path to it from the root, which is `top`.
    pub open spec fn module_name(&self, s: MetaItemRef) -> Seq<char>
        decreases s,
    {
        if s == NONE {
            "top"@
        } else {
            let prefix = self.module_name(self.parent(s));
            match self.metadata@[s as int] {
                MetaItem::IndexedScope { index, .. } => prefix + "["@ + crate::text::signed_decimal(
                    index as int,
                ) + "]"@,
                MetaItem::NamedScope { name, .. } => prefix + "."@ + name@,
                _ => prefix,
            }
        }
    }

    /// The attributes among the items, in order.
    pub open spec fn item_attrs(&self, items: Seq<MetaItemRef>) -> Seq<(Seq<char>, Seq<char>)>
        decreases items.len(),
    {
        if items.len() == 0 {
            seq![]
        } else {
            let before = self.item_attrs(items.drop_last());
            match self.metadata@[items.last() as int] {
                MetaItem::Attr { name, value: ParamValue::Text(text) } => before.push(
                    (name@, text@),
                ),
                _ => before,
            }
        }
    }

    /// The stretches of source text among the items, in order, each as `file:line.column-line.column`
    /// with all numbers counted from one.
    pub open spec fn item_sources(&self, items: Seq<MetaItemRef>) -> Seq<Seq<char>>
        decreases items.len(),
    {
        if items.len() == 0 {
            seq![]
        } else {
            let before = self.item_sources(items.drop_last());
            match self.metadata@[items.last() as int] {
                MetaItem::Source { file, start, end } => before.push(
                    source_text(file@, start, end),
                ),
                _ => before,
            }
        }
    }

    /// The Verilog attributes for the metadata of a cell: its attributes, and, where it has
    /// stretches of source text, a last one `src` with all of them.
    pub open spec fn cell_attrs(&self, items: Seq<MetaItemRef>) -> Seq<(Seq<char>, Seq<char>)> {
        let sources = self.item_sources(items);
        if sources.len() == 0 {
            self.item_attrs(items)
        } else {
            self.item_attrs(items).push(("src"@, crate::text::joined_text(sources, "|"@)))
        }
    }

    /// Whether the attributes of the items can be written: all are strings, and no line or column
    /// is too large to be counted from one.
    pub open spec fn attrs_ok(&self, items: Seq<MetaItemRef>) -> bool {
        forall|i: int| 0 <= i < items.len() ==> self.attr_ok(#[trigger] items[i])
    }

    /// Whether one item can be written as an attribute, if it is to become one.
    pub open spec fn attr_ok(&self, r: MetaItemRef) -> bool {
        match self.metadata@[r as int] {
            MetaItem::Attr { value, .. } => value is Text,
            MetaItem::Source { start, end, .. } => {
                &&& start.line < u32::MAX
                &&& start.column < u32::MAX
                &&& end.line < u32::MAX
                &&& end.column < u32::MAX
            },
            _ => true,
        }
    }

    /// Every module name begins with `top`, so none is empty.
    pub proof fn module_names_start_at_top(&self, s: MetaItemRef)
        ensures
            "top"@.is_prefix_of(self.module_name(s)),
            self.module_name(s).len() >= 3,
        decreases s,
    {
        reveal_strlit("top");
        if s != NONE {
            self.module_names_start_at_top(self.parent(s));
            assert(self.module_name(s).subrange(0, 3) =~= self.module_name(
                self.parent(s),
            ).subrange(0, 3));
        }
        assert(self.module_name(s).subrange(0, 3) =~= "top"@);
    }

    /// The common scope of several scopes is around each of them, and is as deep as any such scope.
    pub proof fn common_of_is_innermost(&self, scopes: Seq<MetaItemRef>, c: MetaItemRef)
        requires
            scopes.len() > 0,
        ensures
            self.is_within(self.common_of(scopes), c) <==> forall|i: int|
                0 <= i < scopes.len() ==> self.is_within(#[trigger] scopes[i], c),
        decreases scopes.len(),
    {
        if scopes.len() > 1 {
            let rest = scopes.drop_last();
            self.common_of_is_innermost(rest, c);
            self.common_is_innermost(self.common_of(rest), scopes.last(), c);
            if self.is_within(self.common_of(scopes), c) {
                assert forall|i: int| 0 <= i < scopes.len() implies self.is_within(
                    #[trigger] scopes[i],
                    c,
                ) by {
                    if i < rest.len() {
                        assert(scopes[i] == rest[i]);
                    }
                }
            } else if forall|i: int|
                0 <= i < scopes.len() ==> self.is_within(#[trigger] scopes[i], c) {
                assert forall|i: int| 0 <= i < rest.len() implies self.is_within(
                    #[trigger] rest[i],
                    c,
                ) by {
                    assert(scopes[i] == rest[i]);
                }
                assert(scopes.last() == scopes[scopes.len() - 1]);
            }
        }
    }
}

/// One stretch of source text, with lines and columns counted from one.
pub open spec fn source_text(file: Seq<char>, start: SourcePosition, end: SourcePosition) -> Seq<
    char,
> {
    file + ":"@ + crate::text::decimal((start.line + 1) as nat) + "."@ + crate::text::decimal(
        (start.column + 1) as nat,
    ) + "-"@ + crate::text::decimal((end.line + 1) as nat) + "."@ + crate::text::decimal(
        (end.column + 1) as nat,
    )
}

/// The attributes as pairs of texts.
pub open spec fn pair_texts(pairs: Seq<(&str, &str)>) -> Seq<(Seq<char>, Seq<char>)> {
    pairs.map_values(|p: (&str, &str)| (p.0@, p.1@))
}

/// The scopes that the items speak of, in order.
pub fn metadata_scopes(design: &Design, items: &Vec<MetaItemRef>) -> (scopes: Vec<MetaItemRef>)
    requires
        design.wf(),
        forall|i: int| 0 <= i < items@.len() ==> #[trigger] items@[i] < design.metadata@.len(),
    ensures
        scopes@ == design.item_scopes(items@),
        forall|i: int| 0 <= i < scopes@.len() ==> design.is_scope(#[trigger] scopes@[i]),
{
    let mut scopes: Vec<MetaItemRef> = Vec::new();
    for i in 0..items.len()
        invariant
            design.wf(),
            forall|i: int| 0 <= i < items@.len() ==> #[trigger] items@[i] < design.metadata@.len(),
            scopes@ == design.item_scopes(items@.take(i as int)),
            forall|i: int| 0 <= i < scopes@.len() ==> design.is_scope(#[trigger] scopes@[i]),
    {
        proof {
            assert(items@.take(i + 1).drop_last() =~= items@.take(i as int));
            assert(design.item_ok(items@[i as int]));
        }
        match &design.metadata[items[i]] {
            MetaItem::NamedScope { .. } => scopes.push(items[i]),
            MetaItem::IndexedScope { .. } => scopes.push(items[i]),
            MetaItem::Ident { scope, .. } => scopes.push(*scope),
            _ => {},
        }
    }
    proof {
        assert(items@.take(items@.len() as int) =~= items@);
    }
    scopes
}

/// The innermost scope that is around all of `scopes`; the root, if there are none.
pub fn reduce_scopes(design: &Design, scopes: &Vec<MetaItemRef>) -> (r: MetaItemRef)
    requires
        design.wf(),
        forall|i: int| 0 <= i < scopes@.len() ==> design.is_scope(#[trigger] scopes@[i]),
    ensures
        r == design.common_of(scopes@),
        design.is_scope(r),
{
    if scopes.len() == 0 {
        return NONE;
    }
    let mut r: MetaItemRef = scopes[0];
    proof {
        assert(scopes@.take(1)[0] == scopes@[0]);
    }
    for i in 1..scopes.len()
        invariant
            design.wf(),
            forall|i: int| 0 <= i < scopes@.len() ==> design.is_scope(#[trigger] scopes@[i]),
            scopes@.len() >= 1,
            r == design.common_of(scopes@.take(i as int)),
            design.is_scope(r),
    {
        proof {
            assert(scopes@.take(i + 1).drop_last() =~= scopes@.take(i as int));
        }
        r = common_scope(design, r, scopes[i]);
    }
    proof {
        assert(scopes@.take(scopes@.len() as int) =~= scopes@);
    }
    r
}

/// The first name among the items.
pub fn metadata_name<'a>(design: &'a Design, items: &Vec<MetaItemRef>) -> (r: Option<&'a str>)
    requires
        forall|i: int| 0 <= i < items@.len() ==> #[trigger] items@[i] < design.metadata@.len(),
    ensures
        match r {
            Some(name) => design.item_name(items@) == Some(name@),
            None => design.item_name(items@) is None,
        },
{
    proof {
        assert(items@.skip(0) =~= items@);
    }
    for i in 0..items.len()
        invariant
            forall|i: int| 0 <= i < items@.len() ==> #[trigger] items@[i] < design.metadata@.len(),
            design.item_name(items@) == design.item_name(items@.skip(i as int)),
    {
        proof {
            assert(items@.skip(i as int).skip(1) =~= items@.skip(i + 1));
            assert(items@.skip(i as int)[0] == items@[i as int]);
        }
        match &design.metadata[items[i]] {
            MetaItem::Ident { name, .. } => {
                return Some(name.as_str());
            },
            _ => {},
        }
    }
    None
}

/// The name of the Verilog module for a scope.
pub fn verilog_module_name(design: &Design, scope: MetaItemRef) -> (name: String)
    requires
        design.wf(),
        design.is_scope(scope),
    ensures
        name@ == design.module_name(scope),
    decreases scope,
{
    proof {
        assert(design.item_ok(scope));
    }
    if scope == NONE {
        return "top".to_owned();
    }
    match &design.metadata[scope] {
        MetaItem::IndexedScope { index, parent } => {
            let mut name = verilog_module_name(design, *parent);
            name.append("[");
            push_signed(&mut name, *index);
            name.append("]");
            name
        },
        MetaItem::NamedScope { name, parent } => {
            let mut path = verilog_module_name(design, *parent);
            path.append(".");
            path.append(name.as_str());
            path
        },
        _ => String::new(),
    }
}

fn source_string(file: &str, start: SourcePosition, end: SourcePosition) -> (text: String)
    requires
        start.line < u32::MAX,
        start.column < u32::MAX,
        end.line < u32::MAX,
        end.column < u32::MAX,
    ensures
        text@ == source_text(file@, start, end),
{
    let mut text = file.to_owned();
    text.append(":");
    push_decimal(&mut text, (start.line + 1) as u64);
    text.append(".");
    push_decimal(&mut text, (start.column + 1) as u64);
    text.append("-");
    push_decimal(&mut text, (end.line + 1) as u64);
    text.append(".");
    push_decimal(&mut text, (end.column + 1) as u64);
    text
}

/// The Verilog attributes for the metadata of a cell.
pub fn map_metadata<'a>(alloc: &'a Bump, design: &Design, metadata: &Vec<MetaItemRef>) -> (r: Attrs<
    'a,
>)
    requires
        forall|i: int|
            0 <= i < metadata@.len() ==> #[trigger] metadata@[i] < design.metadata@.len(),
        design.attrs_ok(metadata@),
    ensures
        r@ == design.cell_attrs(metadata@),
{
    let mut attrs: Vec<(&'a str, &'a str)> = Vec::new();
    let mut srcs: Vec<String> = Vec::new();
    for i in 0..metadata.len()
        invariant
            forall|i: int|
                0 <= i < metadata@.len() ==> #[trigger] metadata@[i] < design.metadata@.len(),
            design.attrs_ok(metadata@),
            pair_texts(attrs@) == design.item_attrs(metadata@.take(i as int)),
            srcs@.map_values(|s: String| s@) == design.item_sources(metadata@.take(i as int)),
    {
        proof {
            assert(metadata@.take(i + 1).drop_last() =~= metadata@.take(i as int));
            assert(design.attr_ok(metadata@[i as int]));
        }
        let ghost attrs0 = attrs@;
        let ghost srcs0 = srcs@;
        match &design.metadata[metadata[i]] {
            MetaItem::Source { file, start, end } => {
                srcs.push(source_string(file.as_str(), *start, *end));
                proof {
                    assert(srcs@.map_values(|s: String| s@) =~= srcs0.map_values(
                        |s: String| s@,
                    ).push(srcs@.last()@));
                }
            },
            MetaItem::Attr { name, value } => {
                match value {
                    ParamValue::Text(text) => {
                        attrs.push(
                            (
                                intern(alloc, name.as_str().to_owned()),
                                intern(alloc, text.as_str().to_owned()),
                            ),
                        );
                        proof {
                            assert(pair_texts(attrs@) =~= pair_texts(attrs0).push(
                                (name@, text@),
                            ));
                        }
                    },
                    ParamValue::Other => {},
                }
            },
            _ => {},
        }
    }
    proof {
        assert(metadata@.take(metadata@.len() as int) =~= metadata@);
    }
    if srcs.len() > 0 {
        let ghost attrs0 = attrs@;
        let text = intern(alloc, join(&srcs, "|"));
        attrs.push(("src", text));
        proof {
            assert(pair_texts(attrs@) =~= pair_texts(attrs0).push(("src"@, text@)));
        }
    }
    Attrs(attrs)
}

} // verus!
