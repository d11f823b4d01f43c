//! What holds of scopes, names and attributes, in terms of the metadata itself.

use vstd::prelude::*;

use crate::metadata::source_text;
use crate::netlist::{CellRef, Design, MetaItem, MetaItemRef, SourcePosition, NONE};
use crate::text::{decimal, joined_text, signed_decimal};

verus! {

/// Whether each place of a path, but for the last, is a scope whose metadata names the next as its
/// parent.
pub open spec fn is_path(d: &Design, path: Seq<MetaItemRef>) -> bool {
    &&& path.len() > 0
    &&& forall|i: int|
        0 <= i < path.len() - 1 ==> 0 < #[trigger] path[i] < d.metadata@.len() && match d.metadata@[path[i] as int] {
            MetaItem::NamedScope { parent, .. } => parent == path[i + 1],
            MetaItem::IndexedScope { parent, .. } => parent == path[i + 1],
            _ => false,
        }
}

impl Design {
    /// The metadata hangs together exactly if the root stands first, what a scope or a name refers
    /// to is the root or a scope, the parent of a scope stands before it, and cells refer to items.
    pub proof fn well_formed_metadata(&self)
        ensures
            self.wf() <==> {
                let scope = |r: MetaItemRef|
                    r == 0 || (r < self.metadata@.len() && (self.metadata@[r as int] is NamedScope
                        || self.metadata@[r as int] is IndexedScope));
                &&& self.metadata@.len() > 0
                &&& self.metadata@[0] is Empty
                &&& forall|r: MetaItemRef|
                    r < self.metadata@.len() ==> match #[trigger] self.metadata@[r as int] {
                        MetaItem::NamedScope { parent, .. } => parent < r && scope(parent),
                        MetaItem::IndexedScope { parent, .. } => parent < r && scope(parent),
                        MetaItem::Ident { scope: s, .. } => scope(s),
                        _ => true,
                    }
                &&& forall|c: CellRef, i: int|
                    c < self.cells@.len() && 0 <= i < self.cells@[c as int].metadata@.len()
                        ==> #[trigger] self.cells@[c as int].metadata@[i] < self.metadata@.len()
            },
    {
        let scope = |r: MetaItemRef|
            r == 0 || (r < self.metadata@.len() && (self.metadata@[r as int] is NamedScope
                || self.metadata@[r as int] is IndexedScope));
        assert forall|r: MetaItemRef| #[trigger] scope(r) == self.is_scope(r) by {}
        if self.wf() {
            assert forall|r: MetaItemRef|
                r < self.metadata@.len() implies match #[trigger] self.metadata@[r as int] {
                MetaItem::NamedScope { parent, .. } => parent < r && scope(parent),
                MetaItem::IndexedScope { parent, .. } => parent < r && scope(parent),
                MetaItem::Ident { scope: s, .. } => scope(s),
                _ => true,
            } by {
                assert(self.item_ok(r));
            }
            assert forall|c: CellRef, i: int|
                c < self.cells@.len() && 0 <= i < self.cells@[c as int].metadata@.len() implies
                #[trigger] self.cells@[c as int].metadata@[i] < self.metadata@.len() by {
                assert(self.entry_ok(c));
            }
        } else if self.metadata@.len() > 0 && self.metadata@[0] is Empty {
            if exists|r: MetaItemRef| r < self.metadata@.len() && !self.item_ok(r) {
                let r = choose|r: MetaItemRef| r < self.metadata@.len() && !self.item_ok(r);
                assert(self.metadata@[r as int] == self.metadata@[r as int]);
            } else {
                let c = choose|c: CellRef| c < self.cells@.len() && !self.entry_ok(c);
                let i = choose|i: int|
                    0 <= i < self.cells@[c as int].metadata@.len()
                        && #[trigger] self.cells@[c as int].metadata@[i] >= self.metadata@.len();
                assert(self.cells@[c as int].metadata@[i] >= self.metadata@.len());
            }
        }
    }

    /// The scope directly around a scope is the one that its metadata names.
    pub proof fn parents_stand_in_the_metadata(&self, s: MetaItemRef)
        requires
            self.wf(),
            s < self.metadata@.len(),
        ensures
            self.parent(NONE) == NONE,
            match self.metadata@[s as int] {
                MetaItem::NamedScope { parent, .. } => self.parent(s) == parent,
                MetaItem::IndexedScope { parent, .. } => self.parent(s) == parent,
                _ => true,
            },
    {
        assert(self.item_ok(s));
    }

    /// A path of parents leads from a scope to one around it, and each step is one level.
    pub proof fn paths_lead_outwards(&self, path: Seq<MetaItemRef>)
        requires
            self.wf(),
            is_path(self, path),
        ensures
            self.is_within(path[0], path.last()),
            self.level(path[0]) == self.level(path.last()) + path.len() - 1,
            self.level(NONE) == 0,
        decreases path.len(),
    {
        if path.len() > 1 {
            let rest = path.skip(1);
            assert forall|i: int| 0 <= i < rest.len() - 1 implies 0 < #[trigger] rest[i]
                < self.metadata@.len() && match self.metadata@[rest[i] as int] {
                MetaItem::NamedScope { parent, .. } => parent == rest[i + 1],
                MetaItem::IndexedScope { parent, .. } => parent == rest[i + 1],
                _ => false,
            } by {
                assert(rest[i] == path[i + 1]);
            }
            self.paths_lead_outwards(rest);
            assert(0 < path[0] < self.metadata@.len());
            self.parents_stand_in_the_metadata(path[0]);
            assert(rest[0] == path[1]);
        }
    }

    /// From a scope to each scope around it there is a path of parents.
    pub proof fn outer_scopes_are_reached(&self, s: MetaItemRef, outer: MetaItemRef) -> (path: Seq<
        MetaItemRef,
    >)
        requires
            self.wf(),
            self.is_scope(s),
            self.is_within(s, outer),
        ensures
            is_path(self, path),
            path[0] == s,
            path.last() == outer,
        decreases s,
    {
        if s == outer {
            seq![s]
        } else {
            assert(self.item_ok(s));
            let rest = self.outer_scopes_are_reached(self.parent(s), outer);
            let path = seq![s] + rest;
            assert forall|i: int| 0 <= i < path.len() - 1 implies 0 < #[trigger] path[i]
                < self.metadata@.len() && match self.metadata@[path[i] as int] {
                MetaItem::NamedScope { parent, .. } => parent == path[i + 1],
                MetaItem::IndexedScope { parent, .. } => parent == path[i + 1],
                _ => false,
            } by {
                if i > 0 {
                    assert(path[i] == rest[i - 1]);
                }
            }
            path
        }
    }

    /// The items of a cell speak of the scopes among them and of those that names among them belong
    /// to, in the order of the items, and of no others.
    pub proof fn scopes_come_from_the_items(&self, items: Seq<MetaItemRef>)
        ensures
            ({
                let found = items.filter(
                    |r: MetaItemRef|
                        self.metadata@[r as int] is NamedScope
                            || self.metadata@[r as int] is IndexedScope
                            || self.metadata@[r as int] is Ident,
                );
                &&& self.item_scopes(items).len() == found.len()
                &&& forall|i: int|
                    0 <= i < found.len() ==> #[trigger] self.item_scopes(items)[i] == (
                    match self.metadata@[found[i] as int] {
                        MetaItem::Ident { scope, .. } => scope,
                        _ => found[i],
                    })
            }),
        decreases items.len(),
    {
        reveal(Seq::filter);
        if items.len() > 0 {
            self.scopes_come_from_the_items(items.drop_last());
        }
    }

    /// What is around the common scope of some scopes is around each of them; no scopes have the
    /// root in common.
    pub proof fn common_of_is_around_all(&self, scopes: Seq<MetaItemRef>)
        ensures
            scopes.len() == 0 ==> self.common_of(scopes) == NONE,
            forall|i: int|
                0 <= i < scopes.len() ==> self.is_within(
                    #[trigger] scopes[i],
                    self.common_of(scopes),
                ),
    {
        if scopes.len() > 0 {
            self.common_of_is_innermost(scopes, self.common_of(scopes));
        }
    }

    /// The name among the items is that of the first item that is a name; there is none only if no
    /// item is one.
    pub proof fn first_name_is_taken(&self, items: Seq<MetaItemRef>)
        ensures
            forall|k: int|
                0 <= k < items.len() && self.metadata@[#[trigger] items[k] as int] is Ident && (
                forall|j: int|
                    0 <= j < k ==> !(self.metadata@[#[trigger] items[j] as int] is Ident))
                    ==> self.item_name(items) == Some(
                    self.metadata@[items[k] as int]->Ident_name@,
                ),
            (forall|k: int|
                0 <= k < items.len() ==> !(self.metadata@[#[trigger] items[k] as int] is Ident))
                ==> self.item_name(items) is None,
        decreases items.len(),
    {
        if items.len() > 0 {
            let rest = items.skip(1);
            self.first_name_is_taken(rest);
            assert forall|j: int| 0 <= j < rest.len() implies #[trigger] rest[j] == items[j + 1] by {}
            if !(self.metadata@[items[0] as int] is Ident) {
                assert forall|k: int|
                    0 <= k < items.len() && self.metadata@[#[trigger] items[k] as int] is Ident && (
                    forall|j: int|
                        0 <= j < k ==> !(self.metadata@[#[trigger] items[j] as int] is Ident)) implies self.item_name(
                    items,
                ) == Some(self.metadata@[items[k] as int]->Ident_name@) by {
                    assert(rest[k - 1] == items[k]);
                }
            } else {
                assert(items[0] == items[0]);
            }
        }
    }

    /// The module of the root is `top`; that of another scope is called as the one around it, with
    /// the name of the scope behind a dot or its number in brackets.
    pub proof fn module_names_spell_the_path(&self, s: MetaItemRef)
        requires
            self.wf(),
            0 < s < self.metadata@.len(),
        ensures
            self.module_name(0) == seq!['t', 'o', 'p'],
            match self.metadata@[s as int] {
                MetaItem::NamedScope { name, parent } => self.module_name(s) == self.module_name(
                    parent,
                ) + seq!['.'] + name@,
                MetaItem::IndexedScope { index, parent } => self.module_name(s)
                    == self.module_name(parent) + seq!['['] + signed_decimal(index as int)
                    + seq![']'],
                _ => true,
            },
    {
        reveal_strlit("top");
        reveal_strlit(".");
        reveal_strlit("[");
        reveal_strlit("]");
        assert("top"@ =~= seq!['t', 'o', 'p']);
        assert("."@ =~= seq!['.']);
        assert("["@ =~= seq!['[']);
        assert("]"@ =~= seq![']']);
        self.parents_stand_in_the_metadata(s);
    }

    proof fn lemma_attrs(&self, items: Seq<MetaItemRef>)
        ensures
            ({
                let attrs = items.filter(
                    |r: MetaItemRef|
                        self.metadata@[r as int] is Attr
                            && self.metadata@[r as int]->Attr_value is Text,
                );
                &&& self.item_attrs(items).len() == attrs.len()
                &&& forall|i: int|
                    0 <= i < attrs.len() ==> #[trigger] self.item_attrs(items)[i] == (
                        self.metadata@[attrs[i] as int]->Attr_name@,
                        self.metadata@[attrs[i] as int]->Attr_value->Text_0@,
                    )
            }),
        decreases items.len(),
    {
        reveal(Seq::filter);
        if items.len() > 0 {
            self.lemma_attrs(items.drop_last());
        }
    }

    proof fn lemma_sources(&self, items: Seq<MetaItemRef>)
        ensures
            ({
                let sources = items.filter(|r: MetaItemRef| self.metadata@[r as int] is Source);
                &&& self.item_sources(items).len() == sources.len()
                &&& forall|i: int|
                    0 <= i < sources.len() ==> #[trigger] self.item_sources(items)[i]
                        == source_text(
                        self.metadata@[sources[i] as int]->Source_file@,
                        self.metadata@[sources[i] as int]->Source_start,
                        self.metadata@[sources[i] as int]->Source_end,
                    )
            }),
        decreases items.len(),
    {
        reveal(Seq::filter);
        if items.len() > 0 {
            self.lemma_sources(items.drop_last());
        }
    }

    /// The Verilog attributes of a cell are those among its items, each with its name and value, in
    /// the order of the items. Where there is source text, one more comes last, `src`, with all of
    /// it in order and a bar between neighbours.
    pub proof fn attributes_come_from_the_items(&self, items: Seq<MetaItemRef>)
        ensures
            ({
                let attrs = items.filter(
                    |r: MetaItemRef|
                        self.metadata@[r as int] is Attr
                            && self.metadata@[r as int]->Attr_value is Text,
                );
                let sources = items.filter(|r: MetaItemRef| self.metadata@[r as int] is Source);
                let result = self.cell_attrs(items);
                &&& result.len() == attrs.len() + (if sources.len() > 0 {
                    1int
                } else {
                    0
                })
                &&& forall|i: int|
                    0 <= i < attrs.len() ==> #[trigger] result[i] == (
                        self.metadata@[attrs[i] as int]->Attr_name@,
                        self.metadata@[attrs[i] as int]->Attr_value->Text_0@,
                    )
                &&& sources.len() > 0 ==> result.last() == (
                    seq!['s', 'r', 'c'],
                    joined_text(
                        Seq::new(
                            sources.len(),
                            |i: int|
                                source_text(
                                    self.metadata@[sources[i] as int]->Source_file@,
                                    self.metadata@[sources[i] as int]->Source_start,
                                    self.metadata@[sources[i] as int]->Source_end,
                                ),
                        ),
                        seq!['|'],
                    ),
                )
            }),
    {
        reveal_strlit("src");
        reveal_strlit("|");
        assert("src"@ =~= seq!['s', 'r', 'c']);
        assert("|"@ =~= seq!['|']);
        self.lemma_attrs(items);
        self.lemma_sources(items);
        let sources = items.filter(|r: MetaItemRef| self.metadata@[r as int] is Source);
        assert(self.item_sources(items) =~= Seq::new(
            sources.len(),
            |i: int|
                source_text(
                    self.metadata@[sources[i] as int]->Source_file@,
                    self.metadata@[sources[i] as int]->Source_start,
                    self.metadata@[sources[i] as int]->Source_end,
                ),
        ));
    }

    /// Attributes can be written exactly if each is a string and every line and column can be
    /// counted from one.
    pub proof fn writable_attributes(&self, items: Seq<MetaItemRef>)
        ensures
            self.attrs_ok(items) <==> forall|i: int|
                0 <= i < items.len() ==> match self.metadata@[#[trigger] items[i] as int] {
                    MetaItem::Attr { value, .. } => value is Text,
                    MetaItem::Source { start, end, .. } => start.line < 0xffff_ffff && start.column
                        < 0xffff_ffff && end.line < 0xffff_ffff && end.column < 0xffff_ffff,
                    _ => true,
                },
    {
    }
}

/// A stretch of source text is written as the file, a colon, where it starts, a hyphen, and where it
/// ends; both are written as line, dot, column, counted from one.
pub proof fn source_text_counts_from_one(
    file: Seq<char>,
    start: SourcePosition,
    end: SourcePosition,
)
    ensures
        source_text(file, start, end) == file + seq![':'] + decimal((start.line + 1) as nat)
            + seq!['.'] + decimal((start.column + 1) as nat) + seq!['-'] + decimal(
            (end.line + 1) as nat,
        ) + seq!['.'] + decimal((end.column + 1) as nat),
{
    reveal_strlit(":");
    reveal_strlit(".");
    reveal_strlit("-");
    assert(":"@ =~= seq![':']);
    assert("."@ =~= seq!['.']);
    assert("-"@ =~= seq!['-']);
}

} // verus!
