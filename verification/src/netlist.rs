//! The part of a netlist that is read in order to write it out as Verilog.

use vstd::prelude::*;

verus! {

/// A single wire. The numbers below [`FIRST_CELL_NET`] and the number [`UNDEF_NET`] stand for
/// constants; every other number is an output of a cell.
pub type Net = u32;

/// The first number of a net that a cell drives.
pub const FIRST_CELL_NET: Net = 2;

/// The net that carries an undefined constant.
pub const UNDEF_NET: Net = 0xffff_ffff;

/// A bundle of nets, least significant first.
pub type Value = Vec<Net>;

/// The place of a metadata item in [`Design::metadata`].
pub type MetaItemRef = usize;

/// The reference to no metadata item; as a scope, the root of the hierarchy.
pub const NONE: MetaItemRef = 0;

/// The place of a cell in [`Design::cells`].
pub type CellRef = usize;

/// A place in a source file, both numbers counted from zero.
#[derive(Clone, Copy, Debug, PartialEq, Eq, Structural)]
pub struct SourcePosition {
    pub line: u32,
    pub column: u32,
}

/// The value of an attribute.
#[derive(Debug)]
pub enum ParamValue {
    Text(String),
    /// A value that is not a string.
    Other,
}

/// One item of metadata.
#[derive(Debug)]
pub enum MetaItem {
    /// What [`NONE`] refers to.
    Empty,
    /// A stretch of source text.
    Source { file: String, start: SourcePosition, end: SourcePosition },
    /// A scope that its parent knows by name.
    NamedScope { name: String, parent: MetaItemRef },
    /// A scope that its parent knows by number.
    IndexedScope { index: i32, parent: MetaItemRef },
    /// A name, and the scope that it belongs to.
    Ident { name: String, scope: MetaItemRef },
    /// An attribute.
    Attr { name: String, value: ParamValue },
}

/// An instance of a component that the netlist does not look into. Each list is in the order of
/// the names in it.
#[derive(Debug)]
pub struct Instance {
    pub kind: String,
    pub params: Vec<(String, ParamValue)>,
    pub inputs: Vec<(String, Value)>,
    /// For each output the stretch of the cell's own output, from the first number up to but
    /// without the second.
    pub outputs: Vec<(String, (usize, usize))>,
    pub ios: Vec<(String, Vec<u32>)>,
}

/// What a cell does, with the nets that it reads.
#[derive(Debug)]
pub enum Cell {
    /// A top-level input of the given width.
    Input(String, usize),
    /// A top-level output.
    Output(String, Value),
    /// A name for a value, to be kept.
    Name(String, Value),
    /// A name for a value, for information.
    Debug(String, Value),
    /// An instance of a component.
    Other(Instance),
    /// A single-bit gate, with the nets that it reads. It is not written out.
    Fine(Value),
    /// Any other operation, with the nets that it reads. It has no Verilog form here.
    Coarse(Value),
}

/// A cell of a design, with its metadata and the nets that it drives.
#[derive(Debug)]
pub struct CellEntry {
    pub cell: Cell,
    pub metadata: Vec<MetaItemRef>,
    pub output: Value,
}

/// A netlist.
#[derive(Debug)]
pub struct Design {
    pub metadata: Vec<MetaItem>,
    pub cells: Vec<CellEntry>,
}

/// Whether a net is an output of a cell, rather than a constant.
pub open spec fn is_cell_net(net: Net) -> bool {
    FIRST_CELL_NET <= net < UNDEF_NET
}

/// Whether a net is an output of a cell, rather than a constant.
pub fn is_cell(net: Net) -> (r: bool)
    ensures
        r == is_cell_net(net),
{
    FIRST_CELL_NET <= net && net < UNDEF_NET
}

impl Design {
    /// Whether `r` refers to a scope: the root, or an item that opens one.
    pub open spec fn is_scope(&self, r: MetaItemRef) -> bool {
        r == NONE || (r < self.metadata@.len() && match self.metadata@[r as int] {
            MetaItem::NamedScope { .. } => true,
            MetaItem::IndexedScope { .. } => true,
            _ => false,
        })
    }

    /// The scope directly around `s`; the root for the root itself.
    pub open spec fn parent(&self, s: MetaItemRef) -> MetaItemRef {
        if s == NONE || s >= self.metadata@.len() {
            NONE
        } else {
            match self.metadata@[s as int] {
                MetaItem::NamedScope { parent, .. } => if parent < s {
                    parent
                } else {
                    NONE
                },
                MetaItem::IndexedScope { parent, .. } => if parent < s {
                    parent
                } else {
                    NONE
                },
                _ => NONE,
            }
        }
    }

    /// Whether an item refers only to scopes, and a scope only to one that stands before it.
    pub open spec fn item_ok(&self, r: MetaItemRef) -> bool {
        match self.metadata@[r as int] {
            MetaItem::NamedScope { parent, .. } => parent < r && self.is_scope(parent),
            MetaItem::IndexedScope { parent, .. } => parent < r && self.is_scope(parent),
            MetaItem::Ident { scope, .. } => self.is_scope(scope),
            _ => true,
        }
    }

    /// Whether every item in the metadata of a cell exists.
    pub open spec fn entry_ok(&self, c: CellRef) -> bool {
        forall|i: int|
            0 <= i < self.cells@[c as int].metadata@.len()
                ==> #[trigger] self.cells@[c as int].metadata@[i] < self.metadata@.len()
    }

    /// Whether the metadata hangs together: the root stands first and is no scope of its own,
    /// every reference leads to an item, and the parents of the scopes form a tree.
    pub open spec fn wf(&self) -> bool {
        &&& self.metadata@.len() > 0
        &&& self.metadata@[0] is Empty
        &&& forall|r: MetaItemRef| r < self.metadata@.len() ==> #[trigger] self.item_ok(r)
        &&& forall|c: CellRef| c < self.cells@.len() ==> #[trigger] self.entry_ok(c)
    }

    /// The scope directly around a scope, if it is not the root.
    pub fn scope_parent(&self, s: MetaItemRef) -> (r: Option<MetaItemRef>)
        requires
            self.wf(),
            self.is_scope(s),
        ensures
            r == (if s == NONE {
                None
            } else {
                Some(self.parent(s))
            }),
            r matches Some(p) ==> p < s && self.is_scope(p),
    {
        proof {
            assert(self.item_ok(s));
        }
        match &self.metadata[s] {
            MetaItem::NamedScope { parent, .. } => Some(*parent),
            MetaItem::IndexedScope { parent, .. } => Some(*parent),
            _ => None,
        }
    }

}

} // verus!
