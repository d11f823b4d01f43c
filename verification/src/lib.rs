//! Writes a netlist out as Verilog.
//!
//! [`export::export`] turns a [`netlist::Design`] into a [`cst::Unit`], the syntax tree of a Verilog
//! source file, and `fmt` turns that into text. The cells are sorted into modules by the scopes in
//! their metadata ([`hierarchy`]), each module gets its names, wires, ports and instances
//! ([`layout`] says which, [`export`] makes them). What holds of the whole is stated in
//! [`hierarchy_laws`] and [`export_laws`]; what each step gives, in terms of the design itself, in
//! [`metadata_laws`], [`placement_laws`], [`layout_laws`], [`flat_laws`] and [`cst_laws`].

use vstd::prelude::*;

pub mod arena;
pub mod cst;
pub mod cst_laws;
pub mod export;
pub mod export_laws;
pub mod flat;
pub mod flat_laws;
pub mod hierarchy;
pub mod hierarchy_laws;
pub mod layout;
pub mod layout_laws;
pub mod metadata;
pub mod metadata_laws;
pub mod naming;
pub mod netlist;
pub mod nets;
pub mod placement_laws;
pub mod scope;
pub mod text;
pub mod validity;

pub use export::export;

verus! {

} // verus!
