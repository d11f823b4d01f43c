# verilogout

Writes a netlist out as Verilog, verified with Verus.

- `netlist`, `metadata`, `scope`: the design, and what the metadata of its cells says.
- `hierarchy`: which module each cell belongs to, and which nets pass through ports.
- `naming`, `nets`, `layout`: what a finished module consists of.
- `flat`, `export`: the module that a design becomes. `export` flattens the design.
- `validity`: whether a design can be exported, and whether its metadata hangs together.
- `cst`, `text`: the syntax tree, and its text.
- `hierarchy_laws`, `export_laws`: what holds of the results as a whole.
- `arena`: strings in a `bumpalo` arena, and equality of string slices; the proofs rest on what is
  said there of `bumpalo` and of the standard library.

`app/` has `Display` for the syntax tree and reads designs of `prjunnamed_netlist`.
