# verilog_macro_builder

The verified core of a procedural-macro helper that binds Verilog modules,
compiled by Verilator, to Rust structs.

- `src/` (Verus): the grammar of the binding macro's arguments over a flat
  token model (`tokens`, `macro_args`), decimal text (`decimal`), evaluation
  of the constant expressions that size ports (`const_expr`), the identifier
  rule of `format_ident!` (`identifier`), and the per-port
  plan of the generated struct (`ports`).
- `app/` (plain Rust): the conversion between the compiler's token trees,
  `syn` values and `sv-parser` syntax trees and the library's types, and the
  emission of the generated code with `quote`.
- `tests/`: executable tests of the library.
