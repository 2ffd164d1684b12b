//! Verified core of a builder for Verilator model bindings: the grammar of the
//! binding macro's arguments, the evaluation of Verilog constant expressions
//! that size ports, and the per-port decisions behind a generated model struct.

pub mod decimal;
pub mod tokens;
pub mod macro_args;
pub mod const_expr;
pub mod identifier;
pub mod ports;
