//! Core of an SSA-based register allocator: a register-pressure tracker that
//! accounts for aliasing register classes, and a reload pass that rewrites an
//! instruction stream so every operand that demands a register holds a
//! register-resident value, bridging stack- and register-resident values with
//! fill and spill instructions.

pub mod ir;
pub mod pressure;
pub mod reload;
