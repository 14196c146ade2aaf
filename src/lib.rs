//! Synthesis of reversible select circuits over a per-qubit operation graph,
//! with two serializers and a depth analysis of the expensive phase gates.

pub mod primitive;
pub mod util;

pub mod gates;
pub mod select_gates;
pub mod qasm;
pub mod pyzx;
