//! The instruction-stream backend.
pub mod operations;
pub mod serialize_utils;
pub mod to_qasm;
