//! Recursive constructions: address decoders, ROM injection, duplication
//! trees, equality ladders and the distributed select.
pub mod data_combine;
pub mod simple_dist_select;
pub mod simple_select_controls;
