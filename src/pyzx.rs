//! The node/wire graph backend and the depth analysis of phase-expensive
//! gates over a placed graph.
pub mod json;
pub mod json_status;
pub mod plane;
pub mod to_json;
