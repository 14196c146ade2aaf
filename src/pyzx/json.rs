//! The node/wire graph document.
use vstd::prelude::*;

verus! {

/// A placement: column `x`, and row index `row`, which the document writes
/// as the y coordinate `-row`.
#[derive(Debug, Clone, Copy, PartialEq, Eq, Structural)]
pub struct Coord {
    pub x: usize,
    pub row: usize,
}

#[derive(Debug, Clone, Copy, PartialEq, Eq, Structural)]
pub struct WireVerticesAnnotation {
    pub boundary: bool,
    pub coord: Coord,
    pub input: bool,
    pub output: bool,
}

/// A boundary node of a wire.
#[derive(Debug, Clone, Copy, PartialEq, Eq, Structural)]
pub struct WireVerticesValue {
    pub annotation: WireVerticesAnnotation,
}

impl WireVerticesValue {
    /// The input (or else output) boundary node at `coord`.
    pub fn create(is_input: bool, coord: Coord) -> (r: WireVerticesValue)
        ensures
            r == (WireVerticesValue {
                annotation: WireVerticesAnnotation { boundary: true, coord, input: is_input, output: !is_input },
            }),
    {
        WireVerticesValue { annotation: WireVerticesAnnotation { boundary: true, coord, input: is_input, output: !is_input } }
    }
}

/// What an interior node is: its kind, its phase label, and whether it
/// stands for an edge rather than a vertex.
#[derive(Debug, Clone)]
pub struct NodeVerticesData {
    pub kind: String,
    pub value: Option<String>,
    pub is_edge: Option<String>,
}

#[derive(Debug, Clone, Copy, PartialEq, Eq, Structural)]
pub struct NodeVerticesAnnotation {
    pub coord: Coord,
}

/// An interior node.
#[derive(Debug, Clone)]
pub struct NodeVerticesValue {
    pub annotation: NodeVerticesAnnotation,
    pub data: NodeVerticesData,
}

/// An undirected edge between two node ids.
#[derive(Debug, Clone)]
pub struct UndirEdgesValue {
    pub src: String,
    pub tgt: String,
}

/// The document: boundary nodes, interior nodes and edges, each under its
/// id, in the order they were written.
#[derive(Debug, Clone)]
pub struct PyzxCircuitJson {
    pub wire_vertices: Vec<(String, WireVerticesValue)>,
    pub node_vertices: Vec<(String, NodeVerticesValue)>,
    pub undir_edges: Vec<(String, UndirEdgesValue)>,
}

pub open spec fn opt_view(o: Option<String>) -> Option<Seq<char>> {
    match o {
        Some(s) => Some(s@),
        None => None,
    }
}

/// An interior node as plain values: id, placement, kind, label, edge flag.
pub open spec fn node_entry_view(e: (String, NodeVerticesValue)) -> (Seq<char>, Coord, Seq<char>, Option<Seq<char>>, Option<Seq<char>>) {
    (e.0@, e.1.annotation.coord, e.1.data.kind@, opt_view(e.1.data.value), opt_view(e.1.data.is_edge))
}

/// An edge as plain values: id, source, target.
pub open spec fn edge_entry_view(e: (String, UndirEdgesValue)) -> (Seq<char>, Seq<char>, Seq<char>) {
    (e.0@, e.1.src@, e.1.tgt@)
}

/// A boundary node as plain values.
pub open spec fn wire_entry_view(e: (String, WireVerticesValue)) -> (Seq<char>, WireVerticesValue) {
    (e.0@, e.1)
}

} // verus!
