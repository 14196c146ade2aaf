use prepare_circuit::pyzx::json_status::{Plane, PlaneElement};

fn plane(rows: Vec<Vec<Option<PlaneElement>>>) -> Plane {
    Plane { rows }
}

#[test]
fn t_nodes_at_columns_zero_and_two_give_depth_two() {
    let p = plane(vec![
        vec![Some(PlaneElement::T), Some(PlaneElement::Ordinal), Some(PlaneElement::T)],
        vec![None, Some(PlaneElement::Ordinal), None],
    ]);
    assert_eq!(p.count_depth(), 2);
}

#[test]
fn one_row_of_k_t_nodes_has_depth_k() {
    for k in 0..6usize {
        let mut row = vec![Some(PlaneElement::Ordinal); 6];
        for x in 0..k {
            row[x] = Some(PlaneElement::T);
        }
        let p = plane(vec![row, vec![None; 6]]);
        assert_eq!(p.count_depth(), k);
    }
}

#[test]
fn cross_synchronises_both_rows() {
    // row 0: T T . cross . ; row 1: . . . cross T
    let p = plane(vec![
        vec![Some(PlaneElement::T), Some(PlaneElement::T), None, Some(PlaneElement::Cross(1)), None],
        vec![None, None, None, Some(PlaneElement::Cross(0)), Some(PlaneElement::T)],
    ]);
    assert_eq!(p.count_depth(), 3);
    let q = plane(vec![
        vec![Some(PlaneElement::T), Some(PlaneElement::T), None, None, None],
        vec![None, None, None, None, Some(PlaneElement::T)],
    ]);
    assert_eq!(q.count_depth(), 2);
}

use prepare_circuit::pyzx::plane::{is_quarter_pi_label, PlaneError, PlacedEdge, PlacedGraph, PlacedNode};

fn node(id: &str, x2: usize, row: usize, value: Option<&str>) -> PlacedNode {
    PlacedNode { id: id.to_string(), x2, row, value: value.map(|v| v.to_string()) }
}

fn edge(src: &str, tgt: &str) -> PlacedEdge {
    PlacedEdge { src: src.to_string(), tgt: tgt.to_string() }
}

#[test]
fn plane_cells_follow_labels_and_vertical_edges() {
    let g = PlacedGraph {
        nodes: vec![
            node("a", 0, 0, Some("\\pi/4")),
            node("b", 2, 0, None),
            node("c", 2, 1, None),
            node("d", 4, 1, Some("-\\pi/4")),
        ],
        edges: vec![edge("in", "a"), edge("a", "b"), edge("b", "c"), edge("c", "d")],
    };
    assert_eq!(g.find_vertical_node(&"b".to_string()), Some("c".to_string()));
    assert_eq!(g.find_vertical_node(&"a".to_string()), None);
    assert_eq!(g.get_node_coord(&"d".to_string()), Some((4, 1)));
    let plane = g.produce_plane().unwrap();
    assert_eq!(plane.rows.len(), 2);
    assert_eq!(plane.rows[0].len(), 5);
    assert_eq!(plane.rows[0][0], Some(PlaneElement::T));
    assert_eq!(plane.rows[0][2], Some(PlaneElement::Cross(1)));
    assert_eq!(plane.rows[1][2], Some(PlaneElement::Cross(0)));
    assert_eq!(plane.rows[1][4], Some(PlaneElement::T));
    assert_eq!(plane.rows[0][1], None);
    assert_eq!(plane.count_depth(), 2);
}

#[test]
fn t_node_with_a_cross_is_refused() {
    let g = PlacedGraph {
        nodes: vec![node("a", 2, 0, Some("\\pi/4")), node("b", 2, 1, None)],
        edges: vec![edge("a", "b")],
    };
    assert_eq!(g.produce_plane().unwrap_err(), PlaneError::TWithCross);
}

#[test]
fn quarter_pi_labels() {
    assert!(is_quarter_pi_label("\\pi/4"));
    assert!(is_quarter_pi_label("-\\pi/4"));
    assert!(!is_quarter_pi_label("\\pi/2"));
    assert!(!is_quarter_pi_label("\\pi"));
}
