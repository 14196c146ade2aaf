use prepare_circuit::gates::toffoli;
use prepare_circuit::primitive::{Circuit, PrimitiveGate, Qubit};
use prepare_circuit::pyzx::json::Coord;
use prepare_circuit::pyzx::to_json::{to_pyzx_circuit, to_pyzx_graph};
use prepare_circuit::select_gates::simple_select_controls::in_layer;
use prepare_circuit::util::cellize;

#[test]
fn test_graph() {
    let mut c = Circuit::new();
    let qcell = cellize(&mut c, Qubit::new("q1"));
    Qubit::gate(&mut c, qcell, PrimitiveGate::H);
    let pyzx_json = to_pyzx_graph(&c, vec![qcell]);
    println!("{:?}", pyzx_json);
    assert_eq!(pyzx_json.node_vertices.len(), 1);
    assert_eq!(pyzx_json.node_vertices[0].0, "qnode_q1_op1");
    assert_eq!(pyzx_json.node_vertices[0].1.data.kind, "hadamard");
    assert_eq!(pyzx_json.node_vertices[0].1.data.is_edge, Some("true".to_string()));
    assert_eq!(pyzx_json.wire_vertices[1].1.annotation.coord, Coord { x: 2, row: 0 });
}

#[test]
fn test_circuit() {
    let mut c = Circuit::new();
    let q1 = cellize(&mut c, Qubit::new("q1"));
    let q2 = cellize(&mut c, Qubit::new("q2"));
    let q3 = cellize(&mut c, Qubit::new("q3"));
    toffoli(&mut c, q1, q2, q3);
    let pyzx_json = to_pyzx_circuit(&c, vec![q1, q2, q3]).unwrap();
    println!("{:?}", pyzx_json);
    assert_eq!(pyzx_json.node_vertices.len(), 1 + 2 + 10);
    let t_nodes = pyzx_json
        .node_vertices
        .iter()
        .filter(|(_, v)| matches!(v.data.value.as_deref(), Some("\\pi/4") | Some("-\\pi/4")))
        .count();
    assert_eq!(t_nodes, 4);
    // a control's node and its bound target share a column
    let column = |id: &str| {
        pyzx_json.node_vertices.iter().find(|(k, _)| k == id).map(|(_, v)| v.annotation.coord.x).unwrap()
    };
    assert_eq!(column("qnode_q1_op1_pos0"), column("qnode_q3_op5"));
    assert_eq!(column("qnode_q2_op1_pos0"), column("qnode_q3_op3"));
    assert_eq!(column("qnode_q2_op1_pos1"), column("qnode_q3_op7"));
    assert!(pyzx_json
        .undir_edges
        .iter()
        .any(|(_, e)| e.src == "qnode_q2_op1_pos1" && e.tgt == "qnode_q3_op7"));
    assert_eq!(pyzx_json.wire_vertices.len(), 6);
}

#[test]
fn test_incomplete() {
    let mut c = Circuit::new();
    let q1 = cellize(&mut c, Qubit::new("q1"));
    let q2 = cellize(&mut c, Qubit::new("q2"));
    Qubit::control(&mut c, q2);
    let from = Qubit::control(&mut c, q1);
    let target = Qubit::export(&mut c, q2);
    target.control_by(&mut c, &from);
    let pyzx_json = to_pyzx_circuit(&c, vec![q1, q2]).unwrap();
    println!("{:?}", pyzx_json);
    // the unbound control of q2 has no slot, so two nodes remain
    assert_eq!(pyzx_json.node_vertices.len(), 2);
}

#[test]
fn test_middle_complete() {
    let mut c = Circuit::new();
    let q1 = cellize(&mut c, Qubit::new("q1"));
    let q2 = cellize(&mut c, Qubit::new("q2"));
    let q3 = cellize(&mut c, Qubit::new("q3"));
    let q4 = cellize(&mut c, Qubit::new("q4"));
    let control = Qubit::control(&mut c, q1);
    let (leftc, _) = in_layer(&mut c, &control, q2, q3);
    let export = Qubit::export(&mut c, q4);
    export.control_by(&mut c, &leftc);
    let qcells = vec![q1, q2, q3, q4];
    println!("{:?}", qcells);
    let pyzx_json = to_pyzx_circuit(&c, qcells);
    println!("{:?}", pyzx_json);
    assert!(pyzx_json.is_ok());
}

#[test]
fn unmatched_pair_fails_like_the_stream() {
    let mut c = Circuit::new();
    let q1 = cellize(&mut c, Qubit::new("q1"));
    let q2 = cellize(&mut c, Qubit::new("q2"));
    let from = Qubit::control(&mut c, q1);
    let target = Qubit::export(&mut c, q2);
    target.control_by(&mut c, &from);
    assert!(to_pyzx_circuit(&c, vec![q1]).is_err());
}
