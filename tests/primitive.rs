use prepare_circuit::primitive::{Circuit, NodeType, Qubit};
use prepare_circuit::util::cellize;

#[test]
fn control_not() {
    let mut c = Circuit::new();
    let qcell1 = cellize(&mut c, Qubit::new("1"));
    let qcell2 = cellize(&mut c, Qubit::new("2"));
    let control_from = Qubit::control(&mut c, qcell1);
    let control_target = Qubit::export(&mut c, qcell2);
    control_target.control_by(&mut c, &control_from);
    println!("qcell1, {:?}", c.qubits[qcell1.index]);
    println!("qcell2, {:?}", c.qubits[qcell2.index]);
    let control_target_node_type = c.qubits[qcell2.index].operations[0].node_type;
    if let NodeType::ControlledNot(control_from, _) = control_target_node_type {
        let control_from_operation = c.qubits[control_from.qubit].operations[control_from.index];
        let control_from_cell = control_from_operation.parent;
        assert_eq!(control_from_cell, qcell1.index);
    } else {
        panic!("the target was not bound");
    }
}

#[test]
fn double_control() {
    let mut c = Circuit::new();
    let qcell1 = cellize(&mut c, Qubit::new("1"));
    let qcell2 = cellize(&mut c, Qubit::new("2"));
    let control_from = Qubit::control(&mut c, qcell1);
    let control_target1 = Qubit::export(&mut c, qcell2);
    let control_target2 = Qubit::export(&mut c, qcell2);
    control_target1.control_by(&mut c, &control_from);
    control_target2.control_by(&mut c, &control_from);
    println!("qcell1, {:?}", c.qubits[qcell1.index]);
    println!("qcell2, {:?}", c.qubits[qcell2.index]);
    let operation_len = c.qubits[qcell2.index].operations.len();
    assert_eq!(operation_len, 2);
}

#[test]
fn control_count() {
    let mut c = Circuit::new();
    let qcell1 = cellize(&mut c, Qubit::new("1"));
    let qcell2 = cellize(&mut c, Qubit::new("2"));
    let control_from = Qubit::control(&mut c, qcell1);
    let control_target1 = Qubit::export(&mut c, qcell2);
    let control_target2 = Qubit::export(&mut c, qcell2);
    control_target1.control_by(&mut c, &control_from);
    control_target2.control_by(&mut c, &control_from);
    let control_from_operation_node_type = c.qubits[qcell1.index].operations[0].node_type;
    let count = match control_from_operation_node_type {
        NodeType::Control(count) => Some(count),
        _ => None,
    };
    assert_eq!(count, Some(2));
}

#[test]
fn binding_positions_are_ordinals() {
    let mut c = Circuit::new();
    let a = cellize(&mut c, Qubit::new("a"));
    let b = cellize(&mut c, Qubit::new("b"));
    let d = cellize(&mut c, Qubit::new("d"));
    let control_from = Qubit::control(&mut c, a);
    for q in [b, d, b] {
        let t = Qubit::export(&mut c, q);
        t.control_by(&mut c, &control_from);
    }
    let r = control_from.operation;
    let mut positions = Vec::new();
    for q in &c.qubits {
        for op in &q.operations {
            if let NodeType::ControlledNot(from, p) = op.node_type {
                if from == r {
                    positions.push(p);
                }
            }
        }
    }
    positions.sort();
    assert_eq!(positions, vec![0, 1, 2]);
    assert!(matches!(c.qubits[a.index].operations[0].node_type, NodeType::Control(3)));
}

#[test]
fn operation_ids_are_positions() {
    let mut c = Circuit::new();
    let a = cellize(&mut c, Qubit::new("a"));
    Qubit::gate(&mut c, a, prepare_circuit::primitive::PrimitiveGate::H);
    Qubit::control(&mut c, a);
    Qubit::export(&mut c, a);
    let ids: Vec<usize> = c.qubits[a.index].operations.iter().map(|o| o.id).collect();
    assert_eq!(ids, vec![1, 2, 3]);
    assert!(c.qubits[a.index].operations.iter().all(|o| o.parent == a.index));
    assert_eq!(c.qubits[a.index].id, "a");
}
