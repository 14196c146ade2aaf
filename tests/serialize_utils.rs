use prepare_circuit::gates::{cnot, toffoli};
use prepare_circuit::primitive::{Circuit, PrimitiveGate, Qubit, QubitCell};
use prepare_circuit::qasm::serialize_utils::{NextOperation, NextOperations, Slot};
use prepare_circuit::select_gates::data_combine::{generate_datas, inject_qrom_datas};
use prepare_circuit::select_gates::simple_select_controls::in_over_2n;
use prepare_circuit::util::cellize;

fn get_qubit_cells() -> (Circuit, Vec<QubitCell>) {
    let mut c = Circuit::new();
    let q1 = cellize(&mut c, Qubit::new("test_1"));
    let q2 = cellize(&mut c, Qubit::new("test_2"));
    Qubit::gate(&mut c, q1, PrimitiveGate::H);
    Qubit::gate(&mut c, q1, PrimitiveGate::T);
    Qubit::gate(&mut c, q2, PrimitiveGate::Z);
    cnot(&mut c, q1, q2);
    Qubit::gate(&mut c, q2, PrimitiveGate::T);
    Qubit::gate(&mut c, q2, PrimitiveGate::H);
    Qubit::gate(&mut c, q1, PrimitiveGate::Z);
    (c, vec![q1, q2])
}

#[test]
fn next_operation_new() {
    let (c, cells) = get_qubit_cells();
    let qc1 = cells[0];
    let n = NextOperation::new(&c, qc1).unwrap();
    assert_eq!(n.qubit_cell, qc1);
    assert_eq!(n.position, 0);
    assert_eq!(n.slots.len(), 4);
    assert!(matches!(n.slots[0], Slot::Gate(PrimitiveGate::H, _)));
}

#[test]
fn next_operation_has_next() {
    let (c, cells) = get_qubit_cells();
    let qc1 = cells[0];
    let mut nqc1 = NextOperation::new(&c, qc1).unwrap();
    nqc1.position = 3;
    assert_eq!(nqc1.has_next(), false);
}

#[test]
fn next_operation_has_next_2() {
    let (mut c, cells) = get_qubit_cells();
    let qc1 = cells[0];
    let qc2 = cells[1];
    let qc1c = Qubit::control(&mut c, qc1);
    let qc2e1 = Qubit::export(&mut c, qc2);
    let qc2e2 = Qubit::export(&mut c, qc2);
    let qc2e3 = Qubit::export(&mut c, qc2);
    qc2e1.control_by(&mut c, &qc1c);
    qc2e2.control_by(&mut c, &qc1c);
    qc2e3.control_by(&mut c, &qc1c);
    let mut nqc1 = NextOperation::new(&c, qc1).unwrap();
    // operation 4, binding 2: the last slot of the qubit
    nqc1.position = 6;
    assert_eq!(nqc1.has_next(), false);
    nqc1.position = 5;
    assert_eq!(nqc1.has_next(), true);
}

#[test]
fn serialize_utils_toffoli_test() {
    let mut c = Circuit::new();
    let q1 = cellize(&mut c, Qubit::new("q1"));
    let q2 = cellize(&mut c, Qubit::new("q2"));
    let q3 = cellize(&mut c, Qubit::new("q3"));
    toffoli(&mut c, q1, q2, q3);
    let qcells = vec![q1, q2, q3];
    let mut nops = NextOperations::initialize_from_cells(&c, &qcells);
    for _ in 0..9 {
        nops.next();
    }
    println!("10th {:#?}", nops.to_qasm());
    nops.next();
    println!("11th {:#?}", nops.to_qasm());
    assert_eq!(nops.has_next(), false);
}

#[test]
fn serialize_utils_uniform_layered_test() {
    let n = 1;
    let mut c = Circuit::new();
    let first_qubit = cellize(&mut c, Qubit::new("first"));
    let first_control = Qubit::control(&mut c, first_qubit);
    let datas = (0..n)
        .map(|i| cellize(&mut c, Qubit::new(format!("data_{}", i).as_str())))
        .collect::<Vec<_>>();
    let ancillas = (0..n)
        .map(|i| cellize(&mut c, Qubit::new(format!("ancilla_{}", i).as_str())))
        .collect::<Vec<_>>();
    let controls = in_over_2n(&mut c, n, &first_control, datas.clone(), ancillas.clone());
    let data_length = controls.len();
    let targets = (0..n)
        .map(|i| cellize(&mut c, Qubit::new(format!("target_{}", i).as_str())))
        .collect::<Vec<_>>();
    let random_data = generate_datas(data_length, 1);
    inject_qrom_datas(&mut c, targets.clone(), controls, random_data);

    let mut qubit_cells = Vec::new();
    qubit_cells.extend(datas.clone());
    qubit_cells.extend(ancillas.clone());
    qubit_cells.extend(targets.clone());
    qubit_cells.push(first_qubit);

    let mut nop = NextOperations::initialize_from_cells(&c, &qubit_cells);
    for _ in 0..11 {
        nop.next();
    }
}

#[test]
fn cursor_rounds_pair_controls_with_targets() {
    let (c, cells) = get_qubit_cells();
    let mut nops = NextOperations::initialize_from_cells(&c, &cells);
    let first = nops.to_qasm();
    assert_eq!(first.len(), 2);
    nops.next();
    nops.next();
    let third = nops.to_qasm();
    assert_eq!(third, vec![prepare_circuit::qasm::operations::Operation::CX(
        prepare_circuit::qasm::operations::QubitId(0),
        prepare_circuit::qasm::operations::QubitId(1)
    )]);
}
