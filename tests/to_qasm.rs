use prepare_circuit::gates::toffoli;
use prepare_circuit::primitive::{Circuit, NodeType, Qubit};
use prepare_circuit::qasm::operations::{Operation, QubitId};
use prepare_circuit::qasm::to_qasm::{to_qasm, QasmError};
use prepare_circuit::select_gates::data_combine::{generate_datas, inject_qrom_datas};
use prepare_circuit::select_gates::simple_select_controls::in_over_2n;
use prepare_circuit::util::cellize;

#[test]
fn to_qasm_toffoli_test() {
    let mut c = Circuit::new();
    let q1 = cellize(&mut c, Qubit::new("q1"));
    let q2 = cellize(&mut c, Qubit::new("q2"));
    let q3 = cellize(&mut c, Qubit::new("q3"));
    toffoli(&mut c, q1, q2, q3);
    let qasm_file = to_qasm(&c, vec![q1, q2, q3]).unwrap();
    println!("{}", qasm_file.to_string());
}

#[test]
fn to_qasm_uniform_layered_test() {
    let n = 4;
    let mut c = Circuit::new();
    let first_qubit = cellize(&mut c, Qubit::new("first"));
    let first_control = Qubit::control(&mut c, first_qubit);
    let datas = (0..n)
        .map(|i| cellize(&mut c, Qubit::new(format!("data_{}", i).as_str())))
        .collect::<Vec<_>>();
    let ancillas = (0..n)
        .map(|i| cellize(&mut c, Qubit::new(format!("ancilla_{}", i).as_str())))
        .collect::<Vec<_>>();
    let controls = in_over_2n(&mut c, n, &first_control, datas.clone(), ancillas.clone());
    let data_length = controls.len();
    let targets = (0..n)
        .map(|i| cellize(&mut c, Qubit::new(format!("target_{}", i).as_str())))
        .collect::<Vec<_>>();
    let random_data = generate_datas(data_length, 1);
    inject_qrom_datas(&mut c, targets.clone(), controls, random_data);

    let mut qubits = Vec::new();
    qubits.extend(datas);
    qubits.extend(ancillas);
    qubits.extend(targets);
    qubits.push(first_qubit);

    let qasm_file = to_qasm(&c, qubits).unwrap();
    println!("{}", qasm_file.to_string());
}

#[test]
fn toffoli_stream_has_four_t_gates_and_documented_cx_order() {
    let mut c = Circuit::new();
    let q1 = cellize(&mut c, Qubit::new("q1"));
    let q2 = cellize(&mut c, Qubit::new("q2"));
    let q3 = cellize(&mut c, Qubit::new("q3"));
    toffoli(&mut c, q1, q2, q3);
    let file = to_qasm(&c, vec![q1, q2, q3]).unwrap();
    let t_count = file
        .operations
        .iter()
        .filter(|o| matches!(o, Operation::T(_) | Operation::TDag(_)))
        .count();
    assert_eq!(t_count, 4);
    let cxs: Vec<Operation> = file
        .operations
        .iter()
        .copied()
        .filter(|o| matches!(o, Operation::CX(_, _)))
        .collect();
    assert_eq!(
        cxs,
        vec![
            Operation::CX(QubitId(1), QubitId(2)),
            Operation::CX(QubitId(0), QubitId(2)),
            Operation::CX(QubitId(1), QubitId(2)),
        ]
    );
    assert_eq!(file.qubit_count, 3);
    let q3_ops: Vec<Operation> = file
        .operations
        .iter()
        .copied()
        .filter(|o| match o {
            Operation::CX(a, b) => a.0 == 2 || b.0 == 2,
            Operation::Z(t) | Operation::H(t) | Operation::X(t) | Operation::T(t) | Operation::TDag(t) | Operation::S(t) | Operation::SDag(t) => t.0 == 2,
        })
        .collect();
    assert_eq!(
        q3_ops,
        vec![
            Operation::H(QubitId(2)),
            Operation::T(QubitId(2)),
            Operation::CX(QubitId(1), QubitId(2)),
            Operation::TDag(QubitId(2)),
            Operation::CX(QubitId(0), QubitId(2)),
            Operation::T(QubitId(2)),
            Operation::CX(QubitId(1), QubitId(2)),
            Operation::TDag(QubitId(2)),
            Operation::H(QubitId(2)),
            Operation::SDag(QubitId(2)),
        ]
    );
}

#[test]
fn unmatched_control_is_an_inconsistent_graph() {
    let mut c = Circuit::new();
    let q1 = cellize(&mut c, Qubit::new("q1"));
    let q2 = cellize(&mut c, Qubit::new("q2"));
    let from = Qubit::control(&mut c, q1);
    let target = Qubit::export(&mut c, q2);
    target.control_by(&mut c, &from);
    // the target's qubit is not listed, so the control never finds it
    assert_eq!(to_qasm(&c, vec![q1]).unwrap_err(), QasmError::InconsistentGraph);
    assert!(matches!(c.qubits[q2.index].operations[0].node_type, NodeType::ControlledNot(_, 0)));
}

#[test]
fn decoder_and_rom_bind_the_target_under_the_address() {
    let mut c = Circuit::new();
    let first = cellize(&mut c, Qubit::new("first"));
    let first_control = Qubit::control(&mut c, first);
    let data = cellize(&mut c, Qubit::new("data_0"));
    let ancilla = cellize(&mut c, Qubit::new("ancilla_0"));
    let target = cellize(&mut c, Qubit::new("target_0"));
    let controls = in_over_2n(&mut c, 1, &first_control, vec![data], vec![ancilla]);
    assert_eq!(controls.len(), 2);
    inject_qrom_datas(&mut c, vec![target], controls.clone(), vec![vec![true]]);
    let file = to_qasm(&c, vec![first, data, ancilla, target]).unwrap();
    let touching_target: Vec<Operation> = file
        .operations
        .iter()
        .copied()
        .filter(|o| matches!(o, Operation::CX(_, b) if b.0 == 3) || matches!(o, Operation::X(t) if t.0 == 3))
        .collect();
    // one controlled X on the target, controlled by the ancilla that the
    // decoder derived from the address qubit under the incoming control
    assert_eq!(touching_target, vec![Operation::CX(QubitId(2), QubitId(3))]);
    assert_eq!(controls[0].operation.qubit, ancilla.index);
    let data_touching_ancilla = file
        .operations
        .iter()
        .filter(|o| matches!(o, Operation::CX(a, b) if a.0 == 1 && b.0 == 2))
        .count();
    assert!(data_touching_ancilla > 0);
    let first_touching_ancilla = file
        .operations
        .iter()
        .filter(|o| matches!(o, Operation::CX(a, b) if a.0 == 0 && b.0 == 2))
        .count();
    assert!(first_touching_ancilla > 0);
}
