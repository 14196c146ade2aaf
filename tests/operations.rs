use prepare_circuit::qasm::operations::{File, Operation, QubitId};

#[test]
fn always_pass() {
    let file = File {
        qubit_count: 2,
        operations: vec![
            Operation::Z(QubitId(0)),
            Operation::X(QubitId(1)),
            Operation::CX(QubitId(0), QubitId(1)),
        ],
    };
    let qasm_string = "OPENQASM 2.0;\n".to_string()
        + "include \"qelib1.inc\";\n"
        + "qreg q[2];\n"
        + "z q[0];\n"
        + "x q[1];\n"
        + "cx q[0], q[1];";
    assert_eq!(file.to_string(), qasm_string);
}

#[test]
fn operation_mnemonics() {
    assert_eq!(Operation::TDag(QubitId(12)).to_string(), "tdg q[12];");
    assert_eq!(Operation::SDag(QubitId(3)).to_string(), "sdg q[3];");
    assert_eq!(Operation::H(QubitId(0)).to_string(), "h q[0];");
    assert_eq!(Operation::T(QubitId(7)).to_string(), "t q[7];");
    assert_eq!(Operation::S(QubitId(5)).to_string(), "s q[5];");
    assert_eq!(Operation::CX(QubitId(10), QubitId(2)).to_string(), "cx q[10], q[2];");
}

#[test]
fn empty_file_is_header_only() {
    let file = File { qubit_count: 0, operations: vec![] };
    assert_eq!(file.to_string(), "OPENQASM 2.0;\ninclude \"qelib1.inc\";\nqreg q[0];\n");
}
