use prepare_circuit::primitive::{Circuit, NodeType, Qubit, QubitCell};
use prepare_circuit::select_gates::data_combine::generate_datas;
use prepare_circuit::select_gates::simple_dist_select::{
    cnot_copy_n, cnot_uncopy_n, dist_select_simple, divide_qubits, eq_ladder, num2boolvec_fixed_length,
    num_to_vec_bool,
};
use prepare_circuit::select_gates::simple_select_controls::{in_layer, in_over_2n};
use prepare_circuit::util::cellize;

fn qubits(c: &mut Circuit, prefix: &str, n: usize) -> Vec<QubitCell> {
    (0..n).map(|i| cellize(c, Qubit::new(format!("{}_{}", prefix, i).as_str()))).collect()
}

#[test]
fn decoder_returns_two_to_the_n_leaves() {
    for n in 1..=4usize {
        let mut c = Circuit::new();
        let first = cellize(&mut c, Qubit::new("first"));
        let control = Qubit::control(&mut c, first);
        let datas = qubits(&mut c, "data", n);
        let ancillas = qubits(&mut c, "ancilla", n);
        let leaves = in_over_2n(&mut c, n as i32, &control, datas, ancillas);
        assert_eq!(leaves.len(), 1 << n);
        for leaf in &leaves {
            let op = c.qubits[leaf.operation.qubit].operations[leaf.operation.index];
            assert!(matches!(op.node_type, NodeType::Control(0)));
        }
    }
}

#[test]
fn in_layer_places_both_branch_controls_on_the_output() {
    let mut c = Circuit::new();
    let first = cellize(&mut c, Qubit::new("first"));
    let control = Qubit::control(&mut c, first);
    let data = cellize(&mut c, Qubit::new("data"));
    let out = cellize(&mut c, Qubit::new("out"));
    let (left, right) = in_layer(&mut c, &control, data, out);
    assert_eq!((left.operation.qubit, left.operation.index), (out.index, 10));
    assert_eq!((right.operation.qubit, right.operation.index), (out.index, 12));
    // the incoming control was bound by two Toffolis and two branch targets
    assert!(matches!(c.qubits[first.index].operations[0].node_type, NodeType::Control(4)));
    assert_eq!(c.qubits[data.index].operations.len(), 4);
    assert_eq!(c.qubits[out.index].operations.len(), 24);
}

#[test]
fn copy_then_uncopy_restores_the_originals() {
    for n in 0..=3i32 {
        let mut c = Circuit::new();
        let qs = qubits(&mut c, "q", 3);
        let blocks = cnot_copy_n(&mut c, n, qs.clone());
        assert_eq!(blocks.len(), 1 << n);
        assert_eq!(blocks[0], qs);
        let flat: Vec<QubitCell> = blocks.concat();
        let (original, garbage) = cnot_uncopy_n(&mut c, n, flat.clone());
        assert_eq!(original, qs);
        assert_eq!(garbage.len(), flat.len() - qs.len());
    }
}

#[test]
fn copies_are_named_after_their_source() {
    let mut c = Circuit::new();
    let qs = qubits(&mut c, "q", 2);
    let blocks = cnot_copy_n(&mut c, 1, qs);
    assert_eq!(c.qubits[blocks[1][0].index].id, "q_0-copy-0-layer-1");
    assert_eq!(c.qubits[blocks[1][1].index].id, "q_1-copy-1-layer-1");
}

#[test]
fn eq_ladder_flips_only_where_the_pattern_is_set() {
    let mut c = Circuit::new();
    let first = cellize(&mut c, Qubit::new("first"));
    let control = Qubit::control(&mut c, first);
    let original = qubits(&mut c, "o", 2);
    let ancillas = qubits(&mut c, "a", 2);
    let (o, a, last) = eq_ladder(&mut c, vec![true, false], control, original.clone(), ancillas.clone());
    assert_eq!(o, original);
    assert_eq!(a, ancillas);
    // the set bit: X, 9 Toffoli operations on the original side are controls, X
    assert_eq!(c.qubits[original[0].index].operations.len(), 3);
    assert_eq!(c.qubits[original[1].index].operations.len(), 1);
    assert_eq!(last.operation.qubit, ancillas[1].index);
    assert_eq!(last.operation.index, 10);
}

#[test]
fn distributed_select_yields_every_leaf_and_restores_the_address() {
    let mut c = Circuit::new();
    let first = cellize(&mut c, Qubit::new("first"));
    let control = Qubit::control(&mut c, first);
    let datas = qubits(&mut c, "data", 3);
    let (restored, ancillas, controls) =
        dist_select_simple(&mut c, 1, 2, control, datas.clone(), "dist-select".to_string());
    assert_eq!(restored, datas);
    assert_eq!(controls.len(), 8);
    // two blocks of three ancillas, then the copied block as garbage
    assert_eq!(ancillas.len(), 2 * 3 + 3);
    assert_eq!(c.qubits[ancillas[0].index].id, "dist-select-block-0-ancilla-0");
}

#[test]
fn binary_digits() {
    assert_eq!(num_to_vec_bool(0), Vec::<bool>::new());
    assert_eq!(num_to_vec_bool(6), vec![true, true, false]);
    assert_eq!(num2boolvec_fixed_length(1, 3), vec![false, false, true]);
    assert_eq!(num2boolvec_fixed_length(5, 2), vec![true, false, true]);
}

#[test]
fn divide_and_generate() {
    let mut c = Circuit::new();
    let qs = qubits(&mut c, "q", 4);
    let (a, b) = divide_qubits(1, qs.clone());
    assert_eq!(a, vec![qs[0]]);
    assert_eq!(b, qs[1..].to_vec());
    assert_eq!(generate_datas(2, 3), vec![vec![true; 3], vec![true; 3]]);
}
