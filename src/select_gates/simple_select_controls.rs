//! The binary address decoder.
use vstd::prelude::*;

use crate::gates::{gate_node, toffoli_first_control, toffoli_first_control_nodes};
use crate::primitive::{
    control_count, extends, is_control, lemma_control_stays, lemma_extends_trans, node, set_node,
    weight, Circuit, ControlFrom, NodeType, Nodes, OpRef, PrimitiveGate, Qubit, QubitCell,
};
use crate::select_gates::simple_dist_select::divide_qubits;
use crate::util::pow2;

verus! {

/// `v` after `in_layer` with incoming control `r`, address qubit `d` and
/// output qubit `o`.
pub open spec fn in_layer_nodes(v: Nodes, r: OpRef, d: usize, o: usize) -> Nodes {
    let v3 = branch_nodes(toffoli_first_control_nodes(v, r, d, o), r, o);
    let v4 = v3.update(d as int, v3[d as int].push(gate_node(PrimitiveGate::X)));
    let v5 = toffoli_first_control_nodes(v4, r, d, o);
    v5.update(d as int, v5[d as int].push(gate_node(PrimitiveGate::X)))
}

/// The two controls that `in_layer` returns: for address bit 0, then 1.
pub open spec fn in_layer_controls(v: Nodes, o: usize) -> (OpRef, OpRef) {
    let n = v[o as int].len() + 10;
    (OpRef { qubit: o, index: n as usize }, OpRef { qubit: o, index: (n + 2) as usize })
}

/// `v` after two controls were appended to `o`, each followed by a target
/// bound to `r`.
pub open spec fn branch_nodes(v: Nodes, r: OpRef, o: usize) -> Nodes {
    let k = control_count(v, r);
    let w = set_node(v, r, NodeType::Control((k + 2) as usize));
    w.update(
        o as int,
        w[o as int] + seq![
            NodeType::Control(0),
            NodeType::ControlledNot(r, k as usize),
            NodeType::Control(0),
            NodeType::ControlledNot(r, (k + 1) as usize),
        ],
    )
}

/// Appends to `output` the two branch controls of a decoder layer, each
/// followed by a target bound to `q1c`.
fn branch(c: &mut Circuit, q1c: &ControlFrom, output: QubitCell) -> (r: (ControlFrom, ControlFrom))
    requires
        old(c).wf(),
        is_control(old(c)@, q1c.operation),
        old(c).has_qubit(output),
        weight(old(c)@) + 6 <= usize::MAX,
    ensures
        final(c).wf(),
        final(c)@ == branch_nodes(old(c)@, q1c.operation, output.index),
        r.0.operation == (OpRef { qubit: output.index, index: old(c)@[output.index as int].len() as usize }),
        r.1.operation == (OpRef { qubit: output.index, index: (old(c)@[output.index as int].len() + 2) as usize }),
        is_control(final(c)@, r.0.operation),
        is_control(final(c)@, r.1.operation),
        final(c).names() == old(c).names(),
        extends(old(c)@, final(c)@),
        weight(final(c)@) == weight(old(c)@) + 6,
{
    let ghost v1 = c@;
    let ghost r = q1c.operation;
    let ghost o = output.index as int;
    let ghost k = control_count(v1, r);
    let control_left = Qubit::control(c, output);
    let ghost v2 = c@;
    let export_1 = Qubit::export(c, output);
    let ghost v3 = c@;
    proof {
        lemma_extends_trans(v1, v2, v3);
        lemma_control_stays(v1, v3, r);
        assert(node(v3, r) == node(v1, r));
    }
    export_1.control_by(c, q1c);
    let ghost v4 = c@;
    let control_right = Qubit::control(c, output);
    let ghost v5 = c@;
    let export_2 = Qubit::export(c, output);
    let ghost v6 = c@;
    proof {
        lemma_extends_trans(v1, v3, v4);
        lemma_extends_trans(v1, v4, v5);
        lemma_extends_trans(v1, v5, v6);
        lemma_control_stays(v1, v6, r);
        assert(node(v6, r) == NodeType::Control((k + 1) as usize));
    }
    export_2.control_by(c, q1c);
    proof {
        let v7 = c@;
        let w3 = branch_nodes(v1, r, output.index);
        assert forall|j: int| 0 <= j < v7.len() implies #[trigger] v7[j] =~= w3[j] by {
            assert forall|i: int| 0 <= i < v7[j].len() implies v7[j][i] == w3[j][i] by {
                if i == r.index && j == r.qubit {
                    assert(node(v7, r) == NodeType::Control((k + 2) as usize));
                }
            }
        }
        assert(v7 =~= w3);
        lemma_extends_trans(v1, v6, v7);
        lemma_extends_trans(v2, v3, v7);
        lemma_extends_trans(v5, v6, v7);
        lemma_control_stays(v2, v7, control_left.operation);
        lemma_control_stays(v5, v7, control_right.operation);
    }
    (control_left, control_right)
}

/// One decoder layer: from the incoming control `q1c` and the address qubit
/// `data`, two controls on `output`, one for each value of the address bit.
pub fn in_layer(c: &mut Circuit, q1c: &ControlFrom, data: QubitCell, output: QubitCell) -> (r: (
    ControlFrom,
    ControlFrom,
))
    requires
        old(c).wf(),
        is_control(old(c)@, q1c.operation),
        old(c).has_qubit(data),
        old(c).has_qubit(output),
        data != output,
        weight(old(c)@) + 36 <= usize::MAX,
    ensures
        final(c).wf(),
        final(c)@ == in_layer_nodes(old(c)@, q1c.operation, data.index, output.index),
        (r.0.operation, r.1.operation) == in_layer_controls(old(c)@, output.index),
        is_control(final(c)@, r.0.operation),
        is_control(final(c)@, r.1.operation),
        final(c).names() == old(c).names(),
        extends(old(c)@, final(c)@),
        weight(final(c)@) == weight(old(c)@) + 36,
{
    let ghost v0 = c@;
    let ghost r = q1c.operation;
    toffoli_first_control(c, q1c, data, output);
    let ghost v1 = c@;
    proof {
        lemma_control_stays(v0, v1, r);
    }
    let (control_left, control_right) = branch(c, q1c, output);
    let ghost v7 = c@;
    proof {
        lemma_extends_trans(v0, v1, v7);
        lemma_control_stays(v0, v7, r);
    }
    Qubit::gate(c, data, PrimitiveGate::X);
    let ghost v8 = c@;
    proof {
        lemma_control_stays(v7, v8, r);
    }
    toffoli_first_control(c, q1c, data, output);
    let ghost v9 = c@;
    Qubit::gate(c, data, PrimitiveGate::X);
    proof {
        lemma_extends_trans(v0, v7, v8);
        lemma_extends_trans(v0, v8, v9);
        lemma_extends_trans(v0, v9, c@);
        lemma_extends_trans(v7, v8, v9);
        lemma_extends_trans(v7, v9, c@);
        lemma_control_stays(v7, c@, control_left.operation);
        lemma_control_stays(v7, c@, control_right.operation);
        assert(v1[output.index as int].len() == v0[output.index as int].len() + 10);
    }
    (control_left, control_right)
}

/// The cost, in graph weight, of a decoder over `n` address bits.
pub open spec fn in_over_2n_cost(n: nat) -> nat
    decreases n,
{
    if n <= 1 {
        36
    } else {
        36 + 2 * in_over_2n_cost((n - 1) as nat)
    }
}

/// The graph and the leaf controls of a decoder over the address qubits
/// `datas` with work qubits `ancillas`, under the control `r`: the leaves of
/// address bit 0 come first, then those of bit 1, recursively.
pub open spec fn in_over_2n_spec(v: Nodes, n: nat, r: OpRef, datas: Seq<QubitCell>, ancillas: Seq<QubitCell>) -> (
    Nodes,
    Seq<OpRef>,
)
    decreases n,
{
    let v1 = in_layer_nodes(v, r, datas[0].index, ancillas[0].index);
    let (left, right) = in_layer_controls(v, ancillas[0].index);
    if n <= 1 {
        (v1, seq![left, right])
    } else {
        let (v2, ls) = in_over_2n_spec(v1, (n - 1) as nat, left, datas.drop_first(), ancillas.drop_first());
        let (v3, rs) = in_over_2n_spec(v2, (n - 1) as nat, right, datas.drop_first(), ancillas.drop_first());
        (v3, ls + rs)
    }
}

/// Decodes the `n` address qubits `datas` under `control` into `2^n` leaf
/// controls, one per address value, using `ancillas` as the outputs.
pub fn in_over_2n(
    c: &mut Circuit,
    n: i32,
    control: &ControlFrom,
    datas: Vec<QubitCell>,
    ancillas: Vec<QubitCell>,
) -> (r: Vec<ControlFrom>)
    requires
        old(c).wf(),
        is_control(old(c)@, control.operation),
        n >= 1,
        datas@.len() == n,
        ancillas@.len() == n,
        forall|i: int| 0 <= i < n ==> old(c).has_qubit(#[trigger] datas@[i]) && old(c).has_qubit(ancillas@[i]),
        forall|i: int| 0 <= i < n ==> #[trigger] datas@[i] != ancillas@[i],
        weight(old(c)@) + in_over_2n_cost(n as nat) <= usize::MAX,
    ensures
        final(c).wf(),
        r@.len() == pow2(n as nat),
        (final(c)@, r@.map_values(|x: ControlFrom| x.operation)) == in_over_2n_spec(
            old(c)@,
            n as nat,
            control.operation,
            datas@,
            ancillas@,
        ),
        forall|i: int| 0 <= i < r@.len() ==> is_control(final(c)@, #[trigger] r@[i].operation),
        final(c).names() == old(c).names(),
        extends(old(c)@, final(c)@),
        weight(final(c)@) == weight(old(c)@) + in_over_2n_cost(n as nat),
    decreases n,
{
    let ghost v0 = c@;
    let controls_tuple = in_layer(c, control, datas[0], ancillas[0]);
    let ghost v1 = c@;
    if n == 1 {
        let r = vec![controls_tuple.0, controls_tuple.1];
        proof {
            assert(pow2(1) == 2) by {
                reveal_with_fuel(pow2, 2);
            }
            assert(r@.map_values(|x: ControlFrom| x.operation) =~= seq![controls_tuple.0.operation, controls_tuple.1.operation]);
        }
        r
    } else {
        let (_, remaining_datas) = divide_qubits(1, datas.clone());
        let (_, remaining_ancillas) = divide_qubits(1, ancillas.clone());
        proof {
            assert(remaining_datas@ =~= datas@.drop_first());
            assert(remaining_ancillas@ =~= ancillas@.drop_first());
            assert(v0.len() <= v1.len());
            assert forall|i: int| 0 <= i < n - 1 implies c.has_qubit(#[trigger] remaining_datas@[i]) && c.has_qubit(
                remaining_ancillas@[i],
            ) by {
                assert(remaining_datas@[i] == datas@[i + 1]);
                assert(remaining_ancillas@[i] == ancillas@[i + 1]);
            }
        }
        let left_controls = in_over_2n(c, n - 1, &controls_tuple.0, remaining_datas, remaining_ancillas);
        let ghost v2 = c@;
        proof {
            lemma_control_stays(v1, v2, controls_tuple.1.operation);
        }
        let (_, remaining_datas) = divide_qubits(1, datas);
        let (_, remaining_ancillas) = divide_qubits(1, ancillas);
        let right_controls = in_over_2n(c, n - 1, &controls_tuple.1, remaining_datas, remaining_ancillas);
        let mut controls = left_controls;
        let mut rc = right_controls;
        controls.append(&mut rc);
        proof {
            lemma_extends_trans(v0, v1, v2);
            lemma_extends_trans(v0, v2, c@);
            assert forall|i: int| 0 <= i < controls@.len() implies is_control(c@, #[trigger] controls@[i].operation) by {
                if i < left_controls@.len() {
                    assert(controls@[i] == left_controls@[i]);
                    lemma_control_stays(v2, c@, left_controls@[i].operation);
                } else {
                    assert(controls@[i] == right_controls@[i - left_controls@.len()]);
                }
            }
            assert(controls@.map_values(|x: ControlFrom| x.operation) =~= left_controls@.map_values(
                |x: ControlFrom| x.operation,
            ) + right_controls@.map_values(|x: ControlFrom| x.operation));
        }
        controls
    }
}

} // verus!
