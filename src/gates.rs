//! Controlled-not and the Toffoli decomposition.
use vstd::prelude::*;

use crate::primitive::{
    control_count, extends, is_control, lemma_control_stays, lemma_extends_refl, lemma_extends_trans, node,
    set_node,
    weight, Circuit, ControlFrom, NodeType, Nodes, OpRef, PrimitiveGate, Qubit, QubitCell,
};

verus! {

pub open spec fn gate_node(g: PrimitiveGate) -> NodeType {
    NodeType::PrimitiveGate(g)
}

/// The location that the next operation appended to qubit `q` of `v` takes.
pub open spec fn next_ref(v: Nodes, q: usize) -> OpRef {
    OpRef { qubit: q, index: v[q as int].len() as usize }
}

/// `v` after `cnot(q1, q2)` on distinct qubits.
pub open spec fn cnot_nodes(v: Nodes, q1: usize, q2: usize) -> Nodes {
    v.update(q1 as int, v[q1 as int].push(NodeType::Control(1))).update(
        q2 as int,
        v[q2 as int].push(NodeType::ControlledNot(next_ref(v, q1), 0)),
    )
}

/// What the Toffoli decomposition appends to its target, with the second
/// control at `c2` and the first control at `c1`, ordinal `k`.
pub open spec fn toffoli_tail(c1: OpRef, k: usize, c2: OpRef) -> Seq<NodeType> {
    seq![
        gate_node(PrimitiveGate::H),
        gate_node(PrimitiveGate::T),
        NodeType::ControlledNot(c2, 0),
        gate_node(PrimitiveGate::TDag),
        NodeType::ControlledNot(c1, k),
        gate_node(PrimitiveGate::T),
        NodeType::ControlledNot(c2, 1),
        gate_node(PrimitiveGate::TDag),
        gate_node(PrimitiveGate::H),
        gate_node(PrimitiveGate::SDag),
    ]
}

/// `v` after `toffoli(q1, q2, q3)` on distinct qubits.
pub open spec fn toffoli_nodes(v: Nodes, q1: usize, q2: usize, q3: usize) -> Nodes {
    v.update(q1 as int, v[q1 as int].push(NodeType::Control(1))).update(
        q2 as int,
        v[q2 as int].push(NodeType::Control(2)),
    ).update(q3 as int, v[q3 as int] + toffoli_tail(next_ref(v, q1), 0, next_ref(v, q2)))
}

/// `v` after `toffoli_first_control(c1, q2, q3)`.
pub open spec fn toffoli_first_control_nodes(v: Nodes, c1: OpRef, q2: usize, q3: usize) -> Nodes {
    let k = control_count(v, c1);
    let v1 = set_node(v, c1, NodeType::Control((k + 1) as usize));
    v1.update(q2 as int, v1[q2 as int].push(NodeType::Control(2))).update(
        q3 as int,
        v1[q3 as int] + toffoli_tail(c1, k as usize, next_ref(v, q2)),
    )
}

/// Controlled-not with control `q1` and target `q2`.
pub fn cnot(c: &mut Circuit, q1: QubitCell, q2: QubitCell)
    requires
        old(c).wf(),
        old(c).has_qubit(q1),
        old(c).has_qubit(q2),
        q1 != q2,
        weight(old(c)@) + 3 <= usize::MAX,
    ensures
        final(c).wf(),
        final(c)@ == cnot_nodes(old(c)@, q1.index, q2.index),
        final(c).names() == old(c).names(),
        extends(old(c)@, final(c)@),
        weight(final(c)@) == weight(old(c)@) + 3,
{
    let ghost v0 = c@;
    let control_from = Qubit::control(c, q1);
    let ghost v1 = c@;
    let target = Qubit::export(c, q2);
    let ghost v2 = c@;
    proof {
        lemma_control_stays(v1, v2, control_from.operation);
        assert(node(v2, control_from.operation) == NodeType::Control(0));
        assert(target.operation == next_ref(v1, q2.index));
        assert(next_ref(v1, q2.index) == next_ref(v0, q2.index));
        assert(control_from.operation == next_ref(v0, q1.index));
    }
    target.control_by(c, &control_from);
    proof {
        lemma_extends_trans(v0, v1, v2);
        lemma_extends_trans(v0, v2, c@);
        let w = cnot_nodes(v0, q1.index, q2.index);
        let r = control_from.operation;
        let (i1, i2) = (q1.index as int, q2.index as int);
        assert(control_count(v2, r) == 0);
        let u = set_node(v2, r, NodeType::Control(1));
        assert(u[i1] =~= v0[i1].push(NodeType::Control(1)));
        assert(u[i2] == v2[i2]);
        assert(c@ == set_node(u, target.operation, NodeType::ControlledNot(r, 0)));
        assert(c@[i1] == u[i1]);
        assert(c@[i2] =~= v0[i2].push(NodeType::ControlledNot(r, 0)));
        assert(c@[q1.index as int] =~= w[q1.index as int]);
        assert(c@[q2.index as int] =~= w[q2.index as int]);
        assert(c@ =~= w);
    }
}


/// The Toffoli decomposition with an existing first control `q1c`, second
/// control `q2` and target `q3`.
pub fn toffoli_first_control(c: &mut Circuit, q1c: &ControlFrom, q2: QubitCell, q3: QubitCell)
    requires
        old(c).wf(),
        is_control(old(c)@, q1c.operation),
        old(c).has_qubit(q2),
        old(c).has_qubit(q3),
        q2 != q3,
        weight(old(c)@) + 14 <= usize::MAX,
    ensures
        final(c).wf(),
        final(c)@ == toffoli_first_control_nodes(old(c)@, q1c.operation, q2.index, q3.index),
        final(c).names() == old(c).names(),
        extends(old(c)@, final(c)@),
        weight(final(c)@) == weight(old(c)@) + 14,
{
    let ghost v00 = c@;
    Qubit::gate(c, q3, PrimitiveGate::H);
    let ghost v0 = c@;
    let ghost r1 = q1c.operation;
    let ghost k = control_count(v0, r1);
    proof {
        lemma_control_stays(v00, v0, r1);
        assert(node(v0, r1) == node(v00, r1));
    }
    Qubit::gate(c, q3, PrimitiveGate::T);
    let ghost v1 = c@;
    let control_from_2 = Qubit::control(c, q2);
    let ghost v2 = c@;
    let export_3_1 = Qubit::export(c, q3);
    let ghost v3 = c@;
    proof {
        lemma_control_stays(v2, v3, control_from_2.operation);
        assert(node(v3, control_from_2.operation) == NodeType::Control(0));
    }
    export_3_1.control_by(c, &control_from_2);
    let ghost v4 = c@;
    Qubit::gate(c, q3, PrimitiveGate::TDag);
    let ghost v5 = c@;
    let export_3_2 = Qubit::export(c, q3);
    let ghost v6 = c@;
    proof {
        lemma_extends_trans(v0, v1, v2);
        lemma_extends_trans(v0, v2, v3);
        lemma_extends_trans(v0, v3, v4);
        lemma_extends_trans(v0, v4, v5);
        lemma_extends_trans(v0, v5, v6);
        lemma_control_stays(v0, v6, r1);
        assert(node(v6, r1) == node(v0, r1));
    }
    export_3_2.control_by(c, q1c);
    let ghost v7 = c@;
    Qubit::gate(c, q3, PrimitiveGate::T);
    let ghost v8 = c@;
    let export_3_3 = Qubit::export(c, q3);
    let ghost v9 = c@;
    proof {
        lemma_extends_trans(v3, v4, v5);
        lemma_extends_trans(v3, v5, v6);
        lemma_extends_trans(v3, v6, v7);
        lemma_extends_trans(v3, v7, v8);
        lemma_extends_trans(v3, v8, v9);
        lemma_control_stays(v3, v9, control_from_2.operation);
        assert(node(v9, control_from_2.operation) == NodeType::Control(1));
    }
    export_3_3.control_by(c, &control_from_2);
    let ghost v10 = c@;
    Qubit::gate(c, q3, PrimitiveGate::TDag);
    Qubit::gate(c, q3, PrimitiveGate::H);
    let ghost v12 = c@;
    Qubit::gate(c, q3, PrimitiveGate::SDag);
    proof {
        lemma_extends_trans(v0, v6, v7);
        lemma_extends_trans(v0, v7, v8);
        lemma_extends_trans(v0, v8, v9);
        lemma_extends_trans(v0, v9, v10);
        lemma_extends_trans(v0, v10, v12);
        lemma_extends_trans(v0, v12, c@);
        lemma_extends_trans(v00, v0, c@);
        let w = toffoli_first_control_nodes(v00, r1, q2.index, q3.index);
        let c2 = control_from_2.operation;
        let (i2, i3) = (q2.index as int, q3.index as int);
        let n3 = v0[i3].len();
        assert(c2 == next_ref(v00, q2.index));
        assert(export_3_1.operation.index == n3 + 1);
        assert(export_3_2.operation.index == n3 + 3);
        assert(export_3_3.operation.index == n3 + 5);
        assert(c@.len() == v0.len());
        assert forall|j: int| 0 <= j < c@.len() implies #[trigger] c@[j] =~= w[j] by {
            if j == i3 {
                assert(c@[j].len() == w[j].len());
                assert forall|i: int| 0 <= i < c@[j].len() implies c@[j][i] == w[j][i] by {
                    if i == r1.index && j == r1.qubit {
                        assert(node(c@, r1) == NodeType::Control((k + 1) as usize));
                    }
                }
            } else if j == i2 {
                assert(c@[j].len() == w[j].len());
                assert forall|i: int| 0 <= i < c@[j].len() implies c@[j][i] == w[j][i] by {
                    if i == r1.index && j == r1.qubit {
                        assert(node(c@, r1) == NodeType::Control((k + 1) as usize));
                    }
                }
            } else {
                assert forall|i: int| 0 <= i < c@[j].len() implies c@[j][i] == w[j][i] by {
                    if i == r1.index && j == r1.qubit {
                        assert(node(c@, r1) == NodeType::Control((k + 1) as usize));
                    }
                }
            }
        }
        assert(c@ =~= w);
    }
}


/// The Toffoli gate on controls `q1`, `q2` and target `q3`: the
/// shared-control decomposition with a fresh control on `q1`.
pub fn toffoli(c: &mut Circuit, q1: QubitCell, q2: QubitCell, q3: QubitCell)
    requires
        old(c).wf(),
        old(c).has_qubit(q1),
        old(c).has_qubit(q2),
        old(c).has_qubit(q3),
        q1 != q2,
        q1 != q3,
        q2 != q3,
        weight(old(c)@) + 15 <= usize::MAX,
    ensures
        final(c).wf(),
        final(c)@ == toffoli_nodes(old(c)@, q1.index, q2.index, q3.index),
        final(c).names() == old(c).names(),
        extends(old(c)@, final(c)@),
        weight(final(c)@) == weight(old(c)@) + 15,
{
    let ghost v0 = c@;
    let ghost v1 = c@;
    proof {
        lemma_extends_refl(v0);
    }
    let control_from_1 = Qubit::control(c, q1);
    let ghost v2 = c@;
    toffoli_first_control(c, &control_from_1, q2, q3);
    proof {
        lemma_extends_trans(v0, v1, v2);
        lemma_extends_trans(v0, v2, c@);
        let w = toffoli_nodes(v0, q1.index, q2.index, q3.index);
        let r1 = control_from_1.operation;
        let (i1, i2, i3) = (q1.index as int, q2.index as int, q3.index as int);
        assert(control_count(v2, r1) == 0);
        assert(next_ref(v2, q2.index) == next_ref(v0, q2.index));
        assert(r1 == next_ref(v0, q1.index));
        let u = set_node(v2, r1, NodeType::Control(1));
        assert(u[i1] =~= v0[i1].push(NodeType::Control(1)));
        assert(u[i3] == v0[i3]);
        assert(c@[i1] =~= w[i1]);
        assert(c@[i2] =~= w[i2]);
        assert(c@[i3] =~= w[i3]);
        assert(c@ =~= w);
    }
}

} // verus!
