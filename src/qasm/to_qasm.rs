//! Linearising a graph into an instruction stream.
use vstd::prelude::*;

use crate::primitive::{bindings_consistent, has_op, node, Circuit, NodeType, OpRef, PrimitiveGate, QubitCell};
use crate::qasm::operations::{File, Operation};
use crate::qasm::serialize_utils::{
    advance, any_live, cur, lanes_of, op_slots, pair_operation, qubit_slots, live, matched, moves, pairs, pairs_row, remaining, round_output,
    single_at, singles, stream, NextOperations, Slot,
};

verus! {

/// Why no stream could be written.
#[derive(Debug, Clone, Copy, PartialEq, Eq, Structural)]
pub enum QasmError {
    /// Some cursors were left that no round could move: a control and its
    /// target never stood at the same time.
    InconsistentGraph,
}

pub open spec fn prepend(prefix: Seq<Operation>, rest: Option<Seq<Operation>>) -> Option<Seq<Operation>> {
    match rest {
        Some(s) => Some(prefix + s),
        None => None,
    }
}

/// The cursors at the start of every listed qubit.
pub open spec fn start_positions(n: nat) -> Seq<int> {
    Seq::new(n, |i: int| 0int)
}

/// The stream of the listed qubits of `v`, if the graph lets every cursor
/// reach its end.
pub open spec fn qasm_stream(v: crate::primitive::Nodes, cells: Seq<QubitCell>) -> Option<Seq<Operation>> {
    let l = lanes_of(v, cells);
    let p = start_positions(cells.len());
    stream(l, p, remaining(l, p, cells.len() as int) as nat)
}

pub proof fn lemma_remaining_monotone(l: Seq<Seq<Slot>>, p: Seq<int>, k: int)
    requires
        0 <= k,
    ensures
        0 <= remaining(l, p, k),
        forall|i: int| 0 <= i < k && live(l, p, i) ==> remaining(l, p, k) >= 1,
    decreases k,
{
    if k > 0 {
        lemma_remaining_monotone(l, p, k - 1);
    }
}

proof fn lemma_remaining_advance(l: Seq<Seq<Slot>>, p: Seq<int>, k: int)
    requires
        0 <= k <= l.len(),
        p.len() == l.len(),
    ensures
        remaining(l, advance(l, p), k) <= remaining(l, p, k),
        forall|i: int| 0 <= i < k && moves(l, p, i) ==> remaining(l, advance(l, p), k) < remaining(l, p, k),
    decreases k,
{
    if k > 0 {
        lemma_remaining_advance(l, p, k - 1);
        let q = advance(l, p);
        let i = k - 1;
        assert(q[i] == p[i] + if moves(l, p, i) { 1int } else { 0 });
    }
}

proof fn lemma_singles_nonempty(l: Seq<Seq<Slot>>, p: Seq<int>, k: int)
    requires
        singles(l, p, k).len() > 0,
    ensures
        exists|i: int| moves(l, p, i),
    decreases k,
{
    if k > 0 {
        if single_at(l, p, k - 1).len() > 0 {
            assert(moves(l, p, k - 1));
        } else {
            lemma_singles_nonempty(l, p, k - 1);
        }
    }
}

proof fn lemma_pairs_row_nonempty(l: Seq<Seq<Slot>>, p: Seq<int>, i: int, k: int)
    requires
        pairs_row(l, p, i, k).len() > 0,
    ensures
        exists|j: int| moves(l, p, j),
    decreases k - i,
{
    if k > i + 1 {
        if matched(l, p, i, k - 1) {
            assert(moves(l, p, i));
        } else {
            lemma_pairs_row_nonempty(l, p, i, k - 1);
        }
    }
}

proof fn lemma_pairs_nonempty(l: Seq<Seq<Slot>>, p: Seq<int>, k: int)
    requires
        pairs(l, p, k).len() > 0,
    ensures
        exists|j: int| moves(l, p, j),
    decreases k,
{
    if k > 0 {
        if pairs_row(l, p, k - 1, l.len() as int).len() > 0 {
            lemma_pairs_row_nonempty(l, p, k - 1, l.len() as int);
        } else {
            lemma_pairs_nonempty(l, p, k - 1);
        }
    }
}

/// A round that emits something moves a cursor, and so uses up a slot of
/// the fuel.
pub proof fn lemma_progress(l: Seq<Seq<Slot>>, p: Seq<int>, n: int, fuel: nat)
    requires
        l.len() == n,
        p.len() == n,
        forall|i: int| 0 <= i < n ==> 0 <= #[trigger] p[i],
        remaining(l, p, n) <= fuel,
        any_live(l, p),
        round_output(l, p).len() > 0,
    ensures
        fuel >= 1,
        remaining(l, advance(l, p), n) < remaining(l, p, n),
        remaining(l, advance(l, p), n) <= fuel - 1,
        stream(l, p, fuel) == prepend(round_output(l, p), stream(l, advance(l, p), (fuel - 1) as nat)),
        forall|i: int| 0 <= i < n ==> 0 <= #[trigger] advance(l, p)[i],
        advance(l, p).len() == n,
{
    lemma_remaining_monotone(l, p, n);
    let i = choose|i: int| live(l, p, i);
    if singles(l, p, n).len() > 0 {
        lemma_singles_nonempty(l, p, n);
    } else {
        lemma_pairs_nonempty(l, p, n);
    }
    let j = choose|j: int| moves(l, p, j);
    lemma_remaining_advance(l, p, n);
}

/// Writes the instruction stream of `qubit_cells`, whose list positions are
/// the register indices: round after round, every gate under a cursor and
/// every pair of cursors on the two halves of one binding is emitted, and
/// those cursors move on. Fails when a round with cursors left emits nothing.
pub fn to_qasm(c: &Circuit, qubit_cells: Vec<QubitCell>) -> (r: Result<File, QasmError>)
    requires
        forall|i: int| 0 <= i < qubit_cells@.len() ==> c.has_qubit(#[trigger] qubit_cells@[i]),
    ensures
        match r {
            Ok(f) => f.qubit_count == qubit_cells@.len() && qasm_stream(c@, qubit_cells@) == Some(f.operations@),
            Err(_) => qasm_stream(c@, qubit_cells@) is None,
        },
{
    let qubit_count = qubit_cells.len();
    let mut next_operations = NextOperations::initialize_from_cells(c, &qubit_cells);
    let ghost l = next_operations.lanes();
    let ghost p_start = next_operations.positions();
    let ghost n = qubit_count as int;
    let ghost f0 = remaining(l, p_start, n) as nat;
    let ghost mut fuel = f0;
    let mut qasm_operations: Vec<Operation> = Vec::new();
    proof {
        assert(p_start == start_positions(qubit_cells@.len()));
        lemma_remaining_monotone(l, p_start, n);
    }
    while next_operations.has_next()
        invariant
            next_operations.lanes() == l,
            l == lanes_of(c@, qubit_cells@),
            p_start == start_positions(qubit_cells@.len()),
            f0 == remaining(l, p_start, n) as nat,
            n == qubit_cells@.len(),
            next_operations.positions().len() == n,
            l.len() == n,
            forall|i: int| 0 <= i < n ==> 0 <= #[trigger] next_operations.positions()[i],
            remaining(l, next_operations.positions(), n) <= fuel,
            stream(l, p_start, f0) == prepend(qasm_operations@, stream(l, next_operations.positions(), fuel)),
        decreases remaining(l, next_operations.positions(), n),
    {
        let ghost p = next_operations.positions();
        let operation = next_operations.to_qasm();
        if operation.len() == 0 {
            proof {
                assert(any_live(l, p));
                assert(stream(l, p, fuel) is None);
                assert(qasm_stream(c@, qubit_cells@) == stream(l, p_start, f0));
            }
            return Err(QasmError::InconsistentGraph);
        }
        proof {
            lemma_remaining_monotone(l, p, n);
            let i = choose|i: int| live(l, p, i);
            assert(remaining(l, p, n) >= 1);
            if singles(l, p, n).len() > 0 {
                lemma_singles_nonempty(l, p, n);
            } else {
                lemma_pairs_nonempty(l, p, n);
            }
            let j = choose|j: int| moves(l, p, j);
            assert(0 <= j < n);
            lemma_remaining_advance(l, p, n);
        }
        let ghost before = qasm_operations@;
        let ghost round = operation@;
        let mut operation = operation;
        qasm_operations.append(&mut operation);
        next_operations.next();
        proof {
            fuel = (fuel - 1) as nat;
            assert(qasm_operations@ == before + round);
            let q = next_operations.positions();
            assert(q == advance(l, p));
            lemma_remaining_monotone(l, q, n);
            match stream(l, q, fuel) {
                Some(rest) => {
                    assert(before + round + rest =~= before + (round + rest));
                },
                None => {},
            }
        }
    }
    proof {
        assert(qasm_stream(c@, qubit_cells@) == stream(l, p_start, f0));
        assert(stream(l, next_operations.positions(), fuel) == Some(Seq::<Operation>::empty()));
        assert(qasm_operations@ + Seq::<Operation>::empty() =~= qasm_operations@);
    }
    Ok(File { qubit_count, operations: qasm_operations })
}

/// What an instruction does to the qubit with register index `j`.
#[derive(Debug, Clone, Copy, PartialEq, Eq, Structural)]
pub enum Role {
    Gate(PrimitiveGate),
    Control,
    Target,
}

pub open spec fn touches(op: Operation, j: int) -> bool {
    match op {
        Operation::CX(a, b) => a.0 == j || b.0 == j,
        Operation::Z(t) => t.0 == j,
        Operation::H(t) => t.0 == j,
        Operation::X(t) => t.0 == j,
        Operation::T(t) => t.0 == j,
        Operation::TDag(t) => t.0 == j,
        Operation::S(t) => t.0 == j,
        Operation::SDag(t) => t.0 == j,
    }
}

pub open spec fn role_in(op: Operation, j: int) -> Role {
    match op {
        Operation::CX(a, _) => if a.0 == j { Role::Control } else { Role::Target },
        Operation::Z(_) => Role::Gate(PrimitiveGate::Z),
        Operation::H(_) => Role::Gate(PrimitiveGate::H),
        Operation::X(_) => Role::Gate(PrimitiveGate::X),
        Operation::T(_) => Role::Gate(PrimitiveGate::T),
        Operation::TDag(_) => Role::Gate(PrimitiveGate::TDag),
        Operation::S(_) => Role::Gate(PrimitiveGate::S),
        Operation::SDag(_) => Role::Gate(PrimitiveGate::SDag),
    }
}

/// The roles, in order, of the instructions of `ops` that touch qubit `j`.
pub open spec fn project(ops: Seq<Operation>, j: int) -> Seq<Role>
    decreases ops.len(),
{
    if ops.len() == 0 {
        seq![]
    } else {
        project(ops.drop_last(), j) + if touches(ops.last(), j) {
            seq![role_in(ops.last(), j)]
        } else {
            seq![]
        }
    }
}

pub open spec fn slot_role(s: Slot) -> Role {
    match s {
        Slot::Gate(g, _) => Role::Gate(g),
        Slot::Source(_, _) => Role::Control,
        Slot::Target(_, _, _) => Role::Target,
    }
}

pub open spec fn roles_from(sl: Seq<Slot>, k: int) -> Seq<Role> {
    sl.subrange(k, sl.len() as int).map_values(|s: Slot| slot_role(s))
}

proof fn lemma_project_add(a: Seq<Operation>, b: Seq<Operation>, j: int)
    ensures
        project(a + b, j) == project(a, j) + project(b, j),
    decreases b.len(),
{
    if b.len() == 0 {
        assert(a + b =~= a);
        assert(project(b, j) =~= Seq::<Role>::empty());
        assert(project(a, j) + Seq::<Role>::empty() =~= project(a, j));
    } else {
        assert((a + b).drop_last() =~= a + b.drop_last());
        lemma_project_add(a, b.drop_last(), j);
        assert(project(a, j) + project(b.drop_last(), j) + (if touches(b.last(), j) { seq![role_in(b.last(), j)] } else { seq![] })
            =~= project(a, j) + (project(b.drop_last(), j) + (if touches(b.last(), j) { seq![role_in(b.last(), j)] } else { seq![] })));
    }
}

proof fn lemma_project_singles(l: Seq<Seq<Slot>>, p: Seq<int>, k: int, j: int)
    requires
        0 <= k <= l.len(),
        0 <= j < l.len(),
        l.len() <= usize::MAX,
    ensures
        project(singles(l, p, k), j) == if j < k && live(l, p, j) && cur(l, p, j) is Gate {
            seq![Role::Gate(cur(l, p, j)->Gate_0)]
        } else {
            Seq::<Role>::empty()
        },
    decreases k,
{
    if k > 0 {
        lemma_project_singles(l, p, k - 1, j);
        lemma_project_add(singles(l, p, k - 1), single_at(l, p, k - 1), j);
        let sa = single_at(l, p, k - 1);
        if sa.len() > 0 {
            assert(sa.drop_last() =~= Seq::<Operation>::empty());
            assert(project(sa.drop_last(), j) =~= Seq::<Role>::empty());
        } else {
            assert(project(sa, j) =~= Seq::<Role>::empty());
        }
        assert(project(singles(l, p, k), j) =~= project(singles(l, p, k - 1), j) + project(sa, j));
    } else {
        assert(project(Seq::<Operation>::empty(), j) =~= Seq::<Role>::empty());
    }
}

/// Each cursor has at most one partner.
pub open spec fn unique_partners(l: Seq<Seq<Slot>>, p: Seq<int>) -> bool {
    forall|i: int, k1: int, k2: int| #[trigger] matched(l, p, i, k1) && #[trigger] matched(l, p, i, k2) ==> k1 == k2
}

/// Row `i` of the pairs, up to `k`, holds a pair that touches `j`.
pub open spec fn row_hits(l: Seq<Seq<Slot>>, p: Seq<int>, i: int, k: int, j: int) -> bool {
    if j == i {
        exists|m: int| i < m < k && #[trigger] matched(l, p, i, m)
    } else {
        i < j < k && matched(l, p, i, j)
    }
}

proof fn lemma_pair_roles(l: Seq<Seq<Slot>>, p: Seq<int>, i: int, m: int, j: int)
    requires
        matched(l, p, i, m),
        l.len() <= usize::MAX,
    ensures
        touches(pair_operation(l, p, i, m), j) == (j == i || j == m),
        j == i ==> role_in(pair_operation(l, p, i, m), j) == slot_role(cur(l, p, i)),
        j == m ==> role_in(pair_operation(l, p, i, m), j) == slot_role(cur(l, p, m)),
{
}

proof fn lemma_project_one(op: Operation, j: int)
    ensures
        project(seq![op], j) == if touches(op, j) { seq![role_in(op, j)] } else { Seq::<Role>::empty() },
{
    assert(seq![op].drop_last() =~= Seq::<Operation>::empty());
    assert(project(Seq::<Operation>::empty(), j) + (if touches(op, j) { seq![role_in(op, j)] } else { Seq::<Role>::empty() })
        =~= if touches(op, j) { seq![role_in(op, j)] } else { Seq::<Role>::empty() });
}

proof fn lemma_project_row(l: Seq<Seq<Slot>>, p: Seq<int>, i: int, k: int, j: int)
    requires
        0 <= i < l.len(),
        i + 1 <= k <= l.len(),
        l.len() <= usize::MAX,
        unique_partners(l, p),
    ensures
        project(pairs_row(l, p, i, k), j) == if row_hits(l, p, i, k, j) {
            seq![slot_role(cur(l, p, j))]
        } else {
            Seq::<Role>::empty()
        },
    decreases k,
{
    if k == i + 1 {
        assert(project(Seq::<Operation>::empty(), j) =~= Seq::<Role>::empty());
        if j == i {
            assert(!exists|m: int| i < m < k && #[trigger] matched(l, p, i, m));
        }
    } else {
        lemma_project_row(l, p, i, k - 1, j);
        let m = k - 1;
        if matched(l, p, i, m) {
            let op = pair_operation(l, p, i, m);
            lemma_project_add(pairs_row(l, p, i, k - 1), seq![op], j);
            lemma_project_one(op, j);
            lemma_pair_roles(l, p, i, m, j);
            if j == i {
                if exists|m2: int| i < m2 < k - 1 && #[trigger] matched(l, p, i, m2) {
                    let m2 = choose|m2: int| i < m2 < k - 1 && #[trigger] matched(l, p, i, m2);
                    assert(m2 == m);
                }
                assert(row_hits(l, p, i, k, j));
                assert(project(pairs_row(l, p, i, k), j) =~= seq![slot_role(cur(l, p, j))]);
            } else if j == m {
                assert(project(pairs_row(l, p, i, k), j) =~= seq![slot_role(cur(l, p, j))]);
            } else {
                assert(project(pairs_row(l, p, i, k), j) =~= project(pairs_row(l, p, i, k - 1), j));
                if j == i {
                } else {
                    assert(row_hits(l, p, i, k, j) == row_hits(l, p, i, k - 1, j));
                }
            }
        } else {
            assert(pairs_row(l, p, i, k) =~= pairs_row(l, p, i, k - 1));
            if j == i {
                assert(row_hits(l, p, i, k, j) == row_hits(l, p, i, k - 1, j)) by {
                    if row_hits(l, p, i, k, j) {
                        let m2 = choose|m2: int| i < m2 < k && #[trigger] matched(l, p, i, m2);
                        assert(m2 != m);
                    }
                }
            }
        }
    }
}

proof fn lemma_project_pairs(l: Seq<Seq<Slot>>, p: Seq<int>, k: int, j: int)
    requires
        0 <= k <= l.len(),
        0 <= j < l.len(),
        l.len() <= usize::MAX,
        unique_partners(l, p),
    ensures
        project(pairs(l, p, k), j) == if exists|i: int| 0 <= i < k && #[trigger] row_hits(l, p, i, l.len() as int, j) {
            seq![slot_role(cur(l, p, j))]
        } else {
            Seq::<Role>::empty()
        },
    decreases k,
{
    let n = l.len() as int;
    if k == 0 {
        assert(project(Seq::<Operation>::empty(), j) =~= Seq::<Role>::empty());
    } else {
        lemma_project_pairs(l, p, k - 1, j);
        lemma_project_row(l, p, k - 1, n, j);
        lemma_project_add(pairs(l, p, k - 1), pairs_row(l, p, k - 1, n), j);
        if row_hits(l, p, k - 1, n, j) {
            if exists|i: int| 0 <= i < k - 1 && #[trigger] row_hits(l, p, i, n, j) {
                let i = choose|i: int| 0 <= i < k - 1 && #[trigger] row_hits(l, p, i, n, j);
                let i2 = k - 1;
                if j == i {
                    let m = choose|m: int| i < m < n && #[trigger] matched(l, p, i, m);
                    assert(matched(l, p, j, i2));
                } else if j == i2 {
                    let m = choose|m: int| i2 < m < n && #[trigger] matched(l, p, i2, m);
                    assert(matched(l, p, j, i));
                } else {
                    assert(matched(l, p, j, i));
                    assert(matched(l, p, j, i2));
                }
            }
            assert(project(pairs(l, p, k), j) =~= seq![slot_role(cur(l, p, j))]);
        } else {
            assert(project(pairs(l, p, k), j) =~= project(pairs(l, p, k - 1), j));
            assert((exists|i: int| 0 <= i < k && #[trigger] row_hits(l, p, i, n, j)) == (exists|i: int|
                0 <= i < k - 1 && #[trigger] row_hits(l, p, i, n, j)));
        }
    }
}

/// What a round emits that touches cursor `j` is one instruction in the role
/// of its current slot if it moves, and nothing otherwise.
proof fn lemma_project_round(l: Seq<Seq<Slot>>, p: Seq<int>, j: int)
    requires
        0 <= j < l.len(),
        l.len() <= usize::MAX,
        unique_partners(l, p),
    ensures
        project(round_output(l, p), j) == if moves(l, p, j) {
            seq![slot_role(cur(l, p, j))]
        } else {
            Seq::<Role>::empty()
        },
{
    let n = l.len() as int;
    lemma_project_singles(l, p, n, j);
    lemma_project_pairs(l, p, n, j);
    lemma_project_add(singles(l, p, n), pairs(l, p, n), j);
    let hit = exists|i: int| 0 <= i < n && #[trigger] row_hits(l, p, i, n, j);
    let partner = exists|m: int| #[trigger] matched(l, p, j, m);
    assert(hit == partner) by {
        if partner {
            let m = choose|m: int| #[trigger] matched(l, p, j, m);
            if m > j {
                assert(row_hits(l, p, j, n, j));
            } else {
                assert(matched(l, p, m, j));
                assert(row_hits(l, p, m, n, j));
            }
        }
        if hit {
            let i = choose|i: int| 0 <= i < n && #[trigger] row_hits(l, p, i, n, j);
            if i == j {
                let m = choose|m: int| i < m < n && #[trigger] matched(l, p, i, m);
            } else {
                assert(matched(l, p, j, i));
            }
        }
    }
    if live(l, p, j) && cur(l, p, j) is Gate {
        assert(!partner);
        assert(project(round_output(l, p), j) =~= seq![slot_role(cur(l, p, j))]);
    } else {
        assert(project(round_output(l, p), j) =~= project(pairs(l, p, n), j)) by {
            assert(project(singles(l, p, n), j) =~= Seq::<Role>::empty());
        }
    }
}

proof fn lemma_stream_roles(l: Seq<Seq<Slot>>, p: Seq<int>, fuel: nat, ops: Seq<Operation>, j: int)
    requires
        stream(l, p, fuel) == Some(ops),
        forall|q: Seq<int>| #[trigger] unique_partners(l, q),
        p.len() == l.len(),
        forall|i: int| 0 <= i < l.len() ==> 0 <= #[trigger] p[i] <= l[i].len(),
        0 <= j < l.len(),
        l.len() <= usize::MAX,
    ensures
        project(ops, j) == roles_from(l[j], p[j]),
    decreases fuel,
{
    if !any_live(l, p) {
        assert(!live(l, p, j));
        assert(project(ops, j) =~= roles_from(l[j], p[j]));
    } else {
        let q = advance(l, p);
        let rest = stream(l, q, (fuel - 1) as nat)->Some_0;
        assert forall|i: int| 0 <= i < l.len() implies 0 <= #[trigger] q[i] <= l[i].len() by {}
        lemma_stream_roles(l, q, (fuel - 1) as nat, rest, j);
        lemma_project_add(round_output(l, p), rest, j);
        assert(unique_partners(l, p));
        lemma_project_round(l, p, j);
        if moves(l, p, j) {
            assert(roles_from(l[j], p[j]) =~= seq![slot_role(cur(l, p, j))] + roles_from(l[j], q[j]));
        } else {
            assert(Seq::<Role>::empty() + roles_from(l[j], q[j]) =~= roles_from(l[j], p[j]));
        }
    }
}

/// Each slot names its own qubit, and a bound target's slot the target it
/// comes from.
pub open spec fn lane_owned(v: crate::primitive::Nodes, sl: Seq<Slot>, q: usize) -> bool {
    forall|k: int|
        0 <= k < sl.len() ==> match #[trigger] sl[k] {
            Slot::Source(at, _) => at.qubit == q,
            Slot::Target(r, pp, at) => at.qubit == q && has_op(v, at) && node(v, at) == NodeType::ControlledNot(r, pp),
            Slot::Gate(_, _) => true,
        }
}

proof fn lemma_lane_owned(c: &Circuit, q: usize, i: int)
    requires
        c.wf(),
        q < c@.len(),
        0 <= i <= c@[q as int].len(),
    ensures
        lane_owned(c@, qubit_slots(c@[q as int].subrange(0, i), q), q),
    decreases i,
{
    let ops = c@[q as int].subrange(0, i);
    if i > 0 {
        lemma_lane_owned(c, q, i - 1);
        assert(ops.drop_last() =~= c@[q as int].subrange(0, i - 1));
        assert(c.qubits@[q as int].operations@[i - 1].id == i);
        let at = OpRef { qubit: q, index: (i - 1) as usize };
        assert(ops.last() == node(c@, at));
        let prefix = qubit_slots(ops.drop_last(), q);
        let tail = op_slots(ops.last(), at);
        let all = qubit_slots(ops, q);
        assert forall|k: int| 0 <= k < all.len() implies match #[trigger] all[k] {
            Slot::Source(at2, _) => at2.qubit == q,
            Slot::Target(r, pp, at2) => at2.qubit == q && has_op(c@, at2) && node(c@, at2) == NodeType::ControlledNot(r, pp),
            Slot::Gate(_, _) => true,
        } by {
            if k >= prefix.len() {
                assert(all[k] == tail[k - prefix.len()]);
            } else {
                assert(all[k] == prefix[k]);
            }
        }
    }
}

proof fn lemma_unique_partners(c: &Circuit, cells: Seq<QubitCell>)
    requires
        c.wf(),
        forall|i: int| 0 <= i < cells.len() ==> c.has_qubit(#[trigger] cells[i]),
        crate::select_gates::simple_dist_select::distinct_cells(cells),
    ensures
        forall|q: Seq<int>| #[trigger] unique_partners(lanes_of(c@, cells), q),
{
    let l = lanes_of(c@, cells);
    assert forall|i: int| 0 <= i < cells.len() implies lane_owned(c@, #[trigger] l[i], cells[i].index) by {
        let q = cells[i].index;
        lemma_lane_owned(c, q, c@[q as int].len() as int);
        assert(c@[q as int].subrange(0, c@[q as int].len() as int) =~= c@[q as int]);
    }
    assert forall|q: Seq<int>| #[trigger] unique_partners(l, q) by {
        assert forall|i: int, k1: int, k2: int| #[trigger] matched(l, q, i, k1) && #[trigger] matched(l, q, i, k2) implies k1 == k2 by {
            assert(lane_owned(c@, l[k1], cells[k1].index));
            assert(lane_owned(c@, l[k2], cells[k2].index));
            assert(lane_owned(c@, l[i], cells[i].index));
            let s1 = cur(l, q, k1);
            let s2 = cur(l, q, k2);
            assert(s1 == l[k1][q[k1]]);
            assert(s2 == l[k2][q[k2]]);
            match cur(l, q, i) {
                Slot::Source(r, pp) => {
                    let at1 = s1->Target_2;
                    let at2 = s2->Target_2;
                    assert(node(c@, at1) == NodeType::ControlledNot(r, pp));
                    assert(node(c@, at2) == NodeType::ControlledNot(r, pp));
                    assert(bindings_consistent(c@));
                    assert(at1 == at2);
                    assert(cells[k1] == cells[k2]);
                },
                Slot::Target(r, pp, _) => {
                    assert(s1 == Slot::Source(r, pp));
                    assert(s2 == Slot::Source(r, pp));
                    assert(cells[k1] == cells[k2]);
                },
                Slot::Gate(_, _) => {},
            }
        }
    }
}

/// The stream keeps each qubit's order: the instructions that touch the
/// `j`-th listed qubit are, in order, one per slot of that qubit, each in
/// the role of its slot (its gate, or the control or the target of a
/// controlled-not).
pub proof fn lemma_stream_keeps_qubit_order(c: &Circuit, cells: Seq<QubitCell>, ops: Seq<Operation>, j: int)
    requires
        c.wf(),
        cells.len() <= usize::MAX,
        forall|i: int| 0 <= i < cells.len() ==> c.has_qubit(#[trigger] cells[i]),
        crate::select_gates::simple_dist_select::distinct_cells(cells),
        0 <= j < cells.len(),
        qasm_stream(c@, cells) == Some(ops),
    ensures
        project(ops, j) == qubit_slots(c@[cells[j].index as int], cells[j].index).map_values(|s: Slot| slot_role(s)),
{
    let l = lanes_of(c@, cells);
    let p = start_positions(cells.len());
    lemma_unique_partners(c, cells);
    lemma_stream_roles(l, p, remaining(l, p, cells.len() as int) as nat, ops, j);
    assert(l[j].subrange(0, l[j].len() as int) =~= l[j]);
}

} // verus!
