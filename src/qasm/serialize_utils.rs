//! Per-qubit cursors over the operation graph, synchronised round by round.
use vstd::prelude::*;

use crate::primitive::{Circuit, NodeType, Nodes, OpRef, PrimitiveGate, QubitCell};
use crate::qasm::operations::{Operation, QubitId};

verus! {

/// One instruction position of a qubit's timeline: a gate at a location,
/// the `p`-th binding of the control at a location, or a target bound to a
/// control with an ordinal, at its own location.
#[derive(Debug, Clone, Copy, PartialEq, Eq, Structural)]
pub enum Slot {
    Gate(PrimitiveGate, OpRef),
    Source(OpRef, usize),
    Target(OpRef, usize, OpRef),
}

/// The slots of one operation at `at`: one for a gate or a bound target, one
/// per binding for a control, none for an unbound target.
pub open spec fn op_slots(nt: NodeType, at: OpRef) -> Seq<Slot> {
    match nt {
        NodeType::PrimitiveGate(g) => seq![Slot::Gate(g, at)],
        NodeType::Control(k) => Seq::new(k as nat, |p: int| Slot::Source(at, p as usize)),
        NodeType::ControlledNot(r, p) => seq![Slot::Target(r, p, at)],
        NodeType::PreControlledNot => seq![],
    }
}

/// The slots of the qubit in arena slot `q` whose operations are `ops`.
pub open spec fn qubit_slots(ops: Seq<NodeType>, q: usize) -> Seq<Slot>
    decreases ops.len(),
{
    if ops.len() == 0 {
        seq![]
    } else {
        qubit_slots(ops.drop_last(), q) + op_slots(ops.last(), OpRef { qubit: q, index: (ops.len() - 1) as usize })
    }
}

/// The slots of every listed qubit, in list order.
pub open spec fn lanes_of(v: Nodes, cells: Seq<QubitCell>) -> Seq<Seq<Slot>> {
    Seq::new(cells.len(), |i: int| qubit_slots(v[cells[i].index as int], cells[i].index))
}

pub open spec fn live(l: Seq<Seq<Slot>>, p: Seq<int>, i: int) -> bool {
    0 <= i < l.len() && 0 <= p[i] < l[i].len()
}

pub open spec fn cur(l: Seq<Seq<Slot>>, p: Seq<int>, i: int) -> Slot {
    l[i][p[i]]
}

/// Cursors `i` and `j` stand on the two halves of one binding.
pub open spec fn matched(l: Seq<Seq<Slot>>, p: Seq<int>, i: int, j: int) -> bool {
    &&& live(l, p, i)
    &&& live(l, p, j)
    &&& i != j
    &&& match (cur(l, p, i), cur(l, p, j)) {
        (Slot::Source(r, k), Slot::Target(r2, k2, _)) => r == r2 && k == k2,
        (Slot::Target(r, k, _), Slot::Source(r2, k2)) => r == r2 && k == k2,
        _ => false,
    }
}

pub open spec fn gate_operation(g: PrimitiveGate, i: usize) -> Operation {
    match g {
        PrimitiveGate::Z => Operation::Z(QubitId(i)),
        PrimitiveGate::H => Operation::H(QubitId(i)),
        PrimitiveGate::X => Operation::X(QubitId(i)),
        PrimitiveGate::T => Operation::T(QubitId(i)),
        PrimitiveGate::TDag => Operation::TDag(QubitId(i)),
        PrimitiveGate::S => Operation::S(QubitId(i)),
        PrimitiveGate::SDag => Operation::SDag(QubitId(i)),
    }
}

pub open spec fn single_at(l: Seq<Seq<Slot>>, p: Seq<int>, i: int) -> Seq<Operation> {
    if live(l, p, i) && cur(l, p, i) is Gate {
        seq![gate_operation(cur(l, p, i)->Gate_0, i as usize)]
    } else {
        seq![]
    }
}

/// The single-qubit instructions of the cursors below `k`, in order.
pub open spec fn singles(l: Seq<Seq<Slot>>, p: Seq<int>, k: int) -> Seq<Operation>
    decreases k,
{
    if k <= 0 {
        seq![]
    } else {
        singles(l, p, k - 1) + single_at(l, p, k - 1)
    }
}

/// The controlled-not of a matched pair: the control's cursor first.
pub open spec fn pair_operation(l: Seq<Seq<Slot>>, p: Seq<int>, i: int, j: int) -> Operation {
    if cur(l, p, i) is Source {
        Operation::CX(QubitId(i as usize), QubitId(j as usize))
    } else {
        Operation::CX(QubitId(j as usize), QubitId(i as usize))
    }
}

/// The pairs `(i, j)` with `i < j < k` that match, in order of `j`.
pub open spec fn pairs_row(l: Seq<Seq<Slot>>, p: Seq<int>, i: int, k: int) -> Seq<Operation>
    decreases k - i,
{
    if k <= i + 1 {
        seq![]
    } else {
        pairs_row(l, p, i, k - 1) + if matched(l, p, i, k - 1) {
            seq![pair_operation(l, p, i, k - 1)]
        } else {
            seq![]
        }
    }
}

/// The matched pairs whose first cursor is below `k`, in lexicographic order.
pub open spec fn pairs(l: Seq<Seq<Slot>>, p: Seq<int>, k: int) -> Seq<Operation>
    decreases k,
{
    if k <= 0 {
        seq![]
    } else {
        pairs(l, p, k - 1) + pairs_row(l, p, k - 1, l.len() as int)
    }
}

/// What one round emits: every gate under a cursor, then every matched pair.
pub open spec fn round_output(l: Seq<Seq<Slot>>, p: Seq<int>) -> Seq<Operation> {
    singles(l, p, l.len() as int) + pairs(l, p, l.len() as int)
}

/// Cursor `i` emits in this round and so moves on.
pub open spec fn moves(l: Seq<Seq<Slot>>, p: Seq<int>, i: int) -> bool {
    live(l, p, i) && (cur(l, p, i) is Gate || exists|j: int| matched(l, p, i, j))
}

pub open spec fn advance(l: Seq<Seq<Slot>>, p: Seq<int>) -> Seq<int> {
    Seq::new(p.len(), |i: int| p[i] + if moves(l, p, i) { 1int } else { 0 })
}

pub open spec fn any_live(l: Seq<Seq<Slot>>, p: Seq<int>) -> bool {
    exists|i: int| live(l, p, i)
}

/// The slots still ahead of the cursors below `k`.
pub open spec fn remaining(l: Seq<Seq<Slot>>, p: Seq<int>, k: int) -> int
    decreases k,
{
    if k <= 0 {
        0
    } else {
        remaining(l, p, k - 1) + if live(l, p, k - 1) {
            l[k - 1].len() - p[k - 1]
        } else {
            0
        }
    }
}

/// The stream from cursors at `p`, round after round, until every cursor is
/// through (`Some`), or `None` when a round with live cursors emits nothing.
/// Each productive round consumes a slot, so `fuel` at least the remaining
/// slots never runs out.
pub open spec fn stream(l: Seq<Seq<Slot>>, p: Seq<int>, fuel: nat) -> Option<Seq<Operation>>
    decreases fuel,
{
    if !any_live(l, p) {
        Some(seq![])
    } else if round_output(l, p).len() == 0 || fuel == 0 {
        None
    } else {
        match stream(l, advance(l, p), (fuel - 1) as nat) {
            Some(rest) => Some(round_output(l, p) + rest),
            None => None,
        }
    }
}

/// A cursor on one qubit: its slots and the position of the next one.
#[derive(Debug, Clone)]
pub struct NextOperation {
    pub qubit_cell: QubitCell,
    pub slots: Vec<Slot>,
    pub position: usize,
}

/// The slots of `qubit_cell`'s operations in order.
pub fn slots_of(c: &Circuit, qubit_cell: QubitCell) -> (r: Vec<Slot>)
    requires
        c.has_qubit(qubit_cell),
    ensures
        r@ == qubit_slots(c@[qubit_cell.index as int], qubit_cell.index),
{
    let q = qubit_cell.index;
    let ghost ops = c@[q as int];
    let n = c.qubits[q].operations.len();
    let mut r: Vec<Slot> = Vec::new();
    let mut i: usize = 0;
    while i < n
        invariant
            n == ops.len(),
            ops == c@[q as int],
            q < c.qubits@.len(),
            i <= n,
            r@ == qubit_slots(ops.subrange(0, i as int), q),
        decreases n - i,
    {
        let nt = c.qubits[q].operations[i].node_type;
        let ghost before = r@;
        let at = OpRef { qubit: q, index: i };
        proof {
            assert(nt == ops[i as int]);
            assert(ops.subrange(0, i as int + 1).drop_last() =~= ops.subrange(0, i as int));
        }
        match nt {
            NodeType::PrimitiveGate(g) => {
                r.push(Slot::Gate(g, at));
            },
            NodeType::Control(k) => {
                let mut p: usize = 0;
                while p < k
                    invariant
                        p <= k,
                        r@ == before + Seq::new(p as nat, |j: int| Slot::Source(at, j as usize)),
                    decreases k - p,
                {
                    r.push(Slot::Source(at, p));
                    p += 1;
                    proof {
                        assert(r@ =~= before + Seq::new(p as nat, |j: int| Slot::Source(at, j as usize)));
                    }
                }
            },
            NodeType::ControlledNot(rr, p) => {
                r.push(Slot::Target(rr, p, at));
            },
            NodeType::PreControlledNot => {},
        }
        proof {
            assert(r@ =~= before + op_slots(nt, at));
        }
        i += 1;
    }
    proof {
        assert(ops.subrange(0, n as int) =~= ops);
    }
    r
}

impl NextOperation {
    /// A cursor at the first slot of `qubit_cell`, or `None` when the qubit
    /// has no slot.
    pub fn new(c: &Circuit, qubit_cell: QubitCell) -> (r: Option<Self>)
        requires
            c.has_qubit(qubit_cell),
        ensures
            r is Some <==> qubit_slots(c@[qubit_cell.index as int], qubit_cell.index).len() > 0,
            r is Some ==> r->Some_0.qubit_cell == qubit_cell && r->Some_0.position == 0
                && r->Some_0.slots@ == qubit_slots(c@[qubit_cell.index as int], qubit_cell.index),
    {
        let slots = slots_of(c, qubit_cell);
        if slots.len() == 0 {
            None
        } else {
            Some(NextOperation { qubit_cell, slots, position: 0 })
        }
    }

    /// There is a slot after the current one.
    pub fn has_next(&self) -> (r: bool)
        ensures
            r == (self.position + 1 < self.slots@.len()),
    {
        self.position < self.slots.len() && self.position + 1 < self.slots.len()
    }

    /// The current slot is one half of a binding.
    pub fn is_control(&self) -> (r: bool)
        requires
            self.position < self.slots@.len(),
        ensures
            r == !(self.slots@[self.position as int] is Gate),
    {
        match self.slots[self.position] {
            Slot::Gate(_, _) => false,
            _ => true,
        }
    }
}

/// The cursors of every listed qubit, in list order.
#[derive(Debug, Clone)]
pub struct NextOperations(pub Vec<NextOperation>);

impl NextOperations {
    pub open spec fn lanes(&self) -> Seq<Seq<Slot>> {
        Seq::new(self.0@.len(), |i: int| self.0@[i].slots@)
    }

    pub open spec fn positions(&self) -> Seq<int> {
        Seq::new(self.0@.len(), |i: int| self.0@[i].position as int)
    }

    /// A cursor at the start of each qubit of `qubit_cells`.
    pub fn initialize_from_cells(c: &Circuit, qubit_cells: &Vec<QubitCell>) -> (r: Self)
        requires
            forall|i: int| 0 <= i < qubit_cells@.len() ==> c.has_qubit(#[trigger] qubit_cells@[i]),
        ensures
            r.lanes() == lanes_of(c@, qubit_cells@),
            r.positions() == Seq::new(qubit_cells@.len(), |i: int| 0int),
            forall|i: int| 0 <= i < qubit_cells@.len() ==> (#[trigger] r.0@[i]).qubit_cell == qubit_cells@[i],
    {
        let mut cursors: Vec<NextOperation> = Vec::new();
        let mut i: usize = 0;
        while i < qubit_cells.len()
            invariant
                i <= qubit_cells@.len(),
                forall|i: int| 0 <= i < qubit_cells@.len() ==> c.has_qubit(#[trigger] qubit_cells@[i]),
                cursors@.len() == i,
                forall|k: int| 0 <= k < i ==> (#[trigger] cursors@[k]).qubit_cell == qubit_cells@[k]
                    && cursors@[k].position == 0
                    && cursors@[k].slots@ == qubit_slots(c@[qubit_cells@[k].index as int], qubit_cells@[k].index),
            decreases qubit_cells@.len() - i,
        {
            let q = qubit_cells[i];
            let slots = slots_of(c, q);
            cursors.push(NextOperation { qubit_cell: q, slots, position: 0 });
            i += 1;
        }
        let r = NextOperations(cursors);
        proof {
            assert(r.lanes() =~= lanes_of(c@, qubit_cells@));
            assert(r.positions() =~= Seq::new(qubit_cells@.len(), |i: int| 0int));
        }
        r
    }

    /// Some cursor has a slot left.
    pub fn has_next(&self) -> (r: bool)
        ensures
            r == any_live(self.lanes(), self.positions()),
    {
        let mut i: usize = 0;
        while i < self.0.len()
            invariant
                i <= self.0@.len(),
                forall|k: int| 0 <= k < i ==> !live(self.lanes(), self.positions(), k),
            decreases self.0@.len() - i,
        {
            if self.0[i].position < self.0[i].slots.len() {
                proof {
                    assert(live(self.lanes(), self.positions(), i as int));
                }
                return true;
            }
            i += 1;
        }
        false
    }

    fn is_live(&self, i: usize) -> (r: bool)
        requires
            i < self.0@.len(),
        ensures
            r == live(self.lanes(), self.positions(), i as int),
    {
        self.0[i].position < self.0[i].slots.len()
    }

    fn current(&self, i: usize) -> (r: Slot)
        requires
            live(self.lanes(), self.positions(), i as int),
        ensures
            r == cur(self.lanes(), self.positions(), i as int),
    {
        self.0[i].slots[self.0[i].position]
    }

    fn is_pair(&self, i: usize, j: usize) -> (r: bool)
        requires
            i < self.0@.len(),
            j < self.0@.len(),
        ensures
            r == matched(self.lanes(), self.positions(), i as int, j as int),
    {
        if i == j || !self.is_live(i) || !self.is_live(j) {
            return false;
        }
        match (self.current(i), self.current(j)) {
            (Slot::Source(r, k), Slot::Target(r2, k2, _)) => r == r2 && k == k2,
            (Slot::Target(r, k, _), Slot::Source(r2, k2)) => r == r2 && k == k2,
            _ => false,
        }
    }

    /// The instructions of the current round: the gates under the cursors in
    /// list order, then one controlled-not per matched pair of cursors.
    pub fn to_qasm(&self) -> (r: Vec<Operation>)
        ensures
            r@ == round_output(self.lanes(), self.positions()),
    {
        let ghost l = self.lanes();
        let ghost p = self.positions();
        let n = self.0.len();
        let mut out: Vec<Operation> = Vec::new();
        let mut i: usize = 0;
        while i < n
            invariant
                n == self.0@.len(),
                l == self.lanes(),
                p == self.positions(),
                i <= n,
                out@ == singles(l, p, i as int),
            decreases n - i,
        {
            if self.is_live(i) {
                if let Slot::Gate(g, _) = self.current(i) {
                    let op = match g {
                        PrimitiveGate::Z => Operation::Z(QubitId(i)),
                        PrimitiveGate::H => Operation::H(QubitId(i)),
                        PrimitiveGate::X => Operation::X(QubitId(i)),
                        PrimitiveGate::T => Operation::T(QubitId(i)),
                        PrimitiveGate::TDag => Operation::TDag(QubitId(i)),
                        PrimitiveGate::S => Operation::S(QubitId(i)),
                        PrimitiveGate::SDag => Operation::SDag(QubitId(i)),
                    };
                    out.push(op);
                }
            }
            proof {
                assert(out@ =~= singles(l, p, i as int) + single_at(l, p, i as int)) by {
                    assert(singles(l, p, i as int + 1) == singles(l, p, i as int) + single_at(l, p, i as int));
                }
            }
            i += 1;
        }
        let ghost s = out@;
        let mut i: usize = 0;
        while i < n
            invariant
                n == self.0@.len(),
                l == self.lanes(),
                p == self.positions(),
                i <= n,
                out@ == s + pairs(l, p, i as int),
            decreases n - i,
        {
            let ghost before = out@;
            let mut j: usize = i + 1;
            while j < n
                invariant
                    n == self.0@.len(),
                    l == self.lanes(),
                    p == self.positions(),
                    i < n,
                    i + 1 <= j <= n,
                    out@ == before + pairs_row(l, p, i as int, j as int),
                decreases n - j,
            {
                if self.is_pair(i, j) {
                    let op = if matches!(self.current(i), Slot::Source(_, _)) {
                        Operation::CX(QubitId(i), QubitId(j))
                    } else {
                        Operation::CX(QubitId(j), QubitId(i))
                    };
                    out.push(op);
                }
                proof {
                    assert(out@ =~= before + pairs_row(l, p, i as int, j as int + 1));
                }
                j += 1;
            }
            proof {
                assert(out@ =~= s + pairs(l, p, i as int + 1));
            }
            i += 1;
        }
        out
    }

    /// Cursor `i` emits in the current round.
    pub fn moves_at(&self, i: usize) -> (r: bool)
        requires
            i < self.0@.len(),
        ensures
            r == moves(self.lanes(), self.positions(), i as int),
    {
        if !self.is_live(i) {
            return false;
        }
        if matches!(self.current(i), Slot::Gate(_, _)) {
            return true;
        }
        let mut j: usize = 0;
        while j < self.0.len()
            invariant
                i < self.0@.len(),
                j <= self.0@.len(),
                forall|k: int| 0 <= k < j ==> !matched(self.lanes(), self.positions(), i as int, k),
            decreases self.0@.len() - j,
        {
            if self.is_pair(i, j) {
                return true;
            }
            j += 1;
        }
        proof {
            assert forall|k: int| !matched(self.lanes(), self.positions(), i as int, k) by {
                if 0 <= k < self.0@.len() {
                } else {
                    assert(!live(self.lanes(), self.positions(), k));
                }
            }
        }
        false
    }

    /// Moves on every cursor that emitted in the current round.
    pub fn next(&mut self)
        ensures
            final(self).lanes() == old(self).lanes(),
            final(self).positions() == advance(old(self).lanes(), old(self).positions()),
            final(self).0@.len() == old(self).0@.len(),
            forall|i: int| 0 <= i < old(self).0@.len() ==> (#[trigger] final(self).0@[i]).qubit_cell == old(self).0@[i].qubit_cell,
    {
        let ghost l = self.lanes();
        let ghost p = self.positions();
        let n = self.0.len();
        let mut flags: Vec<bool> = Vec::new();
        let mut i: usize = 0;
        while i < n
            invariant
                n == self.0@.len(),
                l == self.lanes(),
                p == self.positions(),
                i <= n,
                flags@.len() == i,
                forall|k: int| 0 <= k < i ==> flags@[k] == moves(l, p, k),
            decreases n - i,
        {
            let f = self.moves_at(i);
            flags.push(f);
            i += 1;
        }
        let mut i: usize = 0;
        while i < n
            invariant
                n == self.0@.len(),
                l == self.lanes(),
                flags@.len() == n,
                p.len() == n,
                forall|k: int| 0 <= k < n ==> flags@[k] == moves(l, p, k),
                forall|k: int| 0 <= k < n ==> moves(l, p, k) ==> p[k] + 1 <= l[k].len(),
                i <= n,
                old(self).0@.len() == n,
                forall|k: int| 0 <= k < n ==> (#[trigger] self.0@[k]).qubit_cell == old(self).0@[k].qubit_cell,
                forall|k: int| 0 <= k < i ==> (#[trigger] self.0@[k]).position == advance(l, p)[k],
                forall|k: int| i <= k < n ==> (#[trigger] self.0@[k]).position == p[k],
            decreases n - i,
        {
            proof {
                assert(l[i as int] == self.0@[i as int].slots@);
                assert(self.0@[i as int].position == p[i as int]);
            }
            let len_i = self.0[i].slots.len();
            if flags[i] && self.0[i].position < len_i {
                let next_position = self.0[i].position + 1;
                self.0[i].position = next_position;
            }
            proof {
                assert(self.lanes() =~= l);
            }
            i += 1;
        }
        proof {
            assert(self.lanes() =~= l);
            assert(self.positions() =~= advance(l, p));
        }
    }
}

} // verus!
