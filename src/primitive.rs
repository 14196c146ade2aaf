//! The operation graph: qubits own append-only operation sequences that live in
//! one arena, and controls are bound to targets by arena locations.
use vstd::prelude::*;

verus! {

/// A single-qubit gate.
#[derive(Debug, Clone, Copy, PartialEq, Eq, Structural)]
pub enum PrimitiveGate {
    Z,
    H,
    X,
    T,
    TDag,
    S,
    SDag,
}

/// Where an operation lives: the qubit's slot in the arena and the
/// operation's 0-based index in that qubit's sequence.
#[derive(Debug, Clone, Copy, PartialEq, Eq, Structural)]
pub struct OpRef {
    pub qubit: usize,
    pub index: usize,
}

/// What an operation is.
#[derive(Debug, Clone, Copy, PartialEq, Eq, Structural)]
pub enum NodeType {
    PrimitiveGate(PrimitiveGate),
    /// A target that no control has been bound to yet.
    PreControlledNot,
    /// The origin of controls; holds how many targets are bound to it.
    Control(usize),
    /// A target bound to the control at the given location, with the
    /// ordinal it received when it was bound.
    ControlledNot(OpRef, usize),
}

/// One slot of a qubit's timeline: its 1-based id, the arena slot of its
/// qubit, and what it is.
#[derive(Debug, Clone, Copy)]
pub struct Operation {
    pub id: usize,
    pub parent: usize,
    pub node_type: NodeType,
}

/// A named qubit with its operation history.
#[derive(Debug)]
pub struct Qubit {
    pub id: String,
    pub operations: Vec<Operation>,
}

/// A handle on a qubit that lives in a `Circuit`.
#[derive(Debug, Clone, Copy, PartialEq, Eq, Structural)]
pub struct QubitCell {
    pub index: usize,
}

/// A handle on a `Control` operation.
#[derive(Debug, Clone, Copy, PartialEq, Eq, Structural)]
pub struct ControlFrom {
    pub operation: OpRef,
}

/// A handle on a `PreControlledNot` operation, consumed by binding.
#[derive(Debug)]
pub struct ControlTarget {
    pub operation: OpRef,
}

/// The arena that owns every qubit of a graph.
#[derive(Debug)]
pub struct Circuit {
    pub qubits: Vec<Qubit>,
}

/// The node types of a graph, one sequence per qubit.
pub type Nodes = Seq<Seq<NodeType>>;

pub open spec fn has_op(v: Nodes, r: OpRef) -> bool {
    r.qubit < v.len() && r.index < v[r.qubit as int].len()
}

pub open spec fn node(v: Nodes, r: OpRef) -> NodeType {
    v[r.qubit as int][r.index as int]
}

pub open spec fn is_control(v: Nodes, r: OpRef) -> bool {
    has_op(v, r) && node(v, r) is Control
}

pub open spec fn is_pending_target(v: Nodes, r: OpRef) -> bool {
    has_op(v, r) && node(v, r) is PreControlledNot
}

pub open spec fn control_count(v: Nodes, r: OpRef) -> nat {
    match node(v, r) {
        NodeType::Control(k) => k as nat,
        _ => 0,
    }
}

/// Some operation of the graph is a target bound to `r` with ordinal `p`.
pub open spec fn has_binder(v: Nodes, r: OpRef, p: nat) -> bool {
    exists|o: OpRef| #[trigger] has_op(v, o) && node(v, o) == NodeType::ControlledNot(r, p as usize)
}

/// Every bound target refers to a control and to one of its ordinals; every
/// ordinal below a control's count is held by a bound target; no two bound
/// targets hold the same control and ordinal.
pub open spec fn bindings_consistent(v: Nodes) -> bool {
    &&& forall|o: OpRef|
        has_op(v, o) && (#[trigger] node(v, o)) is ControlledNot ==> {
            &&& is_control(v, node(v, o)->ControlledNot_0)
            &&& (node(v, o)->ControlledNot_1 as nat) < control_count(v, node(v, o)->ControlledNot_0)
        }
    &&& forall|r: OpRef, p: nat|
        is_control(v, r) && p < control_count(v, r) ==> #[trigger] has_binder(v, r, p)
    &&& forall|o1: OpRef, o2: OpRef|
        has_op(v, o1) && has_op(v, o2) && (#[trigger] node(v, o1)) is ControlledNot && node(v, o1)
            == #[trigger] node(v, o2) ==> o1 == o2
}

pub open spec fn push_node(v: Nodes, q: int, nt: NodeType) -> Nodes {
    v.update(q, v[q].push(nt))
}

pub open spec fn set_node(v: Nodes, r: OpRef, nt: NodeType) -> Nodes {
    v.update(r.qubit as int, v[r.qubit as int].update(r.index as int, nt))
}

/// The graph after binding the target at `t` to the control at `r`.
pub open spec fn bind(v: Nodes, t: OpRef, r: OpRef) -> Nodes {
    let k = control_count(v, r);
    set_node(set_node(v, r, NodeType::Control((k + 1) as usize)), t, NodeType::ControlledNot(r, k as usize))
}

/// `w` is `v` with operations appended, targets bound and control counts raised:
/// nothing of `v` is removed or reordered.
pub open spec fn extends(v: Nodes, w: Nodes) -> bool {
    &&& v.len() <= w.len()
    &&& forall|q: int| 0 <= q < v.len() ==> #[trigger] v[q].len() <= w[q].len()
    &&& forall|o: OpRef|
        #[trigger] has_op(v, o) ==> {
            ||| node(w, o) == node(v, o)
            ||| (node(v, o) is PreControlledNot && node(w, o) is ControlledNot)
            ||| (node(v, o) is Control && node(w, o) is Control && control_count(v, o) <= control_count(
                w,
                o,
            ))
        }
}

pub proof fn lemma_extends_refl(v: Nodes)
    ensures
        extends(v, v),
{
}

pub proof fn lemma_extends_trans(a: Nodes, b: Nodes, c: Nodes)
    requires
        extends(a, b),
        extends(b, c),
    ensures
        extends(a, c),
{
    assert forall|o: OpRef| #[trigger] has_op(a, o) implies {
        ||| node(c, o) == node(a, o)
        ||| (node(a, o) is PreControlledNot && node(c, o) is ControlledNot)
        ||| (node(a, o) is Control && node(c, o) is Control && control_count(a, o) <= control_count(c, o))
    } by {
        assert(has_op(b, o));
    }
}

/// The size of one operation: one, plus the bindings of a control.
pub open spec fn node_weight(nt: NodeType) -> nat {
    match nt {
        NodeType::Control(k) => 1 + k as nat,
        _ => 1,
    }
}

pub open spec fn seq_weight(s: Seq<NodeType>) -> nat
    decreases s.len(),
{
    if s.len() == 0 {
        0
    } else {
        seq_weight(s.drop_last()) + node_weight(s.last())
    }
}

/// The size of a graph: its operations plus its bindings. Every growing
/// step adds exactly one, and every length and count is bounded by it.
pub open spec fn weight(v: Nodes) -> nat
    decreases v.len(),
{
    if v.len() == 0 {
        0
    } else {
        weight(v.drop_last()) + seq_weight(v.last())
    }
}

pub proof fn lemma_seq_weight_push(s: Seq<NodeType>, x: NodeType)
    ensures
        seq_weight(s.push(x)) == seq_weight(s) + node_weight(x),
{
    assert(s.push(x).drop_last() =~= s);
}

pub proof fn lemma_seq_weight_update(s: Seq<NodeType>, i: int, x: NodeType)
    requires
        0 <= i < s.len(),
    ensures
        seq_weight(s.update(i, x)) + node_weight(s[i]) == seq_weight(s) + node_weight(x),
    decreases s.len(),
{
    let t = s.update(i, x);
    if i == s.len() - 1 {
        assert(t.drop_last() =~= s.drop_last());
    } else {
        assert(t.drop_last() =~= s.drop_last().update(i, x));
        lemma_seq_weight_update(s.drop_last(), i, x);
    }
}

pub proof fn lemma_seq_weight_bounds(s: Seq<NodeType>, i: int)
    requires
        0 <= i < s.len(),
    ensures
        s.len() <= seq_weight(s),
        node_weight(s[i]) <= seq_weight(s),
    decreases s.len(),
{
    if i < s.len() - 1 {
        lemma_seq_weight_bounds(s.drop_last(), i);
    } else if s.len() > 1 {
        lemma_seq_weight_bounds(s.drop_last(), 0);
    }
}

pub proof fn lemma_weight_update(v: Nodes, q: int, s: Seq<NodeType>)
    requires
        0 <= q < v.len(),
    ensures
        weight(v.update(q, s)) + seq_weight(v[q]) == weight(v) + seq_weight(s),
    decreases v.len(),
{
    let w = v.update(q, s);
    if q == v.len() - 1 {
        assert(w.drop_last() =~= v.drop_last());
    } else {
        assert(w.drop_last() =~= v.drop_last().update(q, s));
        lemma_weight_update(v.drop_last(), q, s);
    }
}

pub proof fn lemma_weight_push(v: Nodes, s: Seq<NodeType>)
    ensures
        weight(v.push(s)) == weight(v) + seq_weight(s),
{
    assert(v.push(s).drop_last() =~= v);
}

pub proof fn lemma_weight_bounds(v: Nodes, q: int)
    requires
        0 <= q < v.len(),
    ensures
        seq_weight(v[q]) <= weight(v),
    decreases v.len(),
{
    if q < v.len() - 1 {
        lemma_weight_bounds(v.drop_last(), q);
    }
}

/// Every length and every control count of `v` is at most its weight.
pub proof fn lemma_weight_bounds_op(v: Nodes, r: OpRef)
    requires
        has_op(v, r),
    ensures
        v[r.qubit as int].len() <= weight(v),
        control_count(v, r) < weight(v),
{
    lemma_weight_bounds(v, r.qubit as int);
    lemma_seq_weight_bounds(v[r.qubit as int], r.index as int);
}

pub proof fn lemma_weight_push_node(v: Nodes, q: int, nt: NodeType)
    requires
        0 <= q < v.len(),
    ensures
        weight(push_node(v, q, nt)) == weight(v) + node_weight(nt),
{
    lemma_seq_weight_push(v[q], nt);
    lemma_weight_update(v, q, v[q].push(nt));
}

pub proof fn lemma_weight_set_node(v: Nodes, r: OpRef, nt: NodeType)
    requires
        has_op(v, r),
    ensures
        weight(set_node(v, r, nt)) + node_weight(node(v, r)) == weight(v) + node_weight(nt),
{
    let q = r.qubit as int;
    lemma_seq_weight_update(v[q], r.index as int, nt);
    lemma_weight_update(v, q, v[q].update(r.index as int, nt));
}

/// A handle that was valid in `v` is valid in every extension of `v`.
pub proof fn lemma_control_stays(v: Nodes, w: Nodes, r: OpRef)
    requires
        extends(v, w),
        is_control(v, r),
    ensures
        is_control(w, r),
        control_count(v, r) <= control_count(w, r),
{
    assert(has_op(v, r));
}

pub proof fn lemma_push_node(v: Nodes, q: usize, nt: NodeType)
    requires
        q < v.len(),
        bindings_consistent(v),
        !(nt is ControlledNot),
        nt is Control ==> nt == NodeType::Control(0),
        weight(v) < usize::MAX,
    ensures
        bindings_consistent(push_node(v, q as int, nt)),
        extends(v, push_node(v, q as int, nt)),
{
    let w = push_node(v, q as int, nt);
    lemma_weight_bounds(v, q as int);
    if v[q as int].len() > 0 {
        lemma_seq_weight_bounds(v[q as int], 0);
    }
    let fresh = OpRef { qubit: q, index: v[q as int].len() as usize };
    assert forall|o: OpRef| has_op(w, o) && o != fresh implies has_op(v, o) && node(w, o) == node(
        v,
        o,
    ) by {}
    assert forall|o: OpRef| #[trigger] has_op(v, o) implies node(w, o) == node(v, o) by {}
    assert forall|o: OpRef|
        has_op(w, o) && (#[trigger] node(w, o)) is ControlledNot implies {
            &&& is_control(w, node(w, o)->ControlledNot_0)
            &&& (node(w, o)->ControlledNot_1 as nat) < control_count(w, node(w, o)->ControlledNot_0)
        } by {
        let r = node(w, o)->ControlledNot_0;
        assert(has_op(v, o));
        assert(is_control(v, r));
        assert(node(w, r) == node(v, r));
    }
    assert forall|r: OpRef, p: nat| is_control(w, r) && p < control_count(w, r) implies #[trigger] has_binder(
        w,
        r,
        p,
    ) by {
        if r == fresh {
            assert(node(w, r) == nt);
        } else {
            assert(has_op(v, r));
            assert(node(w, r) == node(v, r));
            assert(has_binder(v, r, p));
            let o = choose|o: OpRef| #[trigger] has_op(v, o) && node(v, o) == NodeType::ControlledNot(r, p as usize);
            assert(has_op(w, o) && node(w, o) == NodeType::ControlledNot(r, p as usize));
        }
    }
    assert forall|o1: OpRef, o2: OpRef|
        has_op(w, o1) && has_op(w, o2) && (#[trigger] node(w, o1)) is ControlledNot && node(w, o1)
            == #[trigger] node(w, o2) implies o1 == o2 by {
        assert(has_op(v, o1));
        assert(has_op(v, o2));
    }
}

pub proof fn lemma_bind(v: Nodes, t: OpRef, r: OpRef)
    requires
        bindings_consistent(v),
        is_control(v, r),
        is_pending_target(v, t),
        weight(v) < usize::MAX,
    ensures
        bindings_consistent(bind(v, t, r)),
        extends(v, bind(v, t, r)),
        weight(bind(v, t, r)) == weight(v) + 1,
        v.len() == bind(v, t, r).len(),
        forall|q: int| 0 <= q < v.len() ==> #[trigger] bind(v, t, r)[q].len() == v[q].len(),
        is_control(bind(v, t, r), r),
        control_count(bind(v, t, r), r) == control_count(v, r) + 1,
{
    let k = control_count(v, r);
    lemma_weight_bounds_op(v, r);
    let v1 = set_node(v, r, NodeType::Control((k + 1) as usize));
    let w = bind(v, t, r);
    assert(t != r);
    assert(node(w, r) == NodeType::Control((k + 1) as usize));
    assert(node(w, t) == NodeType::ControlledNot(r, k as usize));
    assert forall|o: OpRef| #[trigger] has_op(v, o) && o != t && o != r implies has_op(w, o) && node(w, o)
        == node(v, o) by {}
    assert forall|o: OpRef| #[trigger] has_op(w, o) implies has_op(v, o) by {}
    assert forall|o: OpRef|
        has_op(w, o) && (#[trigger] node(w, o)) is ControlledNot implies {
            &&& is_control(w, node(w, o)->ControlledNot_0)
            &&& (node(w, o)->ControlledNot_1 as nat) < control_count(w, node(w, o)->ControlledNot_0)
        } by {
        if o != t {
            assert(has_op(v, o));
            assert(node(w, o) == node(v, o));
            let r2 = node(v, o)->ControlledNot_0;
            assert(is_control(v, r2));
            if r2 != r {
                assert(node(w, r2) == node(v, r2));
            }
        }
    }
    assert forall|r2: OpRef, p: nat| is_control(w, r2) && p < control_count(w, r2) implies #[trigger] has_binder(
        w,
        r2,
        p,
    ) by {
        if r2 == r && p == k {
            assert(has_op(w, t) && node(w, t) == NodeType::ControlledNot(r2, p as usize));
        } else {
            assert(has_op(v, r2));
            if r2 != r {
                assert(node(w, r2) == node(v, r2));
                assert(r2 != t);
            }
            assert(is_control(v, r2) && p < control_count(v, r2));
            assert(has_binder(v, r2, p));
            let o = choose|o: OpRef| #[trigger] has_op(v, o) && node(v, o) == NodeType::ControlledNot(r2, p as usize);
            assert(o != t);
            assert(o != r);
            assert(has_op(w, o) && node(w, o) == NodeType::ControlledNot(r2, p as usize));
        }
    }
    assert forall|o1: OpRef, o2: OpRef|
        has_op(w, o1) && has_op(w, o2) && (#[trigger] node(w, o1)) is ControlledNot && node(w, o1)
            == #[trigger] node(w, o2) implies o1 == o2 by {
        assert(has_op(v, o1));
        assert(has_op(v, o2));
        if o1 == t && o2 != t {
            assert(node(v, o2) == node(w, o2));
        } else if o2 == t && o1 != t {
            assert(node(v, o1) == node(w, o1));
        } else if o1 != t && o2 != t {
            assert(node(v, o1) == node(w, o1));
            assert(node(v, o2) == node(w, o2));
        }
    }
    assert forall|o: OpRef| #[trigger] has_op(v, o) implies {
        ||| node(w, o) == node(v, o)
        ||| (node(v, o) is PreControlledNot && node(w, o) is ControlledNot)
        ||| (node(v, o) is Control && node(w, o) is Control && control_count(v, o) <= control_count(w, o))
    } by {}
    lemma_weight_set_node(v, r, NodeType::Control((k + 1) as usize));
    lemma_weight_set_node(v1, t, NodeType::ControlledNot(r, k as usize));
}

/// The targets bound to the control at `r`.
pub open spec fn binders(v: Nodes, r: OpRef) -> Set<OpRef> {
    Set::new(|o: OpRef| has_op(v, o) && node(v, o) is ControlledNot && node(v, o)->ControlledNot_0 == r)
}

/// The ordinals that the targets bound to `r` hold.
pub open spec fn binder_positions(v: Nodes, r: OpRef) -> Set<int> {
    binders(v, r).map(|o: OpRef| node(v, o)->ControlledNot_1 as int)
}

/// In a well-formed graph a control's count is the number of targets bound
/// to it, their ordinals are exactly `0..count`, and no two share one.
pub proof fn lemma_count_is_binders(c: &Circuit, r: OpRef)
    requires
        c.wf(),
        is_control(c@, r),
    ensures
        binders(c@, r).finite(),
        binders(c@, r).len() == control_count(c@, r),
        binder_positions(c@, r) == vstd::set_lib::set_int_range(0, control_count(c@, r) as int),
        forall|o1: OpRef, o2: OpRef|
            #[trigger] binders(c@, r).contains(o1) && #[trigger] binders(c@, r).contains(o2) && node(c@, o1)
                == node(c@, o2) ==> o1 == o2,
{
    let v = c@;
    let k = control_count(v, r);
    let range = vstd::set_lib::set_int_range(0, k as int);
    let pick = |p: int| choose|o: OpRef| has_op(v, o) && node(v, o) == NodeType::ControlledNot(r, p as usize);
    assert forall|p: int| 0 <= p < k implies has_op(v, #[trigger] pick(p)) && node(v, pick(p))
        == NodeType::ControlledNot(r, p as usize) by {
        assert(has_binder(v, r, p as nat));
    }
    assert(vstd::relations::injective_on(pick, range)) by {
        assert forall|p1: int, p2: int| range.contains(p1) && range.contains(p2) && #[trigger] pick(p1) == #[trigger] pick(p2) implies p1 == p2 by {
            assert(node(v, pick(p1)) == NodeType::ControlledNot(r, p1 as usize));
            assert(node(v, pick(p2)) == NodeType::ControlledNot(r, p2 as usize));
        }
    }
    assert(range.map(pick) =~= binders(v, r)) by {
        assert forall|o: OpRef| binders(v, r).contains(o) implies range.map(pick).contains(o) by {
            let p = node(v, o)->ControlledNot_1 as int;
            assert(range.contains(p));
            assert(node(v, pick(p)) == node(v, o));
            assert(pick(p) == o);
        }
    }
    vstd::set_lib::lemma_int_range(0, k as int);
    vstd::set_lib::lemma_map_size(range, binders(v, r), pick);
    assert(binder_positions(v, r) =~= range) by {
        assert forall|p: int| range.contains(p) implies binder_positions(v, r).contains(p) by {
            assert(binders(v, r).contains(pick(p)));
        }
    }
}

impl View for Circuit {
    type V = Nodes;

    open spec fn view(&self) -> Nodes {
        Seq::new(
            self.qubits@.len(),
            |q: int| Seq::new(self.qubits@[q].operations@.len(), |i: int| self.qubits@[q].operations@[i].node_type),
        )
    }
}

impl Circuit {
    /// Every operation's id is its 1-based position and its parent is its
    /// qubit's slot; the bindings are consistent.
    pub open spec fn wf(&self) -> bool {
        &&& forall|q: int, i: int|
            0 <= q < self.qubits@.len() && 0 <= i < self.qubits@[q].operations@.len() ==> {
                &&& (#[trigger] self.qubits@[q].operations@[i]).id == i + 1
                &&& self.qubits@[q].operations@[i].parent == q
            }
        &&& bindings_consistent(self@)
    }

    /// The qubits' names, by arena slot.
    pub open spec fn names(&self) -> Seq<Seq<char>> {
        Seq::new(self.qubits@.len(), |q: int| self.qubits@[q].id@)
    }

    pub open spec fn has_qubit(&self, q: QubitCell) -> bool {
        q.index < self.qubits@.len()
    }

    /// An empty arena.
    pub fn new() -> (r: Circuit)
        ensures
            r.wf(),
            r@ == Seq::<Seq<NodeType>>::empty(),
            r.names() == Seq::<Seq<char>>::empty(),
    {
        let r = Circuit { qubits: Vec::new() };
        assert(r@ =~= Seq::<Seq<NodeType>>::empty());
        assert(r.names() =~= Seq::<Seq<char>>::empty());
        r
    }

    /// Appends an operation of kind `nt` to the qubit `q`.
    fn push_operation(&mut self, q: usize, nt: NodeType) -> (r: OpRef)
        requires
            old(self).wf(),
            q < old(self).qubits@.len(),
            weight(old(self)@) < usize::MAX,
            !(nt is ControlledNot),
            nt is Control ==> nt == NodeType::Control(0),
        ensures
            final(self).wf(),
            final(self)@ == push_node(old(self)@, q as int, nt),
            final(self).names() == old(self).names(),
            extends(old(self)@, final(self)@),
            weight(final(self)@) == weight(old(self)@) + 1,
            old(self)@[q as int].len() < usize::MAX,
            r == (OpRef { qubit: q, index: old(self)@[q as int].len() as usize }),
    {
        let length = self.qubits[q].operations.len();
        assert(old(self)@[q as int].len() == length);
        proof {
            lemma_weight_bounds(old(self)@, q as int);
            if length > 0 {
                lemma_seq_weight_bounds(old(self)@[q as int], 0);
            }
            lemma_weight_push_node(old(self)@, q as int, nt);
        }
        let op = Operation { id: length + 1, parent: q, node_type: nt };
        self.qubits[q].operations.push(op);
        proof {
            lemma_push_node(old(self)@, q, nt);
            let w = push_node(old(self)@, q as int, nt);
            assert forall|j: int| 0 <= j < w.len() implies self@[j] =~= w[j] by {}
            assert(self@ =~= w);
            assert(self.names() =~= old(self).names());
        }
        OpRef { qubit: q, index: length }
    }

    /// Adds a qubit without operations to the arena.
    pub(crate) fn add_qubit(&mut self, qubit: Qubit) -> (r: QubitCell)
        requires
            old(self).wf(),
            qubit.operations@.len() == 0,
        ensures
            final(self).wf(),
            final(self)@ == old(self)@.push(Seq::<NodeType>::empty()),
            final(self).names() == old(self).names().push(qubit.id@),
            extends(old(self)@, final(self)@),
            weight(final(self)@) == weight(old(self)@),
            r.index == old(self)@.len(),
    {
        let r = QubitCell { index: self.qubits.len() };
        let ghost id = qubit.id@;
        self.qubits.push(qubit);
        proof {
            lemma_weight_push(old(self)@, Seq::<NodeType>::empty());
            let v = old(self)@;
            let w = self@;
            assert(w =~= v.push(Seq::<NodeType>::empty())) by {
                assert(w[v.len() as int] =~= Seq::<NodeType>::empty());
                assert forall|q: int| 0 <= q < v.len() implies w[q] =~= v[q] by {}
            }
            assert(self.names() =~= old(self).names().push(id));
            assert forall|o: OpRef| #[trigger] has_op(w, o) implies has_op(v, o) && node(w, o) == node(v, o) by {}
            assert forall|o: OpRef| #[trigger] has_op(v, o) implies has_op(w, o) && node(w, o) == node(v, o) by {}
            assert forall|o: OpRef|
                has_op(w, o) && (#[trigger] node(w, o)) is ControlledNot implies {
                    &&& is_control(w, node(w, o)->ControlledNot_0)
                    &&& (node(w, o)->ControlledNot_1 as nat) < control_count(w, node(w, o)->ControlledNot_0)
                } by {
                assert(has_op(v, o));
                assert(has_op(v, node(v, o)->ControlledNot_0));
            }
            assert forall|r2: OpRef, p: nat| is_control(w, r2) && p < control_count(w, r2) implies #[trigger] has_binder(
                w,
                r2,
                p,
            ) by {
                assert(has_binder(v, r2, p));
                let o = choose|o: OpRef| #[trigger] has_op(v, o) && node(v, o) == NodeType::ControlledNot(r2, p as usize);
                assert(has_op(w, o));
            }
        }
        r
    }
}

impl Qubit {
    /// A qubit named `id` with no operations.
    pub fn new(id: &str) -> (r: Qubit)
        ensures
            r.id@ == id@,
            r.operations@.len() == 0,
    {
        Qubit { id: String::from_str(id), operations: Vec::new() }
    }

    /// Appends a `Control` with no bindings yet to `qcell`.
    pub fn control(c: &mut Circuit, qcell: QubitCell) -> (r: ControlFrom)
        requires
            old(c).wf(),
            old(c).has_qubit(qcell),
            weight(old(c)@) < usize::MAX,
        ensures
            final(c).wf(),
            final(c)@ == push_node(old(c)@, qcell.index as int, NodeType::Control(0)),
            final(c).names() == old(c).names(),
            extends(old(c)@, final(c)@),
            weight(final(c)@) == weight(old(c)@) + 1,
            old(c)@[qcell.index as int].len() < usize::MAX,
            r.operation == (OpRef { qubit: qcell.index, index: old(c)@[qcell.index as int].len() as usize }),
            is_control(final(c)@, r.operation),
            control_count(final(c)@, r.operation) == 0,
    {
        let r = c.push_operation(qcell.index, NodeType::Control(0));
        ControlFrom { operation: r }
    }

    /// Appends a target awaiting a control to `qcell`.
    pub fn export(c: &mut Circuit, qcell: QubitCell) -> (r: ControlTarget)
        requires
            old(c).wf(),
            old(c).has_qubit(qcell),
            weight(old(c)@) < usize::MAX,
        ensures
            final(c).wf(),
            final(c)@ == push_node(old(c)@, qcell.index as int, NodeType::PreControlledNot),
            final(c).names() == old(c).names(),
            extends(old(c)@, final(c)@),
            weight(final(c)@) == weight(old(c)@) + 1,
            old(c)@[qcell.index as int].len() < usize::MAX,
            r.operation == (OpRef { qubit: qcell.index, index: old(c)@[qcell.index as int].len() as usize }),
            is_pending_target(final(c)@, r.operation),
    {
        let r = c.push_operation(qcell.index, NodeType::PreControlledNot);
        ControlTarget { operation: r }
    }

    /// Appends the single-qubit gate `gate` to `qcell`.
    pub fn gate(c: &mut Circuit, qcell: QubitCell, gate: PrimitiveGate)
        requires
            old(c).wf(),
            old(c).has_qubit(qcell),
            weight(old(c)@) < usize::MAX,
        ensures
            final(c).wf(),
            final(c)@ == push_node(old(c)@, qcell.index as int, NodeType::PrimitiveGate(gate)),
            final(c).names() == old(c).names(),
            extends(old(c)@, final(c)@),
            weight(final(c)@) == weight(old(c)@) + 1,
    {
        c.push_operation(qcell.index, NodeType::PrimitiveGate(gate));
    }
}

impl ControlTarget {
    /// Binds this target to `control_from`: the target becomes a
    /// `ControlledNot` holding the control's count before the call, and that
    /// count goes up by one.
    pub fn control_by(self, c: &mut Circuit, control_from: &ControlFrom)
        requires
            old(c).wf(),
            is_control(old(c)@, control_from.operation),
            is_pending_target(old(c)@, self.operation),
            weight(old(c)@) < usize::MAX,
        ensures
            final(c).wf(),
            final(c)@ == bind(old(c)@, self.operation, control_from.operation),
            final(c).names() == old(c).names(),
            extends(old(c)@, final(c)@),
            weight(final(c)@) == weight(old(c)@) + 1,
            forall|q: int| 0 <= q < old(c)@.len() ==> #[trigger] final(c)@[q].len() == old(c)@[q].len(),
            final(c)@.len() == old(c)@.len(),
            control_count(final(c)@, control_from.operation) == control_count(old(c)@, control_from.operation) + 1,
    {
        let r = control_from.operation;
        let t = self.operation;
        let k = match c.qubits[r.qubit].operations[r.index].node_type {
            NodeType::Control(k) => k,
            _ => 0,
        };
        assert(k == control_count(old(c)@, r));
        proof {
            lemma_weight_bounds_op(old(c)@, r);
        }
        c.qubits[r.qubit].operations[r.index].node_type = NodeType::Control(k + 1);
        c.qubits[t.qubit].operations[t.index].node_type = NodeType::ControlledNot(r, k);
        proof {
            lemma_bind(old(c)@, t, r);
            let w = bind(old(c)@, t, r);
            assert forall|q: int| 0 <= q < w.len() implies c@[q] =~= w[q] by {}
            assert(c@ =~= w);
            assert(c.names() =~= old(c).names());
        }
    }
}

} // verus!
