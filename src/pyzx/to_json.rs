//! Laying the operation graph out as a node/wire graph.
use vstd::prelude::*;

use crate::primitive::{has_op, is_control, node, Circuit, NodeType, Nodes, OpRef, PrimitiveGate, QubitCell};
use crate::pyzx::json::{
    edge_entry_view, node_entry_view, wire_entry_view, Coord, NodeVerticesAnnotation, NodeVerticesData,
    NodeVerticesValue, PyzxCircuitJson, UndirEdgesValue, WireVerticesValue,
};
use crate::qasm::serialize_utils::{
    advance, any_live, lanes_of, moves, op_slots, qubit_slots, remaining, round_output, NextOperations, Slot,
};
use crate::qasm::serialize_utils::{live, stream, slots_of};
use crate::qasm::to_qasm::{qasm_stream, start_positions, QasmError};
use crate::util::{decimal, usize_to_string};

verus! {

/// The node id of the operation at `at`: its qubit's name and 1-based id.
pub open spec fn op_node_id(names: Seq<Seq<char>>, at: OpRef) -> Seq<char> {
    "qnode_"@ + names[at.qubit as int] + "_op"@ + decimal(at.index as nat + 1)
}

/// The node id of a slot; a control's slots add their ordinal.
pub open spec fn node_id(names: Seq<Seq<char>>, s: Slot) -> Seq<char> {
    match s {
        Slot::Gate(_, at) => op_node_id(names, at),
        Slot::Source(at, p) => op_node_id(names, at) + "_pos"@ + decimal(p as nat),
        Slot::Target(_, _, at) => op_node_id(names, at),
    }
}

/// The node kind of a slot: phase gates and controls are `Z`, X gates and
/// targets `X`, and a Hadamard is an edge marker.
pub open spec fn node_kind(s: Slot) -> Seq<char> {
    match s {
        Slot::Gate(PrimitiveGate::X, _) => "X"@,
        Slot::Gate(PrimitiveGate::H, _) => "hadamard"@,
        Slot::Gate(_, _) => "Z"@,
        Slot::Source(_, _) => "Z"@,
        Slot::Target(_, _, _) => "X"@,
    }
}

/// The phase label of a slot.
pub open spec fn node_value(s: Slot) -> Option<Seq<char>> {
    match s {
        Slot::Gate(PrimitiveGate::Z, _) => Some("\\pi"@),
        Slot::Gate(PrimitiveGate::X, _) => Some("\\pi"@),
        Slot::Gate(PrimitiveGate::T, _) => Some("\\pi/4"@),
        Slot::Gate(PrimitiveGate::S, _) => Some("\\pi/2"@),
        Slot::Gate(PrimitiveGate::TDag, _) => Some("-\\pi/4"@),
        Slot::Gate(PrimitiveGate::SDag, _) => Some("-\\pi/2"@),
        _ => None,
    }
}

pub open spec fn node_is_edge(s: Slot) -> Option<Seq<char>> {
    match s {
        Slot::Gate(PrimitiveGate::H, _) => Some("true"@),
        _ => None,
    }
}

pub open spec fn input_id(name: Seq<char>) -> Seq<char> {
    "input_"@ + name
}

pub open spec fn output_id(name: Seq<char>) -> Seq<char> {
    "output_"@ + name
}

/// The nodes of the first `k` slots of a lane in row `row`, placed at `cols`.
pub open spec fn lane_nodes(names: Seq<Seq<char>>, sl: Seq<Slot>, cols: Seq<int>, row: nat, k: int) -> Seq<
    (Seq<char>, Coord, Seq<char>, Option<Seq<char>>, Option<Seq<char>>),
>
    decreases k,
{
    if k <= 0 {
        seq![]
    } else {
        let s = sl[k - 1];
        lane_nodes(names, sl, cols, row, k - 1).push(
            (
                node_id(names, s),
                Coord { x: cols[k - 1] as usize, row: row as usize },
                node_kind(s),
                node_value(s),
                node_is_edge(s),
            ),
        )
    }
}

/// The edges of slot `k` of a lane: from the previous node (or the input),
/// and for a bound target, from the control's node.
pub open spec fn chain_edge(names: Seq<Seq<char>>, name: Seq<char>, sl: Seq<Slot>, k: int) -> (Seq<char>, Seq<char>, Seq<char>) {
    let cur = node_id(names, sl[k]);
    if k == 0 {
        ("qedge_"@ + name + "_first"@, input_id(name), cur)
    } else {
        let prev = node_id(names, sl[k - 1]);
        ("qedge_"@ + prev + "_node_"@ + cur, prev, cur)
    }
}

pub open spec fn slot_edges(names: Seq<Seq<char>>, name: Seq<char>, sl: Seq<Slot>, k: int) -> Seq<(Seq<char>, Seq<char>, Seq<char>)> {
    let cur = node_id(names, sl[k]);
    let chain = chain_edge(names, name, sl, k);
    match sl[k] {
        Slot::Target(r, p, _) => {
            let src = node_id(names, Slot::Source(r, p));
            seq![chain, ("qedge_control_"@ + src + "_node_"@ + cur, src, cur)]
        },
        _ => seq![chain],
    }
}

pub open spec fn lane_edges(names: Seq<Seq<char>>, name: Seq<char>, sl: Seq<Slot>, k: int) -> Seq<(Seq<char>, Seq<char>, Seq<char>)>
    decreases k,
{
    if k <= 0 {
        seq![]
    } else {
        lane_edges(names, name, sl, k - 1) + slot_edges(names, name, sl, k - 1)
    }
}

/// The edge from a lane's last node (or its input) to its output.
pub open spec fn last_edge(names: Seq<Seq<char>>, name: Seq<char>, sl: Seq<Slot>) -> (Seq<char>, Seq<char>, Seq<char>) {
    let src = if sl.len() == 0 {
        input_id(name)
    } else {
        node_id(names, sl.last())
    };
    ("qedge_"@ + name + "_last"@, src, output_id(name))
}

pub open spec fn lane_wires(name: Seq<char>, row: nat, out_x: nat) -> Seq<(Seq<char>, WireVerticesValue)> {
    seq![
        (input_id(name), WireVerticesValue { annotation: crate::pyzx::json::WireVerticesAnnotation { boundary: true, coord: Coord { x: 0, row: row as usize }, input: true, output: false } }),
        (output_id(name), WireVerticesValue { annotation: crate::pyzx::json::WireVerticesAnnotation { boundary: true, coord: Coord { x: out_x as usize, row: row as usize }, input: false, output: true } }),
    ]
}

/// The whole document over the first `n` lanes, lane by lane.
pub open spec fn doc_nodes(names: Seq<Seq<char>>, lanes: Seq<Seq<Slot>>, cols: Seq<Seq<int>>, n: int) -> Seq<
    (Seq<char>, Coord, Seq<char>, Option<Seq<char>>, Option<Seq<char>>),
>
    decreases n,
{
    if n <= 0 {
        seq![]
    } else {
        doc_nodes(names, lanes, cols, n - 1) + lane_nodes(names, lanes[n - 1], cols[n - 1], (n - 1) as nat, lanes[n - 1].len() as int)
    }
}

pub open spec fn doc_edges(names: Seq<Seq<char>>, cells: Seq<QubitCell>, lanes: Seq<Seq<Slot>>, n: int) -> Seq<(Seq<char>, Seq<char>, Seq<char>)>
    decreases n,
{
    if n <= 0 {
        seq![]
    } else {
        let name = names[cells[n - 1].index as int];
        let sl = lanes[n - 1];
        doc_edges(names, cells, lanes, n - 1) + lane_edges(names, name, sl, sl.len() as int).push(last_edge(names, name, sl))
    }
}

pub open spec fn doc_wires(names: Seq<Seq<char>>, cells: Seq<QubitCell>, out_x: nat, n: int) -> Seq<(Seq<char>, WireVerticesValue)>
    decreases n,
{
    if n <= 0 {
        seq![]
    } else {
        doc_wires(names, cells, out_x, n - 1) + lane_wires(names[cells[n - 1].index as int], (n - 1) as nat, out_x)
    }
}

/// Every location that a slot names is an operation of `v`.
pub open spec fn slot_valid(v: Nodes, s: Slot) -> bool {
    match s {
        Slot::Gate(_, at) => has_op(v, at),
        Slot::Source(at, _) => has_op(v, at),
        Slot::Target(r, _, at) => has_op(v, at) && has_op(v, r),
    }
}

proof fn lemma_slots_valid(c: &Circuit, q: usize, i: int)
    requires
        c.wf(),
        q < c@.len(),
        0 <= i <= c@[q as int].len(),
    ensures
        forall|k: int|
            0 <= k < qubit_slots(c@[q as int].subrange(0, i), q).len() ==> slot_valid(
                c@,
                #[trigger] qubit_slots(c@[q as int].subrange(0, i), q)[k],
            ),
    decreases i,
{
    let ops = c@[q as int].subrange(0, i);
    if i > 0 {
        lemma_slots_valid(c, q, i - 1);
        assert(ops.drop_last() =~= c@[q as int].subrange(0, i - 1));
        let at = OpRef { qubit: q, index: (i - 1) as usize };
        assert(has_op(c@, at));
        assert(ops.last() == node(c@, at));
        let prefix = qubit_slots(ops.drop_last(), q);
        let tail = op_slots(ops.last(), at);
        assert forall|k: int| 0 <= k < qubit_slots(ops, q).len() implies slot_valid(c@, #[trigger] qubit_slots(ops, q)[k]) by {
            if k >= prefix.len() {
                let s = tail[k - prefix.len()];
                assert(qubit_slots(ops, q)[k] == s);
                if let NodeType::ControlledNot(r, p) = ops.last() {
                    assert(is_control(c@, r));
                }
            } else {
                assert(qubit_slots(ops, q)[k] == prefix[k]);
            }
        }
    }
}

fn op_id_string(c: &Circuit, at: OpRef) -> (r: String)
    requires
        c.wf(),
        has_op(c@, at),
    ensures
        r@ == op_node_id(c.names(), at),
{
    let op = &c.qubits[at.qubit].operations[at.index];
    let mut s = String::from_str("qnode_");
    s.append(c.qubits[at.qubit].id.as_str());
    s.append("_op");
    let d = usize_to_string(op.id);
    s.append(d.as_str());
    proof {
        assert(s@ =~= op_node_id(c.names(), at));
    }
    s
}

fn node_id_string(c: &Circuit, s: Slot) -> (r: String)
    requires
        c.wf(),
        slot_valid(c@, s),
    ensures
        r@ == node_id(c.names(), s),
{
    match s {
        Slot::Gate(_, at) => op_id_string(c, at),
        Slot::Target(_, _, at) => op_id_string(c, at),
        Slot::Source(at, p) => {
            let mut r = op_id_string(c, at);
            r.append("_pos");
            let d = usize_to_string(p);
            r.append(d.as_str());
            r
        },
    }
}

fn node_data(s: Slot) -> (r: NodeVerticesData)
    ensures
        r.kind@ == node_kind(s),
        crate::pyzx::json::opt_view(r.value) == node_value(s),
        crate::pyzx::json::opt_view(r.is_edge) == node_is_edge(s),
{
    let (kind, value, is_edge) = match s {
        Slot::Gate(PrimitiveGate::Z, _) => ("Z", Some("\\pi"), None),
        Slot::Gate(PrimitiveGate::X, _) => ("X", Some("\\pi"), None),
        Slot::Gate(PrimitiveGate::T, _) => ("Z", Some("\\pi/4"), None),
        Slot::Gate(PrimitiveGate::S, _) => ("Z", Some("\\pi/2"), None),
        Slot::Gate(PrimitiveGate::TDag, _) => ("Z", Some("-\\pi/4"), None),
        Slot::Gate(PrimitiveGate::SDag, _) => ("Z", Some("-\\pi/2"), None),
        Slot::Gate(PrimitiveGate::H, _) => ("hadamard", None, Some("true")),
        Slot::Source(_, _) => ("Z", None, None),
        Slot::Target(_, _, _) => ("X", None, None),
    };
    let value = match value {
        Some(v) => Some(String::from_str(v)),
        None => None,
    };
    let is_edge = match is_edge {
        Some(v) => Some(String::from_str(v)),
        None => None,
    };
    NodeVerticesData { kind: String::from_str(kind), value, is_edge }
}

pub open spec fn nodes_view(v: Seq<(String, NodeVerticesValue)>) -> Seq<(Seq<char>, Coord, Seq<char>, Option<Seq<char>>, Option<Seq<char>>)> {
    v.map_values(|e: (String, NodeVerticesValue)| node_entry_view(e))
}

pub open spec fn edges_view(v: Seq<(String, UndirEdgesValue)>) -> Seq<(Seq<char>, Seq<char>, Seq<char>)> {
    v.map_values(|e: (String, UndirEdgesValue)| edge_entry_view(e))
}

pub open spec fn wires_view(v: Seq<(String, WireVerticesValue)>) -> Seq<(Seq<char>, WireVerticesValue)> {
    v.map_values(|e: (String, WireVerticesValue)| wire_entry_view(e))
}

pub open spec fn cols_view(cols: Seq<Vec<usize>>) -> Seq<Seq<int>> {
    cols.map_values(|c: Vec<usize>| c@.map_values(|x: usize| x as int))
}

pub open spec fn slots_view(lanes: Seq<Vec<Slot>>) -> Seq<Seq<Slot>> {
    lanes.map_values(|l: Vec<Slot>| l@)
}

fn edge(id: String, src: String, tgt: String) -> (r: (String, UndirEdgesValue))
    ensures
        edge_entry_view(r) == (id@, src@, tgt@),
{
    (id, UndirEdgesValue { src, tgt })
}

fn concat2(a: &str, b: &str) -> (r: String)
    ensures
        r@ == a@ + b@,
{
    let mut s = String::from_str(a);
    s.append(b);
    s
}

fn concat3(a: &str, b: &str, c: &str) -> (r: String)
    ensures
        r@ == a@ + b@ + c@,
{
    let mut s = String::from_str(a);
    s.append(b);
    s.append(c);
    s
}

/// Writes the document of the lanes of `cells`, slot `k` of lane `i` at
/// column `cols[i][k]` of row `i`, boundaries at columns 0 and `out_x`.
fn layout(c: &Circuit, cells: &Vec<QubitCell>, lanes: &Vec<Vec<Slot>>, cols: &Vec<Vec<usize>>, out_x: usize) -> (r: PyzxCircuitJson)
    requires
        c.wf(),
        forall|i: int| 0 <= i < cells@.len() ==> c.has_qubit(#[trigger] cells@[i]),
        lanes@.len() == cells@.len(),
        cols@.len() == cells@.len(),
        forall|i: int| 0 <= i < cells@.len() ==> (#[trigger] lanes@[i])@ == qubit_slots(c@[cells@[i].index as int], cells@[i].index),
        forall|i: int| 0 <= i < cells@.len() ==> (#[trigger] cols@[i])@.len() == lanes@[i]@.len(),
    ensures
        nodes_view(r.node_vertices@) == doc_nodes(c.names(), slots_view(lanes@), cols_view(cols@), cells@.len() as int),
        edges_view(r.undir_edges@) == doc_edges(c.names(), cells@, slots_view(lanes@), cells@.len() as int),
        wires_view(r.wire_vertices@) == doc_wires(c.names(), cells@, out_x as nat, cells@.len() as int),
{
    let ghost names = c.names();
    let ghost sv = slots_view(lanes@);
    let ghost cv = cols_view(cols@);
    let mut wire_vertices: Vec<(String, WireVerticesValue)> = Vec::new();
    let mut node_vertices: Vec<(String, NodeVerticesValue)> = Vec::new();
    let mut undir_edges: Vec<(String, UndirEdgesValue)> = Vec::new();
    let mut i: usize = 0;
    while i < cells.len()
        invariant
            c.wf(),
            names == c.names(),
            sv == slots_view(lanes@),
            cv == cols_view(cols@),
            forall|i: int| 0 <= i < cells@.len() ==> c.has_qubit(#[trigger] cells@[i]),
            lanes@.len() == cells@.len(),
            cols@.len() == cells@.len(),
            forall|i: int| 0 <= i < cells@.len() ==> (#[trigger] lanes@[i])@ == qubit_slots(c@[cells@[i].index as int], cells@[i].index),
            forall|i: int| 0 <= i < cells@.len() ==> (#[trigger] cols@[i])@.len() == lanes@[i]@.len(),
            i <= cells@.len(),
            nodes_view(node_vertices@) == doc_nodes(names, sv, cv, i as int),
            edges_view(undir_edges@) == doc_edges(names, cells@, sv, i as int),
            wires_view(wire_vertices@) == doc_wires(names, cells@, out_x as nat, i as int),
        decreases cells@.len() - i,
    {
        let q = cells[i];
        let lane = &lanes[i];
        let col = &cols[i];
        let name = &c.qubits[q.index].id;
        let ghost nm = name@;
        let ghost sl = lane@;
        proof {
            assert(nm == names[q.index as int]);
            assert(sv[i as int] == sl);
            assert(cv[i as int] == col@.map_values(|x: usize| x as int));
            lemma_slots_valid(c, q.index, c@[q.index as int].len() as int);
            assert(c@[q.index as int].subrange(0, c@[q.index as int].len() as int) =~= c@[q.index as int]);
        }
        let ghost w0 = wires_view(wire_vertices@);
        let input = concat2("input_", name.as_str());
        let output = concat2("output_", name.as_str());
        wire_vertices.push((input, WireVerticesValue::create(true, Coord { x: 0, row: i })));
        wire_vertices.push((output, WireVerticesValue::create(false, Coord { x: out_x, row: i })));
        proof {
            assert(wires_view(wire_vertices@) =~= w0 + lane_wires(nm, i as nat, out_x as nat));
        }
        let ghost n0 = nodes_view(node_vertices@);
        let ghost e0 = edges_view(undir_edges@);
        let mut k: usize = 0;
        while k < lane.len()
            invariant
                c.wf(),
                names == c.names(),
                nm == names[q.index as int],
                nm == name@,
                sl == lane@,
                q.index < c@.len(),
                forall|j: int| 0 <= j < sl.len() ==> slot_valid(c@, #[trigger] sl[j]),
                col@.len() == sl.len(),
                k <= sl.len(),
                nodes_view(node_vertices@) == n0 + lane_nodes(names, sl, col@.map_values(|x: usize| x as int), i as nat, k as int),
                edges_view(undir_edges@) == e0 + lane_edges(names, nm, sl, k as int),
            decreases sl.len() - k,
        {
            let s = lane[k];
            let id = node_id_string(c, s);
            let ghost nb = nodes_view(node_vertices@);
            let ghost eb = edges_view(undir_edges@);
            let data = node_data(s);
            node_vertices.push((id.clone(), NodeVerticesValue {
                annotation: NodeVerticesAnnotation { coord: Coord { x: col[k], row: i } },
                data,
            }));
            proof {
                assert(nodes_view(node_vertices@) =~= nb.push(node_entry_view((id, NodeVerticesValue {
                    annotation: NodeVerticesAnnotation { coord: Coord { x: col[k as int], row: i } },
                    data,
                }))));
                assert(nodes_view(node_vertices@) =~= n0 + lane_nodes(names, sl, col@.map_values(|x: usize| x as int), i as nat, k as int + 1));
            }
            let ghost se = slot_edges(names, nm, sl, k as int);
            if k == 0 {
                let key = concat3("qedge_", name.as_str(), "_first");
                let src = concat2("input_", name.as_str());
                let e = edge(key, src, id.clone());
                assert(edge_entry_view(e).0 == chain_edge(names, nm, sl, k as int).0);
                assert(edge_entry_view(e).1 == chain_edge(names, nm, sl, k as int).1);
                assert(edge_entry_view(e).2 == chain_edge(names, nm, sl, k as int).2);
                undir_edges.push(e);
            } else {
                let prev = node_id_string(c, lane[k - 1]);
                let key = concat3("qedge_", prev.as_str(), "_node_");
                let mut key = key;
                key.append(id.as_str());
                let e = edge(key, prev, id.clone());
                assert(edge_entry_view(e).0 =~= chain_edge(names, nm, sl, k as int).0);
                assert(edge_entry_view(e) == chain_edge(names, nm, sl, k as int));
                undir_edges.push(e);
            }
            proof {
                assert(se[0] == chain_edge(names, nm, sl, k as int));
                assert(edges_view(undir_edges@) =~= eb.push(se[0]));
            }
            if let Slot::Target(r, p, _) = s {
                let src = node_id_string(c, Slot::Source(r, p));
                let key = concat3("qedge_control_", src.as_str(), "_node_");
                let mut key = key;
                key.append(id.as_str());
                let ghost e1 = edges_view(undir_edges@);
                undir_edges.push(edge(key, src, id));
                proof {
                    assert(edges_view(undir_edges@) =~= e1.push(se[1]));
                }
            }
            proof {
                assert(edges_view(undir_edges@) =~= eb + slot_edges(names, nm, sl, k as int));
                assert(edges_view(undir_edges@) =~= e0 + lane_edges(names, nm, sl, k as int + 1));
            }
            k += 1;
        }
        let last_src = if lane.len() == 0 {
            concat2("input_", name.as_str())
        } else {
            node_id_string(c, lane[lane.len() - 1])
        };
        let key = concat3("qedge_", name.as_str(), "_last");
        let tgt = concat2("output_", name.as_str());
        let ghost eb = edges_view(undir_edges@);
        undir_edges.push(edge(key, last_src, tgt));
        proof {
            assert(edges_view(undir_edges@) =~= eb.push(last_edge(names, nm, sl)));
            assert(doc_edges(names, cells@, sv, i as int + 1) == doc_edges(names, cells@, sv, i as int) + lane_edges(names, nm, sl, sl.len() as int).push(last_edge(names, nm, sl)));
            assert(edges_view(undir_edges@) =~= doc_edges(names, cells@, sv, i as int + 1));
            assert(nodes_view(node_vertices@) =~= doc_nodes(names, sv, cv, i as int + 1));
        }
        i += 1;
    }
    PyzxCircuitJson { wire_vertices, node_vertices, undir_edges }
}

/// The column of every remaining slot when rounds are numbered from `r`:
/// a cursor that moves in a round puts its slot in that round's column.
pub open spec fn schedule(l: Seq<Seq<Slot>>, p: Seq<int>, fuel: nat, r: int) -> Seq<Seq<int>>
    decreases fuel,
{
    if !any_live(l, p) || round_output(l, p).len() == 0 || fuel == 0 {
        Seq::new(l.len(), |i: int| Seq::<int>::empty())
    } else {
        let rest = schedule(l, advance(l, p), (fuel - 1) as nat, r + 1);
        Seq::new(l.len(), |i: int| if moves(l, p, i) { seq![r] + rest[i] } else { rest[i] })
    }
}

/// How many rounds the cursors at `p` take.
pub open spec fn round_count(l: Seq<Seq<Slot>>, p: Seq<int>, fuel: nat) -> nat
    decreases fuel,
{
    if !any_live(l, p) || round_output(l, p).len() == 0 || fuel == 0 {
        0
    } else {
        1 + round_count(l, advance(l, p), (fuel - 1) as nat)
    }
}

proof fn lemma_schedule_lengths(l: Seq<Seq<Slot>>, p: Seq<int>, fuel: nat, r: int)
    requires
        stream(l, p, fuel) is Some,
        p.len() == l.len(),
        forall|i: int| 0 <= i < l.len() ==> 0 <= #[trigger] p[i] <= l[i].len(),
    ensures
        schedule(l, p, fuel, r).len() == l.len(),
        forall|i: int| 0 <= i < l.len() ==> (#[trigger] schedule(l, p, fuel, r)[i]).len() == l[i].len() - p[i],
    decreases fuel,
{
    if !any_live(l, p) {
        assert forall|i: int| 0 <= i < l.len() implies p[i] == l[i].len() by {
            assert(!live(l, p, i));
        }
    } else {
        lemma_schedule_lengths(l, advance(l, p), (fuel - 1) as nat, r + 1);
    }
}

/// The node/wire graph of `qubit_cells`, row `i` for the `i`-th qubit: the
/// slots are placed by the same rounds as the instruction stream, round `j`
/// in column `j` from 1, so that a control's slot and its bound target share
/// a column; the boundaries stand at column 0 and one past the last round.
/// Fails, as the stream does, when a round with cursors left emits nothing.
pub fn to_pyzx_circuit(c: &Circuit, qubit_cells: Vec<QubitCell>) -> (r: Result<PyzxCircuitJson, QasmError>)
    requires
        c.wf(),
        forall|i: int| 0 <= i < qubit_cells@.len() ==> c.has_qubit(#[trigger] qubit_cells@[i]),
        remaining(lanes_of(c@, qubit_cells@), start_positions(qubit_cells@.len()), qubit_cells@.len() as int)
            < usize::MAX,
    ensures
        r is Err <==> qasm_stream(c@, qubit_cells@) is None,
        r is Ok ==> {
            let l = lanes_of(c@, qubit_cells@);
            let p = start_positions(qubit_cells@.len());
            let fuel = remaining(l, p, qubit_cells@.len() as int) as nat;
            let n = qubit_cells@.len() as int;
            &&& nodes_view(r->Ok_0.node_vertices@) == doc_nodes(c.names(), l, schedule(l, p, fuel, 1), n)
            &&& edges_view(r->Ok_0.undir_edges@) == doc_edges(c.names(), qubit_cells@, l, n)
            &&& wires_view(r->Ok_0.wire_vertices@) == doc_wires(c.names(), qubit_cells@, round_count(l, p, fuel) + 1, n)
        },
{
    let n = qubit_cells.len();
    let mut lanes: Vec<Vec<Slot>> = Vec::new();
    let mut cols: Vec<Vec<usize>> = Vec::new();
    let mut i: usize = 0;
    while i < n
        invariant
            n == qubit_cells@.len(),
            forall|i: int| 0 <= i < qubit_cells@.len() ==> c.has_qubit(#[trigger] qubit_cells@[i]),
            i <= n,
            lanes@.len() == i,
            cols@.len() == i,
            forall|k: int| 0 <= k < i ==> (#[trigger] lanes@[k])@ == qubit_slots(c@[qubit_cells@[k].index as int], qubit_cells@[k].index),
            forall|k: int| 0 <= k < i ==> (#[trigger] cols@[k])@.len() == 0,
        decreases n - i,
    {
        lanes.push(slots_of(c, qubit_cells[i]));
        cols.push(Vec::new());
        i += 1;
    }
    let mut next_operations = NextOperations::initialize_from_cells(c, &qubit_cells);
    let ghost l = next_operations.lanes();
    let ghost p_start = next_operations.positions();
    let ghost f0 = remaining(l, p_start, n as int) as nat;
    let ghost mut fuel = f0;
    let mut round: usize = 1;
    proof {
        crate::qasm::to_qasm::lemma_remaining_monotone(l, p_start, n as int);
        assert(p_start == start_positions(qubit_cells@.len()));
        assert(forall|k: int| 0 <= k < n ==> cols_view(cols@)[k] =~= Seq::<int>::empty());
    }
    while next_operations.has_next()
        invariant
            next_operations.lanes() == l,
            l == lanes_of(c@, qubit_cells@),
            p_start == start_positions(qubit_cells@.len()),
            f0 == remaining(l, p_start, n as int) as nat,
            f0 < usize::MAX,
            n == qubit_cells@.len(),
            l.len() == n,
            next_operations.positions().len() == n,
            forall|i: int| 0 <= i < n ==> 0 <= #[trigger] next_operations.positions()[i],
            remaining(l, next_operations.positions(), n as int) <= fuel,
            fuel <= f0,
            round + fuel <= f0 + 1,
            1 <= round,
            stream(l, p_start, f0) is Some <==> stream(l, next_operations.positions(), fuel) is Some,
            cols@.len() == n,
            forall|k: int| 0 <= k < n ==> cols_view(cols@)[k] + schedule(l, next_operations.positions(), fuel, round as int)[k]
                == #[trigger] schedule(l, p_start, f0, 1)[k],
            round - 1 + round_count(l, next_operations.positions(), fuel) == round_count(l, p_start, f0),
            lanes@.len() == n,
            forall|k: int| 0 <= k < n ==> (#[trigger] lanes@[k])@ == qubit_slots(c@[qubit_cells@[k].index as int], qubit_cells@[k].index),
        decreases remaining(l, next_operations.positions(), n as int),
    {
        let ghost p = next_operations.positions();
        let operation = next_operations.to_qasm();
        if operation.len() == 0 {
            proof {
                assert(any_live(l, p));
                assert(stream(l, p, fuel) is None);
                assert(qasm_stream(c@, qubit_cells@) == stream(l, p_start, f0));
            }
            return Err(QasmError::InconsistentGraph);
        }
        proof {
            crate::qasm::to_qasm::lemma_progress(l, p, n as int, fuel);
        }
        let ghost rest = schedule(l, advance(l, p), (fuel - 1) as nat, round as int + 1);
        let ghost before = cols_view(cols@);
        let mut i: usize = 0;
        while i < n
            invariant
                n == next_operations.0@.len(),
                l == next_operations.lanes(),
                p == next_operations.positions(),
                cols@.len() == n,
                before.len() == n,
                i <= n,
                forall|k: int| 0 <= k < i ==> #[trigger] cols_view(cols@)[k] == before[k] + if moves(l, p, k) { seq![round as int] } else { Seq::<int>::empty() },
                forall|k: int| i <= k < n ==> #[trigger] cols_view(cols@)[k] == before[k],
            decreases n - i,
        {
            let ghost cb = cols@;
            if next_operations.moves_at(i) {
                cols[i].push(round);
                proof {
                    assert(cols@ == cb.update(i as int, cols@[i as int]));
                    assert(cols@[i as int]@ == cb[i as int]@.push(round));
                    assert(cols_view(cols@)[i as int] == cols@[i as int]@.map_values(|x: usize| x as int));
                    assert(cols_view(cb)[i as int] == cb[i as int]@.map_values(|x: usize| x as int));
                    assert(cols@[i as int]@.map_values(|x: usize| x as int) =~= cb[i as int]@.map_values(|x: usize| x as int).push(round as int));
                    assert(moves(l, p, i as int));
                }
            }
            proof {
                assert forall|k: int| 0 <= k < n && k != i implies #[trigger] cols_view(cols@)[k] == cols_view(cb)[k] by {
                    assert(cols@[k] == cb[k]);
                }
                assert(cols_view(cols@)[i as int] =~= before[i as int] + if moves(l, p, i as int) { seq![round as int] } else { Seq::<int>::empty() });
            }
            i += 1;
        }
        next_operations.next();
        proof {
            fuel = (fuel - 1) as nat;
            let q = next_operations.positions();
            assert(q == advance(l, p));
            assert forall|k: int| 0 <= k < n implies cols_view(cols@)[k] + schedule(l, q, fuel, round as int + 1)[k]
                == #[trigger] schedule(l, p_start, f0, 1)[k] by {
                assert(schedule(l, p, fuel + 1, round as int)[k] == if moves(l, p, k) { seq![round as int] + rest[k] } else { rest[k] });
                if moves(l, p, k) {
                    assert(before[k] + seq![round as int] + rest[k] =~= before[k] + (seq![round as int] + rest[k]));
                } else {
                    assert(before[k] + Seq::<int>::empty() =~= before[k]);
                }
            }
        }
        proof {
            crate::qasm::to_qasm::lemma_remaining_monotone(l, next_operations.positions(), n as int);
            assert(remaining(l, next_operations.positions(), n as int) < remaining(l, p, n as int));
        }
        round = round + 1;
    }
    proof {
        let p = next_operations.positions();
        assert(qasm_stream(c@, qubit_cells@) == stream(l, p_start, f0));
        assert(stream(l, p, fuel) is Some);
        assert forall|k: int| 0 <= k < n implies #[trigger] cols_view(cols@)[k] == schedule(l, p_start, f0, 1)[k] by {
            assert(cols_view(cols@)[k] + Seq::<int>::empty() =~= cols_view(cols@)[k]);
        }
        assert(cols_view(cols@) =~= schedule(l, p_start, f0, 1));
        assert forall|k: int| 0 <= k < n implies 0 <= #[trigger] p_start[k] <= l[k].len() by {}
        lemma_schedule_lengths(l, p_start, f0, 1);
        assert(slots_view(lanes@) =~= l);
        assert forall|k: int| 0 <= k < n implies (#[trigger] cols@[k])@.len() == lanes@[k]@.len() by {
            assert(cols_view(cols@)[k].len() == cols@[k]@.len());
            assert(lanes@[k]@ == l[k]);
        }
    }
    let doc = layout(c, &qubit_cells, &lanes, &cols, round);
    Ok(doc)
}

/// Each lane's slots in consecutive columns from 1.
pub open spec fn sequential_cols(l: Seq<Seq<Slot>>) -> Seq<Seq<int>> {
    Seq::new(l.len(), |i: int| Seq::new(l[i].len(), |k: int| k + 1))
}

/// The largest lane length among the first `n` lanes.
pub open spec fn longest(l: Seq<Seq<Slot>>, n: int) -> nat
    decreases n,
{
    if n <= 0 {
        0
    } else if longest(l, n - 1) >= l[n - 1].len() {
        longest(l, n - 1)
    } else {
        l[n - 1].len()
    }
}

/// The node/wire graph of `qubit_cells` with every qubit laid out on its
/// own: row `i` holds the `i`-th qubit's slots in consecutive columns from
/// 1, and the outputs stand one past the longest row.
pub fn to_pyzx_graph(c: &Circuit, qubit_cells: Vec<QubitCell>) -> (r: PyzxCircuitJson)
    requires
        c.wf(),
        forall|i: int| 0 <= i < qubit_cells@.len() ==> c.has_qubit(#[trigger] qubit_cells@[i]),
        longest(lanes_of(c@, qubit_cells@), qubit_cells@.len() as int) < usize::MAX,
    ensures
        ({
            let l = lanes_of(c@, qubit_cells@);
            let n = qubit_cells@.len() as int;
            &&& nodes_view(r.node_vertices@) == doc_nodes(c.names(), l, sequential_cols(l), n)
            &&& edges_view(r.undir_edges@) == doc_edges(c.names(), qubit_cells@, l, n)
            &&& wires_view(r.wire_vertices@) == doc_wires(c.names(), qubit_cells@, longest(l, n) + 1, n)
        }),
{
    let ghost l = lanes_of(c@, qubit_cells@);
    let n = qubit_cells.len();
    let mut lanes: Vec<Vec<Slot>> = Vec::new();
    let mut cols: Vec<Vec<usize>> = Vec::new();
    let mut max_len: usize = 0;
    let mut i: usize = 0;
    while i < n
        invariant
            n == qubit_cells@.len(),
            l == lanes_of(c@, qubit_cells@),
            longest(l, n as int) < usize::MAX,
            forall|i: int| 0 <= i < qubit_cells@.len() ==> c.has_qubit(#[trigger] qubit_cells@[i]),
            i <= n,
            lanes@.len() == i,
            cols@.len() == i,
            max_len == longest(l, i as int),
            forall|k: int| 0 <= k < i ==> (#[trigger] lanes@[k])@ == l[k],
            forall|k: int| 0 <= k < i ==> (#[trigger] cols@[k])@.map_values(|x: usize| x as int) == sequential_cols(l)[k],
            forall|k: int| 0 <= k < i ==> (#[trigger] cols@[k])@.len() == l[k].len(),
        decreases n - i,
    {
        let lane = slots_of(c, qubit_cells[i]);
        let len = lane.len();
        let mut col: Vec<usize> = Vec::new();
        let mut k: usize = 0;
        while k < len
            invariant
                k <= len,
                col@.len() == k,
                forall|j: int| 0 <= j < k ==> #[trigger] col@[j] == j + 1,
            decreases len - k,
        {
            col.push(k + 1);
            k += 1;
        }
        proof {
            lemma_longest_step(l, i as int);
            assert(col@.map_values(|x: usize| x as int) =~= sequential_cols(l)[i as int]);
        }
        if len > max_len {
            max_len = len;
        }
        lanes.push(lane);
        cols.push(col);
        i += 1;
    }
    proof {
        assert(slots_view(lanes@) =~= l);
        assert(cols_view(cols@) =~= sequential_cols(l));
    }
    layout(c, &qubit_cells, &lanes, &cols, max_len + 1)
}

proof fn lemma_longest_step(l: Seq<Seq<Slot>>, i: int)
    requires
        0 <= i,
    ensures
        longest(l, i + 1) == if longest(l, i) >= l[i].len() { longest(l, i) } else { l[i].len() },
{
}

} // verus!
