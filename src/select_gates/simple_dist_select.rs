//! Duplication trees, equality ladders and the distributed select.
use vstd::prelude::*;

use crate::gates::{cnot, cnot_nodes, gate_node, toffoli_first_control, toffoli_first_control_nodes};
use crate::primitive::{
    extends, is_control, lemma_control_stays, lemma_extends_refl, lemma_extends_trans, push_node,
    weight, Circuit, ControlFrom, NodeType, Nodes, OpRef, PrimitiveGate, Qubit, QubitCell,
};
use crate::select_gates::data_combine::{lemma_row_trues_le, row_trues};
use crate::select_gates::simple_select_controls::{in_over_2n, in_over_2n_cost, in_over_2n_spec};
use vstd::arithmetic::div_mod::{lemma_div_multiples_vanish, lemma_fundamental_div_mod, lemma_mod_multiples_basic};
use crate::util::{cellize, decimal, lemma_pow2_pos, pow2, usize_to_string};

verus! {

/// Splits `original` into its first `count` qubits and the rest.
pub fn divide_qubits(count: i32, original: Vec<QubitCell>) -> (r: (Vec<QubitCell>, Vec<QubitCell>))
    requires
        0 <= count <= original@.len(),
    ensures
        r.0@ == original@.subrange(0, count as int),
        r.1@ == original@.subrange(count as int, original@.len() as int),
{
    split_cells(count as usize, original)
}

/// Splits `original` into its first `count` qubits and the rest.
fn split_cells(count: usize, original: Vec<QubitCell>) -> (r: (Vec<QubitCell>, Vec<QubitCell>))
    requires
        0 <= count <= original@.len(),
    ensures
        r.0@ == original@.subrange(0, count as int),
        r.1@ == original@.subrange(count as int, original@.len() as int),
{
    let n = count;
    let mut first: Vec<QubitCell> = Vec::new();
    let mut second: Vec<QubitCell> = Vec::new();
    let mut i: usize = 0;
    while i < original.len()
        invariant
            n <= original@.len(),
            i <= original@.len(),
            i <= n ==> first@ == original@.subrange(0, i as int) && second@.len() == 0,
            i > n ==> first@ == original@.subrange(0, n as int) && second@ == original@.subrange(n as int, i as int),
        decreases original@.len() - i,
    {
        if i < n {
            first.push(original[i]);
        } else {
            second.push(original[i]);
        }
        i += 1;
        proof {
            assert(first@ =~= original@.subrange(0, if i <= n { i as int } else { n as int }));
            if i > n {
                assert(second@ =~= original@.subrange(n as int, i as int));
            }
        }
    }
    proof {
        if original@.len() <= n {
            assert(second@ =~= original@.subrange(n as int, original@.len() as int));
        }
    }
    (first, second)
}

/// The weight that a duplication tree of depth `n` over `m` qubits adds, and
/// also its inverse: one controlled-not per qubit and copy.
pub open spec fn tree_cost(n: nat, m: nat) -> nat
    decreases n,
{
    if n == 0 {
        0
    } else {
        3 * m + 2 * tree_cost((n - 1) as nat, m)
    }
}

/// No qubit occurs twice in `qs`.
pub open spec fn distinct_cells(qs: Seq<QubitCell>) -> bool {
    forall|i: int, j: int| 0 <= i < qs.len() && 0 <= j < qs.len() && i != j ==> #[trigger] qs[i] != #[trigger] qs[j]
}

/// Every qubit of `qs` lives in an arena of `len` qubits.
pub open spec fn cells_below(qs: Seq<QubitCell>, len: nat) -> bool {
    forall|i: int| 0 <= i < qs.len() ==> (#[trigger] qs[i]).index < len
}

/// The blocks in order, one after the other.
pub open spec fn concat_view(blocks: Seq<Vec<QubitCell>>) -> Seq<QubitCell> {
    blocks.map_values(|b: Vec<QubitCell>| b@).flatten()
}

/// The name of the copy of the qubit named `id`, at position `idx` of layer `n`.
pub open spec fn copy_name(id: Seq<char>, idx: nat, n: nat) -> Seq<char> {
    id + "-copy-"@ + decimal(idx) + "-layer-"@ + decimal(n)
}

fn make_copy_name(id: &String, idx: usize, n: usize) -> (r: String)
    ensures
        r@ == copy_name(id@, idx as nat, n as nat),
{
    let mut s = id.clone();
    s.append("-copy-");
    let i = usize_to_string(idx);
    s.append(i.as_str());
    s.append("-layer-");
    let l = usize_to_string(n);
    s.append(l.as_str());
    s
}

/// `v` after one copy layer over `qs`: for each qubit in order, a new qubit
/// and a controlled-not from the qubit into it.
pub open spec fn copy_layer_nodes(v: Nodes, qs: Seq<QubitCell>) -> Nodes
    decreases qs.len(),
{
    if qs.len() == 0 {
        v
    } else {
        let v1 = copy_layer_nodes(v, qs.drop_last());
        cnot_nodes(v1.push(Seq::<NodeType>::empty()), qs.last().index, v1.len() as usize)
    }
}

/// The `m` qubits that an arena of `start` qubits adds next.
pub open spec fn fresh_cells(start: nat, m: nat) -> Seq<QubitCell> {
    Seq::new(m, |k: int| QubitCell { index: (start + k) as usize })
}

/// `v` after a duplication tree of depth `n` over `qs`: one copy layer, then
/// the tree of depth `n - 1` over `qs` and then over the new copies.
pub open spec fn copy_nodes(v: Nodes, n: nat, qs: Seq<QubitCell>) -> Nodes
    decreases n,
{
    if n == 0 {
        v
    } else {
        let v1 = copy_layer_nodes(v, qs);
        let v2 = copy_nodes(v1, (n - 1) as nat, qs);
        copy_nodes(v2, (n - 1) as nat, fresh_cells(v.len(), qs.len()))
    }
}

/// The blocks that a duplication tree of depth `n` over `qs` hands back,
/// `qs` first.
pub open spec fn copy_blocks(v: Nodes, n: nat, qs: Seq<QubitCell>) -> Seq<Seq<QubitCell>>
    decreases n,
{
    if n == 0 {
        seq![qs]
    } else {
        let v1 = copy_layer_nodes(v, qs);
        let v2 = copy_nodes(v1, (n - 1) as nat, qs);
        copy_blocks(v1, (n - 1) as nat, qs) + copy_blocks(v2, (n - 1) as nat, fresh_cells(v.len(), qs.len()))
    }
}

/// Copies `original` into `2^n` blocks of qubits by a depth-`n` tree of
/// controlled-nots. Block 0 is `original` itself; every other qubit is new.
pub fn cnot_copy_n(c: &mut Circuit, n: i32, original: Vec<QubitCell>) -> (r: Vec<Vec<QubitCell>>)
    requires
        old(c).wf(),
        n >= 0,
        cells_below(original@, old(c)@.len()),
        distinct_cells(original@),
        weight(old(c)@) + tree_cost(n as nat, original@.len()) <= usize::MAX,
    ensures
        final(c).wf(),
        r@.len() == pow2(n as nat),
        r@[0]@ == original@,
        forall|b: int| 0 <= b < r@.len() ==> (#[trigger] r@[b])@.len() == original@.len(),
        concat_view(r@).len() == pow2(n as nat) * original@.len(),
        distinct_cells(concat_view(r@)),
        cells_below(concat_view(r@), final(c)@.len()),
        forall|b: int| 0 <= b < r@.len() ==> cells_below((#[trigger] r@[b])@, final(c)@.len()),
        forall|i: int|
            original@.len() <= i < concat_view(r@).len() ==> old(c)@.len() <= (#[trigger] concat_view(r@)[i]).index,
        old(c)@.len() <= final(c)@.len(),
        final(c)@ == copy_nodes(old(c)@, n as nat, original@),
        r@.map_values(|b: Vec<QubitCell>| b@) == copy_blocks(old(c)@, n as nat, original@),
        final(c).names().subrange(0, old(c)@.len() as int) == old(c).names(),
        extends(old(c)@, final(c)@),
        weight(final(c)@) == weight(old(c)@) + tree_cost(n as nat, original@.len()),
    decreases n,
{
    if n == 0 {
        let r = vec![original];
        proof {
            assert(r@.map_values(|b: Vec<QubitCell>| b@) =~= seq![original@]);
            seq![original@].lemma_flatten_one_element();
            assert(c.names().subrange(0, c@.len() as int) =~= c.names());
            crate::primitive::lemma_extends_refl(c@);
        }
        return r;
    }
    let ghost v0 = c@;
    let ghost names0 = c.names();
    let ghost l0 = c@.len();
    let m = original.len();
    let mut target: Vec<QubitCell> = Vec::new();
    let mut idx: usize = 0;
    while idx < m
        invariant
            m == original@.len(),
            idx <= m,
            c.wf(),
            target@.len() == idx,
            forall|k: int| 0 <= k < idx ==> (#[trigger] target@[k]).index == l0 + k,
            c@.len() == l0 + idx,
            cells_below(original@, l0),
            c.names().subrange(0, l0 as int) == names0,
            extends(v0, c@),
            weight(c@) == weight(v0) + 3 * idx,
            weight(v0) + tree_cost(n as nat, m as nat) <= usize::MAX,
            n >= 1,
            l0 == v0.len(),
            c@ == copy_layer_nodes(v0, original@.subrange(0, idx as int)),
            target@ == fresh_cells(l0, idx as nat),
        decreases m - idx,
    {
        let ghost vi = c@;
        let ghost names_i = c.names();
        let q = original[idx];
        let name = make_copy_name(&c.qubits[q.index].id, idx, n as usize);
        let t = cellize(c, Qubit::new(name.as_str()));
        let ghost vt = c@;
        proof {
            assert(c.names().subrange(0, l0 as int) =~= names_i.subrange(0, l0 as int));
        }
        cnot(c, q, t);
        target.push(t);
        proof {
            lemma_extends_trans(v0, vi, vt);
            lemma_extends_trans(v0, vt, c@);
            assert(original@.subrange(0, idx as int + 1).drop_last() =~= original@.subrange(0, idx as int));
            assert(target@ =~= fresh_cells(l0, idx as nat + 1));
        }
        idx += 1;
    }
    let ghost v1 = c@;
    let ghost names1 = c.names();
    let ghost l1 = c@.len();
    proof {
        assert(original@.subrange(0, m as int) =~= original@);
        assert(distinct_cells(target@));
        assert(cells_below(target@, l1));
    }
    let vec_first = cnot_copy_n(c, n - 1, original);
    let ghost v2 = c@;
    let ghost names2 = c.names();
    let ghost l2 = c@.len();
    proof {
        assert(cells_below(target@, l2));
    }
    let vec_second = cnot_copy_n(c, n - 1, target);
    let ghost first = vec_first@;
    let ghost second = vec_second@;
    let mut blocks = vec_first;
    let mut rest = vec_second;
    blocks.append(&mut rest);
    proof {
        let f = |b: Vec<QubitCell>| b@;
        let r = blocks@;
        assert(r =~= first + second);
        assert(r.map_values(f) =~= first.map_values(f) + second.map_values(f));
        vstd::seq_lib::lemma_flatten_concat(first.map_values(f), second.map_values(f));
        let cf = concat_view(first);
        let cs = concat_view(second);
        let cr = concat_view(r);
        assert(cr =~= cf + cs);
        let p = pow2((n - 1) as nat);
        assert(cf.len() == p * m);
        assert(cs.len() == p * m);
        assert(cr.len() == pow2(n as nat) * m) by (nonlinear_arith)
            requires
                cr.len() == cf.len() + cs.len(),
                cf.len() == p * m,
                cs.len() == p * m,
                pow2(n as nat) == 2 * p,
        ;
        assert(p >= 1) by {
            lemma_pow2_pos((n - 1) as nat);
        }
        assert(m <= cf.len()) by (nonlinear_arith)
            requires
                cf.len() == p * m,
                p >= 1,
        ;
        assert forall|i: int| 0 <= i < m implies cf[i] == original@[i] && cs[i] == target@[i] by {
            lemma_flatten_front(first.map_values(f), i);
            lemma_flatten_front(second.map_values(f), i);
        }
        assert forall|i: int, j: int|
            0 <= i < cr.len() && 0 <= j < cr.len() && i != j implies #[trigger] cr[i] != #[trigger] cr[j] by {
            if i < cf.len() && j >= cf.len() {
                let jj = j - cf.len();
                assert(cr[j] == cs[jj]);
                if i < m {
                    assert(cf[i].index < l0);
                } else {
                    assert(l1 <= cf[i].index < l2);
                }
                if jj < m {
                    assert(l0 <= cs[jj].index < l1);
                } else {
                    assert(l2 <= cs[jj].index);
                }
            } else if j < cf.len() && i >= cf.len() {
                let ii = i - cf.len();
                assert(cr[i] == cs[ii]);
                if j < m {
                    assert(cf[j].index < l0);
                } else {
                    assert(l1 <= cf[j].index < l2);
                }
                if ii < m {
                    assert(l0 <= cs[ii].index < l1);
                } else {
                    assert(l2 <= cs[ii].index);
                }
            } else if i < cf.len() {
                assert(cr[i] == cf[i] && cr[j] == cf[j]);
            } else {
                assert(cr[i] == cs[i - cf.len()] && cr[j] == cs[j - cf.len()]);
            }
        }
        assert forall|i: int| 0 <= i < cr.len() implies (#[trigger] cr[i]).index < c@.len() by {
            if i < cf.len() {
                assert(cr[i] == cf[i]);
            } else {
                assert(cr[i] == cs[i - cf.len()]);
            }
        }
        assert forall|i: int| m <= i < cr.len() implies l0 <= (#[trigger] cr[i]).index by {
            if i < cf.len() {
                assert(cr[i] == cf[i]);
            } else {
                let ii = i - cf.len();
                assert(cr[i] == cs[ii]);
                if ii < m {
                    assert(cs[ii] == target@[ii]);
                }
            }
        }
        assert forall|b: int| 0 <= b < r.len() implies (#[trigger] r[b])@.len() == m && cells_below(r[b]@, c@.len()) by {
            if b < first.len() {
                assert(r[b] == first[b]);
            } else {
                assert(r[b] == second[b - first.len()]);
            }
        }
        assert(c.names().subrange(0, l0 as int) =~= names2.subrange(0, l2 as int).subrange(0, l0 as int));
        assert(names2.subrange(0, l1 as int).subrange(0, l0 as int) =~= names1.subrange(0, l0 as int));
        lemma_extends_trans(v0, v1, v2);
        lemma_extends_trans(v0, v2, c@);
    }
    blocks
}

/// The first block of a flattened sequence comes first.
proof fn lemma_flatten_front(s: Seq<Seq<QubitCell>>, i: int)
    requires
        s.len() >= 1,
        0 <= i < s[0].len(),
    ensures
        s.flatten()[i] == s[0][i],
{
    assert(s.flatten() == s[0] + s.drop_first().flatten());
}

/// `v` after controlled-nots from `a[i]` into `b[i]` for `i < k`, in order.
pub open spec fn cnot_pairs_nodes(v: Nodes, a: Seq<QubitCell>, b: Seq<QubitCell>, k: int) -> Nodes
    decreases k,
{
    if k <= 0 {
        v
    } else {
        cnot_nodes(cnot_pairs_nodes(v, a, b, k - 1), a[k - 1].index, b[k - 1].index)
    }
}

/// `v` after undoing a duplication tree of depth `n` over `doubled`: undo
/// each half, then a controlled-not from each qubit of the first block into
/// the same position of the second half's first block.
pub open spec fn uncopy_nodes(v: Nodes, n: nat, doubled: Seq<QubitCell>) -> Nodes
    decreases n,
{
    if n == 0 {
        v
    } else {
        let half = doubled.len() / 2;
        let m = doubled.len() / pow2(n);
        let v1 = uncopy_nodes(v, (n - 1) as nat, doubled.subrange(0, half as int));
        let v2 = uncopy_nodes(v1, (n - 1) as nat, doubled.subrange(half as int, doubled.len() as int));
        cnot_pairs_nodes(v2, doubled.subrange(0, m as int), doubled.subrange(half as int, (half + m) as int), m as int)
    }
}

/// The garbage that `cnot_uncopy_n` hands back: the second half's first
/// block, then the garbage of each half.
pub open spec fn uncopy_garbage(n: nat, doubled: Seq<QubitCell>) -> Seq<QubitCell>
    decreases n,
{
    if n == 0 {
        seq![]
    } else {
        let half = doubled.len() / 2;
        let m = doubled.len() / pow2(n);
        doubled.subrange(half as int, (half + m) as int) + uncopy_garbage((n - 1) as nat, doubled.subrange(0, half as int))
            + uncopy_garbage((n - 1) as nat, doubled.subrange(half as int, doubled.len() as int))
    }
}

/// The originals that `cnot_uncopy_n` hands back: the first block.
pub open spec fn uncopy_original(n: nat, doubled: Seq<QubitCell>) -> Seq<QubitCell> {
    doubled.subrange(0, (doubled.len() / pow2(n)) as int)
}

/// Undoes a duplication tree of depth `n` over `doubled`, read as `2^n`
/// blocks of equal length: returns the first block, restored, and every
/// other qubit as garbage.
pub fn cnot_uncopy_n(c: &mut Circuit, n: i32, doubled: Vec<QubitCell>) -> (r: (Vec<QubitCell>, Vec<QubitCell>))
    requires
        old(c).wf(),
        n >= 0,
        doubled@.len() % pow2(n as nat) == 0,
        distinct_cells(doubled@),
        cells_below(doubled@, old(c)@.len()),
        weight(old(c)@) + tree_cost(n as nat, doubled@.len() / pow2(n as nat)) <= usize::MAX,
    ensures
        final(c).wf(),
        r.0@ == uncopy_original(n as nat, doubled@),
        r.1@ == uncopy_garbage(n as nat, doubled@),
        final(c)@ == uncopy_nodes(old(c)@, n as nat, doubled@),
        r.1@.len() == doubled@.len() - r.0@.len(),
        forall|k: int| 0 <= k < r.1@.len() ==> doubled@.contains(#[trigger] r.1@[k]),
        final(c)@.len() == old(c)@.len(),
        final(c).names() == old(c).names(),
        extends(old(c)@, final(c)@),
        weight(final(c)@) == weight(old(c)@) + tree_cost(n as nat, doubled@.len() / pow2(n as nat)),
    decreases n,
{
    if n == 0 {
        proof {
            assert(pow2(0) == 1);
            assert(doubled@.len() / 1 == doubled@.len());
            assert(doubled@.subrange(0, doubled@.len() as int) =~= doubled@);
            crate::primitive::lemma_extends_refl(c@);
        }
        return (doubled, Vec::new());
    }
    let ghost v0 = c@;
    let ghost d = doubled@;
    let ghost len = d.len();
    let ghost p = pow2((n - 1) as nat);
    let ghost m = len / pow2(n as nat);
    let half: usize = doubled.len() / 2;
    proof {
        lemma_pow2_pos((n - 1) as nat);
        lemma_fundamental_div_mod(len as int, pow2(n as nat) as int);
        assert(len == 2 * (p * m)) by (nonlinear_arith)
            requires
                len == pow2(n as nat) * m,
                pow2(n as nat) == 2 * p,
        ;
        assert(half == p * m);
        lemma_mod_multiples_basic(m as int, p as int);
        lemma_div_multiples_vanish(m as int, p as int);
        assert(m * p == p * m) by (nonlinear_arith);
        assert(m <= half) by (nonlinear_arith)
            requires
                half == p * m,
                p >= 1,
        ;
    }
    let (higher, lower) = split_cells(half, doubled);
    proof {
        assert(distinct_cells(higher@)) by {
            assert forall|i: int, j: int| 0 <= i < higher@.len() && 0 <= j < higher@.len() && i != j implies #[trigger] higher@[i] != #[trigger] higher@[j] by {
                assert(higher@[i] == d[i] && higher@[j] == d[j]);
            }
        }
        assert(distinct_cells(lower@)) by {
            assert forall|i: int, j: int| 0 <= i < lower@.len() && 0 <= j < lower@.len() && i != j implies #[trigger] lower@[i] != #[trigger] lower@[j] by {
                assert(lower@[i] == d[i + half] && lower@[j] == d[j + half]);
            }
        }
        assert(cells_below(higher@, v0.len()));
        assert(cells_below(lower@, v0.len())) by {
            assert forall|i: int| 0 <= i < lower@.len() implies (#[trigger] lower@[i]).index < v0.len() by {
                assert(lower@[i] == d[i + half]);
            }
        }
        assert(lower@.len() == half);
    }
    let ghost hv = higher@;
    let ghost lv = lower@;
    let uncopied_higher = cnot_uncopy_n(c, n - 1, higher);
    let ghost v1 = c@;
    let uncopied_lower = cnot_uncopy_n(c, n - 1, lower);
    let ghost v2 = c@;
    let (high_original, high_garbage) = uncopied_higher;
    let (low_original, low_garbage) = uncopied_lower;
    proof {
        assert(high_original@ =~= d.subrange(0, m as int));
        assert(low_original@ =~= d.subrange(half as int, half + m));
        lemma_extends_trans(v0, v1, v2);
    }
    let original_len = high_original.len();
    let mut idx: usize = 0;
    while idx < original_len
        invariant
            original_len == m,
            m <= half,
            len == 2 * half,
            d.len() == len,
            distinct_cells(d),
            cells_below(d, v0.len()),
            high_original@ == d.subrange(0, m as int),
            low_original@ == d.subrange(half as int, half + m),
            idx <= m,
            c.wf(),
            c@.len() == v0.len(),
            c.names() == old(c).names(),
            extends(v0, c@),
            weight(c@) == weight(v2) + 3 * idx,
            weight(v2) + 3 * m <= usize::MAX,
            c@ == cnot_pairs_nodes(v2, high_original@, low_original@, idx as int),
        decreases m - idx,
    {
        let ghost vi = c@;
        proof {
            assert(high_original@[idx as int] == d[idx as int]);
            assert(low_original@[idx as int] == d[half + idx]);
        }
        cnot(c, high_original[idx], low_original[idx]);
        proof {
            lemma_extends_trans(v0, vi, c@);
            assert(c@.len() == vi.len());
        }
        idx += 1;
    }
    let mut garbage = low_original;
    let mut hg = high_garbage;
    let mut lg = low_garbage;
    let ghost g1 = garbage@;
    let ghost g2 = hg@;
    let ghost g3 = lg@;
    garbage.append(&mut hg);
    garbage.append(&mut lg);
    proof {
        assert(garbage@ =~= g1 + g2 + g3);
        assert forall|k: int| 0 <= k < garbage@.len() implies d.contains(#[trigger] garbage@[k]) by {
            if k < g1.len() {
                assert(garbage@[k] == d[half + k]);
            } else if k < g1.len() + g2.len() {
                let kk = k - g1.len();
                assert(garbage@[k] == g2[kk]);
                assert(hv.contains(g2[kk]));
                let j = choose|j: int| 0 <= j < hv.len() && hv[j] == g2[kk];
                assert(d[j] == hv[j]);
            } else {
                let kk = k - g1.len() - g2.len();
                assert(garbage@[k] == g3[kk]);
                assert(lv.contains(g3[kk]));
                let j = choose|j: int| 0 <= j < lv.len() && lv[j] == g3[kk];
                assert(d[j + half] == lv[j]);
            }
        }
        assert(high_original@ =~= uncopy_original(n as nat, d));
        assert(hv =~= d.subrange(0, half as int));
        assert(lv =~= d.subrange(half as int, len as int));
        assert(garbage@ =~= uncopy_garbage(n as nat, d));
    }
    (high_original, garbage)
}

/// Undoing a duplication tree gives back what was copied: for the blocks
/// that `cnot_copy_n(n, qs)` returns, their concatenation is a valid input of
/// `cnot_uncopy_n(n, ..)`, whose first component is `qs` again.
pub proof fn lemma_uncopy_restores_copy(n: nat, qs: Seq<QubitCell>, blocks: Seq<Vec<QubitCell>>)
    requires
        blocks.len() == pow2(n),
        blocks[0]@ == qs,
        forall|b: int| 0 <= b < blocks.len() ==> (#[trigger] blocks[b])@.len() == qs.len(),
        concat_view(blocks).len() == pow2(n) * qs.len(),
    ensures
        concat_view(blocks).len() % pow2(n) == 0,
        uncopy_original(n, concat_view(blocks)) == qs,
{
    let flat = concat_view(blocks);
    let m = qs.len();
    lemma_pow2_pos(n);
    lemma_mod_multiples_basic(m as int, pow2(n) as int);
    lemma_div_multiples_vanish(m as int, pow2(n) as int);
    assert(m * pow2(n) == pow2(n) * m) by (nonlinear_arith);
    assert(flat.len() / pow2(n) == m);
    assert forall|i: int| 0 <= i < m implies flat[i] == qs[i] by {
        lemma_flatten_front(blocks.map_values(|b: Vec<QubitCell>| b@), i);
    }
    assert(uncopy_original(n, flat) =~= qs);
}

/// The cost, in graph weight, of an equality ladder over `value`.
pub open spec fn ladder_cost(value: Seq<bool>) -> nat {
    15 * value.len() + 2 * row_trues(value)
}

/// `v` after one ladder step: flip `o` if `bit`, the shared-control Toffoli
/// from `r` and `o` into `a`, flip back, then a new control on `a`.
pub open spec fn ladder_step_nodes(v: Nodes, bit: bool, r: OpRef, o: usize, a: usize) -> Nodes {
    let x = gate_node(PrimitiveGate::X);
    let v1 = if bit { push_node(v, o as int, x) } else { v };
    let v2 = toffoli_first_control_nodes(v1, r, o, a);
    let v3 = if bit { push_node(v2, o as int, x) } else { v2 };
    push_node(v3, a as int, NodeType::Control(0))
}

/// The graph and the final control of an equality ladder over `value`.
pub open spec fn eq_ladder_spec(v: Nodes, value: Seq<bool>, r: OpRef, original: Seq<QubitCell>, ancillas: Seq<QubitCell>) -> (
    Nodes,
    OpRef,
)
    decreases value.len(),
{
    if value.len() == 0 {
        (v, r)
    } else {
        let i = value.len() - 1;
        let (v1, r1) = eq_ladder_spec(v, value.drop_last(), r, original, ancillas);
        let a = ancillas[i].index;
        let w = ladder_step_nodes(v1, value[i], r1, original[i].index, a);
        (w, OpRef { qubit: a, index: (w[a as int].len() - 1) as usize })
    }
}

/// Chains, for each bit of `value`, a flip of the original qubit where the
/// bit is set, a Toffoli under the running control into the ancilla, the
/// flip back and a new control on the ancilla. The final control fires
/// exactly when every original qubit matched `value`.
pub fn eq_ladder(
    c: &mut Circuit,
    value: Vec<bool>,
    control_from: ControlFrom,
    original: Vec<QubitCell>,
    ancillas: Vec<QubitCell>,
) -> (r: (Vec<QubitCell>, Vec<QubitCell>, ControlFrom))
    requires
        old(c).wf(),
        value@.len() == original@.len(),
        value@.len() == ancillas@.len(),
        is_control(old(c)@, control_from.operation),
        cells_below(original@, old(c)@.len()),
        cells_below(ancillas@, old(c)@.len()),
        forall|i: int| 0 <= i < original@.len() ==> #[trigger] original@[i] != ancillas@[i],
        weight(old(c)@) + ladder_cost(value@) <= usize::MAX,
    ensures
        final(c).wf(),
        r.0@ == original@,
        r.1@ == ancillas@,
        (final(c)@, r.2.operation) == eq_ladder_spec(old(c)@, value@, control_from.operation, original@, ancillas@),
        is_control(final(c)@, r.2.operation),
        final(c).names() == old(c).names(),
        extends(old(c)@, final(c)@),
        weight(final(c)@) == weight(old(c)@) + ladder_cost(value@),
{
    let ghost v0 = c@;
    let mut control = control_from;
    let mut idx: usize = 0;
    while idx < value.len()
        invariant
            value@.len() == original@.len(),
            value@.len() == ancillas@.len(),
            idx <= value@.len(),
            c.wf(),
            c@.len() == v0.len(),
            cells_below(original@, v0.len()),
            cells_below(ancillas@, v0.len()),
            forall|i: int| 0 <= i < original@.len() ==> #[trigger] original@[i] != ancillas@[i],
            (c@, control.operation) == eq_ladder_spec(v0, value@.subrange(0, idx as int), control_from.operation, original@, ancillas@),
            is_control(c@, control.operation),
            c.names() == old(c).names(),
            extends(v0, c@),
            weight(c@) == weight(v0) + ladder_cost(value@.subrange(0, idx as int)),
            weight(v0) + ladder_cost(value@) <= usize::MAX,
        decreases value@.len() - idx,
    {
        let ghost vi = c@;
        let ghost pre = value@.subrange(0, idx as int);
        let ghost next = value@.subrange(0, idx as int + 1);
        proof {
            assert(next.drop_last() =~= pre);
            lemma_row_trues_le(value@, idx as int + 1);
            assert(row_trues(next) == row_trues(pre) + if value@[idx as int] { 1nat } else { 0 });
        }
        let bit = value[idx];
        let o = original[idx];
        let a = ancillas[idx];
        if bit {
            Qubit::gate(c, o, PrimitiveGate::X);
        }
        let ghost v1 = c@;
        proof {
            lemma_extends_refl(vi);
            lemma_control_stays(vi, v1, control.operation);
        }
        toffoli_first_control(c, &control, o, a);
        let ghost v2 = c@;
        if bit {
            Qubit::gate(c, o, PrimitiveGate::X);
        }
        let ghost v3 = c@;
        proof {
            lemma_extends_refl(v2);
        }
        control = Qubit::control(c, a);
        proof {
            lemma_extends_trans(vi, v1, v2);
            lemma_extends_trans(vi, v2, v3);
            lemma_extends_trans(vi, v3, c@);
            lemma_extends_trans(v0, vi, c@);
            assert(c@[a.index as int].len() == v3[a.index as int].len() + 1);
        }
        idx += 1;
    }
    proof {
        assert(value@.subrange(0, value@.len() as int) =~= value@);
    }
    (original, ancillas, control)
}

/// The binary digits of `n`, most significant first; none for zero.
pub open spec fn bits_of(n: nat) -> Seq<bool>
    decreases n,
{
    if n == 0 {
        seq![]
    } else {
        bits_of(n / 2).push(n % 2 == 1)
    }
}

/// The binary digits of `num`, most significant first; empty for zero.
pub fn num_to_vec_bool(num: usize) -> (r: Vec<bool>)
    ensures
        r@ == bits_of(num as nat),
{
    let ghost start = num;
    let mut ret: Vec<bool> = Vec::new();
    let mut num = num;
    while num > 0
        invariant
            bits_of(start as nat) == bits_of(num as nat) + ret@,
        decreases num,
    {
        let ghost before = ret@;
        ret.insert(0, num % 2 == 1);
        proof {
            assert(ret@ =~= seq![num % 2 == 1] + before);
            assert(bits_of(num as nat) == bits_of((num / 2) as nat).push(num % 2 == 1));
            assert(bits_of((num / 2) as nat).push(num % 2 == 1) + before =~= bits_of((num / 2) as nat) + ret@);
        }
        num /= 2;
    }
    proof {
        assert(bits_of(0) + ret@ =~= ret@);
    }
    ret
}

/// `bits` with falses in front up to `length` entries.
pub open spec fn pad_bits(bits: Seq<bool>, length: nat) -> Seq<bool> {
    if bits.len() >= length {
        bits
    } else {
        Seq::new((length - bits.len()) as nat, |i: int| false) + bits
    }
}

/// The binary digits of `num`, most significant first, with leading zeros
/// up to `length` digits.
pub fn num2boolvec_fixed_length(num: usize, length: usize) -> (r: Vec<bool>)
    ensures
        r@ == pad_bits(bits_of(num as nat), length as nat),
{
    let mut ret = num_to_vec_bool(num);
    let ghost bits = ret@;
    while ret.len() < length
        invariant
            bits == bits_of(num as nat),
            bits.len() <= ret@.len(),
            ret@ == Seq::new((ret@.len() - bits.len()) as nat, |i: int| false) + bits,
            bits.len() < length ==> ret@.len() <= length,
            bits.len() >= length ==> ret@.len() == bits.len(),
        decreases length - ret@.len(),
    {
        let ghost before = ret@;
        ret.insert(0, false);
        proof {
            assert(ret@ =~= Seq::new((ret@.len() - bits.len()) as nat, |i: int| false) + bits);
        }
    }
    proof {
        if bits.len() >= length {
            assert(Seq::new(0, |i: int| false) + bits =~= bits);
        }
    }
    ret
}

/// A number below `2^k` has at most `k` binary digits.
pub proof fn lemma_bits_len(n: nat, k: nat)
    requires
        n < pow2(k),
    ensures
        bits_of(n).len() <= k,
    decreases k,
{
    if n > 0 {
        lemma_bits_len(n / 2, (k - 1) as nat);
    }
}

proof fn lemma_row_trues_len(s: Seq<bool>)
    ensures
        row_trues(s) <= s.len(),
    decreases s.len(),
{
    if s.len() > 0 {
        lemma_row_trues_len(s.drop_last());
    }
}

/// The blocks one after the other.
fn concat_blocks(blocks: &Vec<Vec<QubitCell>>) -> (r: Vec<QubitCell>)
    ensures
        r@ == concat_view(blocks@),
{
    let mut r: Vec<QubitCell> = Vec::new();
    let mut i: usize = 0;
    while i < blocks.len()
        invariant
            i <= blocks@.len(),
            r@ == concat_view(blocks@.subrange(0, i as int)),
        decreases blocks@.len() - i,
    {
        let block = &blocks[i];
        let mut j: usize = 0;
        let ghost r0 = r@;
        while j < block.len()
            invariant
                j <= block@.len(),
                r@ == r0 + block@.subrange(0, j as int),
            decreases block@.len() - j,
        {
            r.push(block[j]);
            j += 1;
            proof {
                assert(r@ =~= r0 + block@.subrange(0, j as int));
            }
        }
        proof {
            let f = |b: Vec<QubitCell>| b@;
            assert(blocks@.subrange(0, i as int + 1).map_values(f) =~= blocks@.subrange(0, i as int).map_values(f).push(block@));
            blocks@.subrange(0, i as int).map_values(f).lemma_flatten_push(block@);
            assert(block@.subrange(0, block@.len() as int) =~= block@);
        }
        i += 1;
    }
    proof {
        assert(blocks@.subrange(0, blocks@.len() as int) =~= blocks@);
    }
    r
}

/// The name of ancilla `idx` of block `b` of a select named `name`.
pub open spec fn ancilla_name(name: Seq<char>, b: nat, idx: nat) -> Seq<char> {
    name + "-block-"@ + decimal(b) + "-ancilla-"@ + decimal(idx)
}

fn make_ancilla_name(name: &String, b: usize, idx: usize) -> (r: String)
    ensures
        r@ == ancilla_name(name@, b as nat, idx as nat),
{
    let mut s = name.clone();
    s.append("-block-");
    let bs = usize_to_string(b);
    s.append(bs.as_str());
    s.append("-ancilla-");
    let is = usize_to_string(idx);
    s.append(is.as_str());
    s
}

proof fn lemma_mul_succ(a: nat, k: nat)
    ensures
        (a + 1) * k == a * k + k,
{
    assert((a + 1) * k == a * k + k) by (nonlinear_arith);
}

proof fn lemma_mul_step_le(a: nat, b: nat, k: nat)
    requires
        a < b,
    ensures
        a * k + k <= b * k,
{
    assert(a * k + k <= b * k) by (nonlinear_arith)
        requires
            a < b,
    ;
}

proof fn lemma_mul_comm(a: nat, b: nat)
    ensures
        a * b == b * a,
{
    assert(a * b == b * a) by (nonlinear_arith);
}

/// The weight that one block of a distributed select adds, at most.
pub open spec fn block_cost(high: nat, low: nat) -> nat {
    2 * (17 * high) + in_over_2n_cost(low)
}

/// The weight that a distributed select adds, at most.
pub open spec fn dist_cost(high: nat, low: nat) -> nat {
    2 * tree_cost(high, high + low) + pow2(high) * block_cost(high, low)
}

/// `v` with `m` qubits without operations added.
pub open spec fn with_fresh_qubits(v: Nodes, m: nat) -> Nodes {
    v + Seq::new(m, |k: int| Seq::<NodeType>::empty())
}

/// The graph and the leaf controls of block `b` of a distributed select
/// over the copy `copied`, under the control `r`.
#[verifier::opaque]
pub open spec fn block_spec(v: Nodes, b: nat, h: nat, lo: nat, r: OpRef, copied: Seq<QubitCell>) -> (Nodes, Seq<OpRef>) {
    let anc = fresh_cells(v.len(), h + lo);
    let v1 = with_fresh_qubits(v, h + lo);
    let value = pad_bits(bits_of(b), h);
    let (v2, carry) = eq_ladder_spec(v1, value, r, copied.subrange(0, h as int), anc.subrange(0, h as int));
    let (v3, leaves) = in_over_2n_spec(
        v2,
        lo,
        carry,
        copied.subrange(h as int, (h + lo) as int),
        anc.subrange(h as int, (h + lo) as int),
    );
    (eq_ladder_spec(v3, value, r, copied.subrange(0, h as int), anc.subrange(0, h as int)).0, leaves)
}

/// The blocks `0..k` one after the other.
#[verifier::opaque]
pub open spec fn blocks_spec(v: Nodes, h: nat, lo: nat, r: OpRef, blocks: Seq<Seq<QubitCell>>, k: int) -> (Nodes, Seq<OpRef>)
    decreases k,
{
    if k <= 0 {
        (v, seq![])
    } else {
        let (v1, ls) = blocks_spec(v, h, lo, r, blocks, k - 1);
        let (v2, ls2) = block_spec(v1, (k - 1) as nat, h, lo, r, blocks[k - 1]);
        (v2, ls + ls2)
    }
}

/// The graph and the leaf controls of a distributed select: the duplication
/// tree, every block, and the tree undone.
#[verifier::opaque]
pub open spec fn dist_spec(v: Nodes, h: nat, lo: nat, r: OpRef, original: Seq<QubitCell>) -> (Nodes, Seq<OpRef>) {
    let v1 = copy_nodes(v, h, original);
    let blocks = copy_blocks(v, h, original);
    let (v2, leaves) = blocks_spec(v1, h, lo, r, blocks, blocks.len() as int);
    (uncopy_nodes(v2, h, blocks.flatten()), leaves)
}

/// One block of a distributed select: fresh ancillas named after `name`
/// and `b`, an equality ladder that tests the leading `high_count` qubits of
/// `copied` against `b` under `control_from`, a decoder over the trailing
/// ones under the ladder's control, and the ladder again to undo it. Returns
/// the ancillas and the decoder's leaf controls.
fn select_block(
    c: &mut Circuit,
    b: usize,
    high_count: i32,
    low_count: i32,
    control_from: ControlFrom,
    copied: Vec<QubitCell>,
    name: &String,
) -> (r: (Vec<QubitCell>, Vec<ControlFrom>))
    requires
        old(c).wf(),
        0 <= high_count,
        1 <= low_count,
        b < pow2(high_count as nat),
        copied@.len() == high_count + low_count,
        cells_below(copied@, old(c)@.len()),
        is_control(old(c)@, control_from.operation),
        weight(old(c)@) + block_cost(high_count as nat, low_count as nat) <= usize::MAX,
    ensures
        final(c).wf(),
        r.1@.len() == pow2(low_count as nat),
        forall|i: int| 0 <= i < r.1@.len() ==> is_control(final(c)@, #[trigger] r.1@[i].operation),
        cells_below(r.0@, final(c)@.len()),
        r.0@ == fresh_cells(old(c)@.len(), (high_count + low_count) as nat),
        (final(c)@, r.1@.map_values(|x: ControlFrom| x.operation)) == block_spec(
            old(c)@,
            b as nat,
            high_count as nat,
            low_count as nat,
            control_from.operation,
            copied@,
        ),
        final(c).names().subrange(0, old(c)@.len() as int) == old(c).names(),
        extends(old(c)@, final(c)@),
        weight(final(c)@) <= weight(old(c)@) + block_cost(high_count as nat, low_count as nat),
{
    let ghost vb = c@;
    let ghost lb = c@.len();
    let ghost names_b = c.names();
    let ghost h = high_count as nat;
    let total = copied.len();
    let mut ancillas: Vec<QubitCell> = Vec::new();
    let mut idx: usize = 0;
    proof {
        lemma_extends_refl(vb);
    }
    while idx < total
        invariant
            idx <= total,
            ancillas@.len() == idx,
            forall|k: int| 0 <= k < idx ==> (#[trigger] ancillas@[k]).index == lb + k,
            c@.len() == lb + idx,
            c.wf(),
            c.names().subrange(0, lb as int) == names_b,
            names_b.len() == lb,
            extends(vb, c@),
            weight(c@) == weight(vb),
            c@ == with_fresh_qubits(vb, idx as nat),
            ancillas@ == fresh_cells(lb, idx as nat),
        decreases total - idx,
    {
        let ghost vi = c@;
        let ghost names_i = c.names();
        let ancilla_id = make_ancilla_name(name, b, idx);
        let a = cellize(c, Qubit::new(ancilla_id.as_str()));
        proof {
            assert(c.names().subrange(0, lb as int) =~= names_i.subrange(0, lb as int));
            lemma_extends_trans(vb, vi, c@);
            assert(c@ =~= with_fresh_qubits(vb, idx as nat + 1));
        }
        ancillas.push(a);
        proof {
            assert(ancillas@ =~= fresh_cells(lb, idx as nat + 1));
        }
        idx += 1;
    }
    let ghost vc = c@;
    proof {
        lemma_control_stays(vb, vc, control_from.operation);
        lemma_bits_len(b as nat, h);
        assert(with_fresh_qubits(vb, 0) =~= vb);
    }
    let (higher_ancillas, lower_ancillas) = divide_qubits(high_count, ancillas.clone());
    let (higher_copied, lower_copied) = divide_qubits(high_count, copied);
    let value = num2boolvec_fixed_length(b, higher_copied.len());
    proof {
        assert(value@.len() == h);
        lemma_row_trues_len(value@);
    }
    let (higher_copied, higher_ancillas, higher_carry) = eq_ladder(
        c,
        value,
        control_from,
        higher_copied,
        higher_ancillas,
    );
    let ghost vd = c@;
    let controls = in_over_2n(c, low_count, &higher_carry, lower_copied, lower_ancillas);
    let ghost ve = c@;
    proof {
        lemma_extends_trans(vc, vd, ve);
        lemma_control_stays(vc, ve, control_from.operation);
    }
    let value = num2boolvec_fixed_length(b, higher_copied.len());
    proof {
        lemma_row_trues_len(value@);
    }
    eq_ladder(c, value, control_from, higher_copied, higher_ancillas);
    proof {
        lemma_extends_trans(vb, vc, ve);
        lemma_extends_trans(vb, ve, c@);
        assert forall|i: int| 0 <= i < controls@.len() implies is_control(c@, #[trigger] controls@[i].operation) by {
            lemma_control_stays(ve, c@, controls@[i].operation);
        }
        assert(c.names().subrange(0, lb as int) =~= names_b);
        assert(higher_copied@ == copied@.subrange(0, h as int));
        reveal(block_spec);
    }
    (ancillas, controls)
}

/// The distributed select over an address split into `high_count` leading
/// qubits and `low_count` trailing ones: copies the address into
/// `2^high_count` blocks; in block `b`, an equality ladder tests the leading
/// copy against `b`, a decoder over the trailing copy runs under it, and the
/// ladder is undone; then the copies are undone. Returns the address, every
/// ancilla, and the `2^(high_count + low_count)` leaf controls.
#[verifier::spinoff_prover]
pub fn dist_select_simple(
    c: &mut Circuit,
    high_count: i32,
    low_count: i32,
    control_from: ControlFrom,
    original: Vec<QubitCell>,
    name: String,
) -> (r: (Vec<QubitCell>, Vec<QubitCell>, Vec<ControlFrom>))
    requires
        old(c).wf(),
        0 <= high_count,
        1 <= low_count,
        original@.len() == high_count + low_count,
        cells_below(original@, old(c)@.len()),
        distinct_cells(original@),
        is_control(old(c)@, control_from.operation),
        weight(old(c)@) + dist_cost(high_count as nat, low_count as nat) <= usize::MAX,
    ensures
        final(c).wf(),
        r.0@ == original@,
        r.2@.len() == pow2(high_count as nat) * pow2(low_count as nat),
        (final(c)@, r.2@.map_values(|x: ControlFrom| x.operation)) == dist_spec(
            old(c)@,
            high_count as nat,
            low_count as nat,
            control_from.operation,
            original@,
        ),
        forall|i: int| 0 <= i < r.2@.len() ==> is_control(final(c)@, #[trigger] r.2@[i].operation),
        cells_below(r.1@, final(c)@.len()),
        final(c).names().subrange(0, old(c)@.len() as int) == old(c).names(),
        extends(old(c)@, final(c)@),
        weight(final(c)@) <= weight(old(c)@) + dist_cost(high_count as nat, low_count as nat),
{
    let ghost v0 = c@;
    let ghost names0 = c.names();
    let ghost l0 = c@.len();
    let ghost h = high_count as nat;
    let ghost lo = low_count as nat;
    let ghost m = original@.len();
    let ghost orig = original@;
    let ghost bc = block_cost(h, lo);
    let ghost ph = pow2(h);
    let ghost pl = pow2(lo);
    let all_copied_blocks = cnot_copy_n(c, high_count, original);
    let ghost va = c@;
    let ghost la = c@.len();
    let mut all_ancillas: Vec<QubitCell> = Vec::new();
    let mut all_controls: Vec<ControlFrom> = Vec::new();
    let mut block_idx: usize = 0;
    proof {
        lemma_control_stays(v0, va, control_from.operation);
        lemma_extends_refl(va);
        assert(c.names().subrange(0, l0 as int) == names0);
        reveal_with_fuel(blocks_spec, 1);
    }
    while block_idx < all_copied_blocks.len()
        invariant
            block_idx <= all_copied_blocks@.len(),
            all_copied_blocks@.len() == ph,
            forall|b: int| 0 <= b < all_copied_blocks@.len() ==> (#[trigger] all_copied_blocks@[b])@.len() == m,
            forall|b: int| 0 <= b < all_copied_blocks@.len() ==> cells_below((#[trigger] all_copied_blocks@[b])@, la),
            m == h + lo,
            h == high_count,
            lo == low_count,
            0 <= high_count,
            1 <= low_count,
            ph == pow2(h),
            pl == pow2(lo),
            bc == block_cost(h, lo),
            la <= c@.len(),
            c.wf(),
            is_control(c@, control_from.operation),
            all_controls@.len() == block_idx * pl,
            forall|i: int| 0 <= i < all_controls@.len() ==> is_control(c@, #[trigger] all_controls@[i].operation),
            cells_below(all_ancillas@, c@.len()),
            c.names().subrange(0, l0 as int) == names0,
            l0 <= la,
            extends(v0, c@),
            extends(va, c@),
            weight(va) == weight(v0) + tree_cost(h, m),
            weight(c@) <= weight(va) + block_idx * bc,
            weight(v0) + dist_cost(h, lo) <= usize::MAX,
            dist_cost(h, lo) == 2 * tree_cost(h, m) + ph * bc,
            all_copied_blocks@.map_values(|b: Vec<QubitCell>| b@) == copy_blocks(v0, h, orig),
            va == copy_nodes(v0, h, orig),
            (c@, all_controls@.map_values(|x: ControlFrom| x.operation)) == blocks_spec(
                va,
                h,
                lo,
                control_from.operation,
                copy_blocks(v0, h, orig),
                block_idx as int,
            ),
        decreases all_copied_blocks@.len() - block_idx,
    {
        let ghost vb = c@;
        proof {
            lemma_mul_step_le(block_idx as nat, ph, bc);
        }
        let copied = all_copied_blocks[block_idx].clone();
        proof {
            assert(copied@ =~= all_copied_blocks@[block_idx as int]@);
        }
        let (ancillas, controls) = select_block(c, block_idx, high_count, low_count, control_from, copied, &name);
        proof {
            assert(copy_blocks(v0, h, orig)[block_idx as int] == all_copied_blocks@[block_idx as int]@);
        }
        let ghost old_controls = all_controls@;
        let ghost new_controls = controls@;
        let mut controls = controls;
        all_controls.append(&mut controls);
        let ghost old_anc = all_ancillas@;
        let ghost anc_seq = ancillas@;
        let mut anc = ancillas;
        all_ancillas.append(&mut anc);
        proof {
            lemma_extends_trans(v0, vb, c@);
            lemma_extends_trans(va, vb, c@);
            lemma_control_stays(vb, c@, control_from.operation);
            assert forall|i: int| 0 <= i < all_controls@.len() implies is_control(c@, #[trigger] all_controls@[i].operation) by {
                if i < old_controls.len() {
                    assert(all_controls@[i] == old_controls[i]);
                    lemma_control_stays(vb, c@, old_controls[i].operation);
                } else {
                    assert(all_controls@[i] == new_controls[i - old_controls.len()]);
                }
            }
            lemma_mul_succ(block_idx as nat, pl);
            lemma_mul_succ(block_idx as nat, bc);
            reveal_with_fuel(blocks_spec, 1);
            assert(all_controls@.map_values(|x: ControlFrom| x.operation) =~= old_controls.map_values(
                |x: ControlFrom| x.operation,
            ) + new_controls.map_values(|x: ControlFrom| x.operation));
            assert forall|i: int| 0 <= i < all_ancillas@.len() implies (#[trigger] all_ancillas@[i]).index < c@.len() by {
                if i < old_anc.len() {
                    assert(all_ancillas@[i] == old_anc[i]);
                } else {
                    assert(all_ancillas@[i] == anc_seq[i - old_anc.len()]);
                }
            }
            assert(c.names().subrange(0, l0 as int) =~= c.names().subrange(0, vb.len() as int).subrange(0, l0 as int));
        }
        block_idx += 1;
    }
    let ghost vf = c@;
    let flat = concat_blocks(&all_copied_blocks);
    proof {
        lemma_uncopy_restores_copy(h, orig, all_copied_blocks@);
        lemma_pow2_pos(h);
        lemma_div_multiples_vanish(m as int, ph as int);
        lemma_mul_comm(m, ph);
        assert(flat@.len() / ph == m);
        assert(block_idx == ph);
        assert(copy_blocks(v0, h, orig).len() == ph);
        assert(flat@ == copy_blocks(v0, h, orig).flatten());
    }
    let (restored, copied_garbage) = cnot_uncopy_n(c, high_count, flat);
    let ghost old_anc = all_ancillas@;
    let mut garbage = copied_garbage;
    let ghost gv = garbage@;
    all_ancillas.append(&mut garbage);
    proof {
        lemma_extends_trans(v0, vf, c@);
        assert forall|i: int| 0 <= i < all_ancillas@.len() implies (#[trigger] all_ancillas@[i]).index < c@.len() by {
            if i < old_anc.len() {
                assert(all_ancillas@[i] == old_anc[i]);
            } else {
                let k = i - old_anc.len();
                assert(all_ancillas@[i] == gv[k]);
                assert(flat@.contains(gv[k]));
            }
        }
        assert forall|i: int| 0 <= i < all_controls@.len() implies is_control(c@, #[trigger] all_controls@[i].operation) by {
            lemma_control_stays(vf, c@, all_controls@[i].operation);
        }
        assert(c.names().subrange(0, l0 as int) =~= names0);
        reveal(dist_spec);
    }
    (restored, all_ancillas, all_controls)
}

} // verus!
