//! Writing a boolean table into target qubits under decoded controls.
use vstd::prelude::*;

use crate::gates::next_ref;
use crate::primitive::{
    bind, extends, is_control, lemma_control_stays, lemma_extends_refl, lemma_extends_trans, push_node,
    weight, Circuit,
    ControlFrom, NodeType, Nodes, OpRef, Qubit, QubitCell,
};

verus! {

/// `v` after a fresh target on qubit `q` was bound to the control `r`.
pub open spec fn bind_fresh(v: Nodes, q: usize, r: OpRef) -> Nodes {
    bind(push_node(v, q as int, NodeType::PreControlledNot), next_ref(v, q), r)
}

/// `v` after one table row: a target on `qcs[j]` bound to `r` for each true
/// entry `j`, in order.
pub open spec fn inject_row(v: Nodes, qcs: Seq<QubitCell>, r: OpRef, row: Seq<bool>) -> Nodes
    decreases row.len(),
{
    if row.len() == 0 {
        v
    } else {
        let v1 = inject_row(v, qcs, r, row.drop_last());
        if row.last() {
            bind_fresh(v1, qcs[row.len() - 1].index, r)
        } else {
            v1
        }
    }
}

/// `v` after every row `i` of the table was injected under `cts[i]`.
pub open spec fn inject_rows(v: Nodes, qcs: Seq<QubitCell>, cts: Seq<ControlFrom>, rows: Seq<Seq<bool>>) -> Nodes
    decreases rows.len(),
{
    if rows.len() == 0 {
        v
    } else {
        inject_row(
            inject_rows(v, qcs, cts, rows.drop_last()),
            qcs,
            cts[rows.len() - 1].operation,
            rows.last(),
        )
    }
}

pub open spec fn row_trues(row: Seq<bool>) -> nat
    decreases row.len(),
{
    if row.len() == 0 {
        0
    } else {
        row_trues(row.drop_last()) + if row.last() {
            1nat
        } else {
            0
        }
    }
}

pub open spec fn table_trues(rows: Seq<Seq<bool>>) -> nat
    decreases rows.len(),
{
    if rows.len() == 0 {
        0
    } else {
        table_trues(rows.drop_last()) + row_trues(rows.last())
    }
}

/// The rows of a table as sequences.
pub open spec fn table_view(data: Seq<Vec<bool>>) -> Seq<Seq<bool>> {
    data.map_values(|row: Vec<bool>| row@)
}

/// For each row `i` and each true entry `j` of `data_list`, binds a fresh
/// target on `qcs[j]` to the control `cts[i]`.
pub fn inject_qrom_datas(c: &mut Circuit, qcs: Vec<QubitCell>, cts: Vec<ControlFrom>, data_list: Vec<Vec<bool>>)
    requires
        old(c).wf(),
        data_list@.len() <= cts@.len(),
        forall|i: int| 0 <= i < data_list@.len() ==> (#[trigger] data_list@[i])@.len() <= qcs@.len(),
        forall|j: int| 0 <= j < qcs@.len() ==> old(c).has_qubit(#[trigger] qcs@[j]),
        forall|i: int| 0 <= i < cts@.len() ==> is_control(old(c)@, #[trigger] cts@[i].operation),
        weight(old(c)@) + 2 * table_trues(table_view(data_list@)) <= usize::MAX,
    ensures
        final(c).wf(),
        final(c)@ == inject_rows(old(c)@, qcs@, cts@, table_view(data_list@)),
        final(c).names() == old(c).names(),
        extends(old(c)@, final(c)@),
        weight(final(c)@) == weight(old(c)@) + 2 * table_trues(table_view(data_list@)),
{
    let ghost v0 = c@;
    let ghost rows = table_view(data_list@);
    let mut i: usize = 0;
    while i < data_list.len()
        invariant
            0 <= i <= data_list@.len(),
            rows == table_view(data_list@),
            data_list@.len() <= cts@.len(),
            forall|i: int| 0 <= i < data_list@.len() ==> (#[trigger] data_list@[i])@.len() <= qcs@.len(),
            forall|j: int| 0 <= j < qcs@.len() ==> c.has_qubit(#[trigger] qcs@[j]),
            forall|k: int| 0 <= k < cts@.len() ==> is_control(c@, #[trigger] cts@[k].operation),
            c.wf(),
            c@ == inject_rows(v0, qcs@, cts@, rows.subrange(0, i as int)),
            c.names() == old(c).names(),
            extends(v0, c@),
            weight(c@) == weight(v0) + 2 * table_trues(rows.subrange(0, i as int)),
            weight(v0) + 2 * table_trues(rows) <= usize::MAX,
        decreases data_list@.len() - i,
    {
        let ghost vi = c@;
        let data = &data_list[i];
        let ghost row = data@;
        let control = &cts[i];
        proof {
            lemma_table_trues_prefix(rows, i as int);
            lemma_table_trues_le(rows, i as int + 1);
            assert(rows.subrange(0, i as int + 1).drop_last() =~= rows.subrange(0, i as int));
            assert(rows.subrange(0, i as int + 1).last() == row);
        }
        let mut j: usize = 0;
        while j < data.len()
            invariant
                0 <= j <= row.len(),
                row == data@,
                row.len() <= qcs@.len(),
                forall|j: int| 0 <= j < qcs@.len() ==> c.has_qubit(#[trigger] qcs@[j]),
                forall|k: int| 0 <= k < cts@.len() ==> is_control(c@, #[trigger] cts@[k].operation),
                is_control(c@, control.operation),
                c.wf(),
                c@ == inject_row(vi, qcs@, control.operation, row.subrange(0, j as int)),
                c.names() == old(c).names(),
                extends(vi, c@),
                weight(c@) == weight(vi) + 2 * row_trues(row.subrange(0, j as int)),
                weight(vi) + 2 * row_trues(row) <= usize::MAX,
            decreases row.len() - j,
        {
            let ghost vj = c@;
            proof {
                lemma_row_trues_prefix(row, j as int);
                lemma_row_trues_le(row, j as int + 1);
                assert(row.subrange(0, j as int + 1).drop_last() =~= row.subrange(0, j as int));
            }
            if data[j] {
                let target = Qubit::export(c, qcs[j]);
                let ghost vt = c@;
                proof {
                    lemma_control_stays(vj, vt, control.operation);
                }
                target.control_by(c, control);
                proof {
                    lemma_extends_trans(vj, vt, c@);
                    assert forall|k: int| 0 <= k < cts@.len() implies is_control(c@, #[trigger] cts@[k].operation) by {
                        lemma_control_stays(vj, c@, cts@[k].operation);
                    }
                }
            }
            proof {
                lemma_extends_trans(vi, vj, c@);
                lemma_extends_refl(c@);
            }
            j += 1;
        }
        proof {
            assert(row.subrange(0, row.len() as int) =~= row);
            lemma_extends_trans(v0, vi, c@);
        }
        i += 1;
    }
    proof {
        assert(rows.subrange(0, rows.len() as int) =~= rows);
    }
}

pub proof fn lemma_row_trues_prefix(row: Seq<bool>, j: int)
    requires
        0 <= j < row.len(),
    ensures
        row_trues(row.subrange(0, j + 1)) == row_trues(row.subrange(0, j)) + if row[j] {
            1nat
        } else {
            0
        },
{
    assert(row.subrange(0, j + 1).drop_last() =~= row.subrange(0, j));
}

pub proof fn lemma_row_trues_le(row: Seq<bool>, j: int)
    requires
        0 <= j <= row.len(),
    ensures
        row_trues(row.subrange(0, j)) <= row_trues(row),
    decreases row.len() - j,
{
    if j < row.len() {
        lemma_row_trues_prefix(row, j);
        lemma_row_trues_le(row, j + 1);
    } else {
        assert(row.subrange(0, j) =~= row);
    }
}

proof fn lemma_table_trues_prefix(rows: Seq<Seq<bool>>, i: int)
    requires
        0 <= i < rows.len(),
    ensures
        table_trues(rows.subrange(0, i + 1)) == table_trues(rows.subrange(0, i)) + row_trues(rows[i]),
{
    assert(rows.subrange(0, i + 1).drop_last() =~= rows.subrange(0, i));
}

proof fn lemma_table_trues_le(rows: Seq<Seq<bool>>, i: int)
    requires
        0 <= i <= rows.len(),
    ensures
        table_trues(rows.subrange(0, i)) <= table_trues(rows),
    decreases rows.len() - i,
{
    if i < rows.len() {
        lemma_table_trues_prefix(rows, i);
        lemma_table_trues_le(rows, i + 1);
    } else {
        assert(rows.subrange(0, i) =~= rows);
    }
}

/// A table of `count` rows of `length` entries, every entry true.
pub fn generate_datas(count: usize, length: usize) -> (r: Vec<Vec<bool>>)
    ensures
        r@.len() == count,
        forall|i: int| 0 <= i < count ==> (#[trigger] r@[i])@ == Seq::new(length as nat, |j: int| true),
{
    let mut ret: Vec<Vec<bool>> = Vec::new();
    let mut i: usize = 0;
    while i < count
        invariant
            i <= count,
            ret@.len() == i,
            forall|k: int| 0 <= k < i ==> (#[trigger] ret@[k])@ == Seq::new(length as nat, |j: int| true),
        decreases count - i,
    {
        let inner_vec = vec![true; length];
        assert(inner_vec@ =~= Seq::new(length as nat, |j: int| true));
        ret.push(inner_vec);
        i += 1;
    }
    ret
}

} // verus!
