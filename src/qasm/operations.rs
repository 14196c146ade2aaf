//! Instructions of the stream and their text.
use vstd::prelude::*;

use crate::util::{decimal, usize_to_string};

verus! {

/// A qubit's index in the stream's register.
#[derive(PartialEq, Eq, Hash, PartialOrd, Ord, Debug, Copy, Clone, Structural)]
pub struct QubitId(pub usize);

/// One instruction of the stream.
#[derive(PartialEq, Eq, Debug, Copy, Clone, Structural)]
pub enum Operation {
    Z(QubitId),
    H(QubitId),
    X(QubitId),
    T(QubitId),
    TDag(QubitId),
    S(QubitId),
    SDag(QubitId),
    /// Controlled-not: control, then target.
    CX(QubitId, QubitId),
}

/// `q[i]` for the register index `i`.
pub open spec fn reg_text(i: usize) -> Seq<char> {
    "q["@ + decimal(i as nat) + "]"@
}

/// The text of one instruction.
pub open spec fn operation_text(op: Operation) -> Seq<char> {
    match op {
        Operation::Z(t) => "z "@ + reg_text(t.0) + ";"@,
        Operation::H(t) => "h "@ + reg_text(t.0) + ";"@,
        Operation::X(t) => "x "@ + reg_text(t.0) + ";"@,
        Operation::T(t) => "t "@ + reg_text(t.0) + ";"@,
        Operation::TDag(t) => "tdg "@ + reg_text(t.0) + ";"@,
        Operation::S(t) => "s "@ + reg_text(t.0) + ";"@,
        Operation::SDag(t) => "sdg "@ + reg_text(t.0) + ";"@,
        Operation::CX(a, b) => "cx "@ + reg_text(a.0) + ", "@ + reg_text(b.0) + ";"@,
    }
}

/// The instructions' texts joined by line breaks.
pub open spec fn operations_text(ops: Seq<Operation>) -> Seq<char>
    decreases ops.len(),
{
    if ops.len() == 0 {
        seq![]
    } else if ops.len() == 1 {
        operation_text(ops[0])
    } else {
        operations_text(ops.drop_last()) + "\n"@ + operation_text(ops.last())
    }
}

fn push_reg(s: &mut String, i: usize)
    ensures
        final(s)@ == old(s)@ + reg_text(i),
{
    s.append("q[");
    let d = usize_to_string(i);
    s.append(d.as_str());
    s.append("]");
}

impl Operation {
    /// The instruction as a line of the stream, without the line break.
    pub fn to_string(&self) -> (r: String)
        ensures
            r@ == operation_text(*self),
    {
        let mut s = String::new();
        let (name, target) = match *self {
            Operation::Z(t) => ("z ", t),
            Operation::H(t) => ("h ", t),
            Operation::X(t) => ("x ", t),
            Operation::T(t) => ("t ", t),
            Operation::TDag(t) => ("tdg ", t),
            Operation::S(t) => ("s ", t),
            Operation::SDag(t) => ("sdg ", t),
            Operation::CX(a, _) => ("cx ", a),
        };
        s.append(name);
        push_reg(&mut s, target.0);
        if let Operation::CX(_, b) = *self {
            s.append(", ");
            push_reg(&mut s, b.0);
        }
        s.append(";");
        proof {
            assert(s@ =~= operation_text(*self));
        }
        s
    }
}

/// A stream: the register size and the instructions in order.
#[derive(Debug, Clone)]
pub struct File {
    pub qubit_count: usize,
    pub operations: Vec<Operation>,
}

/// The header that declares a register of `n` qubits.
pub open spec fn header_text(n: usize) -> Seq<char> {
    "OPENQASM 2.0;\n"@ + "include \"qelib1.inc\";\n"@ + "qreg "@ + reg_text(n) + ";\n"@
}

impl File {
    /// The header, then one line per instruction.
    pub fn to_string(&self) -> (r: String)
        ensures
            r@ == header_text(self.qubit_count) + operations_text(self.operations@),
    {
        let mut s = String::new();
        s.append("OPENQASM 2.0;\n");
        s.append("include \"qelib1.inc\";\n");
        s.append("qreg ");
        push_reg(&mut s, self.qubit_count);
        s.append(";\n");
        let ghost head = s@;
        proof {
            assert(head =~= header_text(self.qubit_count));
        }
        let mut i: usize = 0;
        while i < self.operations.len()
            invariant
                i <= self.operations@.len(),
                s@ == head + operations_text(self.operations@.subrange(0, i as int)),
            decreases self.operations@.len() - i,
        {
            let ghost pre = self.operations@.subrange(0, i as int);
            let ghost next = self.operations@.subrange(0, i as int + 1);
            if i > 0 {
                s.append("\n");
            }
            let line = self.operations[i].to_string();
            s.append(line.as_str());
            proof {
                assert(next.drop_last() =~= pre);
                if i == 0 {
                    assert(pre =~= Seq::<Operation>::empty());
                    assert(s@ =~= head + operations_text(next));
                } else {
                    assert(s@ =~= head + operations_text(next));
                }
            }
            i += 1;
        }
        proof {
            assert(self.operations@.subrange(0, self.operations@.len() as int) =~= self.operations@);
        }
        s
    }
}

} // verus!
