//! Placing qubits in the arena.
use vstd::prelude::*;

use crate::primitive::{extends, weight, Circuit, NodeType, Qubit, QubitCell};

verus! {

/// The decimal digits of `n`, most significant first.
pub open spec fn decimal(n: nat) -> Seq<char>
    decreases n,
{
    if n < 10 {
        seq![digit_char(n)]
    } else {
        decimal(n / 10) + seq![digit_char(n % 10)]
    }
}

pub open spec fn digit_char(d: nat) -> char {
    if d == 0 {
        '0'
    } else if d == 1 {
        '1'
    } else if d == 2 {
        '2'
    } else if d == 3 {
        '3'
    } else if d == 4 {
        '4'
    } else if d == 5 {
        '5'
    } else if d == 6 {
        '6'
    } else if d == 7 {
        '7'
    } else if d == 8 {
        '8'
    } else {
        '9'
    }
}

/// Relies on `ToString` through `Display` for `usize`, which writes the
/// decimal digits, most significant first, with no sign or padding.
#[verifier::external_body]
pub fn usize_to_string(n: usize) -> (r: String)
    ensures
        r@ == decimal(n as nat),
{
    n.to_string()
}

/// Two to the power `n`.
pub open spec fn pow2(n: nat) -> nat
    decreases n,
{
    if n == 0 {
        1
    } else {
        2 * pow2((n - 1) as nat)
    }
}

/// Moves a fresh qubit into the arena and returns its handle.
pub fn cellize(c: &mut Circuit, qubit: Qubit) -> (r: QubitCell)
    requires
        old(c).wf(),
        qubit.operations@.len() == 0,
    ensures
        final(c).wf(),
        final(c)@ == old(c)@.push(Seq::<NodeType>::empty()),
        final(c).names() == old(c).names().push(qubit.id@),
        extends(old(c)@, final(c)@),
        weight(final(c)@) == weight(old(c)@),
        r.index == old(c)@.len(),
{
    c.add_qubit(qubit)
}

pub proof fn lemma_pow2_pos(n: nat)
    ensures
        pow2(n) >= 1,
    decreases n,
{
    if n > 0 {
        lemma_pow2_pos((n - 1) as nat);
    }
}

} // verus!
