//! The identity of a table entry (`CostKey`) and the record of how its
//! value was derived (`ProofValue`), together with the spec-level
//! arithmetic the contracts are stated over: bit costs of literals,
//! factorials, powers and decimal/binary digit sequences.

use vstd::prelude::*;

verus! {

/// Identity of a table entry: the integer produced and the two-dimensional
/// cost (zero bits spent, one bits spent) of producing it.
#[derive(Clone, Copy, Debug, PartialEq, Eq, Structural)]
pub struct CostKey {
    pub num: u16,
    pub zeros: u8,
    pub ones: u8,
}

/// How a table entry's value was derived: a literal, a unary or binary
/// operator over earlier entries (shift variants carry the shift amount),
/// or the tombstone `Dominated` for an entry superseded by a cheaper one.
#[derive(Clone, Copy, Debug, PartialEq, Eq, Structural)]
pub enum ProofValue {
    Direct(u8),
    Factorial(CostKey),
    DoubleFactorial(CostKey),
    Sqrt(CostKey),
    Plus(CostKey, CostKey),
    Minus(CostKey, CostKey),
    Times(CostKey, CostKey),
    TimesShift(CostKey, CostKey, u8),
    DivShift(CostKey, CostKey, u8),
    Div(CostKey, CostKey),
    Exp(CostKey, CostKey),
    Dominated,
}

/// Number of one bits in the binary representation of `n`.
pub open spec fn ones_of(n: nat) -> nat
    decreases n,
{
    if n == 0 {
        0
    } else {
        n % 2 + ones_of(n / 2)
    }
}

/// Number of binary digits of `n` (0 for n == 0).
pub open spec fn bitlen(n: nat) -> nat
    decreases n,
{
    if n == 0 {
        0
    } else {
        1 + bitlen(n / 2)
    }
}

/// Zero-bit cost of the literal `b`: the zero bits strictly below the
/// leading one bit, or 1 for the literal 0.
pub open spec fn lit_zeros(b: nat) -> nat {
    if b == 0 {
        1
    } else {
        (bitlen(b) - ones_of(b)) as nat
    }
}

/// One-bit cost of the literal `b`: its population count.
pub open spec fn lit_ones(b: nat) -> nat {
    ones_of(b)
}

pub proof fn lemma_ones_pos(n: nat)
    requires
        n > 0,
    ensures
        ones_of(n) >= 1,
    decreases n,
{
    if n % 2 == 0 {
        lemma_ones_pos(n / 2);
    }
}

pub proof fn lemma_ones_le_bitlen(n: nat)
    ensures
        ones_of(n) <= bitlen(n),
    decreases n,
{
    if n > 0 {
        lemma_ones_le_bitlen(n / 2);
    }
}

/// n factorial.
pub open spec fn fact(n: nat) -> nat
    decreases n,
{
    if n == 0 {
        1
    } else {
        n * fact((n - 1) as nat)
    }
}

/// n double factorial: the product of the positive integers of n's parity
/// that are at most n (1 for n == 0).
pub open spec fn dfact(n: nat) -> nat
    decreases n,
{
    if n <= 1 {
        1
    } else {
        n * dfact((n - 2) as nat)
    }
}

} // verus!
