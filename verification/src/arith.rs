//! Executable arithmetic the closure engine needs, each piece proved
//! against the spec functions of the model: bit costs, factorials,
//! powers of two, overflow-checked exponentiation, and the exact
//! integer-square-root test supplied by an outside crate.

use vstd::prelude::*;

use crate::model::bitlen;
use crate::model::dfact;
use crate::model::fact;
use crate::model::lemma_ones_le_bitlen;
use crate::model::ones_of;
use vstd::arithmetic::power::pow;
use vstd::arithmetic::power::lemma_pow_increases;
use vstd::arithmetic::power2::pow2;
use vstd::arithmetic::power2::lemma2_to64;

verus! {

proof fn lemma_fact_small()
    ensures
        fact(0) == 1,
        fact(1) == 1,
        fact(2) == 2,
        fact(3) == 6,
        fact(4) == 24,
        fact(5) == 120,
        fact(6) == 720,
        fact(7) == 5040,
        fact(8) == 40320,
{
    reveal_with_fuel(fact, 10);
}

proof fn lemma_dfact_small()
    ensures
        dfact(0) == 1,
        dfact(1) == 1,
        dfact(2) == 2,
        dfact(3) == 3,
        dfact(4) == 8,
        dfact(5) == 15,
        dfact(6) == 48,
        dfact(7) == 105,
        dfact(8) == 384,
        dfact(9) == 945,
        dfact(10) == 3840,
        dfact(11) == 10395,
        dfact(12) == 46080,
{
    reveal_with_fuel(dfact, 14);
}

proof fn lemma_bitlen_bound(n: nat, b: nat)
    requires
        n < pow2(b),
    ensures
        bitlen(n) <= b,
    decreases b,
{
    if n > 0 {
        assert(b > 0) by {
            if b == 0 {
                assert(pow2(0) == 1) by {
                    lemma2_to64();
                }
            }
        }
        assert(pow2(b) == 2 * pow2((b - 1) as nat)) by {
            vstd::arithmetic::power2::lemma_pow2_unfold(b);
        }
        assert(pow2((b - 1) as nat) > 0) by {
            vstd::arithmetic::power2::lemma_pow2_pos((b - 1) as nat);
        }
        assert(n / 2 < pow2((b - 1) as nat)) by {
            let p = pow2((b - 1) as nat);
            assert(n / 2 < p) by (nonlinear_arith)
                requires
                    n < 2 * p,
                    p > 0,
            ;
        }
        lemma_bitlen_bound(n / 2, (b - 1) as nat);
    }
}

pub proof fn lemma_bitlen_le_16(n: nat)
    requires
        n <= u16::MAX,
    ensures
        bitlen(n) <= 16,
{
    lemma2_to64();
    lemma_bitlen_bound(n, 16);
}

/// Number of binary digits of `n` (0 for 0).
pub fn bitlen_u16(n: u16) -> (r: u8)
    ensures
        r as nat == bitlen(n as nat),
{
    let mut m: u16 = n;
    let mut len: u8 = 0;
    proof {
        lemma_bitlen_le_16(n as nat);
    }
    while m > 0
        invariant
            len as nat + bitlen(m as nat) == bitlen(n as nat),
            bitlen(n as nat) <= 16,
        decreases m,
    {
        m = m / 2;
        len = len + 1;
    }
    len
}

/// Number of one bits of `n`.
pub fn ones_u16(n: u16) -> (r: u8)
    ensures
        r as nat == ones_of(n as nat),
{
    let mut m: u16 = n;
    let mut cnt: u8 = 0;
    proof {
        lemma_bitlen_le_16(n as nat);
        lemma_ones_le_bitlen(n as nat);
    }
    while m > 0
        invariant
            cnt as nat + ones_of(m as nat) == ones_of(n as nat),
            ones_of(n as nat) <= 16,
        decreases m,
    {
        proof {
            lemma_ones_le_bitlen(m as nat);
        }
        if m % 2 == 1 {
            cnt = cnt + 1;
        }
        m = m / 2;
    }
    cnt
}

/// n factorial, for the small arguments the engine derives from.
pub fn fact_u16(n: u16) -> (r: u16)
    requires
        n <= 8,
    ensures
        r as nat == fact(n as nat),
{
    let r: u16 = match n {
        0 => 1,
        1 => 1,
        2 => 2,
        3 => 6,
        4 => 24,
        5 => 120,
        6 => 720,
        7 => 5040,
        _ => 40320,
    };
    proof {
        lemma_fact_small();
    }
    r
}

/// n double factorial, for the small arguments the engine derives from.
pub fn dfact_u16(n: u16) -> (r: u16)
    requires
        n <= 12,
    ensures
        r as nat == dfact(n as nat),
{
    let r: u16 = match n {
        0 => 1,
        1 => 1,
        2 => 2,
        3 => 3,
        4 => 8,
        5 => 15,
        6 => 48,
        7 => 105,
        8 => 384,
        9 => 945,
        10 => 3840,
        11 => 10395,
        _ => 46080,
    };
    proof {
        lemma_dfact_small();
    }
    r
}

/// Two to the power `s`, for the shift amounts the engine uses.
pub fn pow2_u16(s: u8) -> (r: u16)
    requires
        s <= 7,
    ensures
        r as nat == pow2(s as nat),
        r >= 1,
{
    proof {
        lemma2_to64();
    }
    match s {
        0 => 1,
        1 => 2,
        2 => 4,
        3 => 8,
        4 => 16,
        5 => 32,
        6 => 64,
        _ => 128,
    }
}

proof fn lemma_pow_zero_base(e: nat)
    requires
        e > 0,
    ensures
        pow(0, e) == 0,
{
    reveal(pow);
}

proof fn lemma_pow_one_base(e: nat)
    ensures
        pow(1, e) == 1,
    decreases e,
{
    reveal(pow);
    if e > 0 {
        lemma_pow_one_base((e - 1) as nat);
    }
}

/// `base` to the power `e`, or `None` where the result would not fit in a
/// `u16` — exactly the candidates the engine silently drops.
pub fn checked_pow_u16(base: u16, e: u16) -> (r: Option<u16>)
    ensures
        r matches Some(x) ==> x == pow(base as int, e as nat) && pow(base as int, e as nat)
            <= u16::MAX,
        r is None ==> pow(base as int, e as nat) > u16::MAX,
{
    if e == 0 {
        proof {
            reveal(pow);
        }
        return Some(1);
    }
    if base == 0 {
        proof {
            lemma_pow_zero_base(e as nat);
        }
        return Some(0);
    }
    if base == 1 {
        proof {
            lemma_pow_one_base(e as nat);
        }
        return Some(1);
    }
    let mut acc: u32 = 1;
    let mut i: u16 = 0;
    proof {
        reveal(pow);
    }
    while i < e
        invariant
            i <= e,
            base >= 2,
            acc == pow(base as int, i as nat),
            acc <= u16::MAX,
        decreases e - i,
    {
        proof {
            assert(acc * (base as u32) <= 65535 * 65535) by (nonlinear_arith)
                requires
                    acc <= 65535,
                    base <= 65535,
            ;
        }
        let next: u32 = acc * base as u32;
        proof {
            reveal(pow);
            assert(pow(base as int, (i + 1) as nat) == base * pow(base as int, i as nat));
        }
        if next > 0xFFFF {
            proof {
                lemma_pow_increases(base as nat, (i + 1) as nat, e as nat);
            }
            return None;
        }
        acc = next;
        i = i + 1;
    }
    Some(acc as u16)
}

/// Relies on `integer_sqrt::IntegerSquareRoot::integer_sqrt` for `u16`:
/// it returns the floor of the exact square root and never panics for an
/// unsigned argument.
#[verifier::external_body]
fn isqrt_u16(n: u16) -> (r: u16)
    ensures
        r * r <= n,
        n < (r + 1) * (r + 1),
{
    integer_sqrt::IntegerSquareRoot::integer_sqrt(&n)
}

/// The exact-integer-square-root test: the square root of `n` when `n` is
/// a perfect square, and `None` otherwise.
pub fn is_perfect_square(n: u16) -> (r: Option<u16>)
    ensures
        r matches Some(s) ==> s * s == n,
        r is None ==> forall|s: int| #[trigger] (s * s) != n,
{
    let r = isqrt_u16(n);
    if r <= 255 && r * r == n {
        Some(r)
    } else {
        proof {
            assert(r * r != n) by {
                if r > 255 {
                    assert(r * r > n) by (nonlinear_arith)
                        requires
                            r > 255,
                            n <= u16::MAX,
                    ;
                }
            }
            assert forall|s: int| #[trigger] (s * s) != n by {
                if s * s == n {
                    let a = if s >= 0 {
                        s
                    } else {
                        -s
                    };
                    assert(a * a == n) by (nonlinear_arith)
                        requires
                            s * s == n,
                            a == if s >= 0 {
                                s
                            } else {
                                -s
                            },
                    ;
                    if a <= r {
                        assert(a * a <= r * r) by (nonlinear_arith)
                            requires
                                0 <= a <= r,
                        ;
                    } else {
                        assert(a * a >= (r + 1) * (r + 1)) by (nonlinear_arith)
                            requires
                                a >= r + 1 >= 0,
                        ;
                    }
                }
            }
        }
        None
    }
}

} // verus!
