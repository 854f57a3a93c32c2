//! The fixed-point closure engine: seed the table with every literal that
//! fits the cost budget, then repeatedly derive new (key, value) pairs
//! from the usable entries through every legal operator and insert them
//! first-writer-wins, until a full pass adds nothing. Also the lookup
//! order the reporting driver uses to find the cheapest entry of a value.

use vstd::prelude::*;

use crate::arith::bitlen_u16;
use crate::arith::checked_pow_u16;
use crate::arith::dfact_u16;
use crate::arith::fact_u16;
use crate::arith::is_perfect_square;
use crate::arith::ones_u16;
use crate::arith::pow2_u16;
use crate::model::CostKey;
use crate::model::ProofValue;
use crate::model::fact;
use crate::model::lemma_ones_le_bitlen;
use crate::model::lit_ones;
use crate::model::lit_zeros;
use crate::table::Table;
use crate::table::dominance_ok;
use crate::table::dominated_witnessed;
use crate::table::entries_monotone;
use crate::table::no_zero_cost;
use crate::table::witness_for;
use crate::table::entry_sound;
use crate::table::lemma_entry_sound_monotone;
use crate::table::live_entry;
use crate::table::presence_grows;
use crate::table::sound;

verus! {

/// A pending candidate is fit to insert: its derivation is sound against
/// the current table, it fits the budget, and its value is in range.
pub open spec fn cand_ok(t: Table, p: (CostKey, ProofValue)) -> bool {
    entry_sound(t, p.0, p.1) && p.0.zeros <= 4 && p.0.ones <= 4 && p.0.num <= t.limit_spec()
        && p.1 != ProofValue::Dominated
}

/// A snapshot element really is a usable entry of the table.
pub open spec fn snap_ok(t: Table, e: (CostKey, ProofValue)) -> bool {
    t.at(e.0) == Some(e.1) && e.1 != ProofValue::Dominated && e.0.zeros <= 4 && e.0.ones <= 4
        && e.0.num <= t.limit_spec()
}

/// A queued candidate as the pass found it: derivable from the table it
/// was generated over, and aimed at a then-unoccupied key.
pub open spec fn cand_fresh(t: Table, p: (CostKey, ProofValue)) -> bool {
    derivable(t, p.0, p.1) && t.at(p.0) is None
}

/// The key under which the literal `b` is seeded: its value at its own
/// bit costs.
pub open spec fn lit_key(b: u16) -> CostKey {
    CostKey { num: b, zeros: lit_zeros(b as nat) as u8, ones: lit_ones(b as nat) as u8 }
}

/// Every literal whose bit costs fit the budget and whose value fits the
/// limit stands at its seed key: as itself, or as a tombstone left by a
/// cheaper derivation of the same value.
pub open spec fn literals_seeded(t: Table) -> bool {
    forall|b: u16|
        b <= 255 && b <= t.limit_spec() && lit_zeros(b as nat) <= 4 && lit_ones(b as nat) <= 4
            ==> #[trigger] t.at(lit_key(b)) == Some(ProofValue::Direct(b as u8)) || t.at(
            lit_key(b),
        ) == Some(ProofValue::Dominated)
}

/// The candidate `(k, v)` needs no insertion attempt any more: it is
/// queued, or its key is already taken, or its value is over the limit.
pub open spec fn covered(
    t: Table,
    pending: Seq<(CostKey, ProofValue)>,
    k: CostKey,
    v: ProofValue,
) -> bool {
    pending.contains((k, v)) || t.at(k) is Some || k.num > t.limit_spec()
}


/// A non-literal pair the closure can derive in one step from the usable
/// entries of `t`: a sound derivation within the cost budget whose
/// operand keys all hold usable entries (and whose right operand really
/// is a literal, for the shifted operators).
pub open spec fn derivable(t: Table, k: CostKey, v: ProofValue) -> bool {
    entry_sound(t, k, v) && k.zeros <= 4 && k.ones <= 4 && match v {
        ProofValue::Direct(_) => false,
        ProofValue::Factorial(a) => live_entry(t, a),
        ProofValue::DoubleFactorial(a) => live_entry(t, a),
        ProofValue::Sqrt(a) => live_entry(t, a),
        ProofValue::Plus(a, b) => live_entry(t, a) && live_entry(t, b),
        ProofValue::Minus(a, b) => live_entry(t, a) && live_entry(t, b),
        ProofValue::Times(a, b) => live_entry(t, a) && live_entry(t, b),
        ProofValue::Div(a, b) => live_entry(t, a) && live_entry(t, b),
        ProofValue::Exp(a, b) => live_entry(t, a) && live_entry(t, b),
        ProofValue::TimesShift(a, b, _) => live_entry(t, a) && live_entry(t, b) && t.at(
            b,
        )->Some_0 is Direct,
        ProofValue::DivShift(a, b, _) => live_entry(t, a) && live_entry(t, b) && t.at(
            b,
        )->Some_0 is Direct,
        ProofValue::Dominated => false,
    }
}

/// `v` is a unary derivation whose operand is `a`.
pub open spec fn unary_of(v: ProofValue, a: CostKey) -> bool {
    v == ProofValue::Factorial(a) || v == ProofValue::DoubleFactorial(a) || v == ProofValue::Sqrt(
        a,
    )
}

/// `v` is a shifted derivation over the ordered pair (`e1`, `e2`) with
/// shift amount `s`.
pub open spec fn shift_of(v: ProofValue, e1: CostKey, e2: CostKey, s: u8) -> bool {
    v == ProofValue::TimesShift(e1, e2, s) || v == ProofValue::DivShift(e1, e2, s)
}

/// `v` is a binary derivation the pass produces while scanning the
/// ordered pair (`e1`, `e2`).
pub open spec fn pair_of(v: ProofValue, e1: CostKey, e2: CostKey) -> bool {
    match v {
        ProofValue::Plus(a, b) => a == e1 && b == e2,
        ProofValue::Minus(a, b) => a == e1 && b == e2,
        ProofValue::Times(a, b) => a == e1 && b == e2,
        ProofValue::Div(a, b) => a == e1 && b == e2,
        ProofValue::Exp(a, b) => e1.num >= e2.num && ((a == e1 && b == e2) || (a == e2 && b
            == e1)),
        ProofValue::TimesShift(a, b, _) => a == e1 && b == e2,
        ProofValue::DivShift(a, b, _) => a == e1 && b == e2,
        _ => false,
    }
}

spec fn unary_covered(t: Table, pending: Seq<(CostKey, ProofValue)>, a: CostKey) -> bool {
    forall|k: CostKey, v: ProofValue|
        #[trigger] derivable(t, k, v) && unary_of(v, a) ==> covered(t, pending, k, v)
}

spec fn shift_covered(
    t: Table,
    pending: Seq<(CostKey, ProofValue)>,
    e1: CostKey,
    e2: CostKey,
    s: u8,
) -> bool {
    forall|k: CostKey, v: ProofValue|
        #[trigger] derivable(t, k, v) && shift_of(v, e1, e2, s) ==> covered(t, pending, k, v)
}

spec fn pair_covered(
    t: Table,
    pending: Seq<(CostKey, ProofValue)>,
    e1: CostKey,
    e2: CostKey,
) -> bool {
    forall|k: CostKey, v: ProofValue|
        #[trigger] derivable(t, k, v) && pair_of(v, e1, e2) ==> covered(t, pending, k, v)
}

/// No derivable pair within the limit is missing: re-running a pass of
/// the closure can add nothing.
pub open spec fn is_fixed_point(t: Table) -> bool {
    forall|k: CostKey, v: ProofValue|
        #[trigger] derivable(t, k, v) && k.num <= t.limit_spec() ==> t.at(k) is Some
}

/// Derivability only reads the table's entries, so tables that agree on
/// every key admit the same derivations.
pub proof fn lemma_derivable_same_entries(t1: Table, t2: Table, k: CostKey, v: ProofValue)
    requires
        derivable(t1, k, v),
        forall|kk: CostKey| #[trigger] t1.at(kk) == t2.at(kk),
    ensures
        derivable(t2, k, v),
{
    match v {
        ProofValue::Factorial(a) => {
            assert(t1.at(a) == t2.at(a));
        },
        ProofValue::DoubleFactorial(a) => {
            assert(t1.at(a) == t2.at(a));
        },
        ProofValue::Sqrt(a) => {
            assert(t1.at(a) == t2.at(a));
        },
        ProofValue::Plus(a, b) => {
            assert(t1.at(a) == t2.at(a) && t1.at(b) == t2.at(b));
        },
        ProofValue::Minus(a, b) => {
            assert(t1.at(a) == t2.at(a) && t1.at(b) == t2.at(b));
        },
        ProofValue::Times(a, b) => {
            assert(t1.at(a) == t2.at(a) && t1.at(b) == t2.at(b));
        },
        ProofValue::Div(a, b) => {
            assert(t1.at(a) == t2.at(a) && t1.at(b) == t2.at(b));
        },
        ProofValue::Exp(a, b) => {
            assert(t1.at(a) == t2.at(a) && t1.at(b) == t2.at(b));
        },
        ProofValue::TimesShift(a, b, _) => {
            assert(t1.at(a) == t2.at(a) && t1.at(b) == t2.at(b));
        },
        ProofValue::DivShift(a, b, _) => {
            assert(t1.at(a) == t2.at(a) && t1.at(b) == t2.at(b));
        },
        _ => {},
    }
}

/// A covered candidate stays covered as the queue grows.
proof fn lemma_covered_mono(
    t: Table,
    p1: Seq<(CostKey, ProofValue)>,
    p2: Seq<(CostKey, ProofValue)>,
    k: CostKey,
    v: ProofValue,
)
    requires
        covered(t, p1, k, v),
        forall|x: (CostKey, ProofValue)| #[trigger] p1.contains(x) ==> p2.contains(x),
    ensures
        covered(t, p2, k, v),
{
}

/// Queue a derived pair unless its value is over the limit or its key is
/// already taken (in which case insertion could not succeed anyway).
fn push_cand(t: &Table, pending: &mut Vec<(CostKey, ProofValue)>, k: CostKey, v: ProofValue)
    requires
        t.wf(),
        derivable(*t, k, v),
        forall|i: int|
            0 <= i < old(pending)@.len() ==> cand_ok(*t, #[trigger] old(pending)@[i]),
        forall|i: int|
            0 <= i < old(pending)@.len() ==> cand_fresh(*t, #[trigger] old(pending)@[i]),
    ensures
        forall|i: int|
            0 <= i < final(pending)@.len() ==> cand_ok(*t, #[trigger] final(pending)@[i]),
        forall|i: int|
            0 <= i < final(pending)@.len() ==> cand_fresh(*t, #[trigger] final(pending)@[i]),
        forall|x: (CostKey, ProofValue)|
            old(pending)@.contains(x) ==> final(pending)@.contains(x),
        covered(*t, final(pending)@, k, v),
{
    if k.num <= t.limit() && t.get(k).is_none() {
        let ghost p0 = pending@;
        pending.push((k, v));
        proof {
            assert(pending@[pending@.len() - 1] == (k, v));
            assert forall|x: (CostKey, ProofValue)| p0.contains(x) implies pending@.contains(
                x,
            ) by {
                let idx = choose|idx: int| 0 <= idx < p0.len() && p0[idx] == x;
                assert(pending@[idx] == x);
            }
        }
    }
}

impl Table {
    /// All usable entries, in the lexicographic (num, zeros, ones) order
    /// that makes every pass deterministic.
    fn snapshot(&self) -> (snap: Vec<(CostKey, ProofValue)>)
        requires
            self.wf(),
        ensures
            forall|i: int| 0 <= i < snap@.len() ==> snap_ok(*self, #[trigger] snap@[i]),
            forall|kk: CostKey| #[trigger] live_entry(*self, kk) ==> snap@.contains(
                (kk, self.at(kk)->Some_0),
            ),
    {
        let mut snap: Vec<(CostKey, ProofValue)> = Vec::new();
        let limit = self.limit();
        let mut num: u32 = 0;
        while num <= limit as u32
            invariant
                self.wf(),
                limit == self.limit_spec(),
                num <= limit as u32 + 1,
                forall|i: int| 0 <= i < snap@.len() ==> snap_ok(*self, #[trigger] snap@[i]),
                forall|kk: CostKey| #[trigger] live_entry(*self, kk) && kk.num < num
                    ==> snap@.contains((kk, self.at(kk)->Some_0)),
            decreases limit as int + 1 - num,
        {
            let mut z: u8 = 0;
            while z < 5
                invariant
                    self.wf(),
                    limit == self.limit_spec(),
                    num <= limit as u32,
                    z <= 5,
                    forall|i: int| 0 <= i < snap@.len() ==> snap_ok(*self, #[trigger] snap@[i]),
                    forall|kk: CostKey| #[trigger] live_entry(*self, kk) && (kk.num < num || (
                    kk.num == num && kk.zeros < z)) ==> snap@.contains(
                        (kk, self.at(kk)->Some_0),
                    ),
                decreases 5 - z,
            {
                let mut o: u8 = 0;
                while o < 5
                    invariant
                        self.wf(),
                        limit == self.limit_spec(),
                        num <= limit as u32,
                        z <= 4,
                        o <= 5,
                        forall|i: int|
                            0 <= i < snap@.len() ==> snap_ok(*self, #[trigger] snap@[i]),
                        forall|kk: CostKey| #[trigger] live_entry(*self, kk) && (kk.num < num || (
                        kk.num == num && (kk.zeros < z || (kk.zeros == z && kk.ones < o))))
                            ==> snap@.contains((kk, self.at(kk)->Some_0)),
                    decreases 5 - o,
                {
                    let k = CostKey { num: num as u16, zeros: z, ones: o };
                    match self.get(k) {
                        Some(v) => {
                            if !matches!(v, ProofValue::Dominated) {
                                let ghost s0 = snap@;
                                snap.push((k, v));
                                proof {
                                    assert(snap@[snap@.len() - 1] == (k, v));
                                    assert forall|x: (CostKey, ProofValue)| s0.contains(
                                        x,
                                    ) implies snap@.contains(x) by {
                                        let idx = choose|idx: int|
                                            0 <= idx < s0.len() && s0[idx] == x;
                                        assert(snap@[idx] == x);
                                    }
                                }
                            }
                        },
                        None => {},
                    }
                    o = o + 1;
                }
                proof {
                    assert forall|kk: CostKey| #[trigger] live_entry(*self, kk) && (kk.num < num
                        || (kk.num == num && kk.zeros < z + 1)) implies snap@.contains(
                        (kk, self.at(kk)->Some_0),
                    ) by {
                        self.lemma_cost_budget(kk);
                    }
                }
                z = z + 1;
            }
            proof {
                assert forall|kk: CostKey| #[trigger] live_entry(*self, kk) && kk.num < num
                    + 1 implies snap@.contains((kk, self.at(kk)->Some_0)) by {
                    self.lemma_cost_budget(kk);
                }
            }
            num = num + 1;
        }
        proof {
            assert forall|kk: CostKey| #[trigger] live_entry(*self, kk) implies snap@.contains(
                (kk, self.at(kk)->Some_0),
            ) by {
                self.lemma_cost_budget(kk);
            }
        }
        snap
    }

    /// Every candidate pair one pass derives from the usable entries:
    /// unary operators from each entry, and binary operators (shifted
    /// variants included) from each ordered pair of entries. The result
    /// is complete: every derivable pair is queued, already present, or
    /// over the limit.
    #[verifier::rlimit(100)]
    fn generate(&self) -> (pending: Vec<(CostKey, ProofValue)>)
        requires
            self.wf(),
        ensures
            forall|i: int|
                0 <= i < pending@.len() ==> cand_ok(*self, #[trigger] pending@[i]),
            forall|i: int|
                0 <= i < pending@.len() ==> cand_fresh(*self, #[trigger] pending@[i]),
            forall|k: CostKey, v: ProofValue|
                #[trigger] derivable(*self, k, v) ==> covered(*self, pending@, k, v),
    {
        let snap = self.snapshot();
        let mut pending: Vec<(CostKey, ProofValue)> = Vec::new();
        let mut i: usize = 0;
        while i < snap.len()
            invariant
                self.wf(),
                forall|n: int| 0 <= n < snap@.len() ==> snap_ok(*self, #[trigger] snap@[n]),
                forall|kk: CostKey| #[trigger] live_entry(*self, kk) ==> snap@.contains(
                    (kk, self.at(kk)->Some_0),
                ),
                forall|n: int|
                    0 <= n < pending@.len() ==> cand_ok(*self, #[trigger] pending@[n]),
                forall|n: int|
                    0 <= n < pending@.len() ==> cand_fresh(*self, #[trigger] pending@[n]),
                forall|n: int|
                    0 <= n < i ==> unary_covered(*self, pending@, #[trigger] snap@[n].0),
                forall|n: int, m: int|
                    0 <= n < i && 0 <= m < snap@.len() ==> pair_covered(
                        *self,
                        pending@,
                        #[trigger] snap@[n].0,
                        #[trigger] snap@[m].0,
                    ),
            decreases snap@.len() - i,
        {
            let (key1, _val1) = snap[i];
            let num1 = key1.num;
            if num1 <= 8 {
                let f = fact_u16(num1);
                let k = CostKey { num: f, zeros: key1.zeros, ones: key1.ones };
                push_cand(self, &mut pending, k, ProofValue::Factorial(key1));
            }
            if num1 <= 12 {
                let f = dfact_u16(num1);
                let k = CostKey { num: f, zeros: key1.zeros, ones: key1.ones };
                push_cand(self, &mut pending, k, ProofValue::DoubleFactorial(key1));
            }
            let sq = is_perfect_square(num1);
            match sq {
                Some(root) => {
                    let k = CostKey { num: root, zeros: key1.zeros, ones: key1.ones };
                    push_cand(self, &mut pending, k, ProofValue::Sqrt(key1));
                },
                None => {},
            }
            proof {
                assert forall|k: CostKey, v: ProofValue|
                    #[trigger] derivable(*self, k, v) && unary_of(v, key1) implies covered(
                    *self,
                    pending@,
                    k,
                    v,
                ) by {
                    match v {
                        ProofValue::Sqrt(a) => {
                            if sq is Some {
                                let root = sq->Some_0;
                                assert(k.num == root) by (nonlinear_arith)
                                    requires
                                        k.num * k.num == key1.num,
                                        root * root == key1.num,
                                        k.num >= 0,
                                        root >= 0,
                                ;
                            } else {
                                assert((k.num as int) * (k.num as int) != key1.num);
                                assert(false);
                            }
                        },
                        _ => {},
                    }
                }
            }
            let mut j: usize = 0;
            while j < snap.len()
                invariant
                    self.wf(),
                    i < snap@.len(),
                    snap@[i as int] == (key1, _val1),
                    num1 == key1.num,
                    forall|n: int| 0 <= n < snap@.len() ==> snap_ok(*self, #[trigger] snap@[n]),
                    forall|n: int|
                        0 <= n < pending@.len() ==> cand_ok(*self, #[trigger] pending@[n]),
                    forall|n: int|
                        0 <= n < pending@.len() ==> cand_fresh(*self, #[trigger] pending@[n]),
                    unary_covered(*self, pending@, key1),
                    forall|m: int|
                        0 <= m < j ==> pair_covered(*self, pending@, key1, #[trigger] snap@[m].0),
                    forall|n: int|
                        0 <= n < i ==> unary_covered(*self, pending@, #[trigger] snap@[n].0),
                    forall|n: int, m: int|
                        0 <= n < i && 0 <= m < snap@.len() ==> pair_covered(
                            *self,
                            pending@,
                            #[trigger] snap@[n].0,
                            #[trigger] snap@[m].0,
                        ),
                decreases snap@.len() - j,
            {
                let ghost pj0 = pending@;
                let ghost mut pshift = pending@;
                let (key2, val2) = snap[j];
                let num2 = key2.num;
                let total_zeros = key1.zeros + key2.zeros;
                let total_ones = key1.ones + key2.ones;
                if total_zeros <= 4 && total_ones <= 4 {
                    if matches!(val2, ProofValue::Direct(_)) {
                        let bl = bitlen_u16(num2);
                        let mut shift: u8 = 1;
                        while shift < 8
                            invariant
                                self.wf(),
                                1 <= shift <= 8,
                                snap_ok(*self, (key1, _val1)),
                                snap_ok(*self, (key2, val2)),
                                val2 is Direct,
                                num1 == key1.num,
                                num2 == key2.num,
                                bl as nat == crate::model::bitlen(num2 as nat),
                                total_zeros == key1.zeros + key2.zeros,
                                total_ones == key1.ones + key2.ones,
                                total_zeros <= 4,
                                total_ones <= 4,
                                forall|n: int|
                                    0 <= n < pending@.len() ==> cand_ok(
                                        *self,
                                        #[trigger] pending@[n],
                                    ),
                                forall|n: int|
                                    0 <= n < pending@.len() ==> cand_fresh(
                                        *self,
                                        #[trigger] pending@[n],
                                    ),
                                forall|x: (CostKey, ProofValue)| #[trigger] pj0.contains(x)
                                    ==> pending@.contains(x),
                                forall|s: u8|
                                    1 <= s < shift ==> #[trigger] shift_covered(
                                        *self,
                                        pending@,
                                        key1,
                                        key2,
                                        s,
                                    ),
                            decreases 8 - shift,
                        {
                            let ghost ps0 = pending@;
                            let extra: u8 = if shift > bl {
                                shift - bl
                            } else {
                                0
                            };
                            let p = pow2_u16(shift);
                            if extra + total_zeros <= 4 {
                                let new_zeros = total_zeros + extra;
                                if num1 % p == 0 {
                                    match num1.checked_mul(num2) {
                                        Some(prod) => {
                                            let k = CostKey {
                                                num: prod / p,
                                                zeros: new_zeros,
                                                ones: total_ones,
                                            };
                                            push_cand(
                                                self,
                                                &mut pending,
                                                k,
                                                ProofValue::TimesShift(key1, key2, shift),
                                            );
                                        },
                                        None => {},
                                    }
                                }
                                if num2 != 0 && num1 % num2 == 0 {
                                    match (num1 / num2).checked_mul(p) {
                                        Some(res) => {
                                            let k = CostKey {
                                                num: res,
                                                zeros: new_zeros,
                                                ones: total_ones,
                                            };
                                            push_cand(
                                                self,
                                                &mut pending,
                                                k,
                                                ProofValue::DivShift(key1, key2, shift),
                                            );
                                        },
                                        None => {},
                                    }
                                }
                            }
                            proof {
                                assert forall|x: (CostKey, ProofValue)| ps0.contains(
                                    x,
                                ) implies pending@.contains(x) by {}
                                assert forall|k: CostKey, v: ProofValue|
                                    #[trigger] derivable(*self, k, v) && shift_of(
                                    v,
                                    key1,
                                    key2,
                                    shift,
                                ) implies covered(*self, pending@, k, v) by {
                                    assert(extra as nat == crate::table::shift_extra(
                                        shift as nat,
                                        num2 as nat,
                                    ));
                                }
                                assert forall|s: u8| 1 <= s < shift implies shift_covered(
                                    *self,
                                    pending@,
                                    key1,
                                    key2,
                                    s,
                                ) by {
                                    assert(shift_covered(*self, ps0, key1, key2, s));
                                    assert forall|k: CostKey, v: ProofValue|
                                        #[trigger] derivable(*self, k, v) && shift_of(
                                        v,
                                        key1,
                                        key2,
                                        s,
                                    ) implies covered(*self, pending@, k, v) by {
                                        lemma_covered_mono(*self, ps0, pending@, k, v);
                                    }
                                }
                            }
                            shift = shift + 1;
                        }
                    } else {
                        proof {
                            assert forall|s: u8, k: CostKey, v: ProofValue|
                                #[trigger] derivable(*self, k, v) && #[trigger] shift_of(
                                v,
                                key1,
                                key2,
                                s,
                            ) implies covered(*self, pending@, k, v) by {
                                assert(self.at(key2) == Some(val2));
                            }
                        }
                    }
                    proof {
                        pshift = pending@;
                        assert forall|s: u8| 1 <= s < 8 implies shift_covered(
                            *self,
                            pshift,
                            key1,
                            key2,
                            s,
                        ) by {}
                    }
                    if num1 >= num2 {
                        match checked_pow_u16(num1, num2) {
                            Some(x) => {
                                let k = CostKey { num: x, zeros: total_zeros, ones: total_ones };
                                push_cand(self, &mut pending, k, ProofValue::Exp(key1, key2));
                            },
                            None => {},
                        }
                        match checked_pow_u16(num2, num1) {
                            Some(x) => {
                                let k = CostKey { num: x, zeros: total_zeros, ones: total_ones };
                                push_cand(self, &mut pending, k, ProofValue::Exp(key2, key1));
                            },
                            None => {},
                        }
                        match num1.checked_add(num2) {
                            Some(x) => {
                                let k = CostKey { num: x, zeros: total_zeros, ones: total_ones };
                                push_cand(self, &mut pending, k, ProofValue::Plus(key1, key2));
                            },
                            None => {},
                        }
                        let k = CostKey {
                            num: num1 - num2,
                            zeros: total_zeros,
                            ones: total_ones,
                        };
                        push_cand(self, &mut pending, k, ProofValue::Minus(key1, key2));
                        match num1.checked_mul(num2) {
                            Some(x) => {
                                let k = CostKey { num: x, zeros: total_zeros, ones: total_ones };
                                push_cand(self, &mut pending, k, ProofValue::Times(key1, key2));
                            },
                            None => {},
                        }
                        if num2 != 0 && num1 % num2 == 0 {
                            let k = CostKey {
                                num: num1 / num2,
                                zeros: total_zeros,
                                ones: total_ones,
                            };
                            push_cand(self, &mut pending, k, ProofValue::Div(key1, key2));
                        }
                    }
                }
                proof {
                    assert forall|x: (CostKey, ProofValue)| pj0.contains(x) implies pending@.contains(
                        x,
                    ) by {}
                    if total_zeros <= 4 && total_ones <= 4 {
                        assert forall|x: (CostKey, ProofValue)| pshift.contains(
                            x,
                        ) implies pending@.contains(x) by {}
                    }
                    assert forall|k: CostKey, v: ProofValue|
                        #[trigger] derivable(*self, k, v) && pair_of(v, key1, key2) implies covered(
                        *self,
                        pending@,
                        k,
                        v,
                    ) by {
                        match v {
                            ProofValue::TimesShift(a, b, s) => {
                                assert(shift_of(v, key1, key2, s));
                                assert(shift_covered(*self, pshift, key1, key2, s));
                                lemma_covered_mono(*self, pshift, pending@, k, v);
                            },
                            ProofValue::DivShift(a, b, s) => {
                                assert(shift_of(v, key1, key2, s));
                                assert(shift_covered(*self, pshift, key1, key2, s));
                                lemma_covered_mono(*self, pshift, pending@, k, v);
                            },
                            ProofValue::Plus(a, b) => {
                                assert(k.num == num1 + num2 && k.zeros == total_zeros && k.ones
                                    == total_ones);
                            },
                            ProofValue::Minus(a, b) => {
                                assert(k.num == num1 - num2 && k.zeros == total_zeros && k.ones
                                    == total_ones);
                            },
                            ProofValue::Times(a, b) => {
                                assert(k.num == num1 * num2 && k.zeros == total_zeros && k.ones
                                    == total_ones);
                            },
                            _ => {},
                        }
                    }
                    assert forall|k: CostKey, v: ProofValue|
                        #[trigger] derivable(*self, k, v) && unary_of(v, key1) implies covered(
                        *self,
                        pending@,
                        k,
                        v,
                    ) by {
                        lemma_covered_mono(*self, pj0, pending@, k, v);
                    }
                    assert forall|m: int| 0 <= m < j implies pair_covered(
                        *self,
                        pending@,
                        key1,
                        #[trigger] snap@[m].0,
                    ) by {
                        assert(pair_covered(*self, pj0, key1, snap@[m].0));
                        assert forall|k: CostKey, v: ProofValue|
                            #[trigger] derivable(*self, k, v) && pair_of(
                            v,
                            key1,
                            snap@[m].0,
                        ) implies covered(*self, pending@, k, v) by {
                            lemma_covered_mono(*self, pj0, pending@, k, v);
                        }
                    }
                    assert forall|n: int| 0 <= n < i implies unary_covered(
                        *self,
                        pending@,
                        #[trigger] snap@[n].0,
                    ) by {
                        assert(unary_covered(*self, pj0, snap@[n].0));
                        assert forall|k: CostKey, v: ProofValue|
                            #[trigger] derivable(*self, k, v) && unary_of(
                            v,
                            snap@[n].0,
                        ) implies covered(*self, pending@, k, v) by {
                            lemma_covered_mono(*self, pj0, pending@, k, v);
                        }
                    }
                    assert forall|n: int, m: int|
                        0 <= n < i && 0 <= m < snap@.len() implies pair_covered(
                        *self,
                        pending@,
                        #[trigger] snap@[n].0,
                        #[trigger] snap@[m].0,
                    ) by {
                        assert(pair_covered(*self, pj0, snap@[n].0, snap@[m].0));
                        assert forall|k: CostKey, v: ProofValue|
                            #[trigger] derivable(*self, k, v) && pair_of(
                            v,
                            snap@[n].0,
                            snap@[m].0,
                        ) implies covered(*self, pending@, k, v) by {
                            lemma_covered_mono(*self, pj0, pending@, k, v);
                        }
                    }
                }
                j = j + 1;
            }
            i = i + 1;
        }
        proof {
            assert forall|k: CostKey, v: ProofValue| #[trigger] derivable(*self, k, v) implies covered(
                *self,
                pending@,
                k,
                v,
            ) by {
                match v {
                    ProofValue::Factorial(a) => {
                        let e = (a, self.at(a)->Some_0);
                        assert(snap@.contains(e));
                        let n = choose|n: int| 0 <= n < snap@.len() && snap@[n] == e;
                        assert(unary_covered(*self, pending@, snap@[n].0));
                    },
                    ProofValue::DoubleFactorial(a) => {
                        let e = (a, self.at(a)->Some_0);
                        assert(snap@.contains(e));
                        let n = choose|n: int| 0 <= n < snap@.len() && snap@[n] == e;
                        assert(unary_covered(*self, pending@, snap@[n].0));
                    },
                    ProofValue::Sqrt(a) => {
                        let e = (a, self.at(a)->Some_0);
                        assert(snap@.contains(e));
                        let n = choose|n: int| 0 <= n < snap@.len() && snap@[n] == e;
                        assert(unary_covered(*self, pending@, snap@[n].0));
                    },
                    ProofValue::Plus(a, b) => {
                        lemma_pair_case(*self, snap@, pending@, a, b, k, v);
                    },
                    ProofValue::Minus(a, b) => {
                        lemma_pair_case(*self, snap@, pending@, a, b, k, v);
                    },
                    ProofValue::Times(a, b) => {
                        lemma_pair_case(*self, snap@, pending@, a, b, k, v);
                    },
                    ProofValue::Div(a, b) => {
                        lemma_pair_case(*self, snap@, pending@, a, b, k, v);
                    },
                    ProofValue::TimesShift(a, b, _) => {
                        lemma_pair_case(*self, snap@, pending@, a, b, k, v);
                    },
                    ProofValue::DivShift(a, b, _) => {
                        lemma_pair_case(*self, snap@, pending@, a, b, k, v);
                    },
                    ProofValue::Exp(a, b) => {
                        if a.num >= b.num {
                            lemma_pair_case(*self, snap@, pending@, a, b, k, v);
                        } else {
                            lemma_pair_case(*self, snap@, pending@, b, a, k, v);
                        }
                    },
                    _ => {},
                }
            }
        }
        pending
    }
}

/// From full pairwise coverage of the snapshot, a single binary
/// derivation over the live operand pair (`e1`, `e2`) is covered.
proof fn lemma_pair_case(
    t: Table,
    snap: Seq<(CostKey, ProofValue)>,
    pending: Seq<(CostKey, ProofValue)>,
    e1: CostKey,
    e2: CostKey,
    k: CostKey,
    v: ProofValue,
)
    requires
        derivable(t, k, v),
        pair_of(v, e1, e2),
        live_entry(t, e1),
        live_entry(t, e2),
        forall|kk: CostKey| #[trigger] live_entry(t, kk) ==> snap.contains((kk, t.at(kk)->Some_0)),
        forall|n: int, m: int|
            0 <= n < snap.len() && 0 <= m < snap.len() ==> pair_covered(
                t,
                pending,
                #[trigger] snap[n].0,
                #[trigger] snap[m].0,
            ),
    ensures
        covered(t, pending, k, v),
{
    let x1 = (e1, t.at(e1)->Some_0);
    let x2 = (e2, t.at(e2)->Some_0);
    assert(snap.contains(x1));
    assert(snap.contains(x2));
    let n = choose|n: int| 0 <= n < snap.len() && snap[n] == x1;
    let m = choose|m: int| 0 <= m < snap.len() && snap[m] == x2;
    assert(pair_covered(t, pending, snap[n].0, snap[m].0));
}

/// One full pass of the closure: derive every candidate the current
/// usable entries allow and insert them first-writer-wins. Returns how
/// many inserts succeeded; a return of zero means the table is exactly as
/// it was, so the closure has reached its fixed point. Entries only ever
/// change by becoming tombstones — never to a different usable value.
pub fn closure_step(table: &mut Table) -> (added: usize)
    requires
        old(table).wf(),
        sound(*old(table)),
        dominance_ok(*old(table)),
        dominated_witnessed(*old(table)),
        no_zero_cost(*old(table)),
    ensures
        final(table).wf(),
        final(table).limit_spec() == old(table).limit_spec(),
        sound(*final(table)),
        dominance_ok(*final(table)),
        dominated_witnessed(*final(table)),
        no_zero_cost(*final(table)),
        presence_grows(*old(table), *final(table)),
        entries_monotone(*old(table), *final(table)),
        added == 0 ==> forall|k: CostKey| final(table).at(k) == old(table).at(k),
        added == 0 ==> is_fixed_point(*final(table)),
        is_fixed_point(*old(table)) ==> added == 0,
        final(table).occ_count() >= old(table).occ_count(),
        added > 0 ==> final(table).occ_count() > old(table).occ_count(),
{
    let pending = table.generate();
    let mut added: usize = 0;
    let mut i: usize = 0;
    while i < pending.len()
        invariant
            table.wf(),
            table.limit_spec() == old(table).limit_spec(),
            sound(*table),
            dominance_ok(*table),
            dominated_witnessed(*table),
            no_zero_cost(*table),
            presence_grows(*old(table), *table),
            entries_monotone(*old(table), *table),
            added == 0 ==> forall|k: CostKey| table.at(k) == old(table).at(k),
            added == 0 ==> forall|n: int|
                0 <= n < i ==> table.at(#[trigger] pending@[n].0) is Some,
            forall|k: CostKey, v: ProofValue|
                #[trigger] derivable(*old(table), k, v) ==> covered(*old(table), pending@, k, v),
            table.occ_count() >= old(table).occ_count(),
            added > 0 ==> table.occ_count() > old(table).occ_count(),
            added <= i,
            i <= pending@.len(),
            forall|n: int|
                i <= n < pending@.len() ==> cand_ok(*table, #[trigger] pending@[n]),
        decreases pending@.len() - i,
    {
        let ghost mid = *table;
        let (k, v) = pending[i];
        let ok = table.try_insert_pair(k, v);
        if ok {
            added = added + 1;
        }
        proof {
            assert forall|n: int|
                i + 1 <= n < pending@.len() implies cand_ok(*table, #[trigger] pending@[n]) by {
                lemma_entry_sound_monotone(mid, *table, pending@[n].0, pending@[n].1);
            }
            assert forall|k2: CostKey| (#[trigger] old(table).at(k2)) is Some implies table.at(k2)
                == old(table).at(k2) || table.at(k2) == Some(ProofValue::Dominated) by {
                assert(mid.at(k2) == old(table).at(k2) || mid.at(k2) == Some(
                    ProofValue::Dominated,
                ));
            }
            assert(entries_monotone(*old(table), *table));
        }
        i = i + 1;
    }
    proof {
        if is_fixed_point(*old(table)) {
            if pending@.len() > 0 {
                assert(cand_fresh(*old(table), pending@[0]));
                assert(cand_ok(*old(table), pending@[0]));
                assert(derivable(*old(table), pending@[0].0, pending@[0].1));
                assert(old(table).at(pending@[0].0) is Some);
                assert(false);
            }
        }
        if added == 0 {
            assert forall|k: CostKey, v: ProofValue|
                #[trigger] derivable(*table, k, v) && k.num <= table.limit_spec() implies table.at(
                k,
            ) is Some by {
                lemma_derivable_same_entries(*table, *old(table), k, v);
                assert(covered(*old(table), pending@, k, v));
                if pending@.contains((k, v)) {
                    let n = choose|n: int| 0 <= n < pending@.len() && pending@[n] == (k, v);
                    assert(table.at(pending@[n].0) is Some);
                }
            }
        }
    }
    added
}

/// Build the closure table for values up to `limit`: seed every literal
/// whose bit costs fit the budget, then run passes to the fixed point.
/// The result is well formed, sound, dominance-correct, and never names a
/// value above `limit`.
pub fn build_table(limit: u16) -> (t: Table)
    ensures
        t.wf(),
        t.limit_spec() == limit,
        sound(t),
        dominance_ok(t),
        dominated_witnessed(t),
        no_zero_cost(t),
        is_fixed_point(t),
        literals_seeded(t),
        forall|k: CostKey| #[trigger] t.at(k) is Some ==> k.num <= limit && k.zeros <= 4
            && k.ones <= 4,
{
    let mut t = Table::new(limit);
    let mut i: u32 = 0;
    while i < 256
        invariant
            t.wf(),
            t.limit_spec() == limit,
            sound(t),
            dominance_ok(t),
            dominated_witnessed(t),
            no_zero_cost(t),
            i <= 256,
            forall|kk: CostKey| kk.num >= i ==> #[trigger] t.at(kk) is None,
            forall|b: u16|
                b < i && b <= limit && lit_zeros(b as nat) <= 4 && lit_ones(b as nat) <= 4
                    ==> #[trigger] t.at(lit_key(b)) == Some(ProofValue::Direct(b as u8)),
        decreases 256 - i,
    {
        let num = i as u16;
        let ones = ones_u16(num);
        let zeros: u8 = if num == 0 {
            1
        } else {
            proof {
                lemma_ones_le_bitlen(num as nat);
            }
            bitlen_u16(num) - ones
        };
        if zeros <= 4 && ones <= 4 && num <= t.limit() {
            let k = CostKey { num, zeros, ones };
            proof {
                assert(k == lit_key(num));
                assert(t.at(k) is None);
            }
            let _ = t.try_insert_pair(k, ProofValue::Direct(num as u8));
        }
        i = i + 1;
    }
    proof {
        t.lemma_occ_within_capacity();
    }
    let mut grew = true;
    while grew
        invariant
            t.wf(),
            t.limit_spec() == limit,
            sound(t),
            dominance_ok(t),
            dominated_witnessed(t),
            no_zero_cost(t),
            t.occ_count() <= (limit + 1) * 25,
            !grew ==> is_fixed_point(t),
            literals_seeded(t),
        decreases (limit + 1) * 25 - t.occ_count() + (if grew {
            1int
        } else {
            0int
        }),
    {
        let ghost t0 = t;
        let added = closure_step(&mut t);
        proof {
            t.lemma_occ_within_capacity();
            assert forall|b: u16|
                b <= 255 && b <= limit && lit_zeros(b as nat) <= 4 && lit_ones(b as nat)
                    <= 4 implies #[trigger] t.at(lit_key(b)) == Some(ProofValue::Direct(b as u8))
                || t.at(lit_key(b)) == Some(ProofValue::Dominated) by {
                assert(t0.at(lit_key(b)) is Some);
            }
        }
        grew = added > 0;
    }
    proof {
        assert forall|k: CostKey| #[trigger] t.at(k) is Some implies k.num <= limit && k.zeros
            <= 4 && k.ones <= 4 by {
            t.lemma_cost_budget(k);
        }
    }
    t
}

/// The value 0 always resolves through the literal `0` at cost (1, 0):
/// its seed key can never be tombstoned, because a tombstone would need a
/// usable entry of value 0 at a smaller cost pair, and no derivation is
/// free of cost.
pub proof fn lemma_zero_resolves_via_literal(t: Table)
    requires
        literals_seeded(t),
        dominated_witnessed(t),
        no_zero_cost(t),
    ensures
        t.at(CostKey { num: 0, zeros: 1, ones: 0 }) == Some(ProofValue::Direct(0)),
{
    assert(lit_key(0) == CostKey { num: 0, zeros: 1, ones: 0 });
    assert(t.at(lit_key(0)) == Some(ProofValue::Direct(0)) || t.at(lit_key(0)) == Some(
        ProofValue::Dominated,
    ));
    if t.at(lit_key(0)) == Some(ProofValue::Dominated) {
        let w = choose|w: CostKey| witness_for(t, lit_key(0), w);
        assert(witness_for(t, lit_key(0), w));
        assert(w.zeros == 0 && w.ones == 0);
        assert(t.at(w) is None);
        assert(false);
    }
}

/// 720 = 6! is reachable at a cost no worse than the literal 6's
/// (binary 110: one budget zero, two budget ones): the table holds a
/// usable 6-entry at cost at most (1, 2), the factorial of that entry is
/// derivable, and the fixed point forces a usable 720-entry at most as
/// expensive.
pub proof fn lemma_factorial_720_reachable(t: Table)
    requires
        t.limit_spec() >= 720,
        literals_seeded(t),
        dominated_witnessed(t),
        is_fixed_point(t),
    ensures
        exists|k: CostKey| k.num == 720 && k.zeros <= 1 && k.ones <= 2 && #[trigger] live_entry(
            t,
            k,
        ),
{
    assert(lit_zeros(6) == 1 && lit_ones(6) == 2) by {
        reveal_with_fuel(crate::model::bitlen, 5);
        reveal_with_fuel(crate::model::ones_of, 5);
    }
    assert(lit_key(6) == CostKey { num: 6, zeros: 1, ones: 2 });
    assert(t.at(lit_key(6)) == Some(ProofValue::Direct(6)) || t.at(lit_key(6)) == Some(
        ProofValue::Dominated,
    ));
    let six: CostKey = if t.at(lit_key(6)) == Some(ProofValue::Direct(6)) {
        lit_key(6)
    } else {
        let w = choose|w: CostKey| witness_for(t, lit_key(6), w);
        assert(witness_for(t, lit_key(6), w));
        w
    };
    assert(six.num == 6 && six.zeros <= 1 && six.ones <= 2 && live_entry(t, six));
    let k720 = CostKey { num: 720, zeros: six.zeros, ones: six.ones };
    assert(fact(6) == 720) by {
        reveal_with_fuel(crate::model::fact, 8);
    }
    assert(derivable(t, k720, ProofValue::Factorial(six)));
    assert(t.at(k720) is Some);
    if t.at(k720) == Some(ProofValue::Dominated) {
        let w2 = choose|w2: CostKey| witness_for(t, k720, w2);
        assert(witness_for(t, k720, w2));
        assert(w2.num == 720 && w2.zeros <= 1 && w2.ones <= 2 && live_entry(t, w2));
    } else {
        assert(live_entry(t, k720));
    }
}

/// Where a key falls in the lookup order: total cost ascending, and
/// within one total, zero-cost descending.
pub open spec fn scan_rank(k: CostKey) -> int {
    (k.zeros + k.ones) * 5 + 4 - k.zeros
}

/// The cost pairs a value is looked up under, cheapest first: total cost
/// ascending, and within one total, zero-cost descending. Returns the
/// keys of every usable entry for `num`, in that order; an empty result
/// means the value was not found.
pub fn found_keys(table: &Table, num: u16) -> (r: Vec<CostKey>)
    requires
        table.wf(),
    ensures
        forall|i: int|
            0 <= i < r@.len() ==> (#[trigger] r@[i]).num == num && live_entry(*table, r@[i]),
        forall|z: u8, o: u8|
            z <= 4 && o <= 4 && #[trigger] live_entry(*table, CostKey { num, zeros: z, ones: o })
                ==> r@.contains(CostKey { num, zeros: z, ones: o }),
        forall|i: int, j: int|
            0 <= i < j < r@.len() ==> scan_rank(r@[i]) < scan_rank(r@[j]),
{
    let mut r: Vec<CostKey> = Vec::new();
    let mut sum: u8 = 0;
    while sum < 9
        invariant
            table.wf(),
            sum <= 9,
            forall|i: int|
                0 <= i < r@.len() ==> (#[trigger] r@[i]).num == num && live_entry(*table, r@[i]),
            forall|z: u8, o: u8|
                z <= 4 && o <= 4 && z + o < sum && #[trigger] live_entry(
                    *table,
                    CostKey { num, zeros: z, ones: o },
                ) ==> r@.contains(CostKey { num, zeros: z, ones: o }),
            forall|i: int| 0 <= i < r@.len() ==> scan_rank(#[trigger] r@[i]) < sum * 5,
            forall|i: int, j: int|
                0 <= i < j < r@.len() ==> scan_rank(r@[i]) < scan_rank(r@[j]),
        decreases 9 - sum,
    {
        let mut zi: u8 = 0;
        while zi < 5
            invariant
                table.wf(),
                sum <= 8,
                zi <= 5,
                forall|i: int|
                    0 <= i < r@.len() ==> (#[trigger] r@[i]).num == num && live_entry(
                        *table,
                        r@[i],
                    ),
                forall|z: u8, o: u8|
                    z <= 4 && o <= 4 && (z + o < sum || (z + o == sum && 4 - z < zi))
                        && #[trigger] live_entry(*table, CostKey { num, zeros: z, ones: o })
                        ==> r@.contains(CostKey { num, zeros: z, ones: o }),
                forall|i: int| 0 <= i < r@.len() ==> scan_rank(#[trigger] r@[i]) < sum * 5 + zi,
                forall|i: int, j: int|
                    0 <= i < j < r@.len() ==> scan_rank(r@[i]) < scan_rank(r@[j]),
            decreases 5 - zi,
        {
            let zeros = 4 - zi;
            if zeros <= sum {
                let ones = sum - zeros;
                if ones <= 4 {
                    let k = CostKey { num, zeros, ones };
                    match table.get(k) {
                        Some(v) => {
                            if !matches!(v, ProofValue::Dominated) {
                                let ghost r0 = r@;
                                r.push(k);
                                proof {
                                    assert(r@[r@.len() - 1] == k);
                                    assert forall|x: CostKey| r0.contains(x) implies r@.contains(
                                        x,
                                    ) by {
                                        let idx = choose|idx: int|
                                            0 <= idx < r0.len() && r0[idx] == x;
                                        assert(r@[idx] == x);
                                    }
                                }
                            }
                        },
                        None => {},
                    }
                }
            }
            zi = zi + 1;
        }
        sum = sum + 1;
    }
    r
}

} // verus!
