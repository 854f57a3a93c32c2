//! The table of derivations: a map from `CostKey` to `ProofValue`, stored
//! densely so that lookup, insertion and deterministic iteration are all
//! index arithmetic. The table's central invariants live here:
//! `dominance_ok` (a usable entry tombstones every entry of the same value
//! with a weakly larger cost) and `sound` (every usable entry's recorded
//! derivation really produces its value from its operand keys).

use vstd::prelude::*;

use crate::model::CostKey;
use crate::model::ProofValue;
use crate::model::dfact;
use crate::model::fact;
use crate::model::lit_ones;
use crate::model::lit_zeros;
use crate::model::bitlen;
use vstd::arithmetic::power::pow;
use vstd::arithmetic::power2::pow2;

verus! {

/// The table. `slots` has one cell for every key with `num <= limit` and
/// both costs at most 4; the cell for a key sits at
/// `num * 25 + zeros * 5 + ones`, so iteration by index is iteration in
/// the lexicographic (num, zeros, ones) order the fixed point requires.
pub struct Table {
    limit: u16,
    slots: Vec<Option<ProofValue>>,
}

/// Number of occupied cells.
pub closed spec fn occ(s: Seq<Option<ProofValue>>) -> nat
    decreases s.len(),
{
    if s.len() == 0 {
        0
    } else {
        occ(s.drop_last()) + (if s.last() is Some {
            1nat
        } else {
            0nat
        })
    }
}

proof fn lemma_occ_le_len(s: Seq<Option<ProofValue>>)
    ensures
        occ(s) <= s.len(),
    decreases s.len(),
{
    if s.len() > 0 {
        lemma_occ_le_len(s.drop_last());
    }
}

proof fn lemma_occ_all_none(s: Seq<Option<ProofValue>>)
    requires
        forall|i: int| 0 <= i < s.len() ==> s[i] is None,
    ensures
        occ(s) == 0,
    decreases s.len(),
{
    if s.len() > 0 {
        lemma_occ_all_none(s.drop_last());
    }
}

proof fn lemma_occ_update(s: Seq<Option<ProofValue>>, i: int, v: ProofValue)
    requires
        0 <= i < s.len(),
    ensures
        occ(s.update(i, Some(v))) == occ(s) + (if s[i] is Some {
            0nat
        } else {
            1nat
        }),
    decreases s.len(),
{
    let t = s.update(i, Some(v));
    if i == s.len() - 1 {
        assert(t.drop_last() =~= s.drop_last());
    } else {
        assert(t.drop_last() =~= s.drop_last().update(i, Some(v)));
        lemma_occ_update(s.drop_last(), i, v);
    }
}

impl Table {
    /// The derivation ceiling this table was built for.
    pub closed spec fn limit_spec(self) -> u16 {
        self.limit
    }

    /// The entry stored for `k`, or `None` for a key never written or out
    /// of this table's range.
    pub closed spec fn at(self, k: CostKey) -> Option<ProofValue> {
        if k.num <= self.limit && k.zeros <= 4 && k.ones <= 4 && k.num * 25 + k.zeros * 5 + k.ones
            < self.slots@.len() {
            self.slots@[k.num * 25 + k.zeros * 5 + k.ones]
        } else {
            None
        }
    }

    pub closed spec fn wf(self) -> bool {
        self.slots@.len() == (self.limit + 1) * 25
    }

    /// How many keys hold an entry (tombstones included).
    pub closed spec fn occ_count(self) -> nat {
        occ(self.slots@)
    }

    /// Room never runs out: at most one entry per in-range key.
    pub proof fn lemma_occ_within_capacity(self)
        requires
            self.wf(),
        ensures
            self.occ_count() <= (self.limit_spec() + 1) * 25,
    {
        lemma_occ_le_len(self.slots@);
    }

    /// Cost-budget invariant: any key that holds an entry spends at most 4
    /// on each cost coordinate, and never names a value above the limit.
    pub proof fn lemma_cost_budget(self, k: CostKey)
        ensures
            self.at(k) is Some ==> k.zeros <= 4 && k.ones <= 4 && k.num <= self.limit_spec(),
    {
    }

    /// An empty table for values up to `limit`.
    pub fn new(limit: u16) -> (t: Table)
        ensures
            t.wf(),
            t.limit_spec() == limit,
            forall|k: CostKey| t.at(k) is None,
            t.occ_count() == 0,
    {
        let cap: usize = (limit as usize + 1) * 25;
        let mut slots: Vec<Option<ProofValue>> = Vec::new();
        while slots.len() < cap
            invariant
                slots@.len() <= cap,
                forall|i: int| 0 <= i < slots@.len() ==> slots@[i] is None,
            decreases cap - slots@.len(),
        {
            slots.push(None);
        }
        proof {
            lemma_occ_all_none(slots@);
        }
        Table { limit, slots }
    }

    /// The derivation ceiling this table was built for.
    pub fn limit(&self) -> (r: u16)
        ensures
            r == self.limit_spec(),
    {
        self.limit
    }

    /// The entry stored for `k`, if any.
    pub fn get(&self, k: CostKey) -> (r: Option<ProofValue>)
        requires
            self.wf(),
        ensures
            r == self.at(k),
    {
        if k.num <= self.limit && k.zeros <= 4 && k.ones <= 4 {
            let idx: usize = k.num as usize * 25 + k.zeros as usize * 5 + k.ones as usize;
            self.slots[idx]
        } else {
            None
        }
    }

    fn set_slot(&mut self, k: CostKey, v: ProofValue)
        requires
            old(self).wf(),
            k.num <= old(self).limit_spec(),
            k.zeros <= 4,
            k.ones <= 4,
        ensures
            final(self).wf(),
            final(self).limit_spec() == old(self).limit_spec(),
            final(self).at(k) == Some(v),
            forall|k2: CostKey| k2 != k ==> final(self).at(k2) == old(self).at(k2),
            final(self).occ_count() == old(self).occ_count() + (if old(self).at(k) is Some {
                0nat
            } else {
                1nat
            }),
    {
        let idx: usize = k.num as usize * 25 + k.zeros as usize * 5 + k.ones as usize;
        proof {
            lemma_occ_update(self.slots@, idx as int, v);
        }
        self.slots.set(idx, Some(v));
        proof {
            assert forall|k2: CostKey| k2 != k implies self.at(k2) == old(self).at(k2) by {
                if k2.num <= self.limit && k2.zeros <= 4 && k2.ones <= 4 {
                    assert(k2.num * 25 + k2.zeros * 5 + k2.ones != idx);
                }
            }
        }
    }
}

/// Key `k2` names the same value as `k` at a weakly larger cost pair:
/// exactly the keys tombstoned when `k` is first inserted.
pub open spec fn shadowed_by(k: CostKey, k2: CostKey) -> bool {
    k2.num == k.num && k2.zeros >= k.zeros && k2.ones >= k.ones && k2 != k && k2.zeros <= 4
        && k2.ones <= 4
}

/// Key `k` holds a usable (non-tombstone) entry.
pub open spec fn live_entry(t: Table, k: CostKey) -> bool {
    t.at(k) is Some && t.at(k) != Some(ProofValue::Dominated)
}

/// Domination correctness: whenever a key holds a usable (non-tombstone)
/// entry, every key for the same value whose cost pair is weakly larger
/// (and different) holds the tombstone.
pub open spec fn dominance_ok(t: Table) -> bool {
    forall|k1: CostKey, k2: CostKey|
        shadowed_by(k1, k2) && #[trigger] live_entry(t, k1) ==> #[trigger] t.at(k2) == Some(
            ProofValue::Dominated,
        )
}

/// Extra zero cost charged by a shift: the shift amount less the bit width
/// of the literal operand, when positive.
pub open spec fn shift_extra(s: nat, bnum: nat) -> nat {
    if s <= bitlen(bnum) {
        0
    } else {
        (s - bitlen(bnum)) as nat
    }
}

/// Key `b` holds a literal entry, or held one before a cheaper derivation
/// of the same value tombstoned it: the only fates of a shifted
/// operator's right operand, whose entry is a literal when the
/// derivation is recorded and can only ever change to the tombstone.
pub open spec fn was_literal(t: Table, b: CostKey) -> bool {
    t.at(b) is Some && (t.at(b)->Some_0 is Direct || t.at(b)->Some_0 == ProofValue::Dominated)
}

/// The recorded derivation `v` really produces `k`: its operand keys hold
/// entries, the arithmetic comes out to exactly `k.num`, and the cost pair
/// is the one the operator charges.
pub open spec fn entry_sound(t: Table, k: CostKey, v: ProofValue) -> bool {
    match v {
        ProofValue::Direct(b) => k.num == b && k.zeros == lit_zeros(b as nat) && k.ones == lit_ones(
            b as nat,
        ),
        ProofValue::Factorial(a) => t.at(a) is Some && a.num <= 8 && k.num == fact(a.num as nat)
            && k.zeros == a.zeros && k.ones == a.ones,
        ProofValue::DoubleFactorial(a) => t.at(a) is Some && a.num <= 12 && k.num == dfact(
            a.num as nat,
        ) && k.zeros == a.zeros && k.ones == a.ones,
        ProofValue::Sqrt(a) => t.at(a) is Some && k.num * k.num == a.num && k.zeros == a.zeros
            && k.ones == a.ones,
        ProofValue::Plus(a, b) => t.at(a) is Some && t.at(b) is Some && a.num >= b.num && k.num
            == a.num + b.num && k.zeros == a.zeros + b.zeros && k.ones == a.ones + b.ones,
        ProofValue::Minus(a, b) => t.at(a) is Some && t.at(b) is Some && a.num >= b.num && k.num
            == a.num - b.num && k.zeros == a.zeros + b.zeros && k.ones == a.ones + b.ones,
        ProofValue::Times(a, b) => t.at(a) is Some && t.at(b) is Some && a.num >= b.num && k.num
            == a.num * b.num && k.zeros == a.zeros + b.zeros && k.ones == a.ones + b.ones,
        ProofValue::Div(a, b) => t.at(a) is Some && t.at(b) is Some && a.num >= b.num && b.num != 0
            && a.num % b.num == 0 && k.num == a.num / b.num && k.zeros == a.zeros + b.zeros
            && k.ones == a.ones + b.ones,
        ProofValue::Exp(a, b) => t.at(a) is Some && t.at(b) is Some && k.num == pow(
            a.num as int,
            b.num as nat,
        ) && k.zeros == a.zeros + b.zeros && k.ones == a.ones + b.ones,
        ProofValue::TimesShift(a, b, s) => t.at(a) is Some && was_literal(t, b) && 1 <= s < 8
            && a.num as int % pow2(s as nat) as int == 0 && a.num * b.num <= u16::MAX && k.num
            == a.num * b.num / pow2(s as nat) as int && k.zeros == a.zeros + b.zeros + shift_extra(
            s as nat,
            b.num as nat,
        ) && k.ones == a.ones + b.ones,
        ProofValue::DivShift(a, b, s) => t.at(a) is Some && was_literal(t, b) && 1 <= s < 8 && b.num
            != 0 && a.num % b.num == 0 && k.num == (a.num / b.num) * pow2(s as nat) && k.zeros
            == a.zeros + b.zeros + shift_extra(s as nat, b.num as nat) && k.ones == a.ones + b.ones,
        ProofValue::Dominated => false,
    }
}

/// Every usable entry of the table records a correct derivation.
pub open spec fn sound(t: Table) -> bool {
    forall|k: CostKey| #[trigger] live_entry(t, k) ==> entry_sound(t, k, t.at(k)->Some_0)
}

/// Every key occupied in `t1` is occupied in `t2`.
pub open spec fn presence_grows(t1: Table, t2: Table) -> bool {
    forall|k: CostKey| (#[trigger] t1.at(k)) is Some ==> t2.at(k) is Some
}

/// How a table may evolve: the only change an occupied key can see is to
/// the tombstone. Once a key records a usable derivation, it never
/// records a different one.
pub open spec fn entries_monotone(t1: Table, t2: Table) -> bool {
    forall|k: CostKey|
        (#[trigger] t1.at(k)) is Some ==> t2.at(k) == t1.at(k) || t2.at(k) == Some(
            ProofValue::Dominated,
        )
}

/// `k2` is a usable entry of the same value as `k` at a weakly smaller
/// cost pair: the justification for `k`'s tombstone.
pub open spec fn witness_for(t: Table, k: CostKey, k2: CostKey) -> bool {
    k2.num == k.num && k2.zeros <= k.zeros && k2.ones <= k.ones && k2 != k && live_entry(t, k2)
}

/// Every tombstone is justified: a usable entry of the same value exists
/// at a weakly smaller, different cost pair.
pub open spec fn dominated_witnessed(t: Table) -> bool {
    forall|k: CostKey|
        #[trigger] t.at(k) == Some(ProofValue::Dominated) ==> exists|k2: CostKey|
            #[trigger] witness_for(t, k, k2)
}

/// No entry is free: every derivation spends at least one budget bit.
pub open spec fn no_zero_cost(t: Table) -> bool {
    forall|k: CostKey| k.zeros == 0 && k.ones == 0 ==> #[trigger] t.at(k) is None
}

/// A sound derivation stays sound as the table evolves: its operand keys
/// stay occupied, and a literal operand can only have become a tombstone,
/// which `was_literal` admits.
pub proof fn lemma_entry_sound_monotone(t1: Table, t2: Table, k: CostKey, v: ProofValue)
    requires
        entry_sound(t1, k, v),
        entries_monotone(t1, t2),
    ensures
        entry_sound(t2, k, v),
{
    match v {
        ProofValue::TimesShift(a, b, _) => {
            assert(t1.at(a) is Some && t1.at(b) is Some);
        },
        ProofValue::DivShift(a, b, _) => {
            assert(t1.at(a) is Some && t1.at(b) is Some);
        },
        _ => {},
    }
}

impl Table {
    /// First-writer-wins insertion: if `k` is free, record `v` there and
    /// tombstone every key shadowed by `k`; if `k` is taken, do nothing.
    /// Once a key holds a usable entry, the only change it can ever see is
    /// to the tombstone; an entry is never replaced by a different usable
    /// derivation, and tombstones are final.
    pub(crate) fn try_insert_pair(&mut self, k: CostKey, v: ProofValue) -> (added: bool)
        requires
            old(self).wf(),
            sound(*old(self)),
            dominance_ok(*old(self)),
            k.num <= old(self).limit_spec(),
            k.zeros <= 4,
            k.ones <= 4,
            v != ProofValue::Dominated,
            entry_sound(*old(self), k, v),
            dominated_witnessed(*old(self)),
            no_zero_cost(*old(self)),
        ensures
            final(self).wf(),
            final(self).limit_spec() == old(self).limit_spec(),
            sound(*final(self)),
            dominance_ok(*final(self)),
            dominated_witnessed(*final(self)),
            no_zero_cost(*final(self)),
            added == (old(self).at(k) is None),
            !added ==> forall|k2: CostKey| final(self).at(k2) == old(self).at(k2),
            added ==> forall|k2: CostKey|
                #[trigger] final(self).at(k2) == (if k2 == k {
                    Some(v)
                } else if shadowed_by(k, k2) {
                    Some(ProofValue::Dominated)
                } else {
                    old(self).at(k2)
                }),
            entries_monotone(*old(self), *final(self)),
            presence_grows(*old(self), *final(self)),
            final(self).occ_count() >= old(self).occ_count(),
            added ==> final(self).occ_count() > old(self).occ_count(),
    {
        if self.get(k).is_some() {
            return false;
        }
        self.set_slot(k, v);
        let mut z: u8 = k.zeros;
        while z <= 4
            invariant
                self.wf(),
                self.limit_spec() == old(self).limit_spec(),
                k.num <= self.limit_spec(),
                k.zeros <= z <= 5,
                k.ones <= 4,
                self.at(k) == Some(v),
                forall|k2: CostKey|
                    shadowed_by(k, k2) && k2.zeros < z ==> #[trigger] self.at(k2) == Some(
                        ProofValue::Dominated,
                    ),
                forall|k2: CostKey|
                    k2 != k && !(shadowed_by(k, k2) && k2.zeros < z) ==> #[trigger] self.at(k2)
                        == old(self).at(k2),
                self.occ_count() > old(self).occ_count(),
            decreases 5 - z,
        {
            let mut o: u8 = k.ones;
            while o <= 4
                invariant
                    self.wf(),
                    self.limit_spec() == old(self).limit_spec(),
                    k.num <= self.limit_spec(),
                    k.zeros <= z <= 4,
                    k.ones <= o <= 5,
                    self.at(k) == Some(v),
                    forall|k2: CostKey|
                        shadowed_by(k, k2) && (k2.zeros < z || (k2.zeros == z && k2.ones < o))
                            ==> #[trigger] self.at(k2) == Some(ProofValue::Dominated),
                    forall|k2: CostKey|
                        k2 != k && !(shadowed_by(k, k2) && (k2.zeros < z || (k2.zeros == z
                            && k2.ones < o))) ==> #[trigger] self.at(k2) == old(self).at(k2),
                    self.occ_count() > old(self).occ_count(),
                decreases 5 - o,
            {
                if !(z == k.zeros && o == k.ones) {
                    self.set_slot(
                        CostKey { num: k.num, zeros: z, ones: o },
                        ProofValue::Dominated,
                    );
                }
                o = o + 1;
            }
            z = z + 1;
        }
        proof {
            let t0 = *old(self);
            let t1 = *self;
            assert forall|k2: CostKey| (#[trigger] t0.at(k2)) is Some implies t1.at(k2) == t0.at(
                k2,
            ) || t1.at(k2) == Some(ProofValue::Dominated) by {
                assert(t1.at(k2) == (if k2 == k {
                    Some(v)
                } else if shadowed_by(k, k2) {
                    Some(ProofValue::Dominated)
                } else {
                    t0.at(k2)
                }));
            }
            assert(!(k.zeros == 0 && k.ones == 0)) by {
                match v {
                    ProofValue::Direct(b) => {
                        if b > 0 {
                            crate::model::lemma_ones_pos(b as nat);
                        }
                    },
                    _ => {},
                }
            }
            assert forall|kz: CostKey| kz.zeros == 0 && kz.ones == 0 implies (#[trigger] t1.at(
                kz,
            )) is None by {
                assert(t0.at(kz) is None);
            }
            assert forall|kd: CostKey| #[trigger] t1.at(kd) == Some(
                ProofValue::Dominated,
            ) implies exists|k2: CostKey| #[trigger] witness_for(t1, kd, k2) by {
                if shadowed_by(k, kd) {
                    assert(witness_for(t1, kd, k));
                } else {
                    assert(t0.at(kd) == Some(ProofValue::Dominated));
                    let w = choose|w: CostKey| witness_for(t0, kd, w);
                    if shadowed_by(k, w) {
                        assert(witness_for(t1, kd, k));
                    } else {
                        assert(w != k);
                        assert(t1.at(w) == t0.at(w));
                        assert(witness_for(t1, kd, w));
                    }
                }
            }
            assert forall|k2: CostKey| #[trigger] live_entry(t1, k2) implies entry_sound(
                t1,
                k2,
                t1.at(k2)->Some_0,
            ) by {
                if k2 == k {
                    lemma_entry_sound_monotone(t0, t1, k, v);
                } else {
                    assert(t0.at(k2) == t1.at(k2));
                    assert(live_entry(t0, k2));
                    lemma_entry_sound_monotone(t0, t1, k2, t1.at(k2)->Some_0);
                }
            }
            assert forall|ka: CostKey, kb: CostKey|
                shadowed_by(ka, kb) && #[trigger] live_entry(t1, ka) implies (#[trigger] t1.at(kb))
                == Some(ProofValue::Dominated) by {
                if ka == k {
                } else if shadowed_by(k, ka) {
                } else {
                    // ka kept its old entry; the old table answers for kb
                    // unless kb is the newly written key or a fresh
                    // tombstone, and kb == k is impossible because the old
                    // dominance invariant would have made k occupied.
                    assert(t0.at(ka) == t1.at(ka));
                    assert(live_entry(t0, ka));
                    if kb == k {
                        assert(t0.at(kb) == Some(ProofValue::Dominated));  // from dominance_ok(t0)
                        assert(false);
                    }
                }
            }
        }
        true
    }
}

} // verus!
