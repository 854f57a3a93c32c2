//! Behaviour of the closure engine: seeded literals, dominance pruning,
//! the cost budget, the fixed point, limits, and determinism.

use bitbudget::build_table;
use bitbudget::closure_step;
use bitbudget::found_keys;
use bitbudget::CostKey;
use bitbudget::ProofValue;

#[test]
fn literal_zero_found() {
    let t = build_table(10);
    let k = CostKey { num: 0, zeros: 1, ones: 0 };
    assert_eq!(t.get(k), Some(ProofValue::Direct(0)));
    let r = found_keys(&t, 0);
    assert!(!r.is_empty());
    assert_eq!(r[0], k);
}

#[test]
fn literal_one_found() {
    let t = build_table(10);
    let k = CostKey { num: 1, zeros: 0, ones: 1 };
    assert_eq!(t.get(k), Some(ProofValue::Direct(1)));
    let r = found_keys(&t, 1);
    assert!(!r.is_empty());
    // the scan prefers higher zero-cost within one total, so the
    // derivation 0! of value 1 at cost (1,0) comes first
    assert_eq!(r[0], CostKey { num: 1, zeros: 1, ones: 0 });
    assert_eq!(t.get(r[0]), Some(ProofValue::Factorial(CostKey { num: 0, zeros: 1, ones: 0 })));
    assert!(r.contains(&k));
}

#[test]
fn factorial_of_three_beats_literal_six() {
    let t = build_table(10);
    let three = CostKey { num: 3, zeros: 0, ones: 2 };
    assert_eq!(t.get(three), Some(ProofValue::Direct(3)));
    let k = CostKey { num: 6, zeros: 0, ones: 2 };
    assert_eq!(t.get(k), Some(ProofValue::Factorial(three)));
    // the literal 6 (binary 110, cost 1,2) is superseded by 3! at (0,2)
    let lit = CostKey { num: 6, zeros: 1, ones: 2 };
    assert_eq!(t.get(lit), Some(ProofValue::Dominated));
}

#[test]
fn cost_budget_holds() {
    let t = build_table(100);
    for num in 0..=100u16 {
        for zeros in 0..5u8 {
            for ones in 0..5u8 {
                let k = CostKey { num, zeros, ones };
                if let Some(v) = t.get(k) {
                    if v != ProofValue::Dominated {
                        assert!(k.zeros <= 4 && k.ones <= 4);
                    }
                }
            }
        }
    }
}

#[test]
fn domination_correctness_holds() {
    let t = build_table(100);
    for num in 0..=100u16 {
        for zeros in 0..5u8 {
            for ones in 0..5u8 {
                let k = CostKey { num, zeros, ones };
                match t.get(k) {
                    Some(v) if v != ProofValue::Dominated => {
                        for z2 in zeros..5u8 {
                            for o2 in ones..5u8 {
                                if z2 != zeros || o2 != ones {
                                    let k2 = CostKey { num, zeros: z2, ones: o2 };
                                    assert_eq!(t.get(k2), Some(ProofValue::Dominated));
                                }
                            }
                        }
                    },
                    _ => {},
                }
            }
        }
    }
}

#[test]
fn values_above_limit_never_appear() {
    let t = build_table(10);
    for num in [11u16, 12, 64, 255] {
        for zeros in 0..5u8 {
            for ones in 0..5u8 {
                assert_eq!(t.get(CostKey { num, zeros, ones }), None);
            }
        }
        assert!(found_keys(&t, num).is_empty());
    }
}

#[test]
fn fixed_point_is_reached() {
    let mut t = build_table(200);
    assert_eq!(closure_step(&mut t), 0);
}

#[test]
fn runs_are_deterministic() {
    let a = build_table(150);
    let b = build_table(150);
    for num in 0..=150u16 {
        for zeros in 0..5u8 {
            for ones in 0..5u8 {
                let k = CostKey { num, zeros, ones };
                assert_eq!(a.get(k), b.get(k));
            }
        }
        assert_eq!(found_keys(&a, num), found_keys(&b, num));
    }
}

#[test]
fn value_255_composed_not_literal() {
    let t = build_table(300);
    for zeros in 0..5u8 {
        for ones in 0..5u8 {
            let k = CostKey { num: 255, zeros, ones };
            if let Some(v) = t.get(k) {
                assert_ne!(v, ProofValue::Direct(255));
            }
        }
    }
    assert!(!found_keys(&t, 255).is_empty());
}

#[test]
fn factorial_720_within_literal_six_cost() {
    let t = build_table(720);
    let r = found_keys(&t, 720);
    // literal 6 is binary 110: one budget zero, two budget ones
    assert!(r.iter().any(|k| k.zeros <= 1 && k.ones <= 2));
}

#[test]
fn factorial_720_at_full_limit() {
    let t = build_table(65535);
    let r = found_keys(&t, 720);
    assert!(r.iter().any(|k| k.zeros <= 1 && k.ones <= 2));
}
