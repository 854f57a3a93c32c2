//! Rendering: binary literals, operator precedence wrapping, decimal
//! point splicing, the condensed top-level descriptors, big_num, and the
//! exact-square-root capability.

use bitbudget::build_table;
use bitbudget::big_num;
use bitbudget::can_render;
use bitbudget::is_perfect_square;
use bitbudget::value_to_string;
use bitbudget::value_to_top;
use bitbudget::CostKey;
use bitbudget::ProofValue;

fn key(num: u16, zeros: u8, ones: u8) -> CostKey {
    CostKey { num, zeros, ones }
}

#[test]
fn literal_renders_as_binary() {
    let t = build_table(10);
    let v = t.get(key(0, 1, 0)).unwrap();
    assert!(can_render(&t, v));
    assert_eq!(value_to_string(v, &t, false), "0");
    let v5 = t.get(key(5, 1, 2)).unwrap();
    assert_eq!(v5, ProofValue::Direct(5));
    assert_eq!(value_to_string(v5, &t, false), "101");
    // a bare literal is never parenthesized, even when wrap is requested
    assert_eq!(value_to_string(v5, &t, true), "101");
}

#[test]
fn factorial_renders_with_wrapped_operand() {
    let t = build_table(10);
    let v = t.get(key(6, 0, 2)).unwrap();
    assert_eq!(v, ProofValue::Factorial(key(3, 0, 2)));
    assert!(can_render(&t, v));
    assert_eq!(value_to_string(v, &t, false), "11!");
    assert_eq!(value_to_top(v), "3!");
}

#[test]
fn top_descriptors_use_decimal_operands() {
    assert_eq!(value_to_top(ProofValue::Direct(13)), "13");
    assert_eq!(value_to_top(ProofValue::Plus(key(5, 1, 2), key(3, 0, 2))), "5+3");
    assert_eq!(value_to_top(ProofValue::Minus(key(12, 2, 2), key(5, 1, 2))), "12-5");
    assert_eq!(value_to_top(ProofValue::Times(key(12, 2, 2), key(5, 1, 2))), "12*5");
    assert_eq!(value_to_top(ProofValue::Div(key(12, 2, 2), key(3, 0, 2))), "12/3");
    assert_eq!(value_to_top(ProofValue::Exp(key(2, 1, 1), key(8, 3, 1))), "2^8");
    assert_eq!(value_to_top(ProofValue::DoubleFactorial(key(7, 0, 3))), "7!!");
    assert_eq!(value_to_top(ProofValue::Sqrt(key(9, 2, 2))), "s(9)");
}

#[test]
fn shift_descriptors_splice_a_decimal_point() {
    // second operand shown in binary; 5 is 101
    let v = ProofValue::TimesShift(key(12, 2, 2), key(5, 1, 2), 2);
    assert_eq!(value_to_top(v), "12*1.01");
    // shift longer than the digits pads with zeros after the point
    let v2 = ProofValue::TimesShift(key(12, 2, 2), key(5, 1, 2), 4);
    assert_eq!(value_to_top(v2), "12*.0101");
    let v3 = ProofValue::DivShift(key(12, 2, 2), key(3, 0, 2), 1);
    assert_eq!(value_to_top(v3), "12/1.1");
}

#[test]
fn big_num_reports_largest_operand() {
    assert_eq!(big_num(ProofValue::Direct(7)), 7);
    assert_eq!(big_num(ProofValue::Plus(key(5, 1, 2), key(9, 2, 2))), 9);
    assert_eq!(big_num(ProofValue::Factorial(key(8, 3, 1))), 8);
    assert_eq!(big_num(ProofValue::TimesShift(key(12, 2, 2), key(5, 1, 2), 2)), 12);
    // the literal operand counts too when it is the larger one
    assert_eq!(big_num(ProofValue::TimesShift(key(4, 2, 1), key(17, 3, 2), 2)), 17);
    assert_eq!(big_num(ProofValue::DivShift(key(12, 2, 2), key(48, 2, 2), 1)), 48);
}

#[test]
fn perfect_square_test_is_exact() {
    assert_eq!(is_perfect_square(0), Some(0));
    assert_eq!(is_perfect_square(1), Some(1));
    assert_eq!(is_perfect_square(49), Some(7));
    assert_eq!(is_perfect_square(48), None);
    assert_eq!(is_perfect_square(50), None);
    assert_eq!(is_perfect_square(65025), Some(255));
    assert_eq!(is_perfect_square(65535), None);
}

#[test]
fn two_via_halving_division() {
    // the deterministic scan derives 2 at cost (0,2) as 1 divided by the
    // literal 1 shifted one place: one half, before 1+1 is considered
    let t = build_table(10);
    let one = CostKey { num: 1, zeros: 0, ones: 1 };
    let v = t.get(CostKey { num: 2, zeros: 0, ones: 2 }).unwrap();
    assert_eq!(v, ProofValue::DivShift(one, one, 1));
    assert!(can_render(&t, v));
    assert_eq!(value_to_string(v, &t, false), "1/.1");
    assert_eq!(value_to_top(v), "1/.1");
}

fn eval(t: &bitbudget::Table, v: ProofValue) -> u64 {
    let fetch = |k: CostKey| {
        let inner = t.get(k).expect("Present");
        assert_ne!(inner, ProofValue::Dominated);
        eval(t, inner)
    };
    match v {
        ProofValue::Direct(b) => b as u64,
        ProofValue::Factorial(a) => (1..=fetch(a)).product(),
        ProofValue::DoubleFactorial(a) => {
            let mut acc: u64 = 1;
            let mut m = fetch(a);
            while m > 1 {
                acc *= m;
                m -= 2;
            }
            acc
        }
        ProofValue::Sqrt(a) => {
            let n = fetch(a);
            let r = (n as f64).sqrt().round() as u64;
            assert_eq!(r * r, n);
            r
        }
        ProofValue::Plus(a, b) => fetch(a) + fetch(b),
        ProofValue::Minus(a, b) => fetch(a) - fetch(b),
        ProofValue::Times(a, b) => fetch(a) * fetch(b),
        ProofValue::Div(a, b) => fetch(a) / fetch(b),
        ProofValue::Exp(a, b) => fetch(a).pow(fetch(b) as u32),
        ProofValue::TimesShift(a, b, sh) => (fetch(a) * fetch(b)) >> sh,
        ProofValue::DivShift(a, b, sh) => (fetch(a) / fetch(b)) << sh,
        ProofValue::Dominated => panic!("Dominated"),
    }
}

#[test]
fn derivations_evaluate_back() {
    // the tree recorded under each usable key evaluates to the key's value,
    // whenever every operand it references is still usable
    let t = build_table(100);
    let mut checked = 0u32;
    for num in 0..=100u16 {
        for zeros in 0..5u8 {
            for ones in 0..5u8 {
                let k = key(num, zeros, ones);
                if let Some(v) = t.get(k) {
                    if v != ProofValue::Dominated && can_render(&t, v) {
                        assert_eq!(eval(&t, v), num as u64);
                        checked += 1;
                    }
                }
            }
        }
    }
    assert!(checked > 50);
}
