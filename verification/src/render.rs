//! Reconstruction of expression strings from the proof trees in the
//! table: the full recursive rendering with contextual parenthesization,
//! the condensed top-level rendering used for deduplication, and the law
//! that evaluating a recorded derivation reproduces the entry's value.

use vstd::prelude::*;

use crate::model::CostKey;
use crate::model::ProofValue;
use crate::model::fact;
use crate::model::dfact;
use crate::table::Table;
use crate::table::live_entry;
use crate::table::entry_sound;
use crate::table::sound;
use vstd::arithmetic::power::pow;
use vstd::arithmetic::power2::pow2;
use vstd::string::StrSliceExecFns;
use vstd::string::StringExecFns;
use vstd::utf8::is_ascii_chars;

verus! {

/// The decimal digit `d` as a character.
pub open spec fn digit_char(d: nat) -> char {
    if d == 0 {
        '0'
    } else if d == 1 {
        '1'
    } else if d == 2 {
        '2'
    } else if d == 3 {
        '3'
    } else if d == 4 {
        '4'
    } else if d == 5 {
        '5'
    } else if d == 6 {
        '6'
    } else if d == 7 {
        '7'
    } else if d == 8 {
        '8'
    } else {
        '9'
    }
}

/// The binary digit string of `n` ("0" for 0).
pub open spec fn bin_seq(n: nat) -> Seq<char>
    decreases n,
{
    if n < 2 {
        seq![digit_char(n)]
    } else {
        bin_seq(n / 2).push(digit_char(n % 2))
    }
}

/// The decimal digit string of `n`.
pub open spec fn dec_seq(n: nat) -> Seq<char>
    decreases n,
{
    if n < 10 {
        seq![digit_char(n)]
    } else {
        dec_seq(n / 10).push(digit_char(n % 10))
    }
}

/// `n` zero characters.
pub open spec fn zero_pad(n: nat) -> Seq<char>
    decreases n,
{
    if n == 0 {
        Seq::empty()
    } else {
        zero_pad((n - 1) as nat).push('0')
    }
}

/// A decimal point spliced into `s` at `sh` places from the right,
/// padding with zeros after the point when `sh` exceeds the length.
pub open spec fn splice(s: Seq<char>, sh: nat) -> Seq<char> {
    if s.len() > sh {
        s.subrange(0, s.len() - sh) + seq!['.'] + s.subrange(s.len() - sh, s.len() as int)
    } else {
        seq!['.'] + zero_pad((sh - s.len()) as nat) + s
    }
}

/// The proof tree under `v` can be reconstructed through `t` within
/// `fuel` steps: every operand key holds a usable entry, recursively.
pub open spec fn resolvable(t: Table, v: ProofValue, fuel: nat) -> bool
    decreases fuel,
{
    match v {
        ProofValue::Direct(_) => true,
        ProofValue::Factorial(a) => fuel > 0 && live_entry(t, a) && resolvable(
            t,
            t.at(a)->Some_0,
            (fuel - 1) as nat,
        ),
        ProofValue::DoubleFactorial(a) => fuel > 0 && live_entry(t, a) && resolvable(
            t,
            t.at(a)->Some_0,
            (fuel - 1) as nat,
        ),
        ProofValue::Sqrt(a) => fuel > 0 && live_entry(t, a) && resolvable(
            t,
            t.at(a)->Some_0,
            (fuel - 1) as nat,
        ),
        ProofValue::Plus(a, b) => fuel > 0 && live_entry(t, a) && live_entry(t, b) && resolvable(
            t,
            t.at(a)->Some_0,
            (fuel - 1) as nat,
        ) && resolvable(t, t.at(b)->Some_0, (fuel - 1) as nat),
        ProofValue::Minus(a, b) => fuel > 0 && live_entry(t, a) && live_entry(t, b) && resolvable(
            t,
            t.at(a)->Some_0,
            (fuel - 1) as nat,
        ) && resolvable(t, t.at(b)->Some_0, (fuel - 1) as nat),
        ProofValue::Times(a, b) => fuel > 0 && live_entry(t, a) && live_entry(t, b) && resolvable(
            t,
            t.at(a)->Some_0,
            (fuel - 1) as nat,
        ) && resolvable(t, t.at(b)->Some_0, (fuel - 1) as nat),
        ProofValue::Div(a, b) => fuel > 0 && live_entry(t, a) && live_entry(t, b) && resolvable(
            t,
            t.at(a)->Some_0,
            (fuel - 1) as nat,
        ) && resolvable(t, t.at(b)->Some_0, (fuel - 1) as nat),
        ProofValue::Exp(a, b) => fuel > 0 && live_entry(t, a) && live_entry(t, b) && resolvable(
            t,
            t.at(a)->Some_0,
            (fuel - 1) as nat,
        ) && resolvable(t, t.at(b)->Some_0, (fuel - 1) as nat),
        ProofValue::TimesShift(a, b, _) => fuel > 0 && live_entry(t, a) && live_entry(t, b)
            && resolvable(t, t.at(a)->Some_0, (fuel - 1) as nat) && resolvable(
            t,
            t.at(b)->Some_0,
            (fuel - 1) as nat,
        ),
        ProofValue::DivShift(a, b, _) => fuel > 0 && live_entry(t, a) && live_entry(t, b)
            && resolvable(t, t.at(a)->Some_0, (fuel - 1) as nat) && resolvable(
            t,
            t.at(b)->Some_0,
            (fuel - 1) as nat,
        ),
        ProofValue::Dominated => false,
    }
}

/// The rendering of `v` without outer parentheses: literals as binary
/// digits, `+` wrapping neither side, `-` wrapping only its right side,
/// `*`, `/` and `^` wrapping both, suffix `!` and `!!` and prefix `s` on
/// wrapped operands, and the shifted operators splicing a decimal point
/// into their wrapped right operand.
pub open spec fn render_unwrapped(t: Table, v: ProofValue, fuel: nat) -> Seq<char>
    decreases fuel, 0int,
{
    if fuel == 0 {
        match v {
            ProofValue::Direct(b) => bin_seq(b as nat),
            _ => Seq::empty(),
        }
    } else {
        let sub = (fuel - 1) as nat;
        match v {
            ProofValue::Direct(b) => bin_seq(b as nat),
            ProofValue::Plus(a, b) => render_seq(t, t.at(a)->Some_0, false, sub) + seq!['+']
                + render_seq(t, t.at(b)->Some_0, false, sub),
            ProofValue::Minus(a, b) => render_seq(t, t.at(a)->Some_0, false, sub) + seq!['-']
                + render_seq(t, t.at(b)->Some_0, true, sub),
            ProofValue::Times(a, b) => render_seq(t, t.at(a)->Some_0, true, sub) + seq!['*']
                + render_seq(t, t.at(b)->Some_0, true, sub),
            ProofValue::Div(a, b) => render_seq(t, t.at(a)->Some_0, true, sub) + seq!['/']
                + render_seq(t, t.at(b)->Some_0, true, sub),
            ProofValue::Exp(a, b) => render_seq(t, t.at(a)->Some_0, true, sub) + seq!['^']
                + render_seq(t, t.at(b)->Some_0, true, sub),
            ProofValue::Factorial(a) => render_seq(t, t.at(a)->Some_0, true, sub) + seq!['!'],
            ProofValue::DoubleFactorial(a) => render_seq(t, t.at(a)->Some_0, true, sub)
                + seq!['!', '!'],
            ProofValue::Sqrt(a) => seq!['s'] + render_seq(t, t.at(a)->Some_0, true, sub),
            ProofValue::TimesShift(a, b, sh) => render_seq(t, t.at(a)->Some_0, true, sub)
                + seq!['*'] + splice(render_seq(t, t.at(b)->Some_0, true, sub), sh as nat),
            ProofValue::DivShift(a, b, sh) => render_seq(t, t.at(a)->Some_0, true, sub)
                + seq!['/'] + splice(render_seq(t, t.at(b)->Some_0, true, sub), sh as nat),
            ProofValue::Dominated => Seq::empty(),
        }
    }
}

/// The rendering of `v`: as `render_unwrapped`, parenthesized when the
/// caller's operator demands it and `v` is not a bare literal.
pub open spec fn render_seq(t: Table, v: ProofValue, wrap: bool, fuel: nat) -> Seq<char>
    decreases fuel, 1int,
{
    if wrap && !(v is Direct) {
        seq!['('] + render_unwrapped(t, v, fuel) + seq![')']
    } else {
        render_unwrapped(t, v, fuel)
    }
}

/// Fuel that outlasts any chain of operand references a table can hold:
/// one step per key, plus one.
pub open spec fn render_fuel(t: Table) -> nat {
    ((t.limit_spec() + 1) * 25 + 1) as nat
}

proof fn lemma_ascii_concat(a: Seq<char>, b: Seq<char>)
    requires
        is_ascii_chars(a),
        is_ascii_chars(b),
    ensures
        is_ascii_chars(a + b),
{
    assert forall|i: int| 0 <= i < (a + b).len() implies '\0' <= #[trigger] (a + b)[i]
        <= '\u{7f}' by {
        if i < a.len() {
            assert((a + b)[i] == a[i]);
        } else {
            assert((a + b)[i] == b[i - a.len()]);
        }
    }
}

proof fn lemma_ascii_push(a: Seq<char>, c: char)
    requires
        is_ascii_chars(a),
        '\0' <= c <= '\u{7f}',
    ensures
        is_ascii_chars(a.push(c)),
{
    assert forall|i: int| 0 <= i < a.push(c).len() implies '\0' <= #[trigger] a.push(c)[i]
        <= '\u{7f}' by {
        if i < a.len() {
            assert(a.push(c)[i] == a[i]);
        } else {
            assert(a.push(c)[i] == c);
        }
    }
}

/// Append the decimal digit `d` to `s`.
fn push_digit(s: &mut String, d: u16)
    requires
        d < 10,
        is_ascii_chars(old(s)@),
    ensures
        final(s)@ == old(s)@.push(digit_char(d as nat)),
        is_ascii_chars(final(s)@),
{
    match d {
        0 => {
            s.append("0");
            proof {
                reveal_strlit("0");
                assert(s@ =~= old(s)@.push('0'));
            }
        },
        1 => {
            s.append("1");
            proof {
                reveal_strlit("1");
                assert(s@ =~= old(s)@.push('1'));
            }
        },
        2 => {
            s.append("2");
            proof {
                reveal_strlit("2");
                assert(s@ =~= old(s)@.push('2'));
            }
        },
        3 => {
            s.append("3");
            proof {
                reveal_strlit("3");
                assert(s@ =~= old(s)@.push('3'));
            }
        },
        4 => {
            s.append("4");
            proof {
                reveal_strlit("4");
                assert(s@ =~= old(s)@.push('4'));
            }
        },
        5 => {
            s.append("5");
            proof {
                reveal_strlit("5");
                assert(s@ =~= old(s)@.push('5'));
            }
        },
        6 => {
            s.append("6");
            proof {
                reveal_strlit("6");
                assert(s@ =~= old(s)@.push('6'));
            }
        },
        7 => {
            s.append("7");
            proof {
                reveal_strlit("7");
                assert(s@ =~= old(s)@.push('7'));
            }
        },
        8 => {
            s.append("8");
            proof {
                reveal_strlit("8");
                assert(s@ =~= old(s)@.push('8'));
            }
        },
        _ => {
            s.append("9");
            proof {
                reveal_strlit("9");
                assert(s@ =~= old(s)@.push('9'));
            }
        },
    }
    proof {
        lemma_ascii_push(old(s)@, digit_char(d as nat));
    }
}

/// The decimal digit string of `n`.
fn dec_str(n: u16) -> (r: String)
    ensures
        r@ == dec_seq(n as nat),
        is_ascii_chars(r@),
    decreases n,
{
    if n < 10 {
        let mut s = String::new();
        push_digit(&mut s, n);
        proof {
            assert(s@ =~= dec_seq(n as nat));
        }
        s
    } else {
        let mut s = dec_str(n / 10);
        push_digit(&mut s, n % 10);
        s
    }
}

/// The binary digit string of `n`.
fn bin_str(n: u16) -> (r: String)
    ensures
        r@ == bin_seq(n as nat),
        is_ascii_chars(r@),
    decreases n,
{
    if n < 2 {
        let mut s = String::new();
        push_digit(&mut s, n);
        proof {
            assert(s@ =~= bin_seq(n as nat));
        }
        s
    } else {
        let mut s = bin_str(n / 2);
        push_digit(&mut s, n % 2);
        s
    }
}

/// Splice a decimal point into `s2` at `shift` places from the right.
fn splice_string(s2: &str, shift: u8) -> (r: String)
    requires
        is_ascii_chars(s2@),
    ensures
        r@ == splice(s2@, shift as nat),
        is_ascii_chars(r@),
{
    let l = s2.unicode_len();
    proof {
        reveal_strlit(".");
    }
    if l > shift as usize {
        let cut = l - shift as usize;
        let head = s2.substring_ascii(0, cut);
        let tail = s2.substring_ascii(cut, l);
        let mut r = String::from_str(head);
        r.append(".");
        r.append(tail);
        proof {
            assert(r@ =~= splice(s2@, shift as nat));
            assert forall|i: int| 0 <= i < r@.len() implies '\0' <= #[trigger] r@[i]
                <= '\u{7f}' by {
                if i < cut {
                    assert(r@[i] == s2@[i]);
                } else if i == cut {
                    assert(r@[i] == '.');
                } else {
                    assert(r@[i] == s2@[i - 1]);
                }
            }
        }
        r
    } else {
        let mut r = String::from_str(".");
        proof {
            assert(r@ =~= seq!['.'] + zero_pad(0));
            assert(is_ascii_chars(r@));
        }
        let mut i = l;
        while i < shift as usize
            invariant
                l <= i <= shift,
                r@ == seq!['.'] + zero_pad((i - l) as nat),
                is_ascii_chars(r@),
            decreases shift as int - i,
        {
            r.append("0");
            proof {
                reveal_strlit("0");
                assert(r@ =~= seq!['.'] + zero_pad((i + 1 - l) as nat));
                lemma_ascii_push(seq!['.'] + zero_pad((i - l) as nat), '0');
                assert(r@ =~= (seq!['.'] + zero_pad((i - l) as nat)).push('0'));
            }
            i = i + 1;
        }
        r.append(s2);
        proof {
            assert(r@ =~= splice(s2@, shift as nat));
            lemma_ascii_concat(seq!['.'] + zero_pad((shift - l) as nat), s2@);
        }
        r
    }
}

/// The usable entry an operand key points at.
fn fetch(table: &Table, a: CostKey) -> (r: ProofValue)
    requires
        table.wf(),
        live_entry(*table, a),
    ensures
        table.at(a) == Some(r),
        r != ProofValue::Dominated,
{
    match table.get(a) {
        Some(x) => x,
        None => {
            proof {
                assert(false);
            }
            ProofValue::Dominated
        },
    }
}

fn render_rec(table: &Table, v: ProofValue, wrap: bool, fuel: Ghost<nat>) -> (r: String)
    requires
        table.wf(),
        resolvable(*table, v, fuel@),
    ensures
        r@ == render_seq(*table, v, wrap, fuel@),
        is_ascii_chars(r@),
    decreases fuel@,
{
    let ghost sub = (fuel@ - 1) as nat;
    let core: String = match v {
        ProofValue::Direct(b) => bin_str(b as u16),
        ProofValue::Plus(a, b) => {
            let va = fetch(table, a);
            let vb = fetch(table, b);
            let mut s = render_rec(table, va, false, Ghost(sub));
            s.append("+");
            let sb = render_rec(table, vb, false, Ghost(sub));
            s.append(sb.as_str());
            proof {
                reveal_strlit("+");
                assert(s@ =~= render_unwrapped(*table, v, fuel@));
                lemma_ascii_push(render_seq(*table, va, false, sub), '+');
                lemma_ascii_concat(render_seq(*table, va, false, sub).push('+'), sb@);
                assert(s@ =~= render_seq(*table, va, false, sub).push('+') + sb@);
            }
            s
        },
        ProofValue::Minus(a, b) => {
            let va = fetch(table, a);
            let vb = fetch(table, b);
            let mut s = render_rec(table, va, false, Ghost(sub));
            s.append("-");
            let sb = render_rec(table, vb, true, Ghost(sub));
            s.append(sb.as_str());
            proof {
                reveal_strlit("-");
                assert(s@ =~= render_unwrapped(*table, v, fuel@));
                lemma_ascii_push(render_seq(*table, va, false, sub), '-');
                lemma_ascii_concat(render_seq(*table, va, false, sub).push('-'), sb@);
                assert(s@ =~= render_seq(*table, va, false, sub).push('-') + sb@);
            }
            s
        },
        ProofValue::Times(a, b) => {
            let va = fetch(table, a);
            let vb = fetch(table, b);
            let mut s = render_rec(table, va, true, Ghost(sub));
            s.append("*");
            let sb = render_rec(table, vb, true, Ghost(sub));
            s.append(sb.as_str());
            proof {
                reveal_strlit("*");
                assert(s@ =~= render_unwrapped(*table, v, fuel@));
                lemma_ascii_push(render_seq(*table, va, true, sub), '*');
                lemma_ascii_concat(render_seq(*table, va, true, sub).push('*'), sb@);
                assert(s@ =~= render_seq(*table, va, true, sub).push('*') + sb@);
            }
            s
        },
        ProofValue::Div(a, b) => {
            let va = fetch(table, a);
            let vb = fetch(table, b);
            let mut s = render_rec(table, va, true, Ghost(sub));
            s.append("/");
            let sb = render_rec(table, vb, true, Ghost(sub));
            s.append(sb.as_str());
            proof {
                reveal_strlit("/");
                assert(s@ =~= render_unwrapped(*table, v, fuel@));
                lemma_ascii_push(render_seq(*table, va, true, sub), '/');
                lemma_ascii_concat(render_seq(*table, va, true, sub).push('/'), sb@);
                assert(s@ =~= render_seq(*table, va, true, sub).push('/') + sb@);
            }
            s
        },
        ProofValue::Exp(a, b) => {
            let va = fetch(table, a);
            let vb = fetch(table, b);
            let mut s = render_rec(table, va, true, Ghost(sub));
            s.append("^");
            let sb = render_rec(table, vb, true, Ghost(sub));
            s.append(sb.as_str());
            proof {
                reveal_strlit("^");
                assert(s@ =~= render_unwrapped(*table, v, fuel@));
                lemma_ascii_push(render_seq(*table, va, true, sub), '^');
                lemma_ascii_concat(render_seq(*table, va, true, sub).push('^'), sb@);
                assert(s@ =~= render_seq(*table, va, true, sub).push('^') + sb@);
            }
            s
        },
        ProofValue::Factorial(a) => {
            let va = fetch(table, a);
            let mut s = render_rec(table, va, true, Ghost(sub));
            s.append("!");
            proof {
                reveal_strlit("!");
                assert(s@ =~= render_unwrapped(*table, v, fuel@));
                lemma_ascii_push(render_seq(*table, va, true, sub), '!');
                assert(s@ =~= render_seq(*table, va, true, sub).push('!'));
            }
            s
        },
        ProofValue::DoubleFactorial(a) => {
            let va = fetch(table, a);
            let mut s = render_rec(table, va, true, Ghost(sub));
            s.append("!!");
            proof {
                reveal_strlit("!!");
                assert(s@ =~= render_unwrapped(*table, v, fuel@));
                lemma_ascii_push(render_seq(*table, va, true, sub), '!');
                lemma_ascii_push(render_seq(*table, va, true, sub).push('!'), '!');
                assert(s@ =~= render_seq(*table, va, true, sub).push('!').push('!'));
            }
            s
        },
        ProofValue::Sqrt(a) => {
            let va = fetch(table, a);
            let sa = render_rec(table, va, true, Ghost(sub));
            let mut s = String::from_str("s");
            s.append(sa.as_str());
            proof {
                reveal_strlit("s");
                assert(s@ =~= render_unwrapped(*table, v, fuel@));
                lemma_ascii_push(Seq::empty(), 's');
                assert(seq!['s'] =~= Seq::<char>::empty().push('s'));
                lemma_ascii_concat(seq!['s'], sa@);
                assert(s@ =~= seq!['s'] + sa@);
            }
            s
        },
        ProofValue::TimesShift(a, b, sh) => {
            let va = fetch(table, a);
            let vb = fetch(table, b);
            let mut s = render_rec(table, va, true, Ghost(sub));
            s.append("*");
            let sb = render_rec(table, vb, true, Ghost(sub));
            let sp = splice_string(sb.as_str(), sh);
            s.append(sp.as_str());
            proof {
                reveal_strlit("*");
                assert(s@ =~= render_unwrapped(*table, v, fuel@));
                lemma_ascii_push(render_seq(*table, va, true, sub), '*');
                lemma_ascii_concat(render_seq(*table, va, true, sub).push('*'), sp@);
                assert(s@ =~= render_seq(*table, va, true, sub).push('*') + sp@);
            }
            s
        },
        ProofValue::DivShift(a, b, sh) => {
            let va = fetch(table, a);
            let vb = fetch(table, b);
            let mut s = render_rec(table, va, true, Ghost(sub));
            s.append("/");
            let sb = render_rec(table, vb, true, Ghost(sub));
            let sp = splice_string(sb.as_str(), sh);
            s.append(sp.as_str());
            proof {
                reveal_strlit("/");
                assert(s@ =~= render_unwrapped(*table, v, fuel@));
                lemma_ascii_push(render_seq(*table, va, true, sub), '/');
                lemma_ascii_concat(render_seq(*table, va, true, sub).push('/'), sp@);
                assert(s@ =~= render_seq(*table, va, true, sub).push('/') + sp@);
            }
            s
        },
        ProofValue::Dominated => {
            proof {
                assert(false);
            }
            String::new()
        },
    };
    if wrap && !matches!(v, ProofValue::Direct(_)) {
        let mut w = String::from_str("(");
        w.append(core.as_str());
        w.append(")");
        proof {
            reveal_strlit("(");
            reveal_strlit(")");
            assert(w@ =~= seq!['('] + render_unwrapped(*table, v, fuel@) + seq![')']);
            lemma_ascii_push(Seq::empty(), '(');
            assert(seq!['('] =~= Seq::<char>::empty().push('('));
            lemma_ascii_concat(seq!['('], core@);
            lemma_ascii_push(seq!['('] + core@, ')');
            assert(w@ =~= (seq!['('] + core@).push(')'));
        }
        w
    } else {
        core
    }
}

/// Render a proof value as a full expression string. The caller's `wrap`
/// says whether an enclosing operator demands parentheses.
pub fn value_to_string(value: ProofValue, table: &Table, wrap: bool) -> (r: String)
    requires
        table.wf(),
        resolvable(*table, value, render_fuel(*table)),
    ensures
        r@ == render_seq(*table, value, wrap, render_fuel(*table)),
{
    render_rec(table, value, wrap, Ghost(render_fuel(*table)))
}

fn resolvable_rec(table: &Table, v: ProofValue, fuel: usize) -> (r: bool)
    requires
        table.wf(),
    ensures
        r == resolvable(*table, v, fuel as nat),
    decreases fuel,
{
    match v {
        ProofValue::Direct(_) => true,
        ProofValue::Factorial(a) | ProofValue::DoubleFactorial(a) | ProofValue::Sqrt(a) => {
            if fuel == 0 {
                return false;
            }
            match table.get(a) {
                Some(va) => !matches!(va, ProofValue::Dominated) && resolvable_rec(
                    table,
                    va,
                    fuel - 1,
                ),
                None => false,
            }
        },
        ProofValue::Plus(a, b) | ProofValue::Minus(a, b) | ProofValue::Times(a, b)
            | ProofValue::Div(a, b) | ProofValue::Exp(a, b) | ProofValue::TimesShift(a, b, _)
            | ProofValue::DivShift(a, b, _) => {
            if fuel == 0 {
                return false;
            }
            let ra = match table.get(a) {
                Some(va) => !matches!(va, ProofValue::Dominated) && resolvable_rec(
                    table,
                    va,
                    fuel - 1,
                ),
                None => false,
            };
            if !ra {
                return false;
            }
            match table.get(b) {
                Some(vb) => !matches!(vb, ProofValue::Dominated) && resolvable_rec(
                    table,
                    vb,
                    fuel - 1,
                ),
                None => false,
            }
        },
        ProofValue::Dominated => false,
    }
}

/// Whether `value_to_string` may be called on `value`: every operand key
/// it references resolves, transitively, to a usable entry.
pub fn can_render(table: &Table, value: ProofValue) -> (r: bool)
    requires
        table.wf(),
    ensures
        r == resolvable(*table, value, render_fuel(*table)),
{
    let fuel: usize = (table.limit() as usize + 1) * 25 + 1;
    resolvable_rec(table, value, fuel)
}

/// The condensed top-level rendering of `v`: operand keys shown as their
/// raw values, not expanded recursively.
pub open spec fn top_seq(v: ProofValue) -> Seq<char> {
    match v {
        ProofValue::Direct(b) => dec_seq(b as nat),
        ProofValue::Plus(a, b) => dec_seq(a.num as nat) + seq!['+'] + dec_seq(b.num as nat),
        ProofValue::Minus(a, b) => dec_seq(a.num as nat) + seq!['-'] + dec_seq(b.num as nat),
        ProofValue::Times(a, b) => dec_seq(a.num as nat) + seq!['*'] + dec_seq(b.num as nat),
        ProofValue::Div(a, b) => dec_seq(a.num as nat) + seq!['/'] + dec_seq(b.num as nat),
        ProofValue::Exp(a, b) => dec_seq(a.num as nat) + seq!['^'] + dec_seq(b.num as nat),
        ProofValue::Factorial(a) => dec_seq(a.num as nat) + seq!['!'],
        ProofValue::DoubleFactorial(a) => dec_seq(a.num as nat) + seq!['!', '!'],
        ProofValue::Sqrt(a) => seq!['s', '('] + dec_seq(a.num as nat) + seq![')'],
        ProofValue::TimesShift(a, b, sh) => dec_seq(a.num as nat) + seq!['*'] + splice(
            bin_seq(b.num as nat),
            sh as nat,
        ),
        ProofValue::DivShift(a, b, sh) => dec_seq(a.num as nat) + seq!['/'] + splice(
            bin_seq(b.num as nat),
            sh as nat,
        ),
        ProofValue::Dominated => Seq::empty(),
    }
}

/// Render the condensed top-level descriptor of a proof value.
pub fn value_to_top(value: ProofValue) -> (r: String)
    requires
        value != ProofValue::Dominated,
    ensures
        r@ == top_seq(value),
{
    match value {
        ProofValue::Direct(b) => dec_str(b as u16),
        ProofValue::Plus(a, b) => {
            let mut s = dec_str(a.num);
            s.append("+");
            let sb = dec_str(b.num);
            s.append(sb.as_str());
            proof {
                reveal_strlit("+");
                assert(s@ =~= top_seq(value));
            }
            s
        },
        ProofValue::Minus(a, b) => {
            let mut s = dec_str(a.num);
            s.append("-");
            let sb = dec_str(b.num);
            s.append(sb.as_str());
            proof {
                reveal_strlit("-");
                assert(s@ =~= top_seq(value));
            }
            s
        },
        ProofValue::Times(a, b) => {
            let mut s = dec_str(a.num);
            s.append("*");
            let sb = dec_str(b.num);
            s.append(sb.as_str());
            proof {
                reveal_strlit("*");
                assert(s@ =~= top_seq(value));
            }
            s
        },
        ProofValue::Div(a, b) => {
            let mut s = dec_str(a.num);
            s.append("/");
            let sb = dec_str(b.num);
            s.append(sb.as_str());
            proof {
                reveal_strlit("/");
                assert(s@ =~= top_seq(value));
            }
            s
        },
        ProofValue::Exp(a, b) => {
            let mut s = dec_str(a.num);
            s.append("^");
            let sb = dec_str(b.num);
            s.append(sb.as_str());
            proof {
                reveal_strlit("^");
                assert(s@ =~= top_seq(value));
            }
            s
        },
        ProofValue::Factorial(a) => {
            let mut s = dec_str(a.num);
            s.append("!");
            proof {
                reveal_strlit("!");
                assert(s@ =~= top_seq(value));
            }
            s
        },
        ProofValue::DoubleFactorial(a) => {
            let mut s = dec_str(a.num);
            s.append("!!");
            proof {
                reveal_strlit("!!");
                assert(s@ =~= top_seq(value));
            }
            s
        },
        ProofValue::Sqrt(a) => {
            let mut s = String::from_str("s(");
            let sa = dec_str(a.num);
            s.append(sa.as_str());
            s.append(")");
            proof {
                reveal_strlit("s(");
                reveal_strlit(")");
                assert(s@ =~= top_seq(value));
            }
            s
        },
        ProofValue::TimesShift(a, b, sh) => {
            let mut s = dec_str(a.num);
            s.append("*");
            let sb = bin_str(b.num);
            let sp = splice_string(sb.as_str(), sh);
            s.append(sp.as_str());
            proof {
                reveal_strlit("*");
                assert(s@ =~= top_seq(value));
            }
            s
        },
        ProofValue::DivShift(a, b, sh) => {
            let mut s = dec_str(a.num);
            s.append("/");
            let sb = bin_str(b.num);
            let sp = splice_string(sb.as_str(), sh);
            s.append(sp.as_str());
            proof {
                reveal_strlit("/");
                assert(s@ =~= top_seq(value));
            }
            s
        },
        ProofValue::Dominated => {
            proof {
                assert(false);
            }
            String::new()
        },
    }
}

/// The largest operand value a derivation mentions (its own value for a
/// literal): what the reporting driver compares against the report range.
pub open spec fn big_num_spec(v: ProofValue) -> u16 {
    match v {
        ProofValue::Direct(b) => b as u16,
        ProofValue::Factorial(a) => a.num,
        ProofValue::DoubleFactorial(a) => a.num,
        ProofValue::Sqrt(a) => a.num,
        ProofValue::Plus(a, b) => if a.num >= b.num {
            a.num
        } else {
            b.num
        },
        ProofValue::Minus(a, b) => if a.num >= b.num {
            a.num
        } else {
            b.num
        },
        ProofValue::Times(a, b) => if a.num >= b.num {
            a.num
        } else {
            b.num
        },
        ProofValue::Div(a, b) => if a.num >= b.num {
            a.num
        } else {
            b.num
        },
        ProofValue::Exp(a, b) => if a.num >= b.num {
            a.num
        } else {
            b.num
        },
        ProofValue::TimesShift(a, b, _) => if a.num >= b.num {
            a.num
        } else {
            b.num
        },
        ProofValue::DivShift(a, b, _) => if a.num >= b.num {
            a.num
        } else {
            b.num
        },
        ProofValue::Dominated => 0,
    }
}

/// The largest operand value a derivation mentions.
pub fn big_num(value: ProofValue) -> (r: u16)
    requires
        value != ProofValue::Dominated,
    ensures
        r == big_num_spec(value),
{
    match value {
        ProofValue::Direct(b) => b as u16,
        ProofValue::Factorial(a) => a.num,
        ProofValue::DoubleFactorial(a) => a.num,
        ProofValue::Sqrt(a) => a.num,
        ProofValue::Plus(a, b) => if a.num >= b.num {
            a.num
        } else {
            b.num
        },
        ProofValue::Minus(a, b) => if a.num >= b.num {
            a.num
        } else {
            b.num
        },
        ProofValue::Times(a, b) => if a.num >= b.num {
            a.num
        } else {
            b.num
        },
        ProofValue::Div(a, b) => if a.num >= b.num {
            a.num
        } else {
            b.num
        },
        ProofValue::Exp(a, b) => if a.num >= b.num {
            a.num
        } else {
            b.num
        },
        ProofValue::TimesShift(a, b, _) => if a.num >= b.num {
            a.num
        } else {
            b.num
        },
        ProofValue::DivShift(a, b, _) => if a.num >= b.num {
            a.num
        } else {
            b.num
        },
        ProofValue::Dominated => 0,
    }
}

/// The nonnegative square root of a perfect square.
pub open spec fn nat_sqrt(n: int) -> int {
    choose|r: int| 0 <= r && #[trigger] (r * r) == n
}

/// The value of the expression a proof tree denotes, with the shifted
/// operators read as multiply-then-halve and divide-then-double per the
/// shift amount.
pub open spec fn eval_tree(t: Table, v: ProofValue, fuel: nat) -> int
    decreases fuel,
{
    if fuel == 0 {
        match v {
            ProofValue::Direct(b) => b as int,
            _ => 0,
        }
    } else {
        let sub = (fuel - 1) as nat;
        match v {
            ProofValue::Direct(b) => b as int,
            ProofValue::Factorial(a) => fact(eval_tree(t, t.at(a)->Some_0, sub) as nat) as int,
            ProofValue::DoubleFactorial(a) => dfact(
                eval_tree(t, t.at(a)->Some_0, sub) as nat,
            ) as int,
            ProofValue::Sqrt(a) => nat_sqrt(eval_tree(t, t.at(a)->Some_0, sub)),
            ProofValue::Plus(a, b) => eval_tree(t, t.at(a)->Some_0, sub) + eval_tree(
                t,
                t.at(b)->Some_0,
                sub,
            ),
            ProofValue::Minus(a, b) => eval_tree(t, t.at(a)->Some_0, sub) - eval_tree(
                t,
                t.at(b)->Some_0,
                sub,
            ),
            ProofValue::Times(a, b) => eval_tree(t, t.at(a)->Some_0, sub) * eval_tree(
                t,
                t.at(b)->Some_0,
                sub,
            ),
            ProofValue::Div(a, b) => eval_tree(t, t.at(a)->Some_0, sub) / eval_tree(
                t,
                t.at(b)->Some_0,
                sub,
            ),
            ProofValue::Exp(a, b) => pow(
                eval_tree(t, t.at(a)->Some_0, sub),
                eval_tree(t, t.at(b)->Some_0, sub) as nat,
            ),
            ProofValue::TimesShift(a, b, sh) => (eval_tree(t, t.at(a)->Some_0, sub) * eval_tree(
                t,
                t.at(b)->Some_0,
                sub,
            )) / pow2(sh as nat) as int,
            ProofValue::DivShift(a, b, sh) => (eval_tree(t, t.at(a)->Some_0, sub) / eval_tree(
                t,
                t.at(b)->Some_0,
                sub,
            )) * pow2(sh as nat) as int,
            ProofValue::Dominated => 0,
        }
    }
}

/// Render round trip, at the level of the recorded trees: in a sound
/// table, evaluating the derivation stored under any usable key — the
/// structure the rendered expression prints — gives back exactly the
/// key's value.
pub proof fn lemma_eval_round_trip(t: Table, k: CostKey, fuel: nat)
    requires
        sound(t),
        live_entry(t, k),
        resolvable(t, t.at(k)->Some_0, fuel),
    ensures
        eval_tree(t, t.at(k)->Some_0, fuel) == k.num,
    decreases fuel,
{
    let v = t.at(k)->Some_0;
    assert(entry_sound(t, k, v));
    match v {
        ProofValue::Direct(_) => {},
        ProofValue::Factorial(a) => {
            lemma_eval_round_trip(t, a, (fuel - 1) as nat);
        },
        ProofValue::DoubleFactorial(a) => {
            lemma_eval_round_trip(t, a, (fuel - 1) as nat);
        },
        ProofValue::Sqrt(a) => {
            lemma_eval_round_trip(t, a, (fuel - 1) as nat);
            let e = eval_tree(t, t.at(a)->Some_0, (fuel - 1) as nat);
            assert(e == a.num);
            assert(k.num * k.num == a.num);
            let r = nat_sqrt(e);
            assert(0 <= k.num && k.num * k.num == e);
            assert(0 <= r && r * r == e);
            assert(r == k.num) by (nonlinear_arith)
                requires
                    0 <= r,
                    0 <= k.num,
                    r * r == k.num * k.num,
            ;
        },
        ProofValue::Plus(a, b) => {
            lemma_eval_round_trip(t, a, (fuel - 1) as nat);
            lemma_eval_round_trip(t, b, (fuel - 1) as nat);
        },
        ProofValue::Minus(a, b) => {
            lemma_eval_round_trip(t, a, (fuel - 1) as nat);
            lemma_eval_round_trip(t, b, (fuel - 1) as nat);
        },
        ProofValue::Times(a, b) => {
            lemma_eval_round_trip(t, a, (fuel - 1) as nat);
            lemma_eval_round_trip(t, b, (fuel - 1) as nat);
        },
        ProofValue::Div(a, b) => {
            lemma_eval_round_trip(t, a, (fuel - 1) as nat);
            lemma_eval_round_trip(t, b, (fuel - 1) as nat);
        },
        ProofValue::Exp(a, b) => {
            lemma_eval_round_trip(t, a, (fuel - 1) as nat);
            lemma_eval_round_trip(t, b, (fuel - 1) as nat);
        },
        ProofValue::TimesShift(a, b, _) => {
            lemma_eval_round_trip(t, a, (fuel - 1) as nat);
            lemma_eval_round_trip(t, b, (fuel - 1) as nat);
        },
        ProofValue::DivShift(a, b, _) => {
            lemma_eval_round_trip(t, a, (fuel - 1) as nat);
            lemma_eval_round_trip(t, b, (fuel - 1) as nat);
        },
        ProofValue::Dominated => {},
    }
}

} // verus!
