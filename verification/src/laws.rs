//! The laws of the library, proved over the model: reading a formatted
//! numeral back yields the value it was written from, the reading does not
//! depend on the script variant or the orthographic case, zero connectors
//! are canonical, and under the flat conventions the large units of any
//! accepted numeral strictly descend.

use vstd::prelude::*;
use crate::model::{coeff_exp, emit_below, emit_tokens, entry_value, group_value, init_machine, lemma_pow10_adds, lemma_pow10_mono, lemma_pow10_pos, lemma_pow10_small, lemma_pow10_u128, lemma_machine_step_wf, lemma_top_unit, lemma_unit_exp_at_least_four, lemma_unit_exp_mono, lemma_unit_exp_step, machine_step, machine_total, machine_wf, pop_below, pow10, run, run_chars, stack_sum, strip_spaces, top_unit, top_unit_below, unit_count, unit_exp, Entry, GroupState, Machine, RunResult, Token};
use crate::tables::{glyph_seq, lemma_classify_glyph, spec_classify, token_glyph, wf_token};
use crate::types::{ChineseNumberCase, ChineseNumberCountMethod, ChineseVariant};

verus! {

/// Running the token machine over a concatenation: the first part runs
/// first; an error in the second part is shifted by the first part's length.
proof fn lemma_run_append(m: ChineseNumberCountMethod, ts1: Seq<Token>, ts2: Seq<Token>, s: Machine)
    ensures
        match run(m, ts1, s) {
            RunResult::Good(g) => run(m, ts1 + ts2, s) == (match run(m, ts2, g) {
                RunResult::Good(gf) => RunResult::Good(gf),
                RunResult::Bad(i) => RunResult::Bad(i + ts1.len()),
            }),
            RunResult::Bad(i) => run(m, ts1 + ts2, s) == RunResult::Bad(i),
        },
    decreases ts1.len(),
{
    if ts1.len() == 0 {
        assert(ts1 + ts2 =~= ts2);
        match run(m, ts2, s) {
            RunResult::Good(_) => {},
            RunResult::Bad(i) => {
                assert(run(m, ts1 + ts2, s) == RunResult::Bad(i + 0));
            },
        }
    } else {
        assert((ts1 + ts2)[0] == ts1[0]);
        match machine_step(m, s, ts1[0]) {
            Option::None => {},
            Option::Some(s2) => {
                assert((ts1 + ts2).drop_first() =~= ts1.drop_first() + ts2);
                lemma_run_append(m, ts1.drop_first(), ts2, s2);
            },
        }
    }
}

/// A run over one accepted token.
proof fn lemma_run_one(m: ChineseNumberCountMethod, t: Token, s: Machine, s2: Machine)
    requires
        machine_step(m, s, t) == Some(s2),
    ensures
        run(m, seq![t], s) == RunResult::Good(s2),
{
    let one = seq![t];
    assert(one[0] == t);
    assert(one.drop_first() =~= Seq::<Token>::empty());
    assert(run(m, one.drop_first(), s2) == RunResult::Good(s2));
}

/// A machine state in the middle of a group, ready for more digits: the
/// stack and accumulator are arbitrary, and the next token may open a
/// digit–unit pair.
spec fn group_open(s: Machine) -> bool {
    s.gst is Start || s.gst is InZeros || s.gst is AfterPair
}

/// Reading the numeral of a group value `v` below the open positions of the
/// current group adds exactly `v` to the group and touches nothing else.
proof fn lemma_rt_group(m: ChineseNumberCountMethod, v: nat, elide: bool, s: Machine)
    requires
        1 <= v < 10000,
        machine_wf(m, s),
        group_open(s),
        v < pow10(s.min_e),
        elide ==> s.gst is Start,
    ensures
        ({
            let r = run(m, emit_tokens(m, v, elide), s);
            &&& r is Good
            &&& r->Good_0.stack == s.stack
            &&& group_value(r->Good_0) == s.acc + v
            &&& machine_wf(m, r->Good_0)
            &&& !(r->Good_0.gst is Start)
            &&& !(r->Good_0.gst is InZeros)
        }),
    decreases v, 2int,
{
    lemma_pow10_small();
    let ts = emit_tokens(m, v, elide);
    if v < 10 {
        let t = Token::Digit(v as u8);
        let s2 = Machine { gst: GroupState::AfterDigit(v), ..s };
        assert(machine_step(m, s, t) == Some(s2));
        lemma_run_one(m, t, s, s2);
        lemma_machine_step_wf(m, s, t);
    } else if v < 100 {
        let hi = v / 10;
        let lo = v % 10;
        assert(1 <= hi <= 9);
        // 10 <= v < 100 and v < 10^min_e forces min_e >= 2
        assert(s.min_e >= 2) by {
            if s.min_e <= 1 {
                lemma_pow10_mono(s.min_e, 1);
            }
        }
        if hi == 1 && elide {
            // a bare 十 opens the group
            let t1 = Token::Small(1);
            let s1 = Machine { acc: 10, min_e: 1, gst: GroupState::SoloTen, ..s };
            assert(s.acc == 0);
            assert(machine_step(m, s, t1) == Some(s1));
            lemma_run_one(m, t1, s, s1);
            lemma_machine_step_wf(m, s, t1);
            if lo == 0 {
                assert(ts =~= seq![t1]);
            } else {
                let t2 = Token::Digit(lo as u8);
                let s2 = Machine { acc: (10 + lo) as nat, gst: GroupState::Closed, ..s1 };
                assert(machine_step(m, s1, t2) == Some(s2));
                lemma_run_one(m, t2, s1, s2);
                lemma_machine_step_wf(m, s1, t2);
                assert(ts =~= seq![t1] + seq![t2]);
                lemma_run_append(m, seq![t1], seq![t2], s);
            }
        } else {
            let t0 = Token::Digit(hi as u8);
            let s1 = Machine { gst: GroupState::AfterDigit(hi), ..s };
            assert(machine_step(m, s, t0) == Some(s1));
            lemma_run_one(m, t0, s, s1);
            lemma_machine_step_wf(m, s, t0);
            let t1 = Token::Small(1);
            let s2 = Machine {
                acc: (s.acc + hi * 10) as nat,
                min_e: 1,
                gst: GroupState::AfterPair,
                ..s1
            };
            assert(pow10(1) == 10);
            assert(machine_step(m, s1, t1) == Some(s2));
            lemma_run_one(m, t1, s1, s2);
            lemma_machine_step_wf(m, s1, t1);
            if lo == 0 {
                assert(ts =~= seq![t0] + seq![t1]);
                lemma_run_append(m, seq![t0], seq![t1], s);
                assert(group_value(s2) == s.acc + v) by {
                    vstd::arithmetic::div_mod::lemma_fundamental_div_mod(v as int, 10);
                }
            } else {
                let t2 = Token::Digit(lo as u8);
                let s3 = Machine { gst: GroupState::AfterDigit(lo), ..s2 };
                assert(machine_step(m, s2, t2) == Some(s3));
                lemma_run_one(m, t2, s2, s3);
                lemma_machine_step_wf(m, s2, t2);
                assert(ts =~= (seq![t0] + seq![t1]) + seq![t2]);
                lemma_run_append(m, seq![t0], seq![t1], s);
                lemma_run_append(m, seq![t0] + seq![t1], seq![t2], s);
                assert(group_value(s3) == s.acc + v) by {
                    vstd::arithmetic::div_mod::lemma_fundamental_div_mod(v as int, 10);
                }
            }
        }
    } else {
        lemma_rt_group_hundreds(m, v, elide, s);
    }
}

/// The hundreds and thousands case of the group reading.
#[verifier::rlimit(100)]
proof fn lemma_rt_group_hundreds(m: ChineseNumberCountMethod, v: nat, elide: bool, s: Machine)
    requires
        100 <= v < 10000,
        machine_wf(m, s),
        group_open(s),
        v < pow10(s.min_e),
    ensures
        ({
            let r = run(m, emit_tokens(m, v, elide), s);
            &&& r is Good
            &&& r->Good_0.stack == s.stack
            &&& group_value(r->Good_0) == s.acc + v
            &&& machine_wf(m, r->Good_0)
            &&& !(r->Good_0.gst is Start)
            &&& !(r->Good_0.gst is InZeros)
        }),
    decreases v, 1int,
{
    lemma_pow10_small();
    let ts = emit_tokens(m, v, elide);
    {
        // a digit, its small unit, then the remainder
        let e: nat = if v < 1000 {
            2
        } else {
            3
        };
        let hi = v / pow10(e);
        let lo = v % pow10(e);
        assert(s.min_e > e) by {
            if s.min_e <= e {
                lemma_pow10_mono(s.min_e, e);
            }
        }
        assert(1 <= hi <= 9) by {
            vstd::arithmetic::div_mod::lemma_fundamental_div_mod(v as int, pow10(e) as int);
        }
        let t0 = Token::Digit(hi as u8);
        let s1 = Machine { gst: GroupState::AfterDigit(hi), ..s };
        assert(machine_step(m, s, t0) == Some(s1));
        lemma_run_one(m, t0, s, s1);
        lemma_machine_step_wf(m, s, t0);
        let t1 = Token::Small(e as u8);
        let s2 = Machine {
            acc: (s.acc + hi * pow10(e)) as nat,
            min_e: e,
            gst: GroupState::AfterPair,
            ..s1
        };
        assert(machine_step(m, s1, t1) == Some(s2));
        lemma_run_one(m, t1, s1, s2);
        lemma_machine_step_wf(m, s1, t1);
        let hd = seq![t0] + seq![t1];
        lemma_run_append(m, seq![t0], seq![t1], s);
        assert(run(m, hd, s) == RunResult::Good(s2));
        assert(ts =~= hd + emit_below(m, lo, (e - 1) as nat));
        lemma_run_append(m, hd, emit_below(m, lo, (e - 1) as nat), s);
        vstd::arithmetic::div_mod::lemma_fundamental_div_mod(v as int, pow10(e) as int);
        let r = run(m, ts, s);
        assert(v == pow10(e) * hi + lo);
        assert(s2.acc == s.acc + hi * pow10(e));
        if lo == 0 {
            vstd::arithmetic::mul::lemma_mul_is_commutative(hi as int, pow10(e) as int);
            assert(emit_below(m, lo, (e - 1) as nat) =~= Seq::<Token>::empty());
            assert(run(m, Seq::<Token>::empty(), s2) == RunResult::Good(s2));
            assert(r == RunResult::Good(s2));
            assert(group_value(s2) == s2.acc);
        } else {
            lemma_rt_below(m, lo, (e - 1) as nat, s2);
            let rb = run(m, emit_below(m, lo, (e - 1) as nat), s2);
            assert(rb is Good);
            assert(r == RunResult::Good(rb->Good_0));
            assert(group_value(rb->Good_0) == s2.acc + lo);
            assert(group_value(r->Good_0) == s2.acc + lo);
            vstd::arithmetic::mul::lemma_mul_is_commutative(hi as int, pow10(e) as int);
            assert(s2.acc + lo == s.acc + (hi * pow10(e) + lo));
            assert(hi * pow10(e) + lo == v);
        }
        assert(r is Good);
        assert(r->Good_0.stack == s.stack);
        assert(group_value(r->Good_0) == s.acc + v);
        assert(machine_wf(m, r->Good_0));
        assert(!(r->Good_0.gst is Start));
        assert(!(r->Good_0.gst is InZeros));
    }
}

/// Reading the remainder tokens after a digit–unit pair: an optional zero
/// connector, then the numeral of the remainder.
proof fn lemma_rt_below(m: ChineseNumberCountMethod, r: nat, e: nat, s: Machine)
    requires
        1 <= r < 10000,
        r < pow10((e + 1) as nat),
        e + 1 == s.min_e,
        machine_wf(m, s),
        s.gst is AfterPair,
    ensures
        ({
            let rr = run(m, emit_below(m, r, e), s);
            &&& rr is Good
            &&& rr->Good_0.stack == s.stack
            &&& group_value(rr->Good_0) == s.acc + r
            &&& machine_wf(m, rr->Good_0)
            &&& !(rr->Good_0.gst is Start)
            &&& !(rr->Good_0.gst is InZeros)
        }),
    decreases r, 3int,
{
    lemma_pow10_small();
    let bts = emit_below(m, r, e);
    if r < pow10(e) {
        let t = Token::Zero;
        let s1 = Machine { gst: GroupState::InZeros, ..s };
        assert(machine_step(m, s, t) == Some(s1));
        lemma_run_one(m, t, s, s1);
        lemma_machine_step_wf(m, s, t);
        assert(bts =~= seq![t] + emit_tokens(m, r, false));
        lemma_run_append(m, seq![t], emit_tokens(m, r, false), s);
        lemma_rt_group(m, r, false, s1);
    } else {
        assert(bts =~= emit_tokens(m, r, false));
        lemma_rt_group(m, r, false, s);
    }
}

/// A unit's multiplier ceiling never exceeds the unit's own magnitude.
proof fn lemma_coeff_exp_le_unit_exp(m: ChineseNumberCountMethod, u: int)
    requires
        0 <= u <= 11,
    ensures
        coeff_exp(m, u) <= unit_exp(m, u),
{
    if m is High {
    } else {
        lemma_unit_exp_at_least_four(m, u);
    }
}

/// The chosen top unit is maximal: the next unit up would overshoot `v`.
proof fn lemma_top_unit_max(m: ChineseNumberCountMethod, v: nat)
    requires
        v >= 10000,
    ensures
        top_unit(m, v) < unit_count() - 1 ==> pow10(unit_exp(m, top_unit(m, v) + 1)) > v,
{
    lemma_top_unit_below_max(m, v, unit_count() - 1);
}

proof fn lemma_top_unit_below_max(m: ChineseNumberCountMethod, v: nat, w: int)
    requires
        0 <= w <= 11,
    ensures
        top_unit_below(m, v, w) <= w,
        top_unit_below(m, v, w) < w ==> pow10(unit_exp(m, top_unit_below(m, v, w) + 1)) > v,
    decreases w,
{
    if w <= 0 {
    } else if pow10(unit_exp(m, w)) <= v {
    } else {
        lemma_top_unit_below_max(m, v, w - 1);
    }
}

/// The sum of a concatenated stack is the sum of its parts.
proof fn lemma_stack_sum_append(m: ChineseNumberCountMethod, a: Seq<Entry>, b: Seq<Entry>)
    ensures
        stack_sum(m, a + b) == stack_sum(m, a) + stack_sum(m, b),
    decreases b.len(),
{
    if b.len() == 0 {
        assert(a + b =~= a);
    } else {
        assert((a + b).drop_last() =~= a + b.drop_last());
        assert((a + b).last() == b.last());
        lemma_stack_sum_append(m, a, b.drop_last());
    }
}

/// Popping below `u` off a stack whose upper part all lies below `u` and
/// whose lower part stays at or above `u` removes exactly the upper part.
proof fn lemma_pop_below_exact(
    m: ChineseNumberCountMethod,
    a: Seq<Entry>,
    b: Seq<Entry>,
    u: int,
)
    requires
        forall|j: int| 0 <= j < b.len() ==> (#[trigger] b[j].unit) < u,
        a.len() > 0 ==> a.last().unit >= u,
    ensures
        pop_below(m, a + b, u) == (a, stack_sum(m, b)),
    decreases b.len(),
{
    if b.len() == 0 {
        assert(a + b =~= a);
        assert(stack_sum(m, b) == 0);
        if a.len() > 0 {
            assert(pop_below(m, a, u) == (a, 0nat));
        }
    } else {
        assert((a + b).last() == b.last());
        assert(b.last().unit < u);
        assert((a + b).drop_last() =~= a + b.drop_last());
        lemma_pop_below_exact(m, a, b.drop_last(), u);
        assert(stack_sum(m, b) == stack_sum(m, b.drop_last()) + entry_value(m, b.last()));
    }
}

/// Reading the numeral of any positive value from a fresh section adds
/// exactly that value to the machine's total: the round-trip law's engine.
#[verifier::spinoff_prover]
proof fn lemma_rt_value(m: ChineseNumberCountMethod, v: nat, elide: bool, s: Machine)
    requires
        1 <= v,
        v < pow10((unit_exp(m, 11) + coeff_exp(m, 11)) as nat),
        machine_wf(m, s),
        s.acc == 0,
        s.min_e == 4,
        s.gst is Start || (s.gst is InZeros && !elide),
        s.stack.len() > 0 ==> v < pow10(unit_exp(m, s.stack.last().unit)),
    ensures
        ({
            let r = run(m, emit_tokens(m, v, elide), s);
            &&& r is Good
            &&& machine_wf(m, r->Good_0)
            &&& machine_total(m, r->Good_0) == machine_total(m, s) + v
            &&& r->Good_0.stack.len() >= s.stack.len()
            &&& (forall|j: int| 0 <= j < s.stack.len() ==> r->Good_0.stack[j] == s.stack[j])
            &&& (forall|j: int|
                s.stack.len() <= j < r->Good_0.stack.len() ==> pow10(
                    unit_exp(m, #[trigger] r->Good_0.stack[j].unit),
                ) <= v)
            &&& !(r->Good_0.gst is InZeros)
        }),
    decreases v, 6int,
{
    lemma_pow10_small();
    if v < 10000 {
        lemma_rt_group(m, v, elide, s);
    } else {
        lemma_rt_value_large(m, v, elide, s);
    }
}

/// The case of a value that carries at least one large unit.
#[verifier::rlimit(100)]
#[verifier::spinoff_prover]
proof fn lemma_rt_value_large(m: ChineseNumberCountMethod, v: nat, elide: bool, s: Machine)
    requires
        1 <= v,
        v < pow10((unit_exp(m, 11) + coeff_exp(m, 11)) as nat),
        machine_wf(m, s),
        s.acc == 0,
        s.min_e == 4,
        s.gst is Start || (s.gst is InZeros && !elide),
        s.stack.len() > 0 ==> v < pow10(unit_exp(m, s.stack.last().unit)),
        v >= 10000,
    ensures
        ({
            let r = run(m, emit_tokens(m, v, elide), s);
            &&& r is Good
            &&& machine_wf(m, r->Good_0)
            &&& machine_total(m, r->Good_0) == machine_total(m, s) + v
            &&& r->Good_0.stack.len() >= s.stack.len()
            &&& (forall|j: int| 0 <= j < s.stack.len() ==> r->Good_0.stack[j] == s.stack[j])
            &&& (forall|j: int|
                s.stack.len() <= j < r->Good_0.stack.len() ==> pow10(
                    unit_exp(m, #[trigger] r->Good_0.stack[j].unit),
                ) <= v)
            &&& !(r->Good_0.gst is InZeros)
        }),
    decreases v, 5int,
{
    lemma_pow10_small();
    let ts = emit_tokens(m, v, elide);
    {

        let u = top_unit(m, v);
        lemma_top_unit(m, v);
        lemma_top_unit_max(m, v);
        lemma_unit_exp_at_least_four(m, u);
        lemma_coeff_exp_le_unit_exp(m, u);
        lemma_unit_exp_step_all(m, u);
        let mag = pow10(unit_exp(m, u));
        let hi = v / mag;
        let lo = v % mag;
        lemma_pow10_pos(unit_exp(m, u));
        lemma_pow10_mono(4, unit_exp(m, u));
        vstd::arithmetic::div_mod::lemma_fundamental_div_mod(v as int, mag as int);
        vstd::arithmetic::div_mod::lemma_mod_division_less_than_divisor(v as int, mag as int);
        vstd::arithmetic::div_mod::lemma_div_decreases(v as int, mag as int);
        vstd::arithmetic::div_mod::lemma_div_non_zero(v as int, mag as int);
        // the multiplier fits below the unit's ceiling
        lemma_pow10_adds(unit_exp(m, u), coeff_exp(m, u));
        assert(v < mag * pow10(coeff_exp(m, u))) by {
            if u < 11 {
                lemma_unit_exp_step(m, u);
                lemma_pow10_adds(unit_exp(m, u), coeff_exp(m, u));
            }
        }
        assert(hi < pow10(coeff_exp(m, u))) by {
            vstd::arithmetic::div_mod::lemma_multiply_divide_lt(
                v as int,
                mag as int,
                pow10(coeff_exp(m, u)) as int,
            );
        }
        // read the multiplier's numeral
        lemma_rt_value(m, hi, elide, s);
        let a = emit_tokens(m, hi, elide);
        let s1 = run(m, a, s)->Good_0;
        // the completed multiplier entries all lie strictly below `u`
        let extra = s1.stack.subrange(s.stack.len() as int, s1.stack.len() as int);
        assert(s1.stack =~= s.stack + extra);
        assert(forall|j: int| 0 <= j < extra.len() ==> (#[trigger] extra[j].unit) < u) by {
            assert forall|j: int| 0 <= j < extra.len() implies (#[trigger] extra[j].unit) < u by {
                assert(extra[j] == s1.stack[s.stack.len() + j]);
                assert(pow10(unit_exp(m, extra[j].unit)) <= hi);
                lemma_pow10_mono(coeff_exp(m, u), unit_exp(m, u));
                if extra[j].unit >= u {
                    lemma_unit_exp_mono(m, u, extra[j].unit);
                    lemma_pow10_mono(unit_exp(m, u), unit_exp(m, extra[j].unit));
                }
            }
        }
        if s.stack.len() > 0 {
            assert(s.stack.last().unit > u) by {
                if s.stack.last().unit <= u {
                    lemma_unit_exp_mono(m, s.stack.last().unit, u);
                    lemma_pow10_mono(
                        unit_exp(m, s.stack.last().unit),
                        unit_exp(m, u),
                    );
                }
            }
        }
        lemma_pop_below_exact(m, s.stack, extra, u);
        lemma_stack_sum_append(m, s.stack, extra);
        // the large-unit step completes the multiplier
        let t = Token::Large(u as u8);
        let coeff = group_value(s1) + stack_sum(m, extra);
        assert(machine_total(m, s1) == machine_total(m, s) + hi);
        assert(machine_total(m, s) == stack_sum(m, s.stack));
        assert(coeff == hi);
        let s2 = crate::model::fresh_section(
            s.stack.push(Entry { coeff: hi, unit: u }),
        );
        assert(machine_step(m, s1, t) == Some(s2));
        lemma_run_one(m, t, s1, s2);
        lemma_machine_step_wf(m, s1, t);
        lemma_run_append(m, a, seq![t], s);
        let ab = a + seq![t];
        assert(run(m, ab, s) == RunResult::Good(s2));
        let c = emit_below(m, lo, (unit_exp(m, u) - 1) as nat);
        assert(ts =~= ab + c);
        lemma_run_append(m, ab, c, s);
        // the new entry carries the multiplier's whole value
        lemma_stack_sum_append(m, s.stack, seq![Entry { coeff: hi, unit: u }]);
        assert(s.stack.push(Entry { coeff: hi, unit: u }) =~= s.stack + seq![
            Entry { coeff: hi, unit: u },
        ]);
        assert(stack_sum(m, seq![Entry { coeff: hi, unit: u }]) == hi * mag) by {
            assert(seq![Entry { coeff: hi, unit: u }].drop_last() =~= Seq::<Entry>::empty());
            assert(stack_sum(m, Seq::<Entry>::empty()) == 0);
            assert(seq![Entry { coeff: hi, unit: u }].last() == Entry { coeff: hi, unit: u });
            assert(entry_value(m, Entry { coeff: hi, unit: u }) == hi * mag);
        }
        vstd::arithmetic::mul::lemma_mul_is_commutative(hi as int, mag as int);
        assert(machine_total(m, s2) == machine_total(m, s) + hi * mag);
        if lo == 0 {
            assert(c =~= Seq::<Token>::empty());
            assert(run(m, c, s2) == RunResult::Good(s2));
            assert(run(m, ts, s) == RunResult::Good(s2));
            assert(machine_total(m, s2) == machine_total(m, s) + v);
            assert(s2.stack.last() == Entry { coeff: hi, unit: u });
            assert(forall|j: int|
                s.stack.len() <= j < s2.stack.len() ==> pow10(
                    unit_exp(m, #[trigger] s2.stack[j].unit),
                ) <= v);
        } else {
            lemma_rt_value_below(m, lo, (unit_exp(m, u) - 1) as nat, s2);
            let sf = run(m, c, s2)->Good_0;
            assert(run(m, ts, s) == RunResult::Good(sf));
            assert(machine_total(m, sf) == machine_total(m, s) + v);
            assert(forall|j: int| 0 <= j < s.stack.len() ==> sf.stack[j] == s.stack[j]) by {
                assert(forall|j: int|
                    0 <= j < s2.stack.len() ==> #[trigger] sf.stack[j] == s2.stack[j]);
                assert(forall|j: int|
                    0 <= j < s.stack.len() ==> #[trigger] s2.stack[j] == s.stack[j]);
            }
            assert forall|j: int|
                s.stack.len() <= j < sf.stack.len() implies pow10(
                    unit_exp(m, #[trigger] sf.stack[j].unit),
                ) <= v by {
                if j < s2.stack.len() {
                    assert(sf.stack[j] == s2.stack[j]);
                    if j == s2.stack.len() - 1 {
                        assert(s2.stack[j] == Entry { coeff: hi, unit: u });
                    }
                } else {
                    assert(pow10(unit_exp(m, sf.stack[j].unit)) <= lo);
                }
            }
        }
    }
}

/// On every ladder, each unit's exponent plus its multiplier bound is the
/// next unit's exponent, and for the last unit it bounds the whole ladder.
proof fn lemma_unit_exp_step_all(m: ChineseNumberCountMethod, u: int)
    requires
        0 <= u <= 11,
    ensures
        u < 11 ==> unit_exp(m, u + 1) == unit_exp(m, u) + coeff_exp(m, u),
        unit_exp(m, u) + coeff_exp(m, u) <= unit_exp(m, 11) + coeff_exp(m, 11),
{
    if u < 11 {
        lemma_unit_exp_step(m, u);
        lemma_unit_exp_mono(m, u + 1, 11);
        lemma_coeff_exp_le_unit_exp(m, 11);
        if m is High {
            vstd::arithmetic::power::lemma_pow_positive(2, u as nat);
            vstd::arithmetic::power::lemma_pow_positive(2, 11);
            vstd::arithmetic::power::lemma_pow_increases(2, u as nat, 11);
        }
    }
}

/// Reading the remainder after a completed large unit: an optional zero
/// connector, then the remainder's numeral.
#[verifier::rlimit(100)]
#[verifier::spinoff_prover]
proof fn lemma_rt_value_below(m: ChineseNumberCountMethod, r: nat, e: nat, s: Machine)
    requires
        1 <= r,
        r < pow10((e + 1) as nat),
        r < pow10((unit_exp(m, 11) + coeff_exp(m, 11)) as nat),
        machine_wf(m, s),
        s.acc == 0,
        s.min_e == 4,
        s.gst is Start,
        s.stack.len() > 0,
        pow10((e + 1) as nat) <= pow10(unit_exp(m, s.stack.last().unit)),
    ensures
        ({
            let rr = run(m, emit_below(m, r, e), s);
            &&& rr is Good
            &&& machine_wf(m, rr->Good_0)
            &&& machine_total(m, rr->Good_0) == machine_total(m, s) + r
            &&& rr->Good_0.stack.len() >= s.stack.len()
            &&& (forall|j: int| 0 <= j < s.stack.len() ==> rr->Good_0.stack[j] == s.stack[j])
            &&& (forall|j: int|
                s.stack.len() <= j < rr->Good_0.stack.len() ==> pow10(
                    unit_exp(m, #[trigger] rr->Good_0.stack[j].unit),
                ) <= r)
            &&& !(rr->Good_0.gst is InZeros)
        }),
    decreases r, 7int,
{
    let bts = emit_below(m, r, e);
    if r < pow10(e) {
        let t = Token::Zero;
        let s1 = Machine { gst: GroupState::InZeros, ..s };
        assert(machine_step(m, s, t) == Some(s1));
        lemma_run_one(m, t, s, s1);
        lemma_machine_step_wf(m, s, t);
        assert(bts =~= seq![t] + emit_tokens(m, r, false));
        lemma_run_append(m, seq![t], emit_tokens(m, r, false), s);
        lemma_rt_value(m, r, false, s1);
    } else {
        assert(bts =~= emit_tokens(m, r, false));
        lemma_rt_value(m, r, false, s);
    }
}

/// Every token the emitter produces is well formed.
pub(crate) proof fn lemma_emit_wf(m: ChineseNumberCountMethod, v: nat, elide: bool)
    ensures
        forall|j: int|
            0 <= j < emit_tokens(m, v, elide).len() ==> wf_token(
                #[trigger] emit_tokens(m, v, elide)[j],
            ),
    decreases v, 0int,
{
    lemma_pow10_small();
    let ts = emit_tokens(m, v, elide);
    if v == 0 {
    } else if v < 10 {
    } else if v < 100 {
        let hi = v / 10;
        let lo = v % 10;
        let p = if hi == 1 && elide {
            Seq::<Token>::empty()
        } else {
            seq![Token::Digit(hi as u8)]
        };
        let q = if lo == 0 {
            Seq::<Token>::empty()
        } else {
            seq![Token::Digit(lo as u8)]
        };
        assert(ts == p + seq![Token::Small(1)] + q);
        assert forall|j: int| 0 <= j < ts.len() implies wf_token(#[trigger] ts[j]) by {
            if j < p.len() {
                assert(ts[j] == p[j]);
            } else if j == p.len() {
                assert(ts[j] == Token::Small(1));
            } else {
                assert(ts[j] == q[j - p.len() - 1]);
            }
        }
    } else if v < 10000 {
        let e: nat = if v < 1000 {
            2
        } else {
            3
        };
        let bts = emit_below(m, v % pow10(e), (e - 1) as nat);
        lemma_emit_below_wf(m, v % pow10(e), (e - 1) as nat);
        assert(1 <= v / pow10(e) <= 9) by {
            vstd::arithmetic::div_mod::lemma_fundamental_div_mod(v as int, pow10(e) as int);
        }
        let hd = seq![Token::Digit((v / pow10(e)) as u8), Token::Small(e as u8)];
        assert(ts == hd + bts);
        assert forall|j: int| 0 <= j < ts.len() implies wf_token(#[trigger] ts[j]) by {
            if j < 2 {
                assert(ts[j] == hd[j]);
            } else {
                assert(ts[j] == bts[j - 2]);
            }
        }
    } else {
        let u = top_unit(m, v);
        lemma_top_unit(m, v);
        lemma_unit_exp_at_least_four(m, u);
        lemma_pow10_mono(4, unit_exp(m, u));
        let mag = pow10(unit_exp(m, u));
        vstd::arithmetic::div_mod::lemma_div_decreases(v as int, mag as int);
        vstd::arithmetic::div_mod::lemma_mod_division_less_than_divisor(v as int, mag as int);
        lemma_emit_wf(m, v / mag, elide);
        lemma_emit_below_wf(m, v % mag, (unit_exp(m, u) - 1) as nat);
        let a = emit_tokens(m, v / mag, elide);
        let c = emit_below(m, v % mag, (unit_exp(m, u) - 1) as nat);
        assert(ts == a + seq![Token::Large(u as u8)] + c);
        assert forall|j: int| 0 <= j < ts.len() implies wf_token(#[trigger] ts[j]) by {
            if j < a.len() {
                assert(ts[j] == a[j]);
            } else if j == a.len() {
                assert(ts[j] == Token::Large(u as u8));
            } else {
                assert(ts[j] == c[j - a.len() - 1]);
            }
        }
    }
}

pub(crate) proof fn lemma_emit_below_wf(m: ChineseNumberCountMethod, r: nat, e: nat)
    ensures
        forall|j: int|
            0 <= j < emit_below(m, r, e).len() ==> wf_token(#[trigger] emit_below(m, r, e)[j]),
    decreases r, 1int,
{
    if r == 0 {
    } else {
        lemma_emit_wf(m, r, false);
        let bts = emit_below(m, r, e);
        let a = emit_tokens(m, r, false);
        let z = if r < pow10(e) {
            seq![Token::Zero]
        } else {
            Seq::<Token>::empty()
        };
        assert(bts == z + a);
        assert forall|j: int| 0 <= j < bts.len() implies wf_token(#[trigger] bts[j]) by {
            if j < z.len() {
                assert(bts[j] == Token::Zero);
            } else {
                assert(bts[j] == a[j - z.len()]);
            }
        }
    }
}

/// Running over the glyphs of well-formed tokens is running over the tokens.
proof fn lemma_run_glyphs(
    m: ChineseNumberCountMethod,
    variant: ChineseVariant,
    case: ChineseNumberCase,
    ts: Seq<Token>,
    s: Machine,
)
    requires
        forall|j: int| 0 <= j < ts.len() ==> wf_token(#[trigger] ts[j]),
    ensures
        run_chars(m, glyph_seq(variant, case, ts), s) == run(m, ts, s),
    decreases ts.len(),
{
    let cs = glyph_seq(variant, case, ts);
    if ts.len() == 0 {
        assert(cs =~= Seq::<char>::empty());
    } else {
        assert(cs[0] == token_glyph(variant, case, ts[0]));
        lemma_classify_glyph(variant, case, ts[0]);
        match machine_step(m, s, ts[0]) {
            Option::None => {},
            Option::Some(s2) => {
                assert(cs.drop_first() =~= glyph_seq(variant, case, ts.drop_first()));
                lemma_run_glyphs(m, variant, case, ts.drop_first(), s2);
            },
        }
    }
}

/// No numeral glyph is a space, so stripping spaces leaves a rendering
/// untouched.
proof fn lemma_strip_glyphs(variant: ChineseVariant, case: ChineseNumberCase, ts: Seq<Token>)
    requires
        forall|j: int| 0 <= j < ts.len() ==> wf_token(#[trigger] ts[j]),
    ensures
        strip_spaces(glyph_seq(variant, case, ts)) == glyph_seq(variant, case, ts),
    decreases ts.len(),
{
    let cs = glyph_seq(variant, case, ts);
    if ts.len() == 0 {
        assert(cs =~= Seq::<char>::empty());
    } else {
        assert(cs.drop_last() =~= glyph_seq(variant, case, ts.drop_last()));
        lemma_strip_glyphs(variant, case, ts.drop_last());
        assert(cs.last() == token_glyph(variant, case, ts.last()));
        assert(cs.last() != ' ');
        assert(strip_spaces(cs) =~= cs);
    }
}

/// The ladder ceiling of each method covers every value its formatter is
/// asked for: `10^16` under Low, and more than `u128::MAX` elsewhere.
proof fn lemma_ceiling(m: ChineseNumberCountMethod, v: nat)
    requires
        v <= u128::MAX,
        m is Low ==> v < pow10(16),
    ensures
        v < pow10((unit_exp(m, 11) + coeff_exp(m, 11)) as nat),
{
    lemma_pow10_u128();
    match m {
        ChineseNumberCountMethod::Low => {
            assert(unit_exp(m, 11) + coeff_exp(m, 11) == 16);
        },
        ChineseNumberCountMethod::TenThousand => {
            assert(unit_exp(m, 11) + coeff_exp(m, 11) == 52);
            lemma_pow10_mono(39, 52);
        },
        ChineseNumberCountMethod::Middle => {
            assert(unit_exp(m, 11) + coeff_exp(m, 11) == 96);
            lemma_pow10_mono(39, 96);
        },
        ChineseNumberCountMethod::High => {
            assert(unit_exp(m, 11) == 8192) by {
                reveal_with_fuel(vstd::arithmetic::power::pow, 13);
            }
            lemma_pow10_mono(39, 16384);
        },
    }
}

/// ROUND TRIP, unsigned: parsing a formatted unsigned value under the same
/// counting method yields the value back, whatever the script variant and
/// the orthographic case.
pub proof fn lemma_round_trip_unsigned(
    m: ChineseNumberCountMethod,
    variant: ChineseVariant,
    case: ChineseNumberCase,
    v: nat,
)
    requires
        v <= u128::MAX,
        m is Low ==> v < pow10(16),
    ensures
        crate::model::spec_parse_unsigned(
            m,
            strip_spaces(crate::format::spec_format_unsigned(m, variant, case, v)),
        ) == crate::model::ParseOutcome::Val(v),
{
    lemma_pow10_small();
    lemma_ceiling(m, v);
    let elide = case is Lower;
    let ts = emit_tokens(m, v, elide);
    let cs = glyph_seq(variant, case, ts);
    lemma_emit_wf(m, v, elide);
    lemma_strip_glyphs(variant, case, ts);
    lemma_run_glyphs(m, variant, case, ts, init_machine());
    if v == 0 {
        // the single zero connector reads back as zero
        let t = Token::Zero;
        let s1 = Machine { gst: GroupState::InZeros, ..init_machine() };
        assert(machine_step(m, init_machine(), t) == Some(s1));
        lemma_run_one(m, t, init_machine(), s1);
        assert(ts =~= seq![t]);
        assert(machine_total(m, s1) == 0);
        assert(cs.len() > 0);
    } else {
        lemma_rt_value(m, v, elide, init_machine());
        let sf = run(m, ts, init_machine())->Good_0;
        assert(machine_total(m, init_machine()) == 0);
        assert(machine_total(m, sf) == v);
        assert(cs.len() == ts.len());
        assert(ts.len() > 0) by {
            if v < 10 {
            } else if v < 100 {
            } else if v < 10000 {
            } else {
            }
        }
    }
}

/// ROUND TRIP, signed: parsing a formatted signed value under the same
/// counting method yields the value back, the sign included.
pub proof fn lemma_round_trip_signed(
    m: ChineseNumberCountMethod,
    variant: ChineseVariant,
    case: ChineseNumberCase,
    v: int,
)
    requires
        -(u128::MAX as int) <= v <= u128::MAX,
        m is Low ==> -pow10(16) < v < pow10(16),
    ensures
        crate::model::spec_parse_signed(
            m,
            strip_spaces(crate::format::spec_format_signed(m, variant, case, v)),
        ) == crate::model::SignedParseOutcome::Val(v),
{
    lemma_pow10_small();
    let elide = case is Lower;
    if v >= 0 {
        lemma_round_trip_unsigned(m, variant, case, v as nat);
        let ts = emit_tokens(m, v as nat, elide);
        let cs = glyph_seq(variant, case, ts);
        lemma_emit_wf(m, v as nat, elide);
        lemma_strip_glyphs(variant, case, ts);
        // a rendering of a nonnegative value never opens with the sign
        assert(spec_classify(cs[0]) != Some(Token::Neg)) by {
            assert(cs[0] == token_glyph(variant, case, ts[0]));
            lemma_classify_glyph(variant, case, ts[0]);
            assert(wf_token(ts[0]));
            assert(!(ts[0] is Neg)) by {
                lemma_emit_first_token(m, v as nat, elide);
            }
        }
        lemma_run_glyphs(m, variant, case, ts, init_machine());
    } else {
        let mag = (-v) as nat;
        lemma_ceiling(m, mag);
        let ts = emit_tokens(m, mag, elide);
        let cs = glyph_seq(variant, case, ts);
        lemma_emit_wf(m, mag, elide);
        let s = crate::format::spec_format_signed(m, variant, case, v);
        assert(s == seq![crate::tables::negative_glyph(variant)] + cs);
        lemma_classify_glyph(variant, case, Token::Neg);
        assert(s[0] == crate::tables::negative_glyph(variant));
        assert(spec_classify(s[0]) == Some(Token::Neg));
        assert(strip_spaces(s) == s) by {
            lemma_strip_with_sign(variant, case, ts);
        }
        assert(s.drop_first() =~= cs);
        lemma_run_glyphs(m, variant, case, ts, init_machine());
        lemma_rt_value(m, mag, elide, init_machine());
        assert(s.len() > 1) by {
            assert(cs.len() == ts.len());
            assert(ts.len() > 0);
        }
    }
}

/// The rendering of a value never begins with the negative sign or a
/// fraction unit.
pub(crate) proof fn lemma_emit_first_token(m: ChineseNumberCountMethod, v: nat, elide: bool)
    ensures
        emit_tokens(m, v, elide).len() > 0,
        !(emit_tokens(m, v, elide)[0] is Neg),
        !(emit_tokens(m, v, elide)[0] is Frac),
    decreases v,
{
    lemma_pow10_small();
    if v == 0 {
    } else if v < 10 {
    } else if v < 100 {
    } else if v < 10000 {
    } else {
        let u = top_unit(m, v);
        lemma_top_unit(m, v);
        lemma_unit_exp_at_least_four(m, u);
        lemma_pow10_mono(4, unit_exp(m, u));
        let mag = pow10(unit_exp(m, u));
        vstd::arithmetic::div_mod::lemma_div_decreases(v as int, mag as int);
        vstd::arithmetic::div_mod::lemma_div_pos_is_pos(v as int, mag as int);
        lemma_emit_first_token(m, v / mag, elide);
        assert(emit_tokens(m, v, elide)[0] == emit_tokens(m, v / mag, elide)[0]);
    }
}

/// Stripping spaces from a signed rendering leaves it untouched.
proof fn lemma_strip_with_sign(
    variant: ChineseVariant,
    case: ChineseNumberCase,
    ts: Seq<Token>,
)
    requires
        forall|j: int| 0 <= j < ts.len() ==> wf_token(#[trigger] ts[j]),
    ensures
        strip_spaces(
            seq![crate::tables::negative_glyph(variant)] + glyph_seq(variant, case, ts),
        ) == seq![crate::tables::negative_glyph(variant)] + glyph_seq(variant, case, ts),
{
    let full = seq![Token::Neg] + ts;
    assert(glyph_seq(variant, case, full) =~= seq![crate::tables::negative_glyph(variant)]
        + glyph_seq(variant, case, ts));
    assert(forall|j: int| 0 <= j < full.len() ==> wf_token(#[trigger] full[j])) by {
        assert(full[0] == Token::Neg);
        assert(forall|j: int| 1 <= j < full.len() ==> full[j] == ts[j - 1]);
    }
    lemma_strip_glyphs(variant, case, full);
}

/// VARIANT INDEPENDENCE: the Traditional and the Simplified rendering of a
/// value read back alike.
pub proof fn lemma_parse_variant_independent(
    m: ChineseNumberCountMethod,
    case: ChineseNumberCase,
    v: nat,
)
    requires
        v <= u128::MAX,
        m is Low ==> v < pow10(16),
    ensures
        crate::model::spec_parse_unsigned(
            m,
            strip_spaces(
                crate::format::spec_format_unsigned(m, ChineseVariant::Traditional, case, v),
            ),
        ) == crate::model::spec_parse_unsigned(
            m,
            strip_spaces(
                crate::format::spec_format_unsigned(m, ChineseVariant::Simple, case, v),
            ),
        ),
{
    lemma_round_trip_unsigned(m, ChineseVariant::Traditional, case, v);
    lemma_round_trip_unsigned(m, ChineseVariant::Simple, case, v);
}

/// CASE INDEPENDENCE: the everyday and the formal rendering of a value read
/// back alike.
pub proof fn lemma_parse_case_independent(
    m: ChineseNumberCountMethod,
    variant: ChineseVariant,
    v: nat,
)
    requires
        v <= u128::MAX,
        m is Low ==> v < pow10(16),
    ensures
        crate::model::spec_parse_unsigned(
            m,
            strip_spaces(
                crate::format::spec_format_unsigned(m, variant, ChineseNumberCase::Lower, v),
            ),
        ) == crate::model::spec_parse_unsigned(
            m,
            strip_spaces(
                crate::format::spec_format_unsigned(m, variant, ChineseNumberCase::Upper, v),
            ),
        ),
{
    lemma_round_trip_unsigned(m, variant, ChineseNumberCase::Lower, v);
    lemma_round_trip_unsigned(m, variant, ChineseNumberCase::Upper, v);
}

} // verus!
