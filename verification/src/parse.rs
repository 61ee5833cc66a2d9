//! The parser: reading a Chinese numeral string back to an integer.
//!
//! The string is stripped of ASCII spaces, each character is classified
//! against the tables, and the token machine of the model runs over the
//! result.  The executable machine mirrors the specification machine; a
//! multiplier that outgrows `u128` is tracked with a flag, which is enough
//! to report overflow exactly.

use vstd::prelude::*;
use crate::format::{exec_pow10, exec_unit_exp};
use crate::model::{coeff_exp, entry_value, entry_wf, fresh_section, group_value, init_machine, spec_parse_signed, spec_parse_unsigned, ParseOutcome, SignedParseOutcome, lemma_large_coeff_bound, lemma_machine_step_wf, lemma_pop_below, lemma_pow10_pos, lemma_pow10_small, lemma_pow10_u128, lemma_run_chars_append, machine_step, machine_total, machine_wf, pop_below, pow10, run_chars, stack_sum, stack_wf, strip_spaces, unit_exp, Entry, GroupState, Machine, RunResult, Token};
use crate::tables::{classify_char, lemma_classify_wf, spec_classify};
use crate::types::{ChineseNumberCountMethod, ChineseNumberParseError};
use vstd::string::StrSliceExecFns;

verus! {

/// Removes the ASCII spaces of `s`, keeping every other character.
fn strip_spaces_exec(s: &str) -> (v: Vec<char>)
    ensures
        v@ == strip_spaces(s@),
{
    let n = s.unicode_len();
    let mut v: Vec<char> = Vec::new();
    let mut i: usize = 0;
    while i < n
        invariant
            i <= n,
            n == s@.len(),
            v@ == strip_spaces(s@.subrange(0, i as int)),
        decreases n - i,
    {
        let c = s.get_char(i);
        proof {
            assert(s@.subrange(0, i + 1).drop_last() =~= s@.subrange(0, i as int));
            assert(s@.subrange(0, i + 1).last() == s@[i as int]);
        }
        if c != ' ' {
            v.push(c);
        }
        proof {
            assert(v@ =~= strip_spaces(s@.subrange(0, i + 1)));
        }
        i = i + 1;
    }
    proof {
        assert(s@.subrange(0, n as int) =~= s@);
    }
    v
}

/// A completed multiplier as the executable machine stores it.  `big` says
/// that the true multiplier exceeds `u128`; `coeff` is exact otherwise.
struct StackEntry {
    coeff: u128,
    unit: u8,
    big: bool,
}

/// The executable mirror of the model's group micro-state.
enum ExecGroupState {
    Start,
    InZeros,
    AfterDigit(u8),
    AfterPair,
    SoloTen,
    Closed,
}

/// How a run can fail: a bad character at an index, or a value beyond `u128`.
enum RunFailure {
    Bad(usize),
    Huge,
}

spec fn entry_rel(en: StackEntry, ge: Entry) -> bool {
    &&& ge.unit == en.unit as int
    &&& if en.big {
        ge.coeff > u128::MAX
    } else {
        ge.coeff == en.coeff as nat
    }
}

spec fn stack_rel(vs: Seq<StackEntry>, gs: Seq<Entry>) -> bool {
    &&& vs.len() == gs.len()
    &&& forall|j: int| 0 <= j < vs.len() ==> entry_rel(#[trigger] vs[j], gs[j])
}

spec fn gst_rel(eg: ExecGroupState, gg: GroupState) -> bool {
    match eg {
        ExecGroupState::Start => gg is Start,
        ExecGroupState::InZeros => gg is InZeros,
        ExecGroupState::AfterDigit(d) => gg matches GroupState::AfterDigit(gd) && gd == d as nat,
        ExecGroupState::AfterPair => gg is AfterPair,
        ExecGroupState::SoloTen => gg is SoloTen,
        ExecGroupState::Closed => gg is Closed,
    }
}

spec fn state_rel(vs: Seq<StackEntry>, acc: u32, min_e: u8, eg: ExecGroupState, g: Machine) -> bool {
    &&& stack_rel(vs, g.stack)
    &&& g.acc == acc as nat
    &&& g.min_e == min_e as nat
    &&& gst_rel(eg, g.gst)
}

/// Extending a good run by one accepted character.
proof fn lemma_run_extend(
    m: ChineseNumberCountMethod,
    cs: Seq<char>,
    start: int,
    i: int,
    g: Machine,
    t: Token,
    g2: Machine,
)
    requires
        0 <= start <= i < cs.len(),
        run_chars(m, cs.subrange(start, i), init_machine()) == RunResult::Good(g),
        spec_classify(cs[i]) == Some(t),
        machine_step(m, g, t) == Some(g2),
    ensures
        run_chars(m, cs.subrange(start, i + 1), init_machine()) == RunResult::Good(g2),
{
    let pre = cs.subrange(start, i);
    let one = seq![cs[i]];
    assert(cs.subrange(start, i + 1) =~= pre + one);
    lemma_run_chars_append(m, pre, one, init_machine());
    assert(one[0] == cs[i]);
    assert(one.drop_first() =~= Seq::<char>::empty());
    assert(run_chars(m, one.drop_first(), g2) == RunResult::Good(g2));
    assert(run_chars(m, one, g) == RunResult::Good(g2));
}

/// A rejected character at `i` makes the whole remaining run fail at `i`.
proof fn lemma_run_fail(
    m: ChineseNumberCountMethod,
    cs: Seq<char>,
    start: int,
    i: int,
    end: int,
    g: Machine,
)
    requires
        0 <= start <= i < end <= cs.len(),
        run_chars(m, cs.subrange(start, i), init_machine()) == RunResult::Good(g),
        match spec_classify(cs[i]) {
            Option::Some(t) => machine_step(m, g, t) is None,
            Option::None => true,
        },
    ensures
        run_chars(m, cs.subrange(start, end), init_machine()) == RunResult::Bad(i - start),
{
    let pre = cs.subrange(start, i);
    let rest = cs.subrange(i, end);
    assert(cs.subrange(start, end) =~= pre + rest);
    lemma_run_chars_append(m, pre, rest, init_machine());
    assert(rest[0] == cs[i]);
    assert(run_chars(m, rest, g) == RunResult::Bad(0));
}

/// The prefix sums of a stack grow towards the whole sum, one entry's value
/// at a time.
proof fn lemma_stack_sum_take(m: ChineseNumberCountMethod, gs: Seq<Entry>, j: int)
    requires
        0 <= j < gs.len(),
    ensures
        stack_sum(m, gs.take(j + 1)) == stack_sum(m, gs.take(j)) + entry_value(m, gs[j]),
        stack_sum(m, gs.take(j + 1)) <= stack_sum(m, gs),
    decreases gs.len() - j,
{
    assert(gs.take(j + 1).drop_last() =~= gs.take(j));
    assert(gs.take(j + 1).last() == gs[j]);
    if j + 1 == gs.len() {
        assert(gs.take(j + 1) =~= gs);
    } else {
        lemma_stack_sum_take(m, gs, j + 1);
    }
}

/// The value of one well-formed entry, or `None` when it exceeds `u128`.
fn entry_value_exec(
    m: ChineseNumberCountMethod,
    coeff: u128,
    unit: u8,
    big: bool,
    Ghost(ge): Ghost<Entry>,
)
    -> (r: Option<u128>)
    requires
        entry_rel(StackEntry { coeff, unit, big }, ge),
        entry_wf(m, ge),
    ensures
        match r {
            Some(v) => v as nat == entry_value(m, ge),
            None => entry_value(m, ge) > u128::MAX,
        },
{
    proof {
        lemma_pow10_pos(unit_exp(m, ge.unit));
        vstd::arithmetic::mul::lemma_mul_inequality(
            1,
            ge.coeff as int,
            pow10(unit_exp(m, ge.unit)) as int,
        );
        vstd::arithmetic::mul::lemma_mul_inequality(
            1,
            pow10(unit_exp(m, ge.unit)) as int,
            ge.coeff as int,
        );
        // entry_value >= coeff and entry_value >= pow10(exp)
        assert(entry_value(m, ge) >= ge.coeff) by {
            vstd::arithmetic::mul::lemma_mul_ordering(
                ge.coeff as int,
                pow10(unit_exp(m, ge.unit)) as int,
            );
        }
    }
    if big {
        return None;
    }
    let e = exec_unit_exp(m, unit);
    if e > 38 {
        proof {
            crate::model::lemma_pow10_mono(39, e as nat);
            lemma_pow10_u128();
            assert(entry_value(m, ge) >= pow10(unit_exp(m, ge.unit))) by {
                vstd::arithmetic::mul::lemma_mul_ordering(
                    ge.coeff as int,
                    pow10(unit_exp(m, ge.unit)) as int,
                );
            }
        }
        return None;
    }
    let mag = exec_pow10(e);
    coeff.checked_mul(mag)
}

/// The exponent bounding a unit's multiplier, executable.
fn exec_coeff_exp(m: ChineseNumberCountMethod, u: u8) -> (e: u32)
    requires
        u <= 11,
    ensures
        e as nat == coeff_exp(m, u as int),
{
    match m {
        ChineseNumberCountMethod::Low => 1,
        ChineseNumberCountMethod::TenThousand => 4,
        ChineseNumberCountMethod::Middle => if u == 0 {
            4
        } else {
            8
        },
        ChineseNumberCountMethod::High => exec_unit_exp(m, u),
    }
}

/// Applies a large unit to the machine: pops the multiplier together, checks
/// it, and pushes the completed entry.  `None` reports the unit as invalid
/// here, exactly when the model's step fails.
#[verifier::rlimit(100)]
fn apply_large(
    m: ChineseNumberCountMethod,
    u: u8,
    gv: u32,
    stack: &mut Vec<StackEntry>,
    Ghost(g): Ghost<Machine>,
) -> (r: Option<Ghost<Machine>>)
    requires
        machine_wf(m, g),
        stack_rel(old(stack)@, g.stack),
        gv as nat == group_value(g),
        u <= 11,
        !(g.gst is InZeros),
    ensures
        match r {
            Some(gg) => {
                &&& machine_step(m, g, Token::Large(u)) == Some(gg@)
                &&& stack_rel(final(stack)@, gg@.stack)
                &&& gg@.acc == 0
                &&& gg@.min_e == 4
                &&& gg@.gst is Start
            },
            None => machine_step(m, g, Token::Large(u)) is None,
        },
{
    proof {
        lemma_pow10_small();
        lemma_pow10_u128();
        lemma_pop_below(m, g.stack, u as int);
        lemma_large_coeff_bound(m, g, u as int);
    }
    let ghost gs0 = g.stack;
    let mut coeff: u128 = gv as u128;
    let mut big = false;
    let ghost mut gs = g.stack;
    let ghost mut popped: nat = 0nat;
    while stack.len() > 0 && stack[stack.len() - 1].unit < u
        invariant
            machine_wf(m, g),
            stack_wf(m, gs),
            stack_rel(stack@, gs),
            u <= 11,
            gv as nat == group_value(g),
            pop_below(m, gs0, u as int).0 == pop_below(m, gs, u as int).0,
            pop_below(m, gs0, u as int).1 == pop_below(m, gs, u as int).1 + popped,
            if big {
                gv + popped > u128::MAX
            } else {
                coeff as nat == gv + popped
            },
        decreases stack@.len(),
    {
        let ghost gs_prev = gs;
        let ghost ge = gs.last();
        proof {
            assert(entry_rel(stack@[stack@.len() - 1], gs[gs.len() - 1]));
            assert(entry_wf(m, ge));
        }
        let en = stack.pop().unwrap();
        proof {
            gs = gs.drop_last();
            popped = popped + entry_value(m, ge);
            assert(stack_wf(m, gs)) by {
                assert(forall|j: int| 0 <= j < gs.len() ==> gs[j] == gs_prev[j]);
            }
            assert(stack_rel(stack@, gs));
            // popping the top entry moves its value from the stack to `popped`
            assert(pop_below(m, gs_prev, u as int).0 == pop_below(m, gs, u as int).0);
            assert(pop_below(m, gs_prev, u as int).1 == pop_below(m, gs, u as int).1
                + entry_value(m, ge));
        }
        let v_opt = entry_value_exec(m, en.coeff, en.unit, en.big, Ghost(ge));
        match v_opt {
            Option::Some(v) => {
                if !big {
                    match coeff.checked_add(v) {
                        Option::Some(c2) => {
                            coeff = c2;
                        },
                        Option::None => {
                            big = true;
                        },
                    }
                }
            },
            Option::None => {
                big = true;
            },
        }
    }
    // the stack's top now sits at or above `u`
    proof {
        if gs.len() > 0 {
            assert(entry_rel(stack@[stack@.len() - 1], gs[gs.len() - 1]));
        }
        assert(pop_below(m, gs, u as int) == (gs, 0nat));
        assert(pop_below(m, gs0, u as int).0 == gs);
        assert(pop_below(m, gs0, u as int).1 == popped);
    }
    let ghost coeff_s = (group_value(g) + popped) as nat;
    // a bare unit, with nothing before it, is invalid
    if !big && coeff == 0 {
        return None;
    }
    // the multiplier must stay below the unit's ceiling on this ladder
    let be = exec_coeff_exp(m, u);
    if be <= 38 {
        let bound = exec_pow10(be);
        if big {
            proof {
                crate::model::lemma_pow10_mono(be as nat, 38);
            }
            return None;
        }
        if coeff >= bound {
            return None;
        }
    } else {
        proof {
            // only the High ladder reaches this far, and there the multiplier
            // gathered from a well-formed stack always stays below the ceiling
            assert(coeff_s < pow10(coeff_exp(m, u as int)));
        }
    }
    // a repeated unit is invalid
    if stack.len() > 0 && stack[stack.len() - 1].unit == u {
        proof {
            assert(entry_rel(stack@[stack@.len() - 1], gs[gs.len() - 1]));
        }
        return None;
    }
    proof {
        if gs.len() > 0 {
            assert(entry_rel(stack@[stack@.len() - 1], gs[gs.len() - 1]));
        }
    }
    let en = StackEntry { coeff, unit: u, big };
    let ghost gen = Entry { coeff: coeff_s, unit: u as int };
    stack.push(en);
    let ghost g2 = fresh_section(gs.push(gen));
    proof {
        assert(machine_step(m, g, Token::Large(u)) == Some(g2));
        assert(entry_rel(en, gen));
        assert(stack_rel(stack@, g2.stack));
    }
    Some(Ghost(g2))
}

/// Runs the token machine over `cs` from position `start` up to `end`,
/// returning the value, the offset of the offending character, or the fact
/// that the value exceeds `u128`.
#[verifier::rlimit(100)]
fn run_machine(m: ChineseNumberCountMethod, cs: &Vec<char>, start: usize, end: usize) -> (r: Result<
    u128,
    RunFailure,
>)
    requires
        start <= end <= cs@.len(),
    ensures
        match run_chars(m, cs@.subrange(start as int, end as int), init_machine()) {
            RunResult::Good(g) => match r {
                Result::Ok(v) => v as nat == machine_total(m, g),
                Result::Err(f) => f is Huge && machine_total(m, g) > u128::MAX,
            },
            RunResult::Bad(i) => r == Result::<u128, RunFailure>::Err(
                RunFailure::Bad((start + i) as usize),
            ),
        },
{
    let mut i: usize = start;
    let mut stack: Vec<StackEntry> = Vec::new();
    let mut acc: u32 = 0;
    let mut min_e: u8 = 4;
    let mut gst = ExecGroupState::Start;
    let ghost mut g = init_machine();
    proof {
        assert(cs@.subrange(start as int, start as int) =~= Seq::<char>::empty());
        lemma_pow10_small();
    }
    while i < end
        invariant
            start <= i <= end <= cs@.len(),
            run_chars(m, cs@.subrange(start as int, i as int), init_machine())
                == RunResult::Good(g),
            machine_wf(m, g),
            state_rel(stack@, acc, min_e, gst, g),
        decreases end - i,
    {
        let c = cs[i];
        let t_opt = classify_char(c);
        let t: Token;
        match t_opt {
            Option::Some(tt) => {
                t = tt;
            },
            Option::None => {
                proof {
                    lemma_run_fail(m, cs@, start as int, i as int, end as int, g);
                }
                return Result::Err(RunFailure::Bad(i));
            },
        }
        proof {
            lemma_classify_wf(cs@[i as int]);
        }
        match t {
            Token::Zero => {
                match gst {
                    ExecGroupState::Start | ExecGroupState::InZeros | ExecGroupState::AfterPair => {
                        gst = ExecGroupState::InZeros;
                        proof {
                            let g2 = Machine { gst: GroupState::InZeros, ..g };
                            lemma_run_extend(m, cs@, start as int, i as int, g, t, g2);
                            lemma_machine_step_wf(m, g, t);
                            g = g2;
                        }
                    },
                    _ => {
                        proof {
                            lemma_run_fail(m, cs@, start as int, i as int, end as int, g);
                        }
                        return Result::Err(RunFailure::Bad(i));
                    },
                }
            },
            Token::Digit(d) => {
                match gst {
                    ExecGroupState::Start | ExecGroupState::InZeros | ExecGroupState::AfterPair => {
                        gst = ExecGroupState::AfterDigit(d);
                        proof {
                            let g2 = Machine { gst: GroupState::AfterDigit(d as nat), ..g };
                            lemma_run_extend(m, cs@, start as int, i as int, g, t, g2);
                            lemma_machine_step_wf(m, g, t);
                            g = g2;
                        }
                    },
                    ExecGroupState::SoloTen => {
                        acc = acc + d as u32;
                        gst = ExecGroupState::Closed;
                        proof {
                            let g2 = Machine {
                                acc: (g.acc + d) as nat,
                                gst: GroupState::Closed,
                                ..g
                            };
                            lemma_run_extend(m, cs@, start as int, i as int, g, t, g2);
                            lemma_machine_step_wf(m, g, t);
                            g = g2;
                        }
                    },
                    _ => {
                        proof {
                            lemma_run_fail(m, cs@, start as int, i as int, end as int, g);
                        }
                        return Result::Err(RunFailure::Bad(i));
                    },
                }
            },
            Token::Small(e) => {
                match gst {
                    ExecGroupState::AfterDigit(d) => {
                        if e < min_e {
                            let p: u32 = if e == 1 {
                                10
                            } else if e == 2 {
                                100
                            } else {
                                1000
                            };
                            proof {
                                lemma_pow10_small();
                                assert(p as nat == pow10(e as nat));
                            }
                            acc = acc + (d as u32) * p;
                            min_e = e;
                            gst = ExecGroupState::AfterPair;
                            proof {
                                let g2 = Machine {
                                    acc: (g.acc + (d as nat) * pow10(e as nat)) as nat,
                                    min_e: e as nat,
                                    gst: GroupState::AfterPair,
                                    ..g
                                };
                                lemma_run_extend(m, cs@, start as int, i as int, g, t, g2);
                                lemma_machine_step_wf(m, g, t);
                                g = g2;
                            }
                        } else {
                            proof {
                                lemma_run_fail(m, cs@, start as int, i as int, end as int, g);
                            }
                            return Result::Err(RunFailure::Bad(i));
                        }
                    },
                    ExecGroupState::Start => {
                        if e == 1 {
                            acc = 10;
                            min_e = 1;
                            gst = ExecGroupState::SoloTen;
                            proof {
                                let g2 = Machine {
                                    acc: 10nat,
                                    min_e: 1nat,
                                    gst: GroupState::SoloTen,
                                    ..g
                                };
                                lemma_run_extend(m, cs@, start as int, i as int, g, t, g2);
                                lemma_machine_step_wf(m, g, t);
                                g = g2;
                            }
                        } else {
                            proof {
                                lemma_run_fail(m, cs@, start as int, i as int, end as int, g);
                            }
                            return Result::Err(RunFailure::Bad(i));
                        }
                    },
                    _ => {
                        proof {
                            lemma_run_fail(m, cs@, start as int, i as int, end as int, g);
                        }
                        return Result::Err(RunFailure::Bad(i));
                    },
                }
            },
            Token::Large(u) => {
                let in_zeros = matches!(gst, ExecGroupState::InZeros);
                if in_zeros {
                    proof {
                        lemma_run_fail(m, cs@, start as int, i as int, end as int, g);
                    }
                    return Result::Err(RunFailure::Bad(i));
                }
                let gv: u32 = acc + (match gst {
                    ExecGroupState::AfterDigit(d) => d as u32,
                    _ => 0,
                });
                proof {
                    assert(gv as nat == group_value(g));
                }
                match apply_large(m, u, gv, &mut stack, Ghost(g)) {
                    Option::Some(gg) => {
                        acc = 0;
                        min_e = 4;
                        gst = ExecGroupState::Start;
                        proof {
                            lemma_run_extend(m, cs@, start as int, i as int, g, t, gg@);
                            lemma_machine_step_wf(m, g, t);
                            g = gg@;
                        }
                    },
                    Option::None => {
                        proof {
                            lemma_run_fail(m, cs@, start as int, i as int, end as int, g);
                        }
                        return Result::Err(RunFailure::Bad(i));
                    },
                }
            },
            Token::Neg => {
                proof {
                    lemma_run_fail(m, cs@, start as int, i as int, end as int, g);
                }
                return Result::Err(RunFailure::Bad(i));
            },
            Token::Frac(_) => {
                proof {
                    lemma_run_fail(m, cs@, start as int, i as int, end as int, g);
                }
                return Result::Err(RunFailure::Bad(i));
            },
        }
        i = i + 1;
    }
    // the whole input was read; add the stack up
    let gv: u32 = acc + (match gst {
        ExecGroupState::AfterDigit(d) => d as u32,
        _ => 0,
    });
    proof {
        assert(gv as nat == group_value(g));
    }
    let mut total: u128 = gv as u128;
    let mut j: usize = 0;
    let ghost gs = g.stack;
    proof {
        assert(gs.take(0) =~= Seq::<Entry>::empty());
    }
    while j < stack.len()
        invariant
            j <= stack@.len(),
            start <= end <= cs@.len(),
            run_chars(m, cs@.subrange(start as int, end as int), init_machine())
                == RunResult::Good(g),
            stack_rel(stack@, gs),
            stack_wf(m, gs),
            gv as nat == group_value(g),
            gs == g.stack,
            total as nat == stack_sum(m, gs.take(j as int)) + group_value(g),
        decreases stack@.len() - j,
    {
        proof {
            assert(entry_rel(stack@[j as int], gs[j as int]));
            assert(entry_wf(m, gs[j as int]));
            lemma_stack_sum_take(m, gs, j as int);
        }
        let en_coeff = stack[j].coeff;
        let en_unit = stack[j].unit;
        let en_big = stack[j].big;
        let v_opt = entry_value_exec(m, en_coeff, en_unit, en_big, Ghost(gs[j as int]));
        match v_opt {
            Option::Some(v) => {
                match total.checked_add(v) {
                    Option::Some(t2) => {
                        total = t2;
                    },
                    Option::None => {
                        return Result::Err(RunFailure::Huge);
                    },
                }
            },
            Option::None => {
                return Result::Err(RunFailure::Huge);
            },
        }
        j = j + 1;
    }
    proof {
        assert(gs.take(stack@.len() as int) =~= gs);
    }
    Result::Ok(total)
}

/// Parses a Chinese numeral to an unsigned value of up to 128 bits.
fn parse_unsigned_str(m: ChineseNumberCountMethod, s: &str) -> (r: Result<
    u128,
    ChineseNumberParseError,
>)
    ensures
        match spec_parse_unsigned(m, strip_spaces(s@)) {
            ParseOutcome::Empty => r == Result::<u128, ChineseNumberParseError>::Err(
                ChineseNumberParseError::ChineseNumberEmpty,
            ),
            ParseOutcome::Bad(i) => r == Result::<u128, ChineseNumberParseError>::Err(
                ChineseNumberParseError::ChineseNumberIncorrect { char_index: i as usize },
            ),
            ParseOutcome::Val(v) => if v <= u128::MAX {
                r == Result::<u128, ChineseNumberParseError>::Ok(v as u128)
            } else {
                r == Result::<u128, ChineseNumberParseError>::Err(
                    ChineseNumberParseError::Overflow,
                )
            },
        },
{
    let cs = strip_spaces_exec(s);
    if cs.len() == 0 {
        return Result::Err(ChineseNumberParseError::ChineseNumberEmpty);
    }
    proof {
        assert(cs@.subrange(0, cs@.len() as int) =~= cs@);
    }
    match run_machine(m, &cs, 0, cs.len()) {
        Result::Ok(v) => Result::Ok(v),
        Result::Err(RunFailure::Bad(i)) => Result::Err(
            ChineseNumberParseError::ChineseNumberIncorrect { char_index: i },
        ),
        Result::Err(RunFailure::Huge) => Result::Err(ChineseNumberParseError::Overflow),
    }
}

/// Parses a signed Chinese numeral to a sign and a magnitude of up to 128
/// bits.  The sign of zero is normalised to positive.
fn parse_signed_str(m: ChineseNumberCountMethod, s: &str) -> (r: Result<
    (bool, u128),
    ChineseNumberParseError,
>)
    ensures
        match spec_parse_signed(m, strip_spaces(s@)) {
            SignedParseOutcome::Empty => r == Result::<(bool, u128), ChineseNumberParseError>::Err(
                ChineseNumberParseError::ChineseNumberEmpty,
            ),
            SignedParseOutcome::Bad(i) => r == Result::<(bool, u128), ChineseNumberParseError>::Err(
                ChineseNumberParseError::ChineseNumberIncorrect { char_index: i as usize },
            ),
            SignedParseOutcome::Val(v) => if v >= 0 {
                if v <= u128::MAX {
                    r == Result::<(bool, u128), ChineseNumberParseError>::Ok((false, v as u128))
                } else {
                    r == Result::<(bool, u128), ChineseNumberParseError>::Err(
                        ChineseNumberParseError::Overflow,
                    )
                }
            } else {
                if -v <= u128::MAX {
                    r == Result::<(bool, u128), ChineseNumberParseError>::Ok((true, (-v) as u128))
                } else {
                    r == Result::<(bool, u128), ChineseNumberParseError>::Err(
                        ChineseNumberParseError::Underflow,
                    )
                }
            },
        },
{
    let cs = strip_spaces_exec(s);
    if cs.len() == 0 {
        return Result::Err(ChineseNumberParseError::ChineseNumberEmpty);
    }
    let negative = match classify_char(cs[0]) {
        Option::Some(Token::Neg) => true,
        _ => false,
    };
    if negative {
        if cs.len() == 1 {
            return Result::Err(
                ChineseNumberParseError::ChineseNumberIncorrect { char_index: 1 },
            );
        }
        proof {
            assert(cs@.subrange(1, cs@.len() as int) =~= cs@.drop_first());
        }
        match run_machine(m, &cs, 1, cs.len()) {
            Result::Ok(v) => Result::Ok(((v != 0), v)),
            Result::Err(RunFailure::Bad(i)) => Result::Err(
                ChineseNumberParseError::ChineseNumberIncorrect { char_index: i },
            ),
            Result::Err(RunFailure::Huge) => Result::Err(ChineseNumberParseError::Underflow),
        }
    } else {
        proof {
            assert(cs@.subrange(0, cs@.len() as int) =~= cs@);
        }
        match run_machine(m, &cs, 0, cs.len()) {
            Result::Ok(v) => Result::Ok((false, v)),
            Result::Err(RunFailure::Bad(i)) => Result::Err(
                ChineseNumberParseError::ChineseNumberIncorrect { char_index: i },
            ),
            Result::Err(RunFailure::Huge) => Result::Err(ChineseNumberParseError::Overflow),
        }
    }
}

/// Parses a Chinese numeral to a u8.  Values this small never reach a large
/// unit ambiguity, so the 萬進 ladder reads them; every method agrees below
/// 萬.
pub fn parse_chinese_number_to_u8(chinese_number: &str) -> (r: Result<u8, ChineseNumberParseError>)
    ensures
        match spec_parse_unsigned(
            ChineseNumberCountMethod::TenThousand,
            strip_spaces(chinese_number@),
        ) {
            ParseOutcome::Empty => r == Result::<u8, ChineseNumberParseError>::Err(
                ChineseNumberParseError::ChineseNumberEmpty,
            ),
            ParseOutcome::Bad(i) => r == Result::<u8, ChineseNumberParseError>::Err(
                ChineseNumberParseError::ChineseNumberIncorrect { char_index: i as usize },
            ),
            ParseOutcome::Val(v) => if v <= u8::MAX {
                r == Result::<u8, ChineseNumberParseError>::Ok(v as u8)
            } else {
                r == Result::<u8, ChineseNumberParseError>::Err(ChineseNumberParseError::Overflow)
            },
        },
{
    match parse_unsigned_str(ChineseNumberCountMethod::TenThousand, chinese_number) {
        Result::Ok(v) => if v <= u8::MAX as u128 {
            Result::Ok(v as u8)
        } else {
            Result::Err(ChineseNumberParseError::Overflow)
        },
        Result::Err(e) => Result::Err(e),
    }
}

/// Parses a Chinese numeral to a u16.
pub fn parse_chinese_number_to_u16(chinese_number: &str) -> (r: Result<
    u16,
    ChineseNumberParseError,
>)
    ensures
        match spec_parse_unsigned(
            ChineseNumberCountMethod::TenThousand,
            strip_spaces(chinese_number@),
        ) {
            ParseOutcome::Empty => r == Result::<u16, ChineseNumberParseError>::Err(
                ChineseNumberParseError::ChineseNumberEmpty,
            ),
            ParseOutcome::Bad(i) => r == Result::<u16, ChineseNumberParseError>::Err(
                ChineseNumberParseError::ChineseNumberIncorrect { char_index: i as usize },
            ),
            ParseOutcome::Val(v) => if v <= u16::MAX {
                r == Result::<u16, ChineseNumberParseError>::Ok(v as u16)
            } else {
                r == Result::<u16, ChineseNumberParseError>::Err(ChineseNumberParseError::Overflow)
            },
        },
{
    match parse_unsigned_str(ChineseNumberCountMethod::TenThousand, chinese_number) {
        Result::Ok(v) => if v <= u16::MAX as u128 {
            Result::Ok(v as u16)
        } else {
            Result::Err(ChineseNumberParseError::Overflow)
        },
        Result::Err(e) => Result::Err(e),
    }
}

/// Parses a Chinese numeral to a u32 under the chosen counting method.
pub fn parse_chinese_number_to_u32(
    method: ChineseNumberCountMethod,
    chinese_number: &str,
) -> (r: Result<u32, ChineseNumberParseError>)
    ensures
        match spec_parse_unsigned(method, strip_spaces(chinese_number@)) {
            ParseOutcome::Empty => r == Result::<u32, ChineseNumberParseError>::Err(
                ChineseNumberParseError::ChineseNumberEmpty,
            ),
            ParseOutcome::Bad(i) => r == Result::<u32, ChineseNumberParseError>::Err(
                ChineseNumberParseError::ChineseNumberIncorrect { char_index: i as usize },
            ),
            ParseOutcome::Val(v) => if v <= u32::MAX {
                r == Result::<u32, ChineseNumberParseError>::Ok(v as u32)
            } else {
                r == Result::<u32, ChineseNumberParseError>::Err(ChineseNumberParseError::Overflow)
            },
        },
{
    match parse_unsigned_str(method, chinese_number) {
        Result::Ok(v) => if v <= u32::MAX as u128 {
            Result::Ok(v as u32)
        } else {
            Result::Err(ChineseNumberParseError::Overflow)
        },
        Result::Err(e) => Result::Err(e),
    }
}

/// Parses a Chinese numeral to a u64 under the chosen counting method.
pub fn parse_chinese_number_to_u64(
    method: ChineseNumberCountMethod,
    chinese_number: &str,
) -> (r: Result<u64, ChineseNumberParseError>)
    ensures
        match spec_parse_unsigned(method, strip_spaces(chinese_number@)) {
            ParseOutcome::Empty => r == Result::<u64, ChineseNumberParseError>::Err(
                ChineseNumberParseError::ChineseNumberEmpty,
            ),
            ParseOutcome::Bad(i) => r == Result::<u64, ChineseNumberParseError>::Err(
                ChineseNumberParseError::ChineseNumberIncorrect { char_index: i as usize },
            ),
            ParseOutcome::Val(v) => if v <= u64::MAX {
                r == Result::<u64, ChineseNumberParseError>::Ok(v as u64)
            } else {
                r == Result::<u64, ChineseNumberParseError>::Err(ChineseNumberParseError::Overflow)
            },
        },
{
    match parse_unsigned_str(method, chinese_number) {
        Result::Ok(v) => if v <= u64::MAX as u128 {
            Result::Ok(v as u64)
        } else {
            Result::Err(ChineseNumberParseError::Overflow)
        },
        Result::Err(e) => Result::Err(e),
    }
}

/// Parses a Chinese numeral to a u128 under the chosen counting method.
pub fn parse_chinese_number_to_u128(
    method: ChineseNumberCountMethod,
    chinese_number: &str,
) -> (r: Result<u128, ChineseNumberParseError>)
    ensures
        match spec_parse_unsigned(method, strip_spaces(chinese_number@)) {
            ParseOutcome::Empty => r == Result::<u128, ChineseNumberParseError>::Err(
                ChineseNumberParseError::ChineseNumberEmpty,
            ),
            ParseOutcome::Bad(i) => r == Result::<u128, ChineseNumberParseError>::Err(
                ChineseNumberParseError::ChineseNumberIncorrect { char_index: i as usize },
            ),
            ParseOutcome::Val(v) => if v <= u128::MAX {
                r == Result::<u128, ChineseNumberParseError>::Ok(v as u128)
            } else {
                r == Result::<u128, ChineseNumberParseError>::Err(
                    ChineseNumberParseError::Overflow,
                )
            },
        },
{
    parse_unsigned_str(method, chinese_number)
}

/// Parses a Chinese numeral to a usize under the chosen counting method.
pub fn parse_chinese_number_to_usize(
    method: ChineseNumberCountMethod,
    chinese_number: &str,
) -> (r: Result<usize, ChineseNumberParseError>)
    ensures
        match spec_parse_unsigned(method, strip_spaces(chinese_number@)) {
            ParseOutcome::Empty => r == Result::<usize, ChineseNumberParseError>::Err(
                ChineseNumberParseError::ChineseNumberEmpty,
            ),
            ParseOutcome::Bad(i) => r == Result::<usize, ChineseNumberParseError>::Err(
                ChineseNumberParseError::ChineseNumberIncorrect { char_index: i as usize },
            ),
            ParseOutcome::Val(v) => if v <= usize::MAX {
                r == Result::<usize, ChineseNumberParseError>::Ok(v as usize)
            } else {
                r == Result::<usize, ChineseNumberParseError>::Err(
                    ChineseNumberParseError::Overflow,
                )
            },
        },
{
    match parse_unsigned_str(method, chinese_number) {
        Result::Ok(v) => if v <= usize::MAX as u128 {
            Result::Ok(v as usize)
        } else {
            Result::Err(ChineseNumberParseError::Overflow)
        },
        Result::Err(e) => Result::Err(e),
    }
}

/// Parses a signed Chinese numeral to an i8.  Every counting method agrees on values this small.
pub fn parse_chinese_number_to_i8(chinese_number: &str) -> (r: Result<
    i8,
    ChineseNumberParseError,
>)
    ensures
        match spec_parse_signed(ChineseNumberCountMethod::TenThousand, strip_spaces(chinese_number@)) {
            SignedParseOutcome::Empty => r == Result::<i8, ChineseNumberParseError>::Err(
                ChineseNumberParseError::ChineseNumberEmpty,
            ),
            SignedParseOutcome::Bad(i) => r == Result::<i8, ChineseNumberParseError>::Err(
                ChineseNumberParseError::ChineseNumberIncorrect { char_index: i as usize },
            ),
            SignedParseOutcome::Val(v) => if v > i8::MAX {
                r == Result::<i8, ChineseNumberParseError>::Err(ChineseNumberParseError::Overflow)
            } else if v < i8::MIN {
                r == Result::<i8, ChineseNumberParseError>::Err(
                    ChineseNumberParseError::Underflow,
                )
            } else {
                r == Result::<i8, ChineseNumberParseError>::Ok(v as i8)
            },
        },
{
    match parse_signed_str(ChineseNumberCountMethod::TenThousand, chinese_number) {
        Result::Ok((negative, mag)) => if !negative {
            if mag <= i8::MAX as u128 {
                Result::Ok(mag as i8)
            } else {
                Result::Err(ChineseNumberParseError::Overflow)
            }
        } else {
            if mag <= 128u128 {
                if mag == 128u128 {
                    Result::Ok(i8::MIN)
                } else {
                    Result::Ok(0 - (mag as i8))
                }
            } else {
                Result::Err(ChineseNumberParseError::Underflow)
            }
        },
        Result::Err(e) => Result::Err(e),
    }
}

/// Parses a signed Chinese numeral to an i16.  Every counting method agrees on values this small.
pub fn parse_chinese_number_to_i16(chinese_number: &str) -> (r: Result<
    i16,
    ChineseNumberParseError,
>)
    ensures
        match spec_parse_signed(ChineseNumberCountMethod::TenThousand, strip_spaces(chinese_number@)) {
            SignedParseOutcome::Empty => r == Result::<i16, ChineseNumberParseError>::Err(
                ChineseNumberParseError::ChineseNumberEmpty,
            ),
            SignedParseOutcome::Bad(i) => r == Result::<i16, ChineseNumberParseError>::Err(
                ChineseNumberParseError::ChineseNumberIncorrect { char_index: i as usize },
            ),
            SignedParseOutcome::Val(v) => if v > i16::MAX {
                r == Result::<i16, ChineseNumberParseError>::Err(ChineseNumberParseError::Overflow)
            } else if v < i16::MIN {
                r == Result::<i16, ChineseNumberParseError>::Err(
                    ChineseNumberParseError::Underflow,
                )
            } else {
                r == Result::<i16, ChineseNumberParseError>::Ok(v as i16)
            },
        },
{
    match parse_signed_str(ChineseNumberCountMethod::TenThousand, chinese_number) {
        Result::Ok((negative, mag)) => if !negative {
            if mag <= i16::MAX as u128 {
                Result::Ok(mag as i16)
            } else {
                Result::Err(ChineseNumberParseError::Overflow)
            }
        } else {
            if mag <= 32768u128 {
                if mag == 32768u128 {
                    Result::Ok(i16::MIN)
                } else {
                    Result::Ok(0 - (mag as i16))
                }
            } else {
                Result::Err(ChineseNumberParseError::Underflow)
            }
        },
        Result::Err(e) => Result::Err(e),
    }
}

/// Parses a signed Chinese numeral to an i32 under the chosen counting method.
pub fn parse_chinese_number_to_i32(method: ChineseNumberCountMethod,
    chinese_number: &str) -> (r: Result<
    i32,
    ChineseNumberParseError,
>)
    ensures
        match spec_parse_signed(method, strip_spaces(chinese_number@)) {
            SignedParseOutcome::Empty => r == Result::<i32, ChineseNumberParseError>::Err(
                ChineseNumberParseError::ChineseNumberEmpty,
            ),
            SignedParseOutcome::Bad(i) => r == Result::<i32, ChineseNumberParseError>::Err(
                ChineseNumberParseError::ChineseNumberIncorrect { char_index: i as usize },
            ),
            SignedParseOutcome::Val(v) => if v > i32::MAX {
                r == Result::<i32, ChineseNumberParseError>::Err(ChineseNumberParseError::Overflow)
            } else if v < i32::MIN {
                r == Result::<i32, ChineseNumberParseError>::Err(
                    ChineseNumberParseError::Underflow,
                )
            } else {
                r == Result::<i32, ChineseNumberParseError>::Ok(v as i32)
            },
        },
{
    match parse_signed_str(method, chinese_number) {
        Result::Ok((negative, mag)) => if !negative {
            if mag <= i32::MAX as u128 {
                Result::Ok(mag as i32)
            } else {
                Result::Err(ChineseNumberParseError::Overflow)
            }
        } else {
            if mag <= 2147483648u128 {
                if mag == 2147483648u128 {
                    Result::Ok(i32::MIN)
                } else {
                    Result::Ok(0 - (mag as i32))
                }
            } else {
                Result::Err(ChineseNumberParseError::Underflow)
            }
        },
        Result::Err(e) => Result::Err(e),
    }
}

/// Parses a signed Chinese numeral to an i64 under the chosen counting method.
pub fn parse_chinese_number_to_i64(method: ChineseNumberCountMethod,
    chinese_number: &str) -> (r: Result<
    i64,
    ChineseNumberParseError,
>)
    ensures
        match spec_parse_signed(method, strip_spaces(chinese_number@)) {
            SignedParseOutcome::Empty => r == Result::<i64, ChineseNumberParseError>::Err(
                ChineseNumberParseError::ChineseNumberEmpty,
            ),
            SignedParseOutcome::Bad(i) => r == Result::<i64, ChineseNumberParseError>::Err(
                ChineseNumberParseError::ChineseNumberIncorrect { char_index: i as usize },
            ),
            SignedParseOutcome::Val(v) => if v > i64::MAX {
                r == Result::<i64, ChineseNumberParseError>::Err(ChineseNumberParseError::Overflow)
            } else if v < i64::MIN {
                r == Result::<i64, ChineseNumberParseError>::Err(
                    ChineseNumberParseError::Underflow,
                )
            } else {
                r == Result::<i64, ChineseNumberParseError>::Ok(v as i64)
            },
        },
{
    match parse_signed_str(method, chinese_number) {
        Result::Ok((negative, mag)) => if !negative {
            if mag <= i64::MAX as u128 {
                Result::Ok(mag as i64)
            } else {
                Result::Err(ChineseNumberParseError::Overflow)
            }
        } else {
            if mag <= 9223372036854775808u128 {
                if mag == 9223372036854775808u128 {
                    Result::Ok(i64::MIN)
                } else {
                    Result::Ok(0 - (mag as i64))
                }
            } else {
                Result::Err(ChineseNumberParseError::Underflow)
            }
        },
        Result::Err(e) => Result::Err(e),
    }
}

/// Parses a signed Chinese numeral to an i128 under the chosen counting method.
pub fn parse_chinese_number_to_i128(method: ChineseNumberCountMethod,
    chinese_number: &str) -> (r: Result<
    i128,
    ChineseNumberParseError,
>)
    ensures
        match spec_parse_signed(method, strip_spaces(chinese_number@)) {
            SignedParseOutcome::Empty => r == Result::<i128, ChineseNumberParseError>::Err(
                ChineseNumberParseError::ChineseNumberEmpty,
            ),
            SignedParseOutcome::Bad(i) => r == Result::<i128, ChineseNumberParseError>::Err(
                ChineseNumberParseError::ChineseNumberIncorrect { char_index: i as usize },
            ),
            SignedParseOutcome::Val(v) => if v > i128::MAX {
                r == Result::<i128, ChineseNumberParseError>::Err(ChineseNumberParseError::Overflow)
            } else if v < i128::MIN {
                r == Result::<i128, ChineseNumberParseError>::Err(
                    ChineseNumberParseError::Underflow,
                )
            } else {
                r == Result::<i128, ChineseNumberParseError>::Ok(v as i128)
            },
        },
{
    match parse_signed_str(method, chinese_number) {
        Result::Ok((negative, mag)) => if !negative {
            if mag <= i128::MAX as u128 {
                Result::Ok(mag as i128)
            } else {
                Result::Err(ChineseNumberParseError::Overflow)
            }
        } else {
            if mag <= 170141183460469231731687303715884105728u128 {
                if mag == 170141183460469231731687303715884105728u128 {
                    Result::Ok(i128::MIN)
                } else {
                    Result::Ok(0 - (mag as i128))
                }
            } else {
                Result::Err(ChineseNumberParseError::Underflow)
            }
        },
        Result::Err(e) => Result::Err(e),
    }
}

/// Parses a signed Chinese numeral to an isize under the chosen counting
/// method.
pub fn parse_chinese_number_to_isize(
    method: ChineseNumberCountMethod,
    chinese_number: &str,
) -> (r: Result<isize, ChineseNumberParseError>)
    ensures
        match spec_parse_signed(method, strip_spaces(chinese_number@)) {
            SignedParseOutcome::Empty => r == Result::<isize, ChineseNumberParseError>::Err(
                ChineseNumberParseError::ChineseNumberEmpty,
            ),
            SignedParseOutcome::Bad(i) => r == Result::<isize, ChineseNumberParseError>::Err(
                ChineseNumberParseError::ChineseNumberIncorrect { char_index: i as usize },
            ),
            SignedParseOutcome::Val(v) => if v > isize::MAX {
                r == Result::<isize, ChineseNumberParseError>::Err(
                    ChineseNumberParseError::Overflow,
                )
            } else if v < isize::MIN {
                r == Result::<isize, ChineseNumberParseError>::Err(
                    ChineseNumberParseError::Underflow,
                )
            } else {
                r == Result::<isize, ChineseNumberParseError>::Ok(v as isize)
            },
        },
{
    match parse_signed_str(method, chinese_number) {
        Result::Ok((negative, mag)) => if !negative {
            if mag <= isize::MAX as u128 {
                Result::Ok(mag as isize)
            } else {
                Result::Err(ChineseNumberParseError::Overflow)
            }
        } else {
            if mag <= isize::MAX as u128 {
                Result::Ok(0 - (mag as isize))
            } else if mag == (isize::MAX as u128) + 1 {
                Result::Ok(isize::MIN)
            } else {
                Result::Err(ChineseNumberParseError::Underflow)
            }
        },
        Result::Err(e) => Result::Err(e),
    }
}

/// A number with its fractional tail, split into plain parts: a sign, an
/// integer part, and the digits carried by 角 (tenths) and 分 (hundredths).
/// The floating-point entry points assemble their value from these.
#[derive(Debug, Clone, Copy, PartialEq, Eq, Structural)]
pub struct ChineseNumberFractionParts {
    pub negative: bool,
    pub integer: u64,
    pub tenths: u8,
    pub hundredths: u8,
}

/// The outcome of reading a numeral with an optional fractional tail.
pub enum FractionOutcome {
    Empty,
    Bad(int),
    Val { negative: bool, integer: nat, tenths: nat, hundredths: nat },
}

/// The least index at or after `i` holding a fraction unit glyph, or the
/// length of `cs` when there is none.
pub open spec fn first_fraction_index(cs: Seq<char>, i: int) -> int
    decreases cs.len() - i,
        when 0 <= i <= cs.len()
{
    if i >= cs.len() {
        cs.len() as int
    } else if spec_classify(cs[i]) matches Some(Token::Frac(_)) {
        i
    } else {
        first_fraction_index(cs, i + 1)
    }
}

/// The digit value a single character stands for; the zero connector counts
/// as zero.
pub open spec fn spec_digit_value(c: char) -> Option<nat> {
    match spec_classify(c) {
        Some(Token::Zero) => Some(0nat),
        Some(Token::Digit(d)) => Some(d as nat),
        _ => None,
    }
}

/// Reads the body of a fractional numeral (the sign already taken): an
/// integer numeral up to the first fraction unit, the digit right before
/// that unit, and at most a 角 part followed by a 分 part.  `off` shifts
/// error offsets past the sign.
pub open spec fn spec_parse_fraction_body(
    m: ChineseNumberCountMethod,
    cs: Seq<char>,
    off: int,
    negative: bool,
) -> FractionOutcome {
    let k = first_fraction_index(cs, 0);
    if k == cs.len() {
        match run_chars(m, cs, init_machine()) {
            RunResult::Good(g) => FractionOutcome::Val {
                negative,
                integer: machine_total(m, g),
                tenths: 0,
                hundredths: 0,
            },
            RunResult::Bad(i) => FractionOutcome::Bad(i + off),
        }
    } else if k == 0 {
        FractionOutcome::Bad(off)
    } else {
        match spec_digit_value(cs[k - 1]) {
            Option::None => FractionOutcome::Bad(k - 1 + off),
            Option::Some(fd) => match run_chars(m, cs.subrange(0, k - 1), init_machine()) {
                RunResult::Bad(i) => FractionOutcome::Bad(i + off),
                RunResult::Good(g) => {
                    let iv = machine_total(m, g);
                    if spec_classify(cs[k]) == Some(Token::Frac(1)) {
                        if cs.len() == k + 1 {
                            FractionOutcome::Val {
                                negative,
                                integer: iv,
                                tenths: fd,
                                hundredths: 0,
                            }
                        } else {
                            match spec_digit_value(cs[k + 1]) {
                                Option::None => FractionOutcome::Bad(k + 1 + off),
                                Option::Some(h) => if cs.len() < k + 3 || spec_classify(cs[k + 2])
                                    != Some(Token::Frac(2)) {
                                    FractionOutcome::Bad(k + 2 + off)
                                } else if cs.len() > k + 3 {
                                    FractionOutcome::Bad(k + 3 + off)
                                } else {
                                    FractionOutcome::Val {
                                        negative,
                                        integer: iv,
                                        tenths: fd,
                                        hundredths: h,
                                    }
                                },
                            }
                        }
                    } else {
                        // the unit at k is 分
                        if cs.len() > k + 1 {
                            FractionOutcome::Bad(k + 1 + off)
                        } else {
                            FractionOutcome::Val {
                                negative,
                                integer: iv,
                                tenths: 0,
                                hundredths: fd,
                            }
                        }
                    }
                },
            },
        }
    }
}

/// The fractional reading of a space-stripped numeral: an optional sign,
/// then the body.
pub open spec fn spec_parse_fraction(m: ChineseNumberCountMethod, cs: Seq<char>) -> FractionOutcome {
    if cs.len() == 0 {
        FractionOutcome::Empty
    } else if spec_classify(cs[0]) == Some(Token::Neg) {
        if cs.len() == 1 {
            FractionOutcome::Bad(1)
        } else {
            spec_parse_fraction_body(m, cs.drop_first(), 1, true)
        }
    } else {
        spec_parse_fraction_body(m, cs, 0, false)
    }
}

/// Finds the first fraction unit glyph at or after `b`, or returns the
/// length when there is none.
fn find_fraction(cs: &Vec<char>, b: usize) -> (k: usize)
    requires
        b <= cs@.len(),
    ensures
        b <= k <= cs@.len(),
        k - b == first_fraction_index(cs@.subrange(b as int, cs@.len() as int), 0),
{
    let ghost body = cs@.subrange(b as int, cs@.len() as int);
    let n = cs.len();
    let mut i: usize = b;
    while i < n
        invariant
            b <= i <= n == cs@.len(),
            body == cs@.subrange(b as int, cs@.len() as int),
            first_fraction_index(body, 0) == first_fraction_index(body, i - b),
        decreases n - i,
    {
        let c = cs[i];
        proof {
            assert(body[i - b] == cs@[i as int]);
        }
        let isf = match classify_char(c) {
            Option::Some(Token::Frac(_)) => true,
            _ => false,
        };
        if isf {
            return i;
        }
        proof {
            assert(first_fraction_index(body, i - b) == first_fraction_index(body, i + 1 - b));
        }
        i = i + 1;
    }
    n
}

/// The digit value of one character, the zero connector included.
fn digit_value(c: char) -> (r: Option<u8>)
    ensures
        match spec_digit_value(c) {
            Some(d) => r == Some(d as u8) && d <= 9,
            None => r is None,
        },
{
    proof {
        lemma_classify_wf(c);
    }
    match classify_char(c) {
        Option::Some(Token::Zero) => Some(0),
        Option::Some(Token::Digit(d)) => Some(d),
        _ => None,
    }
}

/// Parses a Chinese numeral that may carry a fractional tail (角 for tenths
/// and 分 for hundredths) into its plain parts.  The integer part is held to
/// the i64 range, as the floating-point entry points require.
#[verifier::rlimit(100)]
pub fn parse_chinese_number_to_fraction_parts(
    method: ChineseNumberCountMethod,
    chinese_number: &str,
) -> (r: Result<ChineseNumberFractionParts, ChineseNumberParseError>)
    ensures
        match spec_parse_fraction(method, strip_spaces(chinese_number@)) {
            FractionOutcome::Empty => r == Result::<
                ChineseNumberFractionParts,
                ChineseNumberParseError,
            >::Err(ChineseNumberParseError::ChineseNumberEmpty),
            FractionOutcome::Bad(i) => r == Result::<
                ChineseNumberFractionParts,
                ChineseNumberParseError,
            >::Err(ChineseNumberParseError::ChineseNumberIncorrect { char_index: i as usize }),
            FractionOutcome::Val { negative, integer, tenths, hundredths } => {
                if !negative && integer > i64::MAX {
                    r == Result::<ChineseNumberFractionParts, ChineseNumberParseError>::Err(
                        ChineseNumberParseError::Overflow,
                    )
                } else if negative && integer > i64::MAX + 1 {
                    r == Result::<ChineseNumberFractionParts, ChineseNumberParseError>::Err(
                        ChineseNumberParseError::Underflow,
                    )
                } else {
                    r == Result::<ChineseNumberFractionParts, ChineseNumberParseError>::Ok(
                        ChineseNumberFractionParts {
                            negative,
                            integer: integer as u64,
                            tenths: tenths as u8,
                            hundredths: hundredths as u8,
                        },
                    )
                }
            },
        },
{
    let cs = strip_spaces_exec(chinese_number);
    let n = cs.len();
    if n == 0 {
        return Result::Err(ChineseNumberParseError::ChineseNumberEmpty);
    }
    let negative = match classify_char(cs[0]) {
        Option::Some(Token::Neg) => true,
        _ => false,
    };
    let b: usize = if negative {
        1
    } else {
        0
    };
    if negative && n == 1 {
        return Result::Err(ChineseNumberParseError::ChineseNumberIncorrect { char_index: 1 });
    }
    let ghost body = cs@.subrange(b as int, n as int);
    proof {
        if negative {
            assert(body =~= cs@.drop_first());
        } else {
            assert(body =~= cs@);
        }
    }
    let k = find_fraction(&cs, b);
    let iv: u128;
    let mut huge = false;
    let mut tenths: u8 = 0;
    let mut hundredths: u8 = 0;
    if k == n {
        // no fractional tail: the body is a plain integer numeral
        match run_machine(method, &cs, b, n) {
            Result::Ok(v) => {
                iv = v;
            },
            Result::Err(RunFailure::Bad(i)) => {
                return Result::Err(
                    ChineseNumberParseError::ChineseNumberIncorrect { char_index: i },
                );
            },
            Result::Err(RunFailure::Huge) => {
                return Result::Err(
                    if negative {
                        ChineseNumberParseError::Underflow
                    } else {
                        ChineseNumberParseError::Overflow
                    },
                );
            },
        }
    } else if k == b {
        return Result::Err(ChineseNumberParseError::ChineseNumberIncorrect { char_index: b });
    } else {
        proof {
            assert(body[k - b - 1] == cs@[k - 1]);
            assert(body[k - b] == cs@[k as int]);
        }
        let fd: u8;
        match digit_value(cs[k - 1]) {
            Option::Some(d) => {
                fd = d;
            },
            Option::None => {
                return Result::Err(
                    ChineseNumberParseError::ChineseNumberIncorrect { char_index: k - 1 },
                );
            },
        }
        proof {
            assert(body.subrange(0, k - b - 1) =~= cs@.subrange(b as int, k - 1));
        }
        match run_machine(method, &cs, b, k - 1) {
            Result::Ok(v) => {
                iv = v;
            },
            Result::Err(RunFailure::Bad(i)) => {
                return Result::Err(
                    ChineseNumberParseError::ChineseNumberIncorrect { char_index: i },
                );
            },
            Result::Err(RunFailure::Huge) => {
                // the tail must still be checked before overflow is reported
                iv = 0;
                huge = true;
            },
        }
        let is_tenths = match classify_char(cs[k]) {
            Option::Some(Token::Frac(f)) => f == 1,
            _ => false,
        };
        if is_tenths {
            tenths = fd;
            if k + 1 < n {
                proof {
                    assert(body[k + 1 - b] == cs@[k + 1]);
                }
                match digit_value(cs[k + 1]) {
                    Option::Some(h) => {
                        hundredths = h;
                    },
                    Option::None => {
                        return Result::Err(
                            ChineseNumberParseError::ChineseNumberIncorrect { char_index: k + 1 },
                        );
                    },
                }
                let has_hundredths_unit = if k + 2 < n {
                    match classify_char(cs[k + 2]) {
                        Option::Some(Token::Frac(f)) => f == 2,
                        _ => false,
                    }
                } else {
                    false
                };
                proof {
                    if k + 2 < n {
                        assert(body[k + 2 - b] == cs@[k + 2]);
                    }
                }
                if !has_hundredths_unit {
                    return Result::Err(
                        ChineseNumberParseError::ChineseNumberIncorrect { char_index: k + 2 },
                    );
                }
                if k + 3 < n {
                    return Result::Err(
                        ChineseNumberParseError::ChineseNumberIncorrect { char_index: k + 3 },
                    );
                }
            }
        } else {
            hundredths = fd;
            if k + 1 < n {
                return Result::Err(
                    ChineseNumberParseError::ChineseNumberIncorrect { char_index: k + 1 },
                );
            }
        }
    }
    // hold the integer part to the i64 range
    if !negative {
        if huge || iv > i64::MAX as u128 {
            return Result::Err(ChineseNumberParseError::Overflow);
        }
    } else {
        if huge || iv > (i64::MAX as u128) + 1 {
            return Result::Err(ChineseNumberParseError::Underflow);
        }
    }
    Result::Ok(
        ChineseNumberFractionParts { negative, integer: iv as u64, tenths, hundredths },
    )
}

/// Lets string types parse themselves as Chinese numerals.  Each
/// implementation hands the string to the matching free function, whose
/// contract states the exact outcome.
pub trait ChineseNumberToNumber<T> {
    /// Parses this Chinese numeral under the chosen counting method.
    fn parse_chinese_number(&self, method: ChineseNumberCountMethod) -> Result<
        T,
        ChineseNumberParseError,
    >;
}

impl ChineseNumberToNumber<i8> for str {
    fn parse_chinese_number(&self, _method: ChineseNumberCountMethod) -> Result<
        i8,
        ChineseNumberParseError,
    > {
        parse_chinese_number_to_i8(self)
    }
}

impl ChineseNumberToNumber<u8> for str {
    fn parse_chinese_number(&self, _method: ChineseNumberCountMethod) -> Result<
        u8,
        ChineseNumberParseError,
    > {
        parse_chinese_number_to_u8(self)
    }
}

impl ChineseNumberToNumber<i16> for str {
    fn parse_chinese_number(&self, _method: ChineseNumberCountMethod) -> Result<
        i16,
        ChineseNumberParseError,
    > {
        parse_chinese_number_to_i16(self)
    }
}

impl ChineseNumberToNumber<u16> for str {
    fn parse_chinese_number(&self, _method: ChineseNumberCountMethod) -> Result<
        u16,
        ChineseNumberParseError,
    > {
        parse_chinese_number_to_u16(self)
    }
}

impl ChineseNumberToNumber<i32> for str {
    fn parse_chinese_number(&self, method: ChineseNumberCountMethod) -> Result<
        i32,
        ChineseNumberParseError,
    > {
        parse_chinese_number_to_i32(method, self)
    }
}

impl ChineseNumberToNumber<u32> for str {
    fn parse_chinese_number(&self, method: ChineseNumberCountMethod) -> Result<
        u32,
        ChineseNumberParseError,
    > {
        parse_chinese_number_to_u32(method, self)
    }
}

impl ChineseNumberToNumber<i64> for str {
    fn parse_chinese_number(&self, method: ChineseNumberCountMethod) -> Result<
        i64,
        ChineseNumberParseError,
    > {
        parse_chinese_number_to_i64(method, self)
    }
}

impl ChineseNumberToNumber<u64> for str {
    fn parse_chinese_number(&self, method: ChineseNumberCountMethod) -> Result<
        u64,
        ChineseNumberParseError,
    > {
        parse_chinese_number_to_u64(method, self)
    }
}

impl ChineseNumberToNumber<i128> for str {
    fn parse_chinese_number(&self, method: ChineseNumberCountMethod) -> Result<
        i128,
        ChineseNumberParseError,
    > {
        parse_chinese_number_to_i128(method, self)
    }
}

impl ChineseNumberToNumber<u128> for str {
    fn parse_chinese_number(&self, method: ChineseNumberCountMethod) -> Result<
        u128,
        ChineseNumberParseError,
    > {
        parse_chinese_number_to_u128(method, self)
    }
}

impl ChineseNumberToNumber<isize> for str {
    fn parse_chinese_number(&self, method: ChineseNumberCountMethod) -> Result<
        isize,
        ChineseNumberParseError,
    > {
        parse_chinese_number_to_isize(method, self)
    }
}

impl ChineseNumberToNumber<usize> for str {
    fn parse_chinese_number(&self, method: ChineseNumberCountMethod) -> Result<
        usize,
        ChineseNumberParseError,
    > {
        parse_chinese_number_to_usize(method, self)
    }
}

} // verus!
