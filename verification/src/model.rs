//! The mathematical model of Chinese numerals: unit magnitudes, the token
//! alphabet, the canonical token emission of a value, and the token machine
//! that reads a numeral back.
//!
//! Everything here is specification-level; the executable formatter and
//! parser are verified against these definitions.

use vstd::prelude::*;
use crate::types::ChineseNumberCountMethod;

verus! {

/// `10^e`.
pub open spec fn pow10(e: nat) -> nat {
    vstd::arithmetic::power::pow(10, e) as nat
}

/// `2^e`.
pub open spec fn pow2(e: nat) -> nat {
    vstd::arithmetic::power::pow(2, e) as nat
}

/// The number of large units, 萬 (index 0) through 極 (index 11).
pub open spec fn unit_count() -> int {
    12
}

pub proof fn lemma_pow10_pos(e: nat)
    ensures
        pow10(e) >= 1,
{
    vstd::arithmetic::power::lemma_pow_positive(10, e);
}

pub proof fn lemma_pow10_unfold(e: nat)
    requires
        e >= 1,
    ensures
        pow10(e) == 10 * pow10((e - 1) as nat),
{
    reveal(vstd::arithmetic::power::pow);
    vstd::arithmetic::power::lemma_pow_positive(10, e);
    vstd::arithmetic::power::lemma_pow_positive(10, (e - 1) as nat);
}

pub proof fn lemma_pow10_adds(e1: nat, e2: nat)
    ensures
        pow10((e1 + e2) as nat) == pow10(e1) * pow10(e2),
{
    vstd::arithmetic::power::lemma_pow_adds(10, e1, e2);
    vstd::arithmetic::power::lemma_pow_positive(10, e1);
    vstd::arithmetic::power::lemma_pow_positive(10, e2);
    vstd::arithmetic::power::lemma_pow_positive(10, (e1 + e2) as nat);
}

pub proof fn lemma_pow10_mono(e1: nat, e2: nat)
    requires
        e1 <= e2,
    ensures
        pow10(e1) <= pow10(e2),
{
    vstd::arithmetic::power::lemma_pow_positive(10, e1);
    vstd::arithmetic::power::lemma_pow_positive(10, e2);
    if e1 < e2 {
        vstd::arithmetic::power::lemma_pow_strictly_increases(10, e1, e2);
    }
}

pub proof fn lemma_pow10_strictly_mono(e1: nat, e2: nat)
    requires
        e1 < e2,
    ensures
        pow10(e1) < pow10(e2),
{
    vstd::arithmetic::power::lemma_pow_positive(10, e1);
    vstd::arithmetic::power::lemma_pow_positive(10, e2);
    vstd::arithmetic::power::lemma_pow_strictly_increases(10, e1, e2);
}

/// The concrete value of `10^e` for the small exponents the group logic uses.
pub proof fn lemma_pow10_small()
    ensures
        pow10(0) == 1,
        pow10(1) == 10,
        pow10(2) == 100,
        pow10(3) == 1000,
        pow10(4) == 10000,
{
    reveal_with_fuel(vstd::arithmetic::power::pow, 5);
}

/// `10^38` is the largest power of ten a `u128` can hold; `10^39` exceeds
/// every `u128`.
pub proof fn lemma_pow10_u128()
    ensures
        pow10(16) == 10000000000000000,
        pow10(38) == 100000000000000000000000000000000000000,
        pow10(39) > u128::MAX,
{
    reveal_with_fuel(vstd::arithmetic::power::pow, 40);
}

/// The exponent of ten that the large unit of index `u` (0 = 萬, 1 = 億,
/// 2 = 兆, …, 11 = 極) denotes under counting method `m`.
pub open spec fn unit_exp(m: ChineseNumberCountMethod, u: int) -> nat {
    match m {
        ChineseNumberCountMethod::Low => (u + 4) as nat,
        ChineseNumberCountMethod::TenThousand => (4 * u + 4) as nat,
        ChineseNumberCountMethod::Middle => if u == 0 { 4 } else { (8 * u) as nat },
        ChineseNumberCountMethod::High => (4 * pow2(u as nat)) as nat,
    }
}

/// The exponent of ten bounding the multiplier that may stand before the
/// large unit of index `u`: a numeral `c · unit(u)` is well formed only for
/// `1 <= c < 10^coeff_exp(m, u)`.  This is exactly the ratio between unit
/// `u + 1` and unit `u` on the method's ladder.
pub open spec fn coeff_exp(m: ChineseNumberCountMethod, u: int) -> nat {
    match m {
        ChineseNumberCountMethod::Low => 1,
        ChineseNumberCountMethod::TenThousand => 4,
        ChineseNumberCountMethod::Middle => if u == 0 { 4 } else { 8 },
        ChineseNumberCountMethod::High => unit_exp(m, u),
    }
}

/// One lexical unit of a Chinese numeral.
#[derive(Debug, Clone, Copy, PartialEq, Eq, Structural)]
pub enum Token {
    /// The zero connector 零.
    Zero,
    /// A nonzero digit glyph, value 1 through 9.
    Digit(u8),
    /// A small unit glyph: 十 (1), 百 (2), 千 (3); the payload is the
    /// exponent of ten.
    Small(u8),
    /// A large unit glyph; the payload is the unit index, 0 = 萬 through
    /// 11 = 極.
    Large(u8),
    /// The negative sign 負/负.
    Neg,
    /// A fraction unit: 角 (1, tenths) or 分 (2, hundredths).
    Frac(u8),
}

// ---------------------------------------------------------------------------
// Canonical emission: the token sequence a value is written as.
// ---------------------------------------------------------------------------

/// The largest unit index `<= u` whose magnitude does not exceed `v`,
/// or 0 when none does.
pub open spec fn top_unit_below(m: ChineseNumberCountMethod, v: nat, u: int) -> int
    decreases u,
{
    if u <= 0 {
        0
    } else if pow10(unit_exp(m, u)) <= v {
        u
    } else {
        top_unit_below(m, v, u - 1)
    }
}

/// The unit index the most significant part of `v` is measured in:
/// the largest unit whose magnitude does not exceed `v`.
pub open spec fn top_unit(m: ChineseNumberCountMethod, v: nat) -> int {
    top_unit_below(m, v, unit_count() - 1)
}

/// Every large unit denotes at least `10^4` under every method.
pub proof fn lemma_unit_exp_at_least_four(m: ChineseNumberCountMethod, u: int)
    requires
        0 <= u,
    ensures
        unit_exp(m, u) >= 4,
{
    if m is High {
        vstd::arithmetic::power::lemma_pow_positive(2, u as nat);
    }
}

/// For `v >= 10^4` the top unit exists, lies in range, and its magnitude
/// does not exceed `v`.
pub proof fn lemma_top_unit(m: ChineseNumberCountMethod, v: nat)
    requires
        v >= 10000,
    ensures
        0 <= top_unit(m, v) < unit_count(),
        pow10(unit_exp(m, top_unit(m, v))) <= v,
{
    lemma_pow10_small();
    if m is High {
        reveal_with_fuel(vstd::arithmetic::power::pow, 1);
    }
    assert(unit_exp(m, 0) == 4);
    lemma_top_unit_below(m, v, unit_count() - 1);
}

proof fn lemma_top_unit_below(m: ChineseNumberCountMethod, v: nat, u: int)
    requires
        v >= 10000,
        0 <= u < unit_count(),
        unit_exp(m, 0) == 4,
    ensures
        0 <= top_unit_below(m, v, u) <= u,
        pow10(unit_exp(m, top_unit_below(m, v, u))) <= v,
    decreases u,
{
    lemma_pow10_small();
    if u <= 0 {
    } else if pow10(unit_exp(m, u)) <= v {
    } else {
        lemma_top_unit_below(m, v, u - 1);
    }
}

/// The token sequence of the value `v` under method `m`.
///
/// `elide` says that a leading 一 right before a 十 at the head of the
/// numeral is left out (十二 rather than 一十二); it is passed down to the
/// most significant group only.
pub open spec fn emit_tokens(m: ChineseNumberCountMethod, v: nat, elide: bool) -> Seq<Token>
    decreases v, 0int,
        via emit_tokens_decreases
{
    if v == 0 {
        seq![Token::Zero]
    } else if v < 10 {
        seq![Token::Digit(v as u8)]
    } else if v < 100 {
        let hi = v / 10;
        let lo = v % 10;
        (if hi == 1 && elide {
            Seq::<Token>::empty()
        } else {
            seq![Token::Digit(hi as u8)]
        }) + seq![Token::Small(1)] + (if lo == 0 {
            Seq::<Token>::empty()
        } else {
            seq![Token::Digit(lo as u8)]
        })
    } else if v < 1000 {
        seq![Token::Digit((v / 100) as u8), Token::Small(2)] + emit_below(m, v % 100, 1)
    } else if v < 10000 {
        seq![Token::Digit((v / 1000) as u8), Token::Small(3)] + emit_below(m, v % 1000, 2)
    } else {
        let u = top_unit(m, v);
        let mag = pow10(unit_exp(m, u));
        emit_tokens(m, v / mag, elide) + seq![Token::Large(u as u8)] + emit_below(
            m,
            v % mag,
            (unit_exp(m, u) - 1) as nat,
        )
    }
}

#[via_fn]
proof fn emit_tokens_decreases(m: ChineseNumberCountMethod, v: nat, elide: bool) {
    if v >= 10000 {
        let u = top_unit(m, v);
        lemma_top_unit(m, v);
        let mag = pow10(unit_exp(m, u));
        lemma_unit_exp_at_least_four(m, u);
        lemma_pow10_small();
        lemma_pow10_mono(4, unit_exp(m, u));
        vstd::arithmetic::div_mod::lemma_div_decreases(v as int, mag as int);
        vstd::arithmetic::div_mod::lemma_mod_division_less_than_divisor(v as int, mag as int);
    }
}

/// The token sequence of the remainder `r` after a unit of magnitude
/// `10^(e+1)`: nothing when `r` is zero, otherwise one zero connector when
/// the decimal position right below the unit is empty (`r < 10^e`),
/// followed by the numeral of `r`.
pub open spec fn emit_below(m: ChineseNumberCountMethod, r: nat, e: nat) -> Seq<Token>
    decreases r, 1int,
{
    if r == 0 {
        Seq::<Token>::empty()
    } else {
        (if r < pow10(e) {
            seq![Token::Zero]
        } else {
            Seq::<Token>::empty()
        }) + emit_tokens(m, r, false)
    }
}

// ---------------------------------------------------------------------------
// The token machine: reading a numeral left to right.
// ---------------------------------------------------------------------------

/// A completed multiplier: the machine has read the numeral `coeff` followed
/// by the large unit of index `unit`, contributing `coeff · 10^unit_exp(m, unit)`.
pub struct Entry {
    pub coeff: nat,
    pub unit: int,
}

/// Where the machine stands inside the current group of a section.
pub enum GroupState {
    /// At the start of a section: nothing read since the last large unit.
    Start,
    /// Inside a run of zero connectors; a digit must follow, or the input end.
    InZeros,
    /// A digit has been read and awaits a small unit, or stands as the ones
    /// digit.
    AfterDigit(nat),
    /// A digit together with its small unit has been committed to `acc`.
    AfterPair,
    /// The group began with a bare 十; an optional ones digit may follow.
    SoloTen,
    /// A ones digit followed the bare 十; only a large unit or the input end
    /// may come next.
    Closed,
}

/// The machine state: completed multipliers on a stack of strictly
/// descending units, plus the group being read.
pub struct Machine {
    /// Completed `coeff · unit` contributions; unit indices strictly decrease
    /// from bottom to top (the sequence end is the top).
    pub stack: Seq<Entry>,
    /// The value of the digit·small-unit pairs committed in the current group.
    pub acc: nat,
    /// Small units in a group must strictly descend: the next small unit's
    /// exponent must be below `min_e` (4 when no unit has been read yet).
    pub min_e: nat,
    /// The micro-state inside the group.
    pub gst: GroupState,
}

/// The machine state at the start of the input.
pub open spec fn init_machine() -> Machine {
    Machine { stack: Seq::empty(), acc: 0, min_e: 4, gst: GroupState::Start }
}

/// A fresh section state above an existing stack.
pub open spec fn fresh_section(stack: Seq<Entry>) -> Machine {
    Machine { stack, acc: 0, min_e: 4, gst: GroupState::Start }
}

/// The value of one stack entry.
pub open spec fn entry_value(m: ChineseNumberCountMethod, en: Entry) -> nat {
    en.coeff * pow10(unit_exp(m, en.unit))
}

/// The sum of the values of all stack entries.
pub open spec fn stack_sum(m: ChineseNumberCountMethod, stack: Seq<Entry>) -> nat
    decreases stack.len(),
{
    if stack.len() == 0 {
        0
    } else {
        stack_sum(m, stack.drop_last()) + entry_value(m, stack.last())
    }
}

/// The group value the machine is holding, the pending ones digit included.
pub open spec fn group_value(s: Machine) -> nat {
    s.acc + match s.gst {
        GroupState::AfterDigit(d) => d,
        _ => 0,
    }
}

/// The value of the whole numeral once the input has been consumed.
pub open spec fn machine_total(m: ChineseNumberCountMethod, s: Machine) -> nat {
    stack_sum(m, s.stack) + group_value(s)
}

/// Pops every stack entry whose unit lies strictly below index `u`, returning
/// the remaining stack and the sum of the popped values.
pub open spec fn pop_below(m: ChineseNumberCountMethod, stack: Seq<Entry>, u: int) -> (
    Seq<Entry>,
    nat,
)
    decreases stack.len(),
{
    if stack.len() == 0 {
        (stack, 0nat)
    } else if stack.last().unit < u {
        let (rest, v) = pop_below(m, stack.drop_last(), u);
        (rest, (v + entry_value(m, stack.last())) as nat)
    } else {
        (stack, 0nat)
    }
}

/// Reading the large unit of index `u`: everything on the stack below `u`
/// joins the current group to form the unit's multiplier.  The step fails
/// when the multiplier is zero (a bare unit), when it is too large for the
/// method's ladder, or when the unit does not descend (it equals a unit
/// already on the stack top after popping).
pub open spec fn large_step(m: ChineseNumberCountMethod, s: Machine, u: int) -> Option<Machine> {
    let (rest, popped) = pop_below(m, s.stack, u);
    let coeff = group_value(s) + popped;
    if coeff == 0 {
        None
    } else if coeff >= pow10(coeff_exp(m, u)) {
        None
    } else if rest.len() > 0 && rest.last().unit == u {
        None
    } else {
        Some(fresh_section(rest.push(Entry { coeff: coeff as nat, unit: u })))
    }
}

/// One step of the machine on token `t`.  `None` is a parse error at the
/// token's position.
pub open spec fn machine_step(m: ChineseNumberCountMethod, s: Machine, t: Token) -> Option<
    Machine,
> {
    match t {
        Token::Zero => match s.gst {
            GroupState::Start | GroupState::InZeros | GroupState::AfterPair => Some(
                Machine { gst: GroupState::InZeros, ..s },
            ),
            _ => None,
        },
        Token::Digit(d) => match s.gst {
            GroupState::Start | GroupState::InZeros | GroupState::AfterPair => Some(
                Machine { gst: GroupState::AfterDigit(d as nat), ..s },
            ),
            GroupState::SoloTen => Some(
                Machine { acc: (s.acc + d) as nat, gst: GroupState::Closed, ..s },
            ),
            _ => None,
        },
        Token::Small(e) => match s.gst {
            GroupState::AfterDigit(d) => if e < s.min_e {
                Some(
                    Machine {
                        acc: (s.acc + d * pow10(e as nat)) as nat,
                        min_e: e as nat,
                        gst: GroupState::AfterPair,
                        ..s
                    },
                )
            } else {
                None
            },
            GroupState::Start => if e == 1 {
                Some(Machine { acc: 10, min_e: 1, gst: GroupState::SoloTen, ..s })
            } else {
                None
            },
            _ => None,
        },
        Token::Large(u) => match s.gst {
            GroupState::InZeros => None,
            _ => large_step(m, s, u as int),
        },
        Token::Neg => None,
        Token::Frac(_) => None,
    }
}

/// The outcome of running the machine over a token sequence: the final state,
/// or the offset of the offending token.
pub enum RunResult {
    Good(Machine),
    Bad(int),
}

/// Runs the machine over `ts` from state `s`.
pub open spec fn run(m: ChineseNumberCountMethod, ts: Seq<Token>, s: Machine) -> RunResult
    decreases ts.len(),
{
    if ts.len() == 0 {
        RunResult::Good(s)
    } else {
        match machine_step(m, s, ts[0]) {
            Some(s2) => match run(m, ts.drop_first(), s2) {
                RunResult::Good(sf) => RunResult::Good(sf),
                RunResult::Bad(i) => RunResult::Bad(i + 1),
            },
            None => RunResult::Bad(0),
        }
    }
}

/// Running the machine over characters: each character is classified and
/// fed to the machine; an unrecognised character is an error at its offset.
pub open spec fn run_chars(m: ChineseNumberCountMethod, cs: Seq<char>, s: Machine) -> RunResult
    decreases cs.len(),
{
    if cs.len() == 0 {
        RunResult::Good(s)
    } else {
        match crate::tables::spec_classify(cs[0]) {
            Option::None => RunResult::Bad(0),
            Option::Some(t) => match machine_step(m, s, t) {
                Option::Some(s2) => match run_chars(m, cs.drop_first(), s2) {
                    RunResult::Good(sf) => RunResult::Good(sf),
                    RunResult::Bad(i) => RunResult::Bad(i + 1),
                },
                Option::None => RunResult::Bad(0),
            },
        }
    }
}

/// The input with ASCII spaces removed, as the parser preprocesses it.
pub open spec fn strip_spaces(s: Seq<char>) -> Seq<char>
    decreases s.len(),
{
    if s.len() == 0 {
        Seq::empty()
    } else {
        strip_spaces(s.drop_last()) + (if s.last() == ' ' {
            Seq::<char>::empty()
        } else {
            seq![s.last()]
        })
    }
}

/// What parsing a space-stripped unsigned numeral yields: nothing at all,
/// an offending character offset, or the value.
pub enum ParseOutcome {
    Empty,
    Bad(int),
    Val(nat),
}

/// What parsing a space-stripped signed numeral yields.
pub enum SignedParseOutcome {
    Empty,
    Bad(int),
    Val(int),
}

/// The unsigned reading of the space-stripped character sequence `cs`.
pub open spec fn spec_parse_unsigned(m: ChineseNumberCountMethod, cs: Seq<char>) -> ParseOutcome {
    if cs.len() == 0 {
        ParseOutcome::Empty
    } else {
        match run_chars(m, cs, init_machine()) {
            RunResult::Good(sf) => ParseOutcome::Val(machine_total(m, sf)),
            RunResult::Bad(i) => ParseOutcome::Bad(i),
        }
    }
}

/// The signed reading: an optional leading negative sign, then the unsigned
/// numeral.  A sign with nothing after it is an error at offset 1.
pub open spec fn spec_parse_signed(
    m: ChineseNumberCountMethod,
    cs: Seq<char>,
) -> SignedParseOutcome {
    if cs.len() == 0 {
        SignedParseOutcome::Empty
    } else if crate::tables::spec_classify(cs[0]) == Some(Token::Neg) {
        if cs.len() == 1 {
            SignedParseOutcome::Bad(1)
        } else {
            match run_chars(m, cs.drop_first(), init_machine()) {
                RunResult::Good(sf) => SignedParseOutcome::Val(-(machine_total(m, sf) as int)),
                RunResult::Bad(i) => SignedParseOutcome::Bad(i + 1),
            }
        }
    } else {
        match run_chars(m, cs, init_machine()) {
            RunResult::Good(sf) => SignedParseOutcome::Val(machine_total(m, sf) as int),
            RunResult::Bad(i) => SignedParseOutcome::Bad(i),
        }
    }
}

// ---------------------------------------------------------------------------
// Well-formedness of machine states, and what the machine preserves.
// ---------------------------------------------------------------------------

/// A stack entry as the machine builds them: a unit in range with a
/// multiplier between one and the method's ceiling for that unit.
pub open spec fn entry_wf(m: ChineseNumberCountMethod, en: Entry) -> bool {
    &&& 0 <= en.unit < unit_count()
    &&& 1 <= en.coeff
    &&& en.coeff < pow10(coeff_exp(m, en.unit))
}

/// Every entry is well formed and the units strictly decrease from the
/// bottom of the stack to its top.
pub open spec fn stack_wf(m: ChineseNumberCountMethod, stack: Seq<Entry>) -> bool {
    &&& forall|j: int| 0 <= j < stack.len() ==> entry_wf(m, #[trigger] stack[j])
    &&& forall|j: int, k: int|
        0 <= j < k < stack.len() ==> (#[trigger] stack[j].unit) > (#[trigger] stack[k].unit)
}

/// The machine invariant: a well-formed stack, and a group accumulator that
/// leaves room for every digit the remaining small units can still add.
pub open spec fn machine_wf(m: ChineseNumberCountMethod, s: Machine) -> bool {
    &&& stack_wf(m, s.stack)
    &&& 1 <= s.min_e <= 4
    &&& s.acc + pow10(s.min_e) <= 10000
    &&& match s.gst {
        GroupState::AfterDigit(d) => d <= 9,
        GroupState::SoloTen => s.acc == 10 && s.min_e == 1,
        GroupState::Start => s.acc == 0 && s.min_e == 4,
        _ => true,
    }
}

/// A well-formed machine holds a group below `10^4`.
pub proof fn lemma_group_value_small(m: ChineseNumberCountMethod, s: Machine)
    requires
        machine_wf(m, s),
    ensures
        group_value(s) < 10000,
{
    lemma_pow10_small();
    lemma_pow10_mono(1, s.min_e);
}

/// On the method's ladder, unit `u + 1` stands `coeff_exp(m, u)` decimal
/// places above unit `u`.
pub proof fn lemma_unit_exp_step(m: ChineseNumberCountMethod, u: int)
    requires
        0 <= u <= 10,
    ensures
        unit_exp(m, u + 1) == unit_exp(m, u) + coeff_exp(m, u),
{
    if m is High {
        reveal(vstd::arithmetic::power::pow);
        vstd::arithmetic::power::lemma_pow_positive(2, u as nat);
        assert(pow2((u + 1) as nat) == 2 * pow2(u as nat));
    }
}

/// Unit exponents grow with the unit index.
pub proof fn lemma_unit_exp_mono(m: ChineseNumberCountMethod, u1: int, u2: int)
    requires
        0 <= u1 <= u2 <= 11,
    ensures
        unit_exp(m, u1) <= unit_exp(m, u2),
{
    if m is High {
        vstd::arithmetic::power::lemma_pow_positive(2, u1 as nat);
        vstd::arithmetic::power::lemma_pow_positive(2, u2 as nat);
        vstd::arithmetic::power::lemma_pow_increases(2, u1 as nat, u2 as nat);
    }
}

/// What popping below `u` does to a well-formed stack: the remainder is a
/// well-formed prefix whose top (if any) sits at or above `u`; the popped
/// values carry the whole difference of the stack sums; and the popped sum
/// leaves room below the magnitude of `u`.
pub proof fn lemma_pop_below(m: ChineseNumberCountMethod, stack: Seq<Entry>, u: int)
    requires
        stack_wf(m, stack),
        0 <= u < unit_count(),
    ensures
        ({
            let (rest, popped) = pop_below(m, stack, u);
            &&& stack_wf(m, rest)
            &&& rest.len() <= stack.len()
            &&& (forall|j: int| 0 <= j < rest.len() ==> rest[j] == stack[j])
            &&& (rest.len() > 0 ==> rest.last().unit >= u)
            &&& stack_sum(m, stack) == stack_sum(m, rest) + popped
            &&& (rest.len() == stack.len() ==> popped == 0)
            &&& (rest.len() < stack.len() ==> popped + pow10(unit_exp(m, stack.last().unit))
                <= pow10(unit_exp(m, u)))
            &&& (rest.len() < stack.len() ==> popped >= pow10(unit_exp(m, stack.last().unit)))
        }),
    decreases stack.len(),
{
    lemma_pow10_small();
    if stack.len() == 0 {
    } else if stack.last().unit < u {
        let tail = stack.drop_last();
        assert(stack_wf(m, tail)) by {
            assert(forall|j: int| 0 <= j < tail.len() ==> tail[j] == stack[j]);
        }
        lemma_pop_below(m, tail, u);
        let (rest, popped0) = pop_below(m, tail, u);
        let l = stack.last().unit;
        let ev = entry_value(m, stack.last());
        assert(entry_wf(m, stack.last()));
        // the entry's value stays below the magnitude of the next unit up
        lemma_unit_exp_step(m, l);
        lemma_pow10_adds(unit_exp(m, l), coeff_exp(m, l));
        assert(ev <= (pow10(coeff_exp(m, l)) - 1) * pow10(unit_exp(m, l))) by {
            vstd::arithmetic::mul::lemma_mul_inequality(
                stack.last().coeff as int,
                pow10(coeff_exp(m, l)) - 1,
                pow10(unit_exp(m, l)) as int,
            );
        }
        assert((pow10(coeff_exp(m, l)) - 1) * pow10(unit_exp(m, l)) == pow10(unit_exp(m, l + 1))
            - pow10(unit_exp(m, l))) by {
            vstd::arithmetic::mul::lemma_mul_is_distributive_sub_other_way(
                pow10(unit_exp(m, l)) as int,
                pow10(coeff_exp(m, l)) as int,
                1,
            );
        }
        lemma_unit_exp_mono(m, l + 1, u);
        lemma_pow10_mono(unit_exp(m, l + 1), unit_exp(m, u));
        assert(ev >= pow10(unit_exp(m, l))) by {
            vstd::arithmetic::mul::lemma_mul_inequality(
                1,
                stack.last().coeff as int,
                pow10(unit_exp(m, l)) as int,
            );
            vstd::arithmetic::mul::lemma_mul_is_commutative(
                stack.last().coeff as int,
                pow10(unit_exp(m, l)) as int,
            );
        }
        if rest.len() < tail.len() {
            // entries were popped off the tail too; its last unit lies above l + 1
            assert(tail.last().unit > l);
            lemma_unit_exp_mono(m, l + 1, tail.last().unit);
            lemma_pow10_mono(unit_exp(m, l + 1), unit_exp(m, tail.last().unit));
        }
        assert(forall|j: int| 0 <= j < rest.len() ==> rest[j] == tail[j] && tail[j] == stack[j]);
        assert(stack_sum(m, stack) == stack_sum(m, tail) + ev);
    } else {
    }
}

/// The multiplier a large unit gathers from the group and the popped
/// entries always stays below the unit's own magnitude.
pub proof fn lemma_large_coeff_bound(m: ChineseNumberCountMethod, s: Machine, u: int)
    requires
        machine_wf(m, s),
        0 <= u < unit_count(),
    ensures
        group_value(s) + pop_below(m, s.stack, u).1 < pow10(unit_exp(m, u)),
{
    lemma_pow10_small();
    lemma_group_value_small(m, s);
    lemma_pop_below(m, s.stack, u);
    lemma_unit_exp_at_least_four(m, u);
    lemma_pow10_mono(4, unit_exp(m, u));
    let (rest, popped) = pop_below(m, s.stack, u);
    if rest.len() < s.stack.len() {
        let l = s.stack.last().unit;
        lemma_unit_exp_at_least_four(m, l);
        lemma_pow10_mono(4, unit_exp(m, l));
    }
}

/// A machine step out of a well-formed state reaches a well-formed state.
pub proof fn lemma_machine_step_wf(m: ChineseNumberCountMethod, s: Machine, t: Token)
    requires
        machine_wf(m, s),
        crate::tables::wf_token(t),
        machine_step(m, s, t) is Some,
    ensures
        machine_wf(m, machine_step(m, s, t)->Some_0),
{
    lemma_pow10_small();
    let s2 = machine_step(m, s, t)->Some_0;
    match t {
        Token::Zero => {},
        Token::Digit(_) => {},
        Token::Small(e) => {
            match s.gst {
                GroupState::AfterDigit(d) => {
                    // acc + d·10^e + 10^e <= acc + 10^(e+1) <= acc + 10^min_e <= 10^4
                    assert((d + 1) * pow10(e as nat) <= 10 * pow10(e as nat)) by {
                        lemma_pow10_pos(e as nat);
                        vstd::arithmetic::mul::lemma_mul_inequality(
                            (d + 1) as int,
                            10,
                            pow10(e as nat) as int,
                        );
                    }
                    lemma_pow10_unfold((e + 1) as nat);
                    lemma_pow10_mono((e + 1) as nat, s.min_e);
                    assert(d * pow10(e as nat) + pow10(e as nat) == (d + 1) * pow10(e as nat)) by {
                        vstd::arithmetic::mul::lemma_mul_is_distributive_add_other_way(
                            pow10(e as nat) as int,
                            d as int,
                            1,
                        );
                    }
                },
                _ => {},
            }
        },
        Token::Large(u) => {
            let (rest, popped) = pop_below(m, s.stack, u as int);
            lemma_pop_below(m, s.stack, u as int);
            let coeff = group_value(s) + popped;
            let en = Entry { coeff: coeff as nat, unit: u as int };
            assert(stack_wf(m, rest.push(en))) by {
                assert(forall|j: int|
                    0 <= j < rest.len() ==> #[trigger] rest.push(en)[j] == rest[j]);
                assert(rest.push(en).last() == en);
                assert(forall|j: int, k: int|
                    0 <= j < k < rest.push(en).len() && k < rest.len() ==> rest.push(en)[j].unit
                        > rest.push(en)[k].unit);
            }
        },
        Token::Neg => {},
        Token::Frac(_) => {},
    }
}

/// Running over a concatenation: the first part runs first; an error in the
/// second part is shifted by the first part's length.
pub proof fn lemma_run_chars_append(
    m: ChineseNumberCountMethod,
    cs1: Seq<char>,
    cs2: Seq<char>,
    s: Machine,
)
    ensures
        match run_chars(m, cs1, s) {
            RunResult::Good(g) => run_chars(m, cs1 + cs2, s) == (match run_chars(m, cs2, g) {
                RunResult::Good(gf) => RunResult::Good(gf),
                RunResult::Bad(i) => RunResult::Bad(i + cs1.len()),
            }),
            RunResult::Bad(i) => run_chars(m, cs1 + cs2, s) == RunResult::Bad(i),
        },
    decreases cs1.len(),
{
    if cs1.len() == 0 {
        assert(cs1 + cs2 =~= cs2);
        match run_chars(m, cs2, s) {
            RunResult::Good(_) => {},
            RunResult::Bad(i) => {
                assert(run_chars(m, cs1 + cs2, s) == RunResult::Bad(i + 0));
            },
        }
    } else {
        assert((cs1 + cs2)[0] == cs1[0]);
        assert((cs1 + cs2).len() > 0);
        match crate::tables::spec_classify(cs1[0]) {
            Option::None => {},
            Option::Some(t) => match machine_step(m, s, t) {
                Option::None => {},
                Option::Some(s2) => {
                    assert((cs1 + cs2).drop_first() =~= cs1.drop_first() + cs2);
                    lemma_run_chars_append(m, cs1.drop_first(), cs2, s2);
                },
            },
        }
    }
}

} // verus!
