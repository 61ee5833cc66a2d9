//! The canonical-shape laws: a rendering collapses zero runs to single
//! connectors, and under the flat counting ladders any numeral that parses
//! reads its large units in strictly descending magnitude.

use vstd::prelude::*;
use crate::laws::{lemma_emit_first_token, lemma_emit_wf};
use crate::model::{coeff_exp, emit_below, emit_tokens, init_machine, lemma_machine_step_wf, lemma_pop_below, lemma_pow10_mono, lemma_pow10_small, lemma_top_unit, lemma_unit_exp_at_least_four, machine_step, machine_wf, pop_below, pow10, run_chars, top_unit, unit_exp, Machine, Token};
use crate::tables::{spec_classify, token_glyph, wf_token};
use crate::types::{ChineseNumberCase, ChineseNumberCountMethod, ChineseVariant};

verus! {

/// No two adjacent tokens of a rendering are zero connectors; a rendering
/// of a positive value neither begins nor ends with one.
#[verifier::rlimit(100)]
proof fn lemma_emit_canonical(m: ChineseNumberCountMethod, v: nat, elide: bool)
    ensures
        ({
            let ts = emit_tokens(m, v, elide);
            &&& forall|j: int|
                0 <= j < ts.len() - 1 ==> !((#[trigger] ts[j]) is Zero && ts[j + 1] is Zero)
            &&& v >= 1 ==> !(ts[0] is Zero)
            &&& v >= 1 ==> !(ts.last() is Zero)
        }),
    decreases v, 0int,
{
    lemma_pow10_small();
    let ts = emit_tokens(m, v, elide);
    if v == 0 {
    } else if v < 10 {
    } else if v < 100 {
        let hi = v / 10;
        let lo = v % 10;
        let p = if hi == 1 && elide {
            Seq::<Token>::empty()
        } else {
            seq![Token::Digit(hi as u8)]
        };
        let q = if lo == 0 {
            Seq::<Token>::empty()
        } else {
            seq![Token::Digit(lo as u8)]
        };
        assert(ts == p + seq![Token::Small(1)] + q);
        assert forall|j: int|
            0 <= j < ts.len() - 1 implies !((#[trigger] ts[j]) is Zero && ts[j + 1] is Zero) by {
            assert(!(ts[j] is Zero)) by {
                if j < p.len() {
                    assert(ts[j] == p[j]);
                } else if j == p.len() {
                    assert(ts[j] == Token::Small(1));
                } else {
                    assert(ts[j] == q[j - p.len() - 1]);
                }
            }
        }
        assert(!(ts[0] is Zero)) by {
            if p.len() > 0 {
                assert(ts[0] == p[0]);
            } else {
                assert(ts[0] == Token::Small(1));
            }
        }
        assert(!(ts.last() is Zero)) by {
            if q.len() > 0 {
                assert(ts.last() == q[0]);
            } else {
                assert(ts.last() == Token::Small(1));
            }
        }
    } else if v < 10000 {
        let e: nat = if v < 1000 {
            2
        } else {
            3
        };
        let lo = v % pow10(e);
        let bts = emit_below(m, lo, (e - 1) as nat);
        lemma_emit_below_canonical(m, lo, (e - 1) as nat);
        assert(1 <= v / pow10(e) <= 9) by {
            vstd::arithmetic::div_mod::lemma_fundamental_div_mod(v as int, pow10(e) as int);
        }
        let hd = seq![Token::Digit((v / pow10(e)) as u8), Token::Small(e as u8)];
        assert(ts == hd + bts);
        assert forall|j: int|
            0 <= j < ts.len() - 1 implies !((#[trigger] ts[j]) is Zero && ts[j + 1] is Zero) by {
            if j < 2 {
                assert(ts[j] == hd[j]);
            } else {
                assert(ts[j] == bts[j - 2]);
                assert(ts[j + 1] == bts[j - 1]);
            }
        }
        assert(ts[0] == hd[0]);
        assert(!(ts.last() is Zero)) by {
            if bts.len() > 0 {
                assert(ts.last() == bts[bts.len() - 1]);
            } else {
                assert(ts.last() == Token::Small(e as u8));
            }
        }
    } else {
        let u = top_unit(m, v);
        lemma_top_unit(m, v);
        lemma_unit_exp_at_least_four(m, u);
        lemma_pow10_mono(4, unit_exp(m, u));
        let mag = pow10(unit_exp(m, u));
        vstd::arithmetic::div_mod::lemma_div_decreases(v as int, mag as int);
        vstd::arithmetic::div_mod::lemma_div_non_zero(v as int, mag as int);
        vstd::arithmetic::div_mod::lemma_mod_division_less_than_divisor(v as int, mag as int);
        let hi = v / mag;
        let lo = v % mag;
        lemma_emit_canonical(m, hi, elide);
        lemma_emit_first_token(m, hi, elide);
        lemma_emit_below_canonical(m, lo, (unit_exp(m, u) - 1) as nat);
        let a = emit_tokens(m, hi, elide);
        let c = emit_below(m, lo, (unit_exp(m, u) - 1) as nat);
        assert(ts == a + seq![Token::Large(u as u8)] + c);
        assert forall|j: int|
            0 <= j < ts.len() - 1 implies !((#[trigger] ts[j]) is Zero && ts[j + 1] is Zero) by {
            if j < a.len() - 1 {
                assert(ts[j] == a[j] && ts[j + 1] == a[j + 1]);
            } else if j == a.len() - 1 {
                assert(ts[j + 1] == Token::Large(u as u8));
            } else if j == a.len() {
                assert(ts[j] == Token::Large(u as u8));
            } else {
                assert(ts[j] == c[j - a.len() - 1]);
                assert(ts[j + 1] == c[j - a.len()]);
            }
        }
        assert(ts[0] == a[0]);
        assert(!(ts.last() is Zero)) by {
            if c.len() > 0 {
                assert(ts.last() == c[c.len() - 1]);
            } else {
                assert(ts.last() == Token::Large(u as u8));
            }
        }
    }
}

/// The remainder tokens after a unit hold no two adjacent zero connectors
/// and do not end with one.
proof fn lemma_emit_below_canonical(m: ChineseNumberCountMethod, r: nat, e: nat)
    ensures
        ({
            let bts = emit_below(m, r, e);
            &&& forall|j: int|
                0 <= j < bts.len() - 1 ==> !((#[trigger] bts[j]) is Zero && bts[j + 1] is Zero)
            &&& r >= 1 ==> bts.len() > 0 && !(bts.last() is Zero)
        }),
    decreases r, 1int,
{
    if r == 0 {
    } else {
        lemma_emit_canonical(m, r, false);
        lemma_emit_first_token(m, r, false);
        let bts = emit_below(m, r, e);
        let a = emit_tokens(m, r, false);
        let z = if r < pow10(e) {
            seq![Token::Zero]
        } else {
            Seq::<Token>::empty()
        };
        assert(bts == z + a);
        assert forall|j: int|
            0 <= j < bts.len() - 1 implies !((#[trigger] bts[j]) is Zero && bts[j + 1] is Zero) by {
            if j < z.len() {
                assert(bts[j + 1] == a[0]);
            } else {
                assert(bts[j] == a[j - z.len()]);
                assert(bts[j + 1] == a[j - z.len() + 1]);
            }
        }
        assert(bts.last() == a[a.len() - 1]);
    }
}

/// For a well-formed token, only the zero connector renders as 零.
proof fn lemma_glyph_zero(variant: ChineseVariant, case: ChineseNumberCase, t: Token)
    requires
        wf_token(t),
    ensures
        token_glyph(variant, case, t) == '零' <==> t is Zero,
{
}

/// ZERO CANONICALISATION: a rendering never holds two adjacent 零 glyphs,
/// and the rendering of a positive value never ends with 零.
pub proof fn lemma_format_zero_canonical(
    m: ChineseNumberCountMethod,
    variant: ChineseVariant,
    case: ChineseNumberCase,
    v: nat,
)
    ensures
        ({
            let cs = crate::format::spec_format_unsigned(m, variant, case, v);
            &&& forall|i: int|
                0 <= i < cs.len() - 1 ==> !((#[trigger] cs[i]) == '零' && cs[i + 1] == '零')
            &&& v >= 1 ==> cs.len() > 0 && cs.last() != '零'
        }),
{
    let elide = case is Lower;
    let ts = emit_tokens(m, v, elide);
    let cs = crate::format::spec_format_unsigned(m, variant, case, v);
    lemma_emit_wf(m, v, elide);
    lemma_emit_canonical(m, v, elide);
    assert forall|i: int|
        0 <= i < cs.len() - 1 implies !((#[trigger] cs[i]) == '零' && cs[i + 1] == '零') by {
        assert(cs[i] == token_glyph(variant, case, ts[i]));
        assert(cs[i + 1] == token_glyph(variant, case, ts[i + 1]));
        lemma_glyph_zero(variant, case, ts[i]);
        lemma_glyph_zero(variant, case, ts[i + 1]);
    }
    if v >= 1 {
        lemma_emit_first_token(m, v, elide);
        assert(cs.last() == token_glyph(variant, case, ts[ts.len() - 1]));
        lemma_glyph_zero(variant, case, ts[ts.len() - 1]);
    }
}

/// The unit indexes of the large-unit glyphs of `cs`, in reading order.
pub open spec fn large_units(cs: Seq<char>) -> Seq<int>
    decreases cs.len(),
{
    if cs.len() == 0 {
        Seq::empty()
    } else {
        (match spec_classify(cs[0]) {
            Some(Token::Large(u)) => seq![u as int],
            _ => Seq::<int>::empty(),
        }) + large_units(cs.drop_first())
    }
}

/// Each element of `us` strictly exceeds every later one.
pub open spec fn strictly_descending(us: Seq<int>) -> bool {
    forall|i: int, j: int| 0 <= i < j < us.len() ==> us[i] > us[j]
}

/// Under the flat ladders a successful run reads its large units in strictly
/// descending order; moreover every unit read stays below the stack's top.
#[verifier::rlimit(100)]
proof fn lemma_monotone_run(m: ChineseNumberCountMethod, cs: Seq<char>, s: Machine)
    requires
        m is Low || m is TenThousand,
        machine_wf(m, s),
        run_chars(m, cs, s) is Good,
    ensures
        strictly_descending(large_units(cs)),
        s.stack.len() > 0 ==> forall|k: int|
            0 <= k < large_units(cs).len() ==> (#[trigger] large_units(cs)[k])
                < s.stack.last().unit,
    decreases cs.len(),
{
    lemma_pow10_small();
    if cs.len() == 0 {
    } else {
        let us = large_units(cs);
        let rest = cs.drop_first();
        match spec_classify(cs[0]) {
            Option::None => {},
            Option::Some(t) => {
                crate::tables::lemma_classify_wf(cs[0]);
                match machine_step(m, s, t) {
                    Option::None => {},
                    Option::Some(s2) => {
                        lemma_machine_step_wf(m, s, t);
                        lemma_monotone_run(m, rest, s2);
                        match t {
                            Token::Large(u) => {
                                // under Low and TenThousand nothing may be
                                // popped: a popped entry is worth at least
                                // 萬, beyond any multiplier these ladders allow
                                let (pr, popped) = pop_below(m, s.stack, u as int);
                                lemma_pop_below(m, s.stack, u as int);
                                if pr.len() < s.stack.len() {
                                    lemma_unit_exp_at_least_four(m, s.stack.last().unit);
                                    lemma_pow10_mono(4, unit_exp(m, s.stack.last().unit));
                                    lemma_pow10_mono(coeff_exp(m, u as int), 4);
                                    assert(false);
                                }
                                assert(pr == s.stack);
                                assert(popped == 0);
                                assert(s.stack.len() > 0 ==> s.stack.last().unit > u as int);
                                assert(s2.stack.last().unit == u as int);
                                assert(us == seq![u as int] + large_units(rest));
                                assert forall|i: int, j: int|
                                    0 <= i < j < us.len() implies us[i] > us[j] by {
                                    if i == 0 {
                                        assert(us[j] == large_units(rest)[j - 1]);
                                        assert(large_units(rest)[j - 1] < s2.stack.last().unit);
                                    } else {
                                        assert(us[i] == large_units(rest)[i - 1]);
                                        assert(us[j] == large_units(rest)[j - 1]);
                                    }
                                }
                                if s.stack.len() > 0 {
                                    assert forall|k: int|
                                        0 <= k < us.len() implies (#[trigger] us[k])
                                            < s.stack.last().unit by {
                                        if k > 0 {
                                            assert(us[k] == large_units(rest)[k - 1]);
                                            assert(large_units(rest)[k - 1] < u as int);
                                        }
                                    }
                                }
                            },
                            _ => {
                                assert(s2.stack == s.stack);
                                assert(us == large_units(rest));
                            },
                        }
                    },
                }
            },
        }
    }
}

/// The classifier only yields large units on the ladder.
proof fn lemma_large_units_in_range(cs: Seq<char>)
    ensures
        forall|k: int|
            0 <= k < large_units(cs).len() ==> 0 <= (#[trigger] large_units(cs)[k]) <= 11,
    decreases cs.len(),
{
    if cs.len() > 0 {
        lemma_large_units_in_range(cs.drop_first());
        match spec_classify(cs[0]) {
            Some(Token::Large(u)) => {
                crate::tables::lemma_classify_wf(cs[0]);
                assert(large_units(cs) == seq![u as int] + large_units(cs.drop_first()));
                assert(forall|k: int|
                    1 <= k < large_units(cs).len() ==> large_units(cs)[k] == large_units(
                        cs.drop_first(),
                    )[k - 1]);
            },
            _ => {
                assert(large_units(cs) == Seq::<int>::empty() + large_units(cs.drop_first()));
                assert(forall|k: int|
                    0 <= k < large_units(cs).len() ==> large_units(cs)[k] == large_units(
                        cs.drop_first(),
                    )[k]);
            },
        }
    }
}

/// MONOTONE UNIT ORDER: under the Low and the TenThousand ladder, any
/// numeral that parses reads its large units in strictly descending
/// magnitude.  (The Middle and High ladders compose units, so 萬 may stand
/// inside a larger unit's multiplier there: 一萬垓 is a valid Middle
/// numeral.)
pub proof fn lemma_parse_monotone_units(m: ChineseNumberCountMethod, cs: Seq<char>)
    requires
        m is Low || m is TenThousand,
        crate::model::spec_parse_unsigned(m, cs) is Val,
    ensures
        strictly_descending(large_units(cs)),
        forall|i: int, j: int|
            0 <= i < j < large_units(cs).len() ==> pow10(
                unit_exp(m, #[trigger] large_units(cs)[i]),
            ) > pow10(unit_exp(m, #[trigger] large_units(cs)[j])),
{
    lemma_pow10_small();
    assert(cs.len() > 0);
    assert(run_chars(m, cs, init_machine()) is Good);
    lemma_monotone_run(m, cs, init_machine());
    lemma_large_units_in_range(cs);
    let us = large_units(cs);
    assert forall|i: int, j: int|
        0 <= i < j < us.len() implies pow10(unit_exp(m, #[trigger] us[i])) > pow10(
        unit_exp(m, #[trigger] us[j]),
    ) by {
        assert(us[i] > us[j]);
        crate::model::lemma_unit_exp_at_least_four(m, us[j]);
        crate::model::lemma_unit_exp_at_least_four(m, us[i]);
        assert(unit_exp(m, us[j]) < unit_exp(m, us[i]));
        crate::model::lemma_pow10_strictly_mono(unit_exp(m, us[j]), unit_exp(m, us[i]));
    }
}

} // verus!
