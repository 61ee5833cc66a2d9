//! The formatter: writing an integer as a Chinese numeral string.

use vstd::prelude::*;
use crate::model::{emit_below, emit_tokens, lemma_pow10_mono, lemma_pow10_small, lemma_pow10_u128, lemma_pow10_unfold, lemma_top_unit, lemma_unit_exp_at_least_four, pow10, top_unit, top_unit_below, unit_exp, Token};
use crate::tables::{char_of_token, glyph_seq, negative_glyph, token_glyph};
use crate::types::{ChineseNumberCase, ChineseNumberCountMethod, ChineseVariant};

verus! {

/// The full rendering of the unsigned value `v`: its token sequence mapped
/// through the glyph table of the chosen styling.  The leading 一 of a 十 at
/// the very head is left out exactly in the lowercase style.
pub open spec fn spec_format_unsigned(
    m: ChineseNumberCountMethod,
    variant: ChineseVariant,
    case: ChineseNumberCase,
    v: nat,
) -> Seq<char> {
    glyph_seq(variant, case, emit_tokens(m, v, case is Lower))
}

/// The rendering of a signed value: the negative sign glyph ahead of the
/// rendering of the magnitude.
pub open spec fn spec_format_signed(
    m: ChineseNumberCountMethod,
    variant: ChineseVariant,
    case: ChineseNumberCase,
    v: int,
) -> Seq<char> {
    if v >= 0 {
        spec_format_unsigned(m, variant, case, v as nat)
    } else {
        seq![negative_glyph(variant)] + spec_format_unsigned(m, variant, case, (-v) as nat)
    }
}

/// Relies on alloc's `String::push`: appends exactly one character.
#[verifier::external_body]
pub(crate) fn push_char(buffer: &mut String, c: char)
    ensures
        final(buffer)@ == old(buffer)@.push(c),
{
    buffer.push(c);
}

/// Mapping glyphs distributes over concatenation of token sequences.
pub proof fn lemma_glyph_seq_add(
    variant: ChineseVariant,
    case: ChineseNumberCase,
    ts1: Seq<Token>,
    ts2: Seq<Token>,
)
    ensures
        glyph_seq(variant, case, ts1 + ts2) == glyph_seq(variant, case, ts1) + glyph_seq(
            variant,
            case,
            ts2,
        ),
{
    assert(glyph_seq(variant, case, ts1 + ts2) =~= glyph_seq(variant, case, ts1) + glyph_seq(
        variant,
        case,
        ts2,
    ));
}

/// The glyph sequence of a single token.
pub proof fn lemma_glyph_seq_one(variant: ChineseVariant, case: ChineseNumberCase, t: Token)
    ensures
        glyph_seq(variant, case, seq![t]) == seq![token_glyph(variant, case, t)],
{
    assert(glyph_seq(variant, case, seq![t]) =~= seq![token_glyph(variant, case, t)]);
}

/// The exponent of ten of large unit `u` under method `m`.
pub(crate) fn exec_unit_exp(m: ChineseNumberCountMethod, u: u8) -> (e: u32)
    requires
        u <= 11,
    ensures
        e as nat == unit_exp(m, u as int),
        4 <= e <= 8192,
{
    proof {
        lemma_unit_exp_at_least_four(m, u as int);
    }
    match m {
        ChineseNumberCountMethod::Low => u as u32 + 4,
        ChineseNumberCountMethod::TenThousand => 4 * (u as u32) + 4,
        ChineseNumberCountMethod::Middle => if u == 0 {
            4
        } else {
            8 * (u as u32)
        },
        ChineseNumberCountMethod::High => {
            proof {
                reveal_with_fuel(vstd::arithmetic::power::pow, 13);
            }
            if u == 0 { 4 }
            else if u == 1 { 8 }
            else if u == 2 { 16 }
            else if u == 3 { 32 }
            else if u == 4 { 64 }
            else if u == 5 { 128 }
            else if u == 6 { 256 }
            else if u == 7 { 512 }
            else if u == 8 { 1024 }
            else if u == 9 { 2048 }
            else if u == 10 { 4096 }
            else { 8192 }
        },
    }
}

/// `10^e` as a `u128`, for exponents a `u128` can hold.
pub(crate) fn exec_pow10(e: u32) -> (r: u128)
    requires
        e <= 38,
    ensures
        r as nat == pow10(e as nat),
{
    proof {
        lemma_pow10_u128();
        lemma_pow10_small();
    }
    let mut r: u128 = 1;
    let mut i: u32 = 0;
    while i < e
        invariant
            i <= e <= 38,
            r as nat == pow10(i as nat),
        decreases e - i,
    {
        proof {
            lemma_pow10_unfold((i + 1) as nat);
            lemma_pow10_mono((i + 1) as nat, 38);
            lemma_pow10_u128();
        }
        r = r * 10;
        i = i + 1;
    }
    r
}

/// Pushing one element is appending a singleton.
proof fn lemma_push_is_add(s: Seq<char>, c: char)
    ensures
        s.push(c) == s + seq![c],
{
    assert(s.push(c) =~= s + seq![c]);
}

/// The glyph sequence of no tokens is empty.
proof fn lemma_glyph_seq_empty(variant: ChineseVariant, case: ChineseNumberCase)
    ensures
        glyph_seq(variant, case, Seq::<Token>::empty()) == Seq::<char>::empty(),
{
    assert(glyph_seq(variant, case, Seq::<Token>::empty()) =~= Seq::<char>::empty());
}

/// The largest unit whose magnitude does not exceed `v`.
fn exec_top_unit(m: ChineseNumberCountMethod, v: u128) -> (u: u8)
    requires
        v >= 10000,
    ensures
        u as int == top_unit(m, v as nat),
        u <= 11,
        pow10(unit_exp(m, u as int)) <= v as nat,
        unit_exp(m, u as int) <= 38,
{
    let mut u: u8 = 11;
    loop
        invariant
            u <= 11,
            v >= 10000,
            top_unit(m, v as nat) == top_unit_below(m, v as nat, u as int),
        decreases u,
    {
        let e = exec_unit_exp(m, u);
        let mut qualifies = false;
        if e <= 38 {
            let mag = exec_pow10(e);
            qualifies = mag <= v;
        } else {
            proof {
                lemma_pow10_mono(39, e as nat);
                lemma_pow10_u128();
            }
            assert(pow10(unit_exp(m, u as int)) > v as nat);
        }
        if qualifies {
            proof {
                if u > 0 {
                    assert(top_unit_below(m, v as nat, u as int) == u as int);
                } else {
                    assert(top_unit_below(m, v as nat, 0) == 0);
                }
            }
            return u;
        }
        proof {
            lemma_pow10_small();
            assert(u > 0) by {
                if u == 0 {
                    assert(unit_exp(m, 0) == 4) by {
                        lemma_unit_exp_at_least_four(m, 0);
                        if m is High {
                            reveal_with_fuel(vstd::arithmetic::power::pow, 1);
                        }
                    }
                }
            }
            assert(top_unit_below(m, v as nat, u as int) == top_unit_below(
                m,
                v as nat,
                u as int - 1,
            ));
        }
        u = u - 1;
    }
}

/// Writes the numeral of a value below `10^4`: digit and small-unit pairs
/// with zero connectors.
#[verifier::rlimit(100)]
fn emit_group(
    m: ChineseNumberCountMethod,
    v: u128,
    elide: bool,
    variant: ChineseVariant,
    case: ChineseNumberCase,
    buffer: &mut String,
)
    requires
        v < 10000,
    ensures
        final(buffer)@ == old(buffer)@ + glyph_seq(variant, case, emit_tokens(m, v as nat, elide)),
    decreases v, 0int,
{
    proof {
        lemma_pow10_small();
        lemma_pow10_mono(4, 16);
    }
    let ghost ts = emit_tokens(m, v as nat, elide);
    if v == 0 {
        let c = char_of_token(variant, case, Token::Zero);
        push_char(buffer, c);
        proof {
            lemma_push_is_add(old(buffer)@, c);
            lemma_glyph_seq_one(variant, case, Token::Zero);
        }
    } else if v < 10 {
        let c = char_of_token(variant, case, Token::Digit(v as u8));
        push_char(buffer, c);
        proof {
            lemma_push_is_add(old(buffer)@, c);
            lemma_glyph_seq_one(variant, case, Token::Digit(v as u8));
        }
    } else if v < 100 {
        let hi = (v / 10) as u8;
        let lo = (v % 10) as u8;
        let ghost p = if hi == 1 && elide {
            Seq::<Token>::empty()
        } else {
            seq![Token::Digit(hi)]
        };
        let ghost q = if lo == 0 {
            Seq::<Token>::empty()
        } else {
            seq![Token::Digit(lo)]
        };
        if !(hi == 1 && elide) {
            let c = char_of_token(variant, case, Token::Digit(hi));
            push_char(buffer, c);
            proof {
                lemma_push_is_add(old(buffer)@, c);
                lemma_glyph_seq_one(variant, case, Token::Digit(hi));
            }
        } else {
            proof {
                lemma_glyph_seq_empty(variant, case);
            }
        }
        assert(buffer@ == old(buffer)@ + glyph_seq(variant, case, p));
        let c1 = char_of_token(variant, case, Token::Small(1));
        push_char(buffer, c1);
        proof {
            lemma_push_is_add(old(buffer)@ + glyph_seq(variant, case, p), c1);
            lemma_glyph_seq_one(variant, case, Token::Small(1));
        }
        if lo != 0 {
            let c2 = char_of_token(variant, case, Token::Digit(lo));
            push_char(buffer, c2);
            proof {
                lemma_push_is_add(
                    old(buffer)@ + glyph_seq(variant, case, p) + glyph_seq(
                        variant,
                        case,
                        seq![Token::Small(1)],
                    ),
                    c2,
                );
                lemma_glyph_seq_one(variant, case, Token::Digit(lo));
            }
        } else {
            proof {
                lemma_glyph_seq_empty(variant, case);
            }
        }
        proof {
            assert(ts == p + seq![Token::Small(1)] + q);
            lemma_glyph_seq_add(variant, case, p + seq![Token::Small(1)], q);
            lemma_glyph_seq_add(variant, case, p, seq![Token::Small(1)]);
            assert(buffer@ == old(buffer)@ + glyph_seq(variant, case, p) + glyph_seq(
                variant,
                case,
                seq![Token::Small(1)],
            ) + glyph_seq(variant, case, q));
            assert(buffer@ =~= old(buffer)@ + glyph_seq(variant, case, ts));
        }
    } else {
        let dhi: u8;
        let se: u8;
        let rest: u128;
        let ghost re: nat;
        if v < 1000 {
            dhi = (v / 100) as u8;
            se = 2;
            rest = v % 100;
            proof {
                re = 1nat;
            }
        } else {
            dhi = (v / 1000) as u8;
            se = 3;
            rest = v % 1000;
            proof {
                re = 2nat;
            }
        }
        let c1 = char_of_token(variant, case, Token::Digit(dhi));
        push_char(buffer, c1);
        let c2 = char_of_token(variant, case, Token::Small(se));
        push_char(buffer, c2);
        proof {
            lemma_push_is_add(old(buffer)@, c1);
            lemma_push_is_add(old(buffer)@ + seq![c1], c2);
        }
        let ghost mid = buffer@;
        emit_rest(m, rest, se as u32 - 1, variant, case, buffer);
        proof {
            let ghost hd = seq![Token::Digit(dhi), Token::Small(se)];
            assert(ts == hd + emit_below(m, rest as nat, re));
            lemma_glyph_seq_add(variant, case, hd, emit_below(m, rest as nat, re));
            assert(glyph_seq(variant, case, hd) =~= seq![c1, c2]);
            assert(mid =~= old(buffer)@ + glyph_seq(variant, case, hd));
            assert(buffer@ =~= old(buffer)@ + glyph_seq(variant, case, ts));
        }
    }
}

/// Writes the numeral of `v` onto `buffer`.  `elide` leaves out the leading
/// 一 of a 十 standing at the head of the whole numeral.
#[verifier::rlimit(60)]
pub(crate) fn emit_value(
    m: ChineseNumberCountMethod,
    v: u128,
    elide: bool,
    variant: ChineseVariant,
    case: ChineseNumberCase,
    buffer: &mut String,
)
    requires
        m is Low ==> (v as nat) < pow10(16),
    ensures
        final(buffer)@ == old(buffer)@ + glyph_seq(variant, case, emit_tokens(m, v as nat, elide)),
    decreases v, 1int,
{
    proof {
        lemma_pow10_small();
    }
    let ghost ts = emit_tokens(m, v as nat, elide);
    if v < 10000 {
        emit_group(m, v, elide, variant, case, buffer);
    } else {
        let u = exec_top_unit(m, v);
        let e = exec_unit_exp(m, u);
        let mag = exec_pow10(e);
        proof {
            crate::model::lemma_pow10_pos(e as nat);
        }
        let hi = v / mag;
        let lo = v % mag;
        proof {
            lemma_top_unit(m, v as nat);
            vstd::arithmetic::div_mod::lemma_div_decreases(v as int, mag as int);
            vstd::arithmetic::div_mod::lemma_mod_division_less_than_divisor(v as int, mag as int);
            vstd::arithmetic::div_mod::lemma_div_nonincreasing(v as int, mag as int);
        }
        emit_value(m, hi, elide, variant, case, buffer);
        let ghost mid1 = buffer@;
        let c = char_of_token(variant, case, Token::Large(u));
        push_char(buffer, c);
        proof {
            lemma_push_is_add(mid1, c);
        }
        let ghost mid2 = buffer@;
        emit_rest(m, lo, e - 1, variant, case, buffer);
        proof {
            let hts = emit_tokens(m, (v as nat) / pow10(unit_exp(m, u as int)), elide);
            let bts = emit_below(m, lo as nat, (unit_exp(m, u as int) - 1) as nat);
            assert(ts == hts + seq![Token::Large(u)] + bts);
            lemma_glyph_seq_add(variant, case, hts + seq![Token::Large(u)], bts);
            lemma_glyph_seq_add(variant, case, hts, seq![Token::Large(u)]);
            lemma_glyph_seq_one(variant, case, Token::Large(u));
            assert(buffer@ =~= old(buffer)@ + glyph_seq(variant, case, ts));
        }
    }
}

/// Writes the remainder `r` that follows a unit of magnitude `10^(e+1)`:
/// nothing when zero, otherwise a zero connector when the position right
/// below the unit is empty, then the numeral of `r`.
fn emit_rest(
    m: ChineseNumberCountMethod,
    r: u128,
    e: u32,
    variant: ChineseVariant,
    case: ChineseNumberCase,
    buffer: &mut String,
)
    requires
        e <= 37,
        m is Low ==> (r as nat) < pow10(16),
    ensures
        final(buffer)@ == old(buffer)@ + glyph_seq(variant, case, emit_below(m, r as nat, e as nat)),
    decreases r, 2int,
{
    let ghost bts = emit_below(m, r as nat, e as nat);
    if r == 0 {
        proof {
            lemma_glyph_seq_empty(variant, case);
            assert(buffer@ =~= old(buffer)@ + glyph_seq(variant, case, bts));
        }
    } else {
        let p = exec_pow10(e);
        let ghost zs = if (r as nat) < pow10(e as nat) {
            seq![Token::Zero]
        } else {
            Seq::<Token>::empty()
        };
        if r < p {
            let c = char_of_token(variant, case, Token::Zero);
            push_char(buffer, c);
            proof {
                lemma_push_is_add(old(buffer)@, c);
                lemma_glyph_seq_one(variant, case, Token::Zero);
            }
        } else {
            proof {
                lemma_glyph_seq_empty(variant, case);
            }
        }
        assert(buffer@ == old(buffer)@ + glyph_seq(variant, case, zs));
        emit_value(m, r, false, variant, case, buffer);
        proof {
            assert(bts == zs + emit_tokens(m, r as nat, false));
            lemma_glyph_seq_add(variant, case, zs, emit_tokens(m, r as nat, false));
            assert(buffer@ =~= old(buffer)@ + glyph_seq(variant, case, bts));
        }
    }
}

/// Concatenation of character sequences associates.
proof fn lemma_seq_assoc(a: Seq<char>, b: Seq<char>, c: Seq<char>)
    ensures
        a + b + c == a + (b + c),
{
    assert(a + b + c =~= a + (b + c));
}

/// Writes the magnitude of a signed value after its sign has been written.
fn emit_signed(
    m: ChineseNumberCountMethod,
    negative: bool,
    mag: u128,
    variant: ChineseVariant,
    case: ChineseNumberCase,
    buffer: &mut String,
)
    requires
        m is Low ==> (mag as nat) < pow10(16),
    ensures
        final(buffer)@ == old(buffer)@ + (if negative {
            seq![negative_glyph(variant)] + spec_format_unsigned(m, variant, case, mag as nat)
        } else {
            spec_format_unsigned(m, variant, case, mag as nat)
        }),
{
    let lower = case == ChineseNumberCase::Lower;
    if negative {
        let c = char_of_token(variant, case, Token::Neg);
        push_char(buffer, c);
        proof {
            lemma_push_is_add(old(buffer)@, c);
        }
        emit_value(m, mag, lower, variant, case, buffer);
        proof {
            lemma_seq_assoc(
                old(buffer)@,
                seq![negative_glyph(variant)],
                spec_format_unsigned(m, variant, case, mag as nat),
            );
        }
    } else {
        emit_value(m, mag, lower, variant, case, buffer);
    }
}

/// Renders an i8 as a Chinese numeral.  Values this small never reach a
/// large unit, so every counting method writes them alike.
pub fn from_i8(variant: ChineseVariant, case: ChineseNumberCase, value: i8) -> (s: String)
    ensures
        s@ == spec_format_signed(
            ChineseNumberCountMethod::TenThousand,
            variant,
            case,
            value as int,
        ),
{
    let mut s = String::new();
    from_i8_mut(variant, case, value, &mut s);
    s
}

/// Renders an i8 onto the end of `buffer`.
pub fn from_i8_mut(
    variant: ChineseVariant,
    case: ChineseNumberCase,
    value: i8,
    buffer: &mut String,
)
    ensures
        final(buffer)@ == old(buffer)@ + spec_format_signed(
            ChineseNumberCountMethod::TenThousand,
            variant,
            case,
            value as int,
        ),
{
    let negative = value < 0;
    let mag: u8 = if value == i8::MIN {
        128
    } else if value < 0 {
        (0 - value) as u8
    } else {
        value as u8
    };
    emit_signed(
        ChineseNumberCountMethod::TenThousand,
        negative,
        mag as u128,
        variant,
        case,
        buffer,
    );
}

/// Renders a u8 as a Chinese numeral.
pub fn from_u8(variant: ChineseVariant, case: ChineseNumberCase, value: u8) -> (s: String)
    ensures
        s@ == spec_format_unsigned(
            ChineseNumberCountMethod::TenThousand,
            variant,
            case,
            value as nat,
        ),
{
    let mut s = String::new();
    from_u8_mut(variant, case, value, &mut s);
    s
}

/// Renders a u8 onto the end of `buffer`.
pub fn from_u8_mut(
    variant: ChineseVariant,
    case: ChineseNumberCase,
    value: u8,
    buffer: &mut String,
)
    ensures
        final(buffer)@ == old(buffer)@ + spec_format_unsigned(
            ChineseNumberCountMethod::TenThousand,
            variant,
            case,
            value as nat,
        ),
{
    let lower = case == ChineseNumberCase::Lower;
    emit_value(ChineseNumberCountMethod::TenThousand, value as u128, lower, variant, case, buffer);
}

/// Renders an i16 as a Chinese numeral.
pub fn from_i16(variant: ChineseVariant, case: ChineseNumberCase, value: i16) -> (s: String)
    ensures
        s@ == spec_format_signed(
            ChineseNumberCountMethod::TenThousand,
            variant,
            case,
            value as int,
        ),
{
    let mut s = String::new();
    from_i16_mut(variant, case, value, &mut s);
    s
}

/// Renders an i16 onto the end of `buffer`.
pub fn from_i16_mut(
    variant: ChineseVariant,
    case: ChineseNumberCase,
    value: i16,
    buffer: &mut String,
)
    ensures
        final(buffer)@ == old(buffer)@ + spec_format_signed(
            ChineseNumberCountMethod::TenThousand,
            variant,
            case,
            value as int,
        ),
{
    let negative = value < 0;
    let mag: u16 = if value == i16::MIN {
        32768
    } else if value < 0 {
        (0 - value) as u16
    } else {
        value as u16
    };
    emit_signed(
        ChineseNumberCountMethod::TenThousand,
        negative,
        mag as u128,
        variant,
        case,
        buffer,
    );
}

/// Renders a u16 as a Chinese numeral.
pub fn from_u16(variant: ChineseVariant, case: ChineseNumberCase, value: u16) -> (s: String)
    ensures
        s@ == spec_format_unsigned(
            ChineseNumberCountMethod::TenThousand,
            variant,
            case,
            value as nat,
        ),
{
    let mut s = String::new();
    from_u16_mut(variant, case, value, &mut s);
    s
}

/// Renders a u16 onto the end of `buffer`.
pub fn from_u16_mut(
    variant: ChineseVariant,
    case: ChineseNumberCase,
    value: u16,
    buffer: &mut String,
)
    ensures
        final(buffer)@ == old(buffer)@ + spec_format_unsigned(
            ChineseNumberCountMethod::TenThousand,
            variant,
            case,
            value as nat,
        ),
{
    let lower = case == ChineseNumberCase::Lower;
    emit_value(ChineseNumberCountMethod::TenThousand, value as u128, lower, variant, case, buffer);
}

/// Renders an i32 as a Chinese numeral under the chosen counting method.
pub fn from_i32(
    variant: ChineseVariant,
    case: ChineseNumberCase,
    method: ChineseNumberCountMethod,
    value: i32,
) -> (s: String)
    ensures
        s@ == spec_format_signed(method, variant, case, value as int),
{
    let mut s = String::new();
    from_i32_mut(variant, case, method, value, &mut s);
    s
}

/// Renders an i32 onto the end of `buffer`.
pub fn from_i32_mut(
    variant: ChineseVariant,
    case: ChineseNumberCase,
    method: ChineseNumberCountMethod,
    value: i32,
    buffer: &mut String,
)
    ensures
        final(buffer)@ == old(buffer)@ + spec_format_signed(method, variant, case, value as int),
{
    proof {
        lemma_pow10_u128();
    }
    let negative = value < 0;
    let mag: u32 = if value == i32::MIN {
        2147483648
    } else if value < 0 {
        (0 - value) as u32
    } else {
        value as u32
    };
    emit_signed(method, negative, mag as u128, variant, case, buffer);
}

/// Renders a u32 as a Chinese numeral under the chosen counting method.
pub fn from_u32(
    variant: ChineseVariant,
    case: ChineseNumberCase,
    method: ChineseNumberCountMethod,
    value: u32,
) -> (s: String)
    ensures
        s@ == spec_format_unsigned(method, variant, case, value as nat),
{
    let mut s = String::new();
    from_u32_mut(variant, case, method, value, &mut s);
    s
}

/// Renders a u32 onto the end of `buffer`.
pub fn from_u32_mut(
    variant: ChineseVariant,
    case: ChineseNumberCase,
    method: ChineseNumberCountMethod,
    value: u32,
    buffer: &mut String,
)
    ensures
        final(buffer)@ == old(buffer)@ + spec_format_unsigned(method, variant, case, value as nat),
{
    proof {
        lemma_pow10_u128();
    }
    let lower = case == ChineseNumberCase::Lower;
    emit_value(method, value as u128, lower, variant, case, buffer);
}

/// Renders an i64 as a Chinese numeral.  The Low method has no unit above
/// `10^15`, so it asks for a magnitude below `10^16`.
pub fn from_i64(
    variant: ChineseVariant,
    case: ChineseNumberCase,
    method: ChineseNumberCountMethod,
    value: i64,
) -> (s: String)
    requires
        method is Low ==> -10000000000000000 < value < 10000000000000000,
    ensures
        s@ == spec_format_signed(method, variant, case, value as int),
{
    let mut s = String::new();
    from_i64_mut(variant, case, method, value, &mut s);
    s
}

/// Renders an i64 onto the end of `buffer`.
pub fn from_i64_mut(
    variant: ChineseVariant,
    case: ChineseNumberCase,
    method: ChineseNumberCountMethod,
    value: i64,
    buffer: &mut String,
)
    requires
        method is Low ==> -10000000000000000 < value < 10000000000000000,
    ensures
        final(buffer)@ == old(buffer)@ + spec_format_signed(method, variant, case, value as int),
{
    proof {
        lemma_pow10_u128();
    }
    let negative = value < 0;
    let mag: u64 = if value == i64::MIN {
        9223372036854775808
    } else if value < 0 {
        (0 - value) as u64
    } else {
        value as u64
    };
    emit_signed(method, negative, mag as u128, variant, case, buffer);
}

/// Renders a u64 as a Chinese numeral.  The Low method has no unit above
/// `10^15`, so it asks for a value below `10^16`.
pub fn from_u64(
    variant: ChineseVariant,
    case: ChineseNumberCase,
    method: ChineseNumberCountMethod,
    value: u64,
) -> (s: String)
    requires
        method is Low ==> value < 10000000000000000,
    ensures
        s@ == spec_format_unsigned(method, variant, case, value as nat),
{
    let mut s = String::new();
    from_u64_mut(variant, case, method, value, &mut s);
    s
}

/// Renders a u64 onto the end of `buffer`.
pub fn from_u64_mut(
    variant: ChineseVariant,
    case: ChineseNumberCase,
    method: ChineseNumberCountMethod,
    value: u64,
    buffer: &mut String,
)
    requires
        method is Low ==> value < 10000000000000000,
    ensures
        final(buffer)@ == old(buffer)@ + spec_format_unsigned(method, variant, case, value as nat),
{
    proof {
        lemma_pow10_u128();
    }
    let lower = case == ChineseNumberCase::Lower;
    emit_value(method, value as u128, lower, variant, case, buffer);
}

/// Renders an i128 as a Chinese numeral.
pub fn from_i128(
    variant: ChineseVariant,
    case: ChineseNumberCase,
    method: ChineseNumberCountMethod,
    value: i128,
) -> (s: String)
    requires
        method is Low ==> -10000000000000000 < value < 10000000000000000,
    ensures
        s@ == spec_format_signed(method, variant, case, value as int),
{
    let mut s = String::new();
    from_i128_mut(variant, case, method, value, &mut s);
    s
}

/// Renders an i128 onto the end of `buffer`.
pub fn from_i128_mut(
    variant: ChineseVariant,
    case: ChineseNumberCase,
    method: ChineseNumberCountMethod,
    value: i128,
    buffer: &mut String,
)
    requires
        method is Low ==> -10000000000000000 < value < 10000000000000000,
    ensures
        final(buffer)@ == old(buffer)@ + spec_format_signed(method, variant, case, value as int),
{
    proof {
        lemma_pow10_u128();
    }
    let negative = value < 0;
    let mag: u128 = if value == i128::MIN {
        170141183460469231731687303715884105728
    } else if value < 0 {
        (0 - value) as u128
    } else {
        value as u128
    };
    emit_signed(method, negative, mag, variant, case, buffer);
}

/// Renders a u128 as a Chinese numeral.
pub fn from_u128(
    variant: ChineseVariant,
    case: ChineseNumberCase,
    method: ChineseNumberCountMethod,
    value: u128,
) -> (s: String)
    requires
        method is Low ==> value < 10000000000000000,
    ensures
        s@ == spec_format_unsigned(method, variant, case, value as nat),
{
    let mut s = String::new();
    from_u128_mut(variant, case, method, value, &mut s);
    s
}

/// Renders a u128 onto the end of `buffer`.
pub fn from_u128_mut(
    variant: ChineseVariant,
    case: ChineseNumberCase,
    method: ChineseNumberCountMethod,
    value: u128,
    buffer: &mut String,
)
    requires
        method is Low ==> value < 10000000000000000,
    ensures
        final(buffer)@ == old(buffer)@ + spec_format_unsigned(method, variant, case, value as nat),
{
    proof {
        lemma_pow10_u128();
    }
    let lower = case == ChineseNumberCase::Lower;
    emit_value(method, value, lower, variant, case, buffer);
}

/// Renders an isize as a Chinese numeral.
pub fn from_isize(
    variant: ChineseVariant,
    case: ChineseNumberCase,
    method: ChineseNumberCountMethod,
    value: isize,
) -> (s: String)
    requires
        method is Low ==> -10000000000000000 < value < 10000000000000000,
    ensures
        s@ == spec_format_signed(method, variant, case, value as int),
{
    from_i64(variant, case, method, value as i64)
}

/// Renders an isize onto the end of `buffer`.
pub fn from_isize_mut(
    variant: ChineseVariant,
    case: ChineseNumberCase,
    method: ChineseNumberCountMethod,
    value: isize,
    buffer: &mut String,
)
    requires
        method is Low ==> -10000000000000000 < value < 10000000000000000,
    ensures
        final(buffer)@ == old(buffer)@ + spec_format_signed(method, variant, case, value as int),
{
    from_i64_mut(variant, case, method, value as i64, buffer);
}

/// Renders a usize as a Chinese numeral.
pub fn from_usize(
    variant: ChineseVariant,
    case: ChineseNumberCase,
    method: ChineseNumberCountMethod,
    value: usize,
) -> (s: String)
    requires
        method is Low ==> value < 10000000000000000,
    ensures
        s@ == spec_format_unsigned(method, variant, case, value as nat),
{
    from_u64(variant, case, method, value as u64)
}

/// Renders a usize onto the end of `buffer`.
pub fn from_usize_mut(
    variant: ChineseVariant,
    case: ChineseNumberCase,
    method: ChineseNumberCountMethod,
    value: usize,
    buffer: &mut String,
)
    requires
        method is Low ==> value < 10000000000000000,
    ensures
        final(buffer)@ == old(buffer)@ + spec_format_unsigned(method, variant, case, value as nat),
{
    from_u64_mut(variant, case, method, value as u64, buffer);
}

/// The rendering of a number split into sign, integer part and the two
/// fraction digits: tenths carry 角 and hundredths carry 分.  The integer
/// part is left out when it is zero and a fraction digit is present
/// (一角二分, not 零一角二分); a nonzero digit is always written with its
/// fraction unit.
pub open spec fn spec_format_fraction(
    m: ChineseNumberCountMethod,
    variant: ChineseVariant,
    case: ChineseNumberCase,
    negative: bool,
    i: nat,
    t: nat,
    h: nat,
) -> Seq<char> {
    (if negative {
        seq![negative_glyph(variant)]
    } else {
        Seq::<char>::empty()
    }) + (if i == 0 && (t > 0 || h > 0) {
        Seq::<char>::empty()
    } else {
        spec_format_unsigned(m, variant, case, i)
    }) + (if t > 0 {
        seq![
            crate::tables::digit_glyph(variant, case, t as int),
            token_glyph(variant, case, Token::Frac(1)),
        ]
    } else {
        Seq::<char>::empty()
    }) + (if h > 0 {
        seq![
            crate::tables::digit_glyph(variant, case, h as int),
            token_glyph(variant, case, Token::Frac(2)),
        ]
    } else {
        Seq::<char>::empty()
    })
}

/// Renders a number given as sign, integer part and two fraction digits
/// (tenths and hundredths).  This is the integer core of the floating-point
/// entry points, which only split a float into these parts.
pub fn from_fraction_parts(
    variant: ChineseVariant,
    case: ChineseNumberCase,
    method: ChineseNumberCountMethod,
    negative: bool,
    integer: u64,
    tenths: u8,
    hundredths: u8,
) -> (s: String)
    requires
        tenths <= 9,
        hundredths <= 9,
        method is Low ==> integer < 10000000000000000,
    ensures
        s@ == spec_format_fraction(
            method,
            variant,
            case,
            negative,
            integer as nat,
            tenths as nat,
            hundredths as nat,
        ),
{
    let mut s = String::new();
    from_fraction_parts_mut(variant, case, method, negative, integer, tenths, hundredths, &mut s);
    s
}

/// Writes one fraction digit with its unit (角 or 分).
fn emit_fraction_digit(
    variant: ChineseVariant,
    case: ChineseNumberCase,
    d: u8,
    k: u8,
    buffer: &mut String,
)
    requires
        1 <= d <= 9,
        1 <= k <= 2,
    ensures
        final(buffer)@ == old(buffer)@ + seq![
            crate::tables::digit_glyph(variant, case, d as int),
            token_glyph(variant, case, Token::Frac(k)),
        ],
{
    let c = char_of_token(variant, case, Token::Digit(d));
    push_char(buffer, c);
    let c2 = char_of_token(variant, case, Token::Frac(k));
    push_char(buffer, c2);
    proof {
        lemma_push_is_add(old(buffer)@, c);
        lemma_push_is_add(old(buffer)@ + seq![c], c2);
        assert(old(buffer)@ + seq![c] + seq![c2] =~= old(buffer)@ + seq![c, c2]);
    }
}

/// Renders a sign, integer part and two fraction digits onto `buffer`.
#[verifier::rlimit(100)]
pub fn from_fraction_parts_mut(
    variant: ChineseVariant,
    case: ChineseNumberCase,
    method: ChineseNumberCountMethod,
    negative: bool,
    integer: u64,
    tenths: u8,
    hundredths: u8,
    buffer: &mut String,
)
    requires
        tenths <= 9,
        hundredths <= 9,
        method is Low ==> integer < 10000000000000000,
    ensures
        final(buffer)@ == old(buffer)@ + spec_format_fraction(
            method,
            variant,
            case,
            negative,
            integer as nat,
            tenths as nat,
            hundredths as nat,
        ),
{
    proof {
        lemma_pow10_u128();
    }
    let ghost p1 = if negative {
        seq![negative_glyph(variant)]
    } else {
        Seq::<char>::empty()
    };
    let ghost p2 = if integer == 0 && (tenths > 0 || hundredths > 0) {
        Seq::<char>::empty()
    } else {
        spec_format_unsigned(method, variant, case, integer as nat)
    };
    let ghost p3 = if tenths > 0 {
        seq![
            crate::tables::digit_glyph(variant, case, tenths as int),
            token_glyph(variant, case, Token::Frac(1)),
        ]
    } else {
        Seq::<char>::empty()
    };
    let ghost p4 = if hundredths > 0 {
        seq![
            crate::tables::digit_glyph(variant, case, hundredths as int),
            token_glyph(variant, case, Token::Frac(2)),
        ]
    } else {
        Seq::<char>::empty()
    };
    let lower = case == ChineseNumberCase::Lower;
    if negative {
        let c = char_of_token(variant, case, Token::Neg);
        push_char(buffer, c);
        proof {
            lemma_push_is_add(old(buffer)@, c);
        }
    }
    assert(buffer@ == old(buffer)@ + p1);
    if !(integer == 0 && (tenths > 0 || hundredths > 0)) {
        emit_value(method, integer as u128, lower, variant, case, buffer);
    }
    assert(buffer@ == old(buffer)@ + p1 + p2);
    if tenths > 0 {
        emit_fraction_digit(variant, case, tenths, 1, buffer);
    }
    assert(buffer@ == old(buffer)@ + p1 + p2 + p3);
    if hundredths > 0 {
        emit_fraction_digit(variant, case, hundredths, 2, buffer);
    }
    assert(buffer@ == old(buffer)@ + p1 + p2 + p3 + p4);
    proof {
        assert(old(buffer)@ + p1 + p2 + p3 + p4 =~= old(buffer)@ + (p1 + p2 + p3 + p4));
    }
}

} // verus!
