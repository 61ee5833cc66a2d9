//! The character tables: which glyph renders a token in each styling, and
//! which token a character reads back as.
//!
//! A styling is a pair of script variant (Traditional or Simplified glyphs)
//! and orthographic case (everyday lowercase or formal uppercase).  The
//! reader accepts any mixture of all four stylings.

use vstd::prelude::*;
use crate::model::Token;
use crate::types::{ChineseNumberCase, ChineseVariant};

verus! {

/// A token the emitter may produce: digits are 1 through 9, small units
/// 十/百/千 carry exponents 1 through 3, large units run from 萬 (0) to
/// 極 (11), fraction units are 角 (1) and 分 (2).
pub open spec fn wf_token(t: Token) -> bool {
    match t {
        Token::Zero => true,
        Token::Digit(d) => 1 <= d <= 9,
        Token::Small(e) => 1 <= e <= 3,
        Token::Large(u) => 0 <= u <= 11,
        Token::Neg => true,
        Token::Frac(k) => 1 <= k <= 2,
    }
}

/// The glyph of digit `d` (0 through 9) in the given styling.  The zero
/// digit is the connector 零 in every styling.
pub open spec fn digit_glyph(variant: ChineseVariant, case: ChineseNumberCase, d: int) -> char {
    if case is Lower {
        if d == 1 { '一' }
        else if d == 2 { '二' }
        else if d == 3 { '三' }
        else if d == 4 { '四' }
        else if d == 5 { '五' }
        else if d == 6 { '六' }
        else if d == 7 { '七' }
        else if d == 8 { '八' }
        else if d == 9 { '九' }
        else { '零' }
    } else if variant is Traditional {
        if d == 1 { '壹' }
        else if d == 2 { '貳' }
        else if d == 3 { '參' }
        else if d == 4 { '肆' }
        else if d == 5 { '伍' }
        else if d == 6 { '陸' }
        else if d == 7 { '柒' }
        else if d == 8 { '捌' }
        else if d == 9 { '玖' }
        else { '零' }
    } else {
        if d == 1 { '壹' }
        else if d == 2 { '贰' }
        else if d == 3 { '参' }
        else if d == 4 { '肆' }
        else if d == 5 { '伍' }
        else if d == 6 { '陆' }
        else if d == 7 { '柒' }
        else if d == 8 { '捌' }
        else if d == 9 { '玖' }
        else { '零' }
    }
}

/// The glyph of the small unit `10^e` (`e` in 1 through 3).
pub open spec fn small_glyph(case: ChineseNumberCase, e: int) -> char {
    if case is Lower {
        if e == 1 { '十' }
        else if e == 2 { '百' }
        else { '千' }
    } else {
        if e == 1 { '拾' }
        else if e == 2 { '佰' }
        else { '仟' }
    }
}

/// The glyph of the large unit of index `u` (0 = 萬 through 11 = 極).
/// Large units do not differ between the two cases, only between variants.
pub open spec fn large_glyph(variant: ChineseVariant, u: int) -> char {
    if variant is Traditional {
        if u == 0 { '萬' }
        else if u == 1 { '億' }
        else if u == 2 { '兆' }
        else if u == 3 { '京' }
        else if u == 4 { '垓' }
        else if u == 5 { '秭' }
        else if u == 6 { '穰' }
        else if u == 7 { '溝' }
        else if u == 8 { '澗' }
        else if u == 9 { '正' }
        else if u == 10 { '載' }
        else { '極' }
    } else {
        if u == 0 { '万' }
        else if u == 1 { '亿' }
        else if u == 2 { '兆' }
        else if u == 3 { '京' }
        else if u == 4 { '垓' }
        else if u == 5 { '秭' }
        else if u == 6 { '穰' }
        else if u == 7 { '沟' }
        else if u == 8 { '涧' }
        else if u == 9 { '正' }
        else if u == 10 { '载' }
        else { '极' }
    }
}

/// The negative sign.
pub open spec fn negative_glyph(variant: ChineseVariant) -> char {
    if variant is Traditional { '負' } else { '负' }
}

/// The glyph a token is written as in the given styling.
pub open spec fn token_glyph(variant: ChineseVariant, case: ChineseNumberCase, t: Token) -> char {
    match t {
        Token::Zero => '零',
        Token::Digit(d) => digit_glyph(variant, case, d as int),
        Token::Small(e) => small_glyph(case, e as int),
        Token::Large(u) => large_glyph(variant, u as int),
        Token::Neg => negative_glyph(variant),
        Token::Frac(k) => if k == 1 { '角' } else { '分' },
    }
}

/// The token a character reads back as, in whatever styling it belongs to,
/// or `None` for a character that is no part of a Chinese numeral.
pub open spec fn spec_classify(c: char) -> Option<Token> {
    if c == '零' { Some(Token::Zero) }
    else if c == '一' || c == '壹' { Some(Token::Digit(1)) }
    else if c == '二' || c == '貳' || c == '贰' { Some(Token::Digit(2)) }
    else if c == '三' || c == '參' || c == '参' { Some(Token::Digit(3)) }
    else if c == '四' || c == '肆' { Some(Token::Digit(4)) }
    else if c == '五' || c == '伍' { Some(Token::Digit(5)) }
    else if c == '六' || c == '陸' || c == '陆' { Some(Token::Digit(6)) }
    else if c == '七' || c == '柒' { Some(Token::Digit(7)) }
    else if c == '八' || c == '捌' { Some(Token::Digit(8)) }
    else if c == '九' || c == '玖' { Some(Token::Digit(9)) }
    else if c == '十' || c == '拾' { Some(Token::Small(1)) }
    else if c == '百' || c == '佰' { Some(Token::Small(2)) }
    else if c == '千' || c == '仟' { Some(Token::Small(3)) }
    else if c == '萬' || c == '万' { Some(Token::Large(0)) }
    else if c == '億' || c == '亿' { Some(Token::Large(1)) }
    else if c == '兆' { Some(Token::Large(2)) }
    else if c == '京' { Some(Token::Large(3)) }
    else if c == '垓' { Some(Token::Large(4)) }
    else if c == '秭' { Some(Token::Large(5)) }
    else if c == '穰' { Some(Token::Large(6)) }
    else if c == '溝' || c == '沟' { Some(Token::Large(7)) }
    else if c == '澗' || c == '涧' { Some(Token::Large(8)) }
    else if c == '正' { Some(Token::Large(9)) }
    else if c == '載' || c == '载' { Some(Token::Large(10)) }
    else if c == '極' || c == '极' { Some(Token::Large(11)) }
    else if c == '負' || c == '负' { Some(Token::Neg) }
    else if c == '角' { Some(Token::Frac(1)) }
    else if c == '分' { Some(Token::Frac(2)) }
    else { None }
}

/// Reading a glyph back yields the token it was written for, whichever
/// styling wrote it.
pub proof fn lemma_classify_glyph(variant: ChineseVariant, case: ChineseNumberCase, t: Token)
    requires
        wf_token(t),
    ensures
        spec_classify(token_glyph(variant, case, t)) == Some(t),
{
}

/// Whatever the classifier recognises is a well-formed token.
pub proof fn lemma_classify_wf(c: char)
    ensures
        match spec_classify(c) {
            Some(t) => wf_token(t),
            None => true,
        },
{
}

/// The glyph sequence of a token sequence in one styling.
pub open spec fn glyph_seq(
    variant: ChineseVariant,
    case: ChineseNumberCase,
    ts: Seq<Token>,
) -> Seq<char> {
    ts.map(|i: int, t: Token| token_glyph(variant, case, t))
}

/// The executable classifier.
pub fn classify_char(c: char) -> (r: Option<Token>)
    ensures
        r == spec_classify(c),
{
    if c == '零' { Some(Token::Zero) }
    else if c == '一' || c == '壹' { Some(Token::Digit(1)) }
    else if c == '二' || c == '貳' || c == '贰' { Some(Token::Digit(2)) }
    else if c == '三' || c == '參' || c == '参' { Some(Token::Digit(3)) }
    else if c == '四' || c == '肆' { Some(Token::Digit(4)) }
    else if c == '五' || c == '伍' { Some(Token::Digit(5)) }
    else if c == '六' || c == '陸' || c == '陆' { Some(Token::Digit(6)) }
    else if c == '七' || c == '柒' { Some(Token::Digit(7)) }
    else if c == '八' || c == '捌' { Some(Token::Digit(8)) }
    else if c == '九' || c == '玖' { Some(Token::Digit(9)) }
    else if c == '十' || c == '拾' { Some(Token::Small(1)) }
    else if c == '百' || c == '佰' { Some(Token::Small(2)) }
    else if c == '千' || c == '仟' { Some(Token::Small(3)) }
    else if c == '萬' || c == '万' { Some(Token::Large(0)) }
    else if c == '億' || c == '亿' { Some(Token::Large(1)) }
    else if c == '兆' { Some(Token::Large(2)) }
    else if c == '京' { Some(Token::Large(3)) }
    else if c == '垓' { Some(Token::Large(4)) }
    else if c == '秭' { Some(Token::Large(5)) }
    else if c == '穰' { Some(Token::Large(6)) }
    else if c == '溝' || c == '沟' { Some(Token::Large(7)) }
    else if c == '澗' || c == '涧' { Some(Token::Large(8)) }
    else if c == '正' { Some(Token::Large(9)) }
    else if c == '載' || c == '载' { Some(Token::Large(10)) }
    else if c == '極' || c == '极' { Some(Token::Large(11)) }
    else if c == '負' || c == '负' { Some(Token::Neg) }
    else if c == '角' { Some(Token::Frac(1)) }
    else if c == '分' { Some(Token::Frac(2)) }
    else { None }
}

/// The executable glyph table.
pub fn char_of_token(variant: ChineseVariant, case: ChineseNumberCase, t: Token) -> (c: char)
    requires
        wf_token(t),
    ensures
        c == token_glyph(variant, case, t),
{
    match t {
        Token::Zero => '零',
        Token::Digit(d) => {
            if matches!(case, ChineseNumberCase::Lower) {
                if d == 1 { '一' }
                else if d == 2 { '二' }
                else if d == 3 { '三' }
                else if d == 4 { '四' }
                else if d == 5 { '五' }
                else if d == 6 { '六' }
                else if d == 7 { '七' }
                else if d == 8 { '八' }
                else { '九' }
            } else if matches!(variant, ChineseVariant::Traditional) {
                if d == 1 { '壹' }
                else if d == 2 { '貳' }
                else if d == 3 { '參' }
                else if d == 4 { '肆' }
                else if d == 5 { '伍' }
                else if d == 6 { '陸' }
                else if d == 7 { '柒' }
                else if d == 8 { '捌' }
                else { '玖' }
            } else {
                if d == 1 { '壹' }
                else if d == 2 { '贰' }
                else if d == 3 { '参' }
                else if d == 4 { '肆' }
                else if d == 5 { '伍' }
                else if d == 6 { '陆' }
                else if d == 7 { '柒' }
                else if d == 8 { '捌' }
                else { '玖' }
            }
        },
        Token::Small(e) => {
            if matches!(case, ChineseNumberCase::Lower) {
                if e == 1 { '十' } else if e == 2 { '百' } else { '千' }
            } else {
                if e == 1 { '拾' } else if e == 2 { '佰' } else { '仟' }
            }
        },
        Token::Large(u) => {
            if matches!(variant, ChineseVariant::Traditional) {
                if u == 0 { '萬' }
                else if u == 1 { '億' }
                else if u == 2 { '兆' }
                else if u == 3 { '京' }
                else if u == 4 { '垓' }
                else if u == 5 { '秭' }
                else if u == 6 { '穰' }
                else if u == 7 { '溝' }
                else if u == 8 { '澗' }
                else if u == 9 { '正' }
                else if u == 10 { '載' }
                else { '極' }
            } else {
                if u == 0 { '万' }
                else if u == 1 { '亿' }
                else if u == 2 { '兆' }
                else if u == 3 { '京' }
                else if u == 4 { '垓' }
                else if u == 5 { '秭' }
                else if u == 6 { '穰' }
                else if u == 7 { '沟' }
                else if u == 8 { '涧' }
                else if u == 9 { '正' }
                else if u == 10 { '载' }
                else { '极' }
            }
        },
        Token::Neg => {
            if matches!(variant, ChineseVariant::Traditional) { '負' } else { '负' }
        },
        Token::Frac(k) => {
            if k == 1 { '角' } else { '分' }
        },
    }
}

} // verus!
