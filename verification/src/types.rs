//! The enumerations that select a rendering and the error type of the parser.

use vstd::prelude::*;

verus! {

/// The script variant: Traditional Chinese glyphs or Simplified Chinese glyphs.
#[derive(Debug, Clone, Copy, PartialEq, Eq, Structural)]
pub enum ChineseVariant {
    Traditional,
    Simple,
}

/// The orthographic case: `Upper` is the formal legal/financial style
/// (壹貳參…), `Lower` the everyday style (一二三…).
#[derive(Debug, Clone, Copy, PartialEq, Eq, Structural)]
pub enum ChineseNumberCase {
    Upper,
    Lower,
}

/// The counting convention, which fixes the magnitude of each large unit
/// glyph (萬, 億, 兆, …).
///
/// * `Low` (下數): each successive unit is ten times the previous one, so
///   萬 = 10^4, 億 = 10^5, …, 極 = 10^15. Only values below 10^16 can be
///   written.
/// * `TenThousand` (萬進): each successive unit is 10^4 times the previous
///   one, so 億 = 10^8, 兆 = 10^12, ….
/// * `Middle` (中數): 萬 = 10^4, and from 億 = 10^8 on each successive unit
///   is 10^8 times the previous one, so 兆 = 10^16, 京 = 10^24, ….
/// * `High` (上數): each successive unit is the square of the previous one,
///   so 億 = 10^8, 兆 = 10^16, 京 = 10^32, ….
#[derive(Debug, Clone, Copy, PartialEq, Eq, Structural)]
pub enum ChineseNumberCountMethod {
    Low,
    TenThousand,
    Middle,
    High,
}

/// Why a Chinese numeral string failed to parse.
#[derive(Debug, Clone, Copy, PartialEq, Eq, Structural)]
pub enum ChineseNumberParseError {
    /// The input had no characters left after spaces were removed.
    ChineseNumberEmpty,
    /// The character at `char_index` (counted in characters of the
    /// space-stripped input, the negative sign included) is not recognised
    /// or stands out of order.
    ChineseNumberIncorrect { char_index: usize },
    /// The value exceeds the maximum of the requested integer type.
    Overflow,
    /// The negated magnitude falls below the minimum of the requested
    /// signed integer type.
    Underflow,
}

} // verus!
