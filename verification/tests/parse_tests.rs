use chinese_number::{
    parse_chinese_number_to_fraction_parts, parse_chinese_number_to_i128,
    parse_chinese_number_to_i16, parse_chinese_number_to_i64, parse_chinese_number_to_i8,
    parse_chinese_number_to_isize, parse_chinese_number_to_u128, parse_chinese_number_to_u16,
    parse_chinese_number_to_u32, parse_chinese_number_to_u64, parse_chinese_number_to_u8,
    parse_chinese_number_to_usize, ChineseNumberCountMethod, ChineseNumberFractionParts,
    ChineseNumberParseError,
};

const LOW: ChineseNumberCountMethod = ChineseNumberCountMethod::Low;
const TT: ChineseNumberCountMethod = ChineseNumberCountMethod::TenThousand;
const MID: ChineseNumberCountMethod = ChineseNumberCountMethod::Middle;
const HIGH: ChineseNumberCountMethod = ChineseNumberCountMethod::High;

#[test]
fn parse_123_to_i8() {
    assert_eq!(parse_chinese_number_to_i8("一百二十三"), Ok(123));
    assert_eq!(parse_chinese_number_to_i8("壹佰貳拾參"), Ok(123));
    assert_eq!(parse_chinese_number_to_i8("壹佰贰拾参"), Ok(123));
}

#[test]
fn parse_negative_with_inner_zeros() {
    assert_eq!(parse_chinese_number_to_i16("負三萬零三百零三"), Ok(-30303));
}

#[test]
fn parse_u32_cascade() {
    assert_eq!(parse_chinese_number_to_u32(TT, "三十二億一千二百三十四萬五千六百七十八"), Ok(3212345678));
}

#[test]
fn parse_convention_confusion() {
    assert_eq!(parse_chinese_number_to_u64(LOW, "一兆"), Ok(1000000));
    assert_eq!(parse_chinese_number_to_u64(TT, "一兆"), Ok(1000000000000));
    assert_eq!(parse_chinese_number_to_u64(MID, "一兆"), Ok(10000000000000000));
    assert_eq!(parse_chinese_number_to_u64(HIGH, "一兆"), Ok(10000000000000000));
}

#[test]
fn parse_u64_with_skipped_groups() {
    assert_eq!(parse_chinese_number_to_u64(TT, "一千零一京零一兆零一十億零一百萬一千"), Ok(10010001001001001000));
}

#[test]
fn parse_mixed_styles() {
    // the reader accepts glyphs of any styling in one numeral
    assert_eq!(parse_chinese_number_to_u32(TT, "壹万二千三百肆十五"), Ok(12345));
}

#[test]
fn parse_spaces_are_stripped() {
    assert_eq!(parse_chinese_number_to_u16(" 一百 二十三 "), Ok(123));
}

#[test]
fn parse_zero() {
    assert_eq!(parse_chinese_number_to_u8("零"), Ok(0));
    assert_eq!(parse_chinese_number_to_i64(TT, "負零"), Ok(0));
}

#[test]
fn parse_teens_with_and_without_leading_one() {
    assert_eq!(parse_chinese_number_to_u8("十二"), Ok(12));
    assert_eq!(parse_chinese_number_to_u8("一十二"), Ok(12));
    assert_eq!(parse_chinese_number_to_u8("十"), Ok(10));
}

#[test]
fn parse_empty_input() {
    assert_eq!(
        parse_chinese_number_to_u8(""),
        Err(ChineseNumberParseError::ChineseNumberEmpty)
    );
    assert_eq!(
        parse_chinese_number_to_i64(TT, "   "),
        Err(ChineseNumberParseError::ChineseNumberEmpty)
    );
}

#[test]
fn parse_unknown_character() {
    assert_eq!(
        parse_chinese_number_to_u8("abc"),
        Err(ChineseNumberParseError::ChineseNumberIncorrect { char_index: 0 })
    );
    assert_eq!(
        parse_chinese_number_to_u16("一百x"),
        Err(ChineseNumberParseError::ChineseNumberIncorrect { char_index: 2 })
    );
}

#[test]
fn parse_misordered_units() {
    // 百 may not follow 十 inside one group
    assert_eq!(
        parse_chinese_number_to_u32(TT, "二十三百"),
        Err(ChineseNumberParseError::ChineseNumberIncorrect { char_index: 3 })
    );
    // a large unit may not repeat
    assert_eq!(
        parse_chinese_number_to_u64(TT, "一萬二萬"),
        Err(ChineseNumberParseError::ChineseNumberIncorrect { char_index: 3 })
    );
    // large units must descend under Low and TenThousand
    assert_eq!(
        parse_chinese_number_to_u64(TT, "一萬一億"),
        Err(ChineseNumberParseError::ChineseNumberIncorrect { char_index: 3 })
    );
}

#[test]
fn parse_bare_unit_and_sign() {
    assert_eq!(
        parse_chinese_number_to_u64(TT, "萬"),
        Err(ChineseNumberParseError::ChineseNumberIncorrect { char_index: 0 })
    );
    assert_eq!(
        parse_chinese_number_to_i64(TT, "負"),
        Err(ChineseNumberParseError::ChineseNumberIncorrect { char_index: 1 })
    );
    // the sign is rejected where an unsigned value is asked for
    assert_eq!(
        parse_chinese_number_to_u64(TT, "負一"),
        Err(ChineseNumberParseError::ChineseNumberIncorrect { char_index: 0 })
    );
}

#[test]
fn parse_two_adjacent_digits() {
    assert_eq!(
        parse_chinese_number_to_u8("一二"),
        Err(ChineseNumberParseError::ChineseNumberIncorrect { char_index: 1 })
    );
}

#[test]
fn parse_overflow_by_one() {
    assert_eq!(parse_chinese_number_to_u8("二百五十五"), Ok(255));
    assert_eq!(
        parse_chinese_number_to_u8("二百五十六"),
        Err(ChineseNumberParseError::Overflow)
    );
    assert_eq!(parse_chinese_number_to_i8("一百二十七"), Ok(127));
    assert_eq!(
        parse_chinese_number_to_i8("一百二十八"),
        Err(ChineseNumberParseError::Overflow)
    );
    assert_eq!(parse_chinese_number_to_i8("負一百二十八"), Ok(-128));
    assert_eq!(
        parse_chinese_number_to_i8("負一百二十九"),
        Err(ChineseNumberParseError::Underflow)
    );
}

#[test]
fn parse_signed_minimums() {
    assert_eq!(
        parse_chinese_number_to_i64(TT, "負九百二十二京三千三百七十二兆零三百六十八億五千四百七十七萬五千八百零八"),
        Ok(i64::MIN)
    );
    assert_eq!(
        parse_chinese_number_to_i16("負三萬二千七百六十八"),
        Ok(i16::MIN)
    );
}

#[test]
fn parse_u128_and_i128() {
    assert_eq!(
        parse_chinese_number_to_u128(TT, "十二穰三千四百五十六秭七千八百九十垓一千二百三十四京五千六百七十八兆九千零一十二億三千四百五十六萬七千八百九十"),
        Ok(123456789012345678901234567890u128)
    );
    assert_eq!(
        parse_chinese_number_to_i128(HIGH, "負十二萬三千四百五十六億七千八百九十萬一千二百三十四兆五千六百七十八萬九千零一十二億三千四百五十六萬七千八百九十"),
        Ok(-123456789012345678901234567890i128)
    );
}

#[test]
fn parse_low_simplified() {
    assert_eq!(
        parse_chinese_number_to_u64(LOW, "一极二载三正四涧五沟六穰七秭八垓九京零一亿二万三千四百五十六"),
        Ok(1234567890123456)
    );
}

#[test]
fn parse_low_rejects_multi_digit_multiplier() {
    // under Low every unit takes a single digit
    assert_eq!(
        parse_chinese_number_to_u64(LOW, "十二萬"),
        Err(ChineseNumberParseError::ChineseNumberIncorrect { char_index: 2 })
    );
}

#[test]
fn parse_pointer_width_entry_points() {
    assert_eq!(parse_chinese_number_to_usize(TT, "四十二"), Ok(42usize));
    assert_eq!(parse_chinese_number_to_isize(TT, "負四十二"), Ok(-42isize));
}

#[test]
fn parse_fraction_parts() {
    assert_eq!(
        parse_chinese_number_to_fraction_parts(TT, "一角二分"),
        Ok(ChineseNumberFractionParts { negative: false, integer: 0, tenths: 1, hundredths: 2 })
    );
    assert_eq!(
        parse_chinese_number_to_fraction_parts(TT, "負三萬零三百零三"),
        Ok(ChineseNumberFractionParts {
            negative: true,
            integer: 30303,
            tenths: 0,
            hundredths: 0,
        })
    );
    assert_eq!(
        parse_chinese_number_to_fraction_parts(TT, "一百二十三角"),
        Ok(ChineseNumberFractionParts {
            negative: false,
            integer: 120,
            tenths: 3,
            hundredths: 0,
        })
    );
    assert_eq!(
        parse_chinese_number_to_fraction_parts(TT, "五分"),
        Ok(ChineseNumberFractionParts { negative: false, integer: 0, tenths: 0, hundredths: 5 })
    );
    assert_eq!(
        parse_chinese_number_to_fraction_parts(TT, "角"),
        Err(ChineseNumberParseError::ChineseNumberIncorrect { char_index: 0 })
    );
    assert_eq!(
        parse_chinese_number_to_fraction_parts(TT, "一角二"),
        Err(ChineseNumberParseError::ChineseNumberIncorrect { char_index: 3 })
    );
}

#[test]
fn parse_u16_method_free_entry_points() {
    assert_eq!(parse_chinese_number_to_u16("六萬五千五百三十五"), Ok(65535));
    assert_eq!(
        parse_chinese_number_to_u16("六萬五千五百三十六"),
        Err(ChineseNumberParseError::Overflow)
    );
}

#[test]
fn parse_middle_nested_multiplier() {
    // under Middle the multiplier of 垓 may itself contain 萬
    assert_eq!(
        parse_chinese_number_to_u128(MID, "一萬垓"),
        Ok(10u128.pow(36))
    );
}

#[test]
fn parse_high_beyond_u64() {
    assert_eq!(parse_chinese_number_to_u64(HIGH, "一京"), Err(ChineseNumberParseError::Overflow));
    assert_eq!(parse_chinese_number_to_u128(HIGH, "一京"), Ok(10u128.pow(32)));
}
