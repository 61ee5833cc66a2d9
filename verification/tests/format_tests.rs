use chinese_number::{
    from_fraction_parts, from_i128, from_i16, from_i32, from_i64, from_i8, from_isize, from_u128,
    from_u16, from_u32, from_u64, from_u8, from_usize, ChineseNumberCase, ChineseNumberCountMethod,
    ChineseVariant,
};

const T: ChineseVariant = ChineseVariant::Traditional;
const S: ChineseVariant = ChineseVariant::Simple;
const UP: ChineseNumberCase = ChineseNumberCase::Upper;
const LO: ChineseNumberCase = ChineseNumberCase::Lower;
const TT: ChineseNumberCountMethod = ChineseNumberCountMethod::TenThousand;

#[test]
fn format_123_formal_traditional() {
    assert_eq!(from_i8(T, UP, 123), "壹佰貳拾參");
}

#[test]
fn format_123_formal_simplified() {
    assert_eq!(from_i8(S, UP, 123), "壹佰贰拾参");
}

#[test]
fn format_123_informal_traditional() {
    assert_eq!(from_i8(T, LO, 123), "一百二十三");
}

#[test]
fn format_fraction_tenths_hundredths() {
    assert_eq!(from_fraction_parts(T, LO, TT, false, 0, 1, 2), "一角二分");
}

#[test]
fn format_negative_with_inner_zeros() {
    assert_eq!(from_i16(T, LO, -30303), "負三萬零三百零三");
}

#[test]
fn format_i128_ten_thousand() {
    assert_eq!(
        from_i128(T, LO, TT, 123456789012345678901234567890i128),
        "十二穰三千四百五十六秭七千八百九十垓一千二百三十四京五千六百七十八兆九千零一十二億三千四百五十六萬七千八百九十"
    );
}

#[test]
fn format_i128_high() {
    assert_eq!(
        from_i128(T, LO, ChineseNumberCountMethod::High, 123456789012345678901234567890i128),
        "十二萬三千四百五十六億七千八百九十萬一千二百三十四兆五千六百七十八萬九千零一十二億三千四百五十六萬七千八百九十"
    );
}

#[test]
fn format_i128_middle() {
    assert_eq!(
        from_i128(T, LO, ChineseNumberCountMethod::Middle, 123456789012345678901234567890i128),
        "十二萬三千四百五十六京七千八百九十萬一千二百三十四兆五千六百七十八萬九千零一十二億三千四百五十六萬七千八百九十"
    );
}

#[test]
fn format_i64_low_simplified() {
    assert_eq!(
        from_i64(S, LO, ChineseNumberCountMethod::Low, 1234567890123456),
        "一极二载三正四涧五沟六穰七秭八垓九京零一亿二万三千四百五十六"
    );
}

#[test]
fn format_zero() {
    assert_eq!(from_u8(T, LO, 0), "零");
    assert_eq!(from_u64(T, UP, TT, 0), "零");
}

#[test]
fn format_teens_elide_lowercase_only() {
    assert_eq!(from_u8(T, LO, 12), "十二");
    assert_eq!(from_u8(T, UP, 12), "壹拾貳");
    assert_eq!(from_u8(T, LO, 10), "十");
    assert_eq!(from_u8(T, LO, 20), "二十");
}

#[test]
fn format_u16_top() {
    assert_eq!(from_u16(T, LO, 65535), "六萬五千五百三十五");
}

#[test]
fn format_group_zero_connectors() {
    assert_eq!(from_u16(T, LO, 1010), "一千零一十");
    assert_eq!(from_u16(T, LO, 1001), "一千零一");
    assert_eq!(from_u16(T, LO, 1100), "一千一百");
    assert_eq!(from_u16(T, LO, 1000), "一千");
}

#[test]
fn format_inter_group_zero() {
    assert_eq!(from_u64(T, LO, TT, 10010001001001001000), "一千零一京零一兆零一十億零一百萬一千");
    assert_eq!(from_u32(T, LO, TT, 100000001), "一億零一");
}

#[test]
fn format_signed_minimums() {
    assert_eq!(from_i8(T, LO, -128), "負一百二十八");
    assert_eq!(from_i16(T, LO, -32768), "負三萬二千七百六十八");
    assert_eq!(
        from_i64(T, LO, TT, i64::MIN),
        "負九百二十二京三千三百七十二兆零三百六十八億五千四百七十七萬五千八百零八"
    );
}

#[test]
fn format_mut_appends() {
    let mut buffer = String::from("數字：");
    chinese_number::from_u32_mut(T, LO, TT, 123, &mut buffer);
    assert_eq!(buffer, "數字：一百二十三");
}

#[test]
fn format_pointer_width_entry_points() {
    assert_eq!(from_usize(T, LO, TT, 42usize), "四十二");
    assert_eq!(from_isize(T, LO, TT, -42isize), "負四十二");
}

#[test]
fn format_fraction_variants() {
    assert_eq!(from_fraction_parts(T, LO, TT, true, 3, 0, 5), "負三五分");
    assert_eq!(from_fraction_parts(T, LO, TT, false, 3, 0, 0), "三");
    assert_eq!(from_fraction_parts(T, LO, TT, false, 0, 0, 0), "零");
    assert_eq!(from_fraction_parts(T, LO, TT, false, 1, 2, 0), "一二角");
}
