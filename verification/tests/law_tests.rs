use chinese_number::{
    from_i128, from_i64, from_u128, from_u64, parse_chinese_number_to_i128,
    parse_chinese_number_to_i64, parse_chinese_number_to_u128, parse_chinese_number_to_u64,
    ChineseNumberCase, ChineseNumberCountMethod, ChineseNumberToNumber, ChineseVariant,
};

const VARIANTS: [ChineseVariant; 2] = [ChineseVariant::Traditional, ChineseVariant::Simple];
const CASES: [ChineseNumberCase; 2] = [ChineseNumberCase::Upper, ChineseNumberCase::Lower];
const METHODS: [ChineseNumberCountMethod; 4] = [
    ChineseNumberCountMethod::Low,
    ChineseNumberCountMethod::TenThousand,
    ChineseNumberCountMethod::Middle,
    ChineseNumberCountMethod::High,
];

const SAMPLES_U64: [u64; 14] = [
    0,
    1,
    10,
    12,
    20,
    105,
    1010,
    9999,
    10000,
    65535,
    100000001,
    3212345678,
    1234567890123456,
    9999999999999999,
];

#[test]
fn round_trip_u64_all_stylings_and_methods() {
    for &v in SAMPLES_U64.iter() {
        for &m in METHODS.iter() {
            for &variant in VARIANTS.iter() {
                for &case in CASES.iter() {
                    let s = from_u64(variant, case, m, v);
                    assert_eq!(parse_chinese_number_to_u64(m, &s), Ok(v), "{} via {:?}", s, m);
                }
            }
        }
    }
}

#[test]
fn round_trip_u64_large_values() {
    // beyond the Low ladder: the other three methods only
    for &v in [10000000000000000u64, 10010001001001001000, u64::MAX].iter() {
        for &m in METHODS[1..].iter() {
            for &variant in VARIANTS.iter() {
                for &case in CASES.iter() {
                    let s = from_u64(variant, case, m, v);
                    assert_eq!(parse_chinese_number_to_u64(m, &s), Ok(v), "{} via {:?}", s, m);
                }
            }
        }
    }
}

#[test]
fn round_trip_i64_signed() {
    for &v in [-1i64, -12, -30303, -9999999999999999, i64::MIN, i64::MAX].iter() {
        for &m in METHODS[1..].iter() {
            for &variant in VARIANTS.iter() {
                for &case in CASES.iter() {
                    let s = from_i64(variant, case, m, v);
                    assert_eq!(parse_chinese_number_to_i64(m, &s), Ok(v), "{} via {:?}", s, m);
                }
            }
        }
    }
}

#[test]
fn round_trip_128_bit_extremes() {
    for &m in METHODS[1..].iter() {
        let s = from_u128(ChineseVariant::Traditional, ChineseNumberCase::Lower, m, u128::MAX);
        assert_eq!(parse_chinese_number_to_u128(m, &s), Ok(u128::MAX), "{} via {:?}", s, m);
        let s = from_i128(ChineseVariant::Simple, ChineseNumberCase::Upper, m, i128::MIN);
        assert_eq!(parse_chinese_number_to_i128(m, &s), Ok(i128::MIN), "{} via {:?}", s, m);
    }
}

#[test]
fn parse_is_variant_independent() {
    for &v in SAMPLES_U64.iter() {
        for &m in METHODS.iter() {
            for &case in CASES.iter() {
                let t = from_u64(ChineseVariant::Traditional, case, m, v);
                let s = from_u64(ChineseVariant::Simple, case, m, v);
                assert_eq!(
                    parse_chinese_number_to_u64(m, &t),
                    parse_chinese_number_to_u64(m, &s)
                );
            }
        }
    }
}

#[test]
fn parse_is_case_independent() {
    for &v in SAMPLES_U64.iter() {
        for &m in METHODS.iter() {
            for &variant in VARIANTS.iter() {
                let upper = from_u64(variant, ChineseNumberCase::Upper, m, v);
                let lower = from_u64(variant, ChineseNumberCase::Lower, m, v);
                assert_eq!(
                    parse_chinese_number_to_u64(m, &upper),
                    parse_chinese_number_to_u64(m, &lower)
                );
            }
        }
    }
}

#[test]
fn format_never_doubles_or_trails_the_zero_connector() {
    for &v in SAMPLES_U64.iter() {
        for &m in METHODS.iter() {
            for &variant in VARIANTS.iter() {
                for &case in CASES.iter() {
                    let s = from_u64(variant, case, m, v);
                    assert!(!s.contains("零零"), "{}", s);
                    if v > 0 {
                        assert!(!s.ends_with('零'), "{}", s);
                    }
                }
            }
        }
    }
}

#[test]
fn accepted_numerals_read_units_downwards() {
    // a strictly descending cascade parses; the parse tests hold the
    // converse, that an ascent or a repeat is rejected
    assert_eq!(
        parse_chinese_number_to_u64(
            ChineseNumberCountMethod::TenThousand,
            "一京二兆三億四萬五"
        ),
        Ok(10002000300040005)
    );
}

#[test]
fn parse_through_string_trait() {
    assert_eq!(
        "三十二億一千二百三十四萬五千六百七十八"
            .parse_chinese_number(ChineseNumberCountMethod::TenThousand),
        Ok(3212345678u64)
    );
    assert_eq!(
        "負一百二十三".parse_chinese_number(ChineseNumberCountMethod::TenThousand),
        Ok(-123i64)
    );
}
