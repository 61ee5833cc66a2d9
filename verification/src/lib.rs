//! Convert primitive integers to Chinese numerals and parse Chinese numerals
//! back to integers, in both script variants (Traditional and Simplified),
//! both orthographic cases (the everyday lowercase digits and the formal
//! banker's uppercase digits), and under the four counting conventions that
//! assign magnitudes to the large units 萬, 億, 兆, ….

pub mod canon;
pub mod format;
pub mod laws;
pub mod model;
pub mod parse;
pub mod tables;
mod types;

pub use format::from_fraction_parts;
pub use format::from_fraction_parts_mut;
pub use format::from_i128;
pub use format::from_i128_mut;
pub use format::from_i16;
pub use format::from_i16_mut;
pub use format::from_i32;
pub use format::from_i32_mut;
pub use format::from_i64;
pub use format::from_i64_mut;
pub use format::from_i8;
pub use format::from_i8_mut;
pub use format::from_isize;
pub use format::from_isize_mut;
pub use format::from_u128;
pub use format::from_u128_mut;
pub use format::from_u16;
pub use format::from_u16_mut;
pub use format::from_u32;
pub use format::from_u32_mut;
pub use format::from_u64;
pub use format::from_u64_mut;
pub use format::from_u8;
pub use format::from_u8_mut;
pub use format::from_usize;
pub use format::from_usize_mut;
pub use parse::parse_chinese_number_to_fraction_parts;
pub use parse::parse_chinese_number_to_i128;
pub use parse::parse_chinese_number_to_i16;
pub use parse::parse_chinese_number_to_i32;
pub use parse::parse_chinese_number_to_i64;
pub use parse::parse_chinese_number_to_i8;
pub use parse::parse_chinese_number_to_isize;
pub use parse::parse_chinese_number_to_u128;
pub use parse::parse_chinese_number_to_u16;
pub use parse::parse_chinese_number_to_u32;
pub use parse::parse_chinese_number_to_u64;
pub use parse::parse_chinese_number_to_u8;
pub use parse::parse_chinese_number_to_usize;
pub use parse::ChineseNumberFractionParts;
pub use parse::ChineseNumberToNumber;
pub use types::ChineseNumberCase;
pub use types::ChineseNumberCountMethod;
pub use types::ChineseNumberParseError;
pub use types::ChineseVariant;
