use bitflags_serde::codec::{deserialize, serialize, Encoded};
use bitflags_serde::error::DecodeError;
use bitflags_serde::flags::{BitWidth, Flag, FlagTable, Flags};
use bitflags_serde::text::{from_text, to_text};

fn flag(name: &str, bits: u64) -> Flag {
    Flag { name: name.to_string(), bits }
}

fn serde_flags() -> FlagTable {
    FlagTable {
        width: BitWidth::U32,
        flags: vec![flag("A", 1), flag("B", 2), flag("C", 4), flag("D", 8)],
    }
}

fn text(s: &str) -> Encoded {
    Encoded::Text(s.to_string())
}

fn assert_both_ways(table: &FlagTable, v: Flags, human_readable: bool, form: Encoded) {
    assert_eq!(serialize(table, &v, human_readable), form);
    assert_eq!(deserialize(table, &form), Ok(v));
}

#[test]
fn test_serde_bitflags_default() {
    let t = serde_flags();
    assert_both_ways(&t, Flags::empty(), true, text(""));
    assert_both_ways(&t, Flags::empty(), false, Encoded::Number(0));
    let ab = Flags::from_bits_retain(1 | 2);
    assert_both_ways(&t, ab, true, text("A | B"));
    assert_both_ways(&t, ab, false, Encoded::Number(1 | 2));
}

#[test]
fn round_trip_keeps_unknown_bits() {
    let t = serde_flags();
    let v = Flags::from_bits_retain(0x103);
    assert_both_ways(&t, v, true, text("A | B | 0x100"));
    assert_both_ways(&t, v, false, Encoded::Number(0x103));
    let only_unknown = Flags::from_bits_retain(0xf0);
    assert_both_ways(&t, only_unknown, true, text("0xf0"));
    let all = Flags::from_bits_retain(0xffff_ffff);
    assert_both_ways(&t, all, true, text("A | B | C | D | 0xfffffff0"));
    assert_both_ways(&t, all, false, Encoded::Number(0xffff_ffff));
}

#[test]
fn names_follow_declaration_order() {
    let t = serde_flags();
    assert_eq!(serialize(&t, &Flags::from_bits_retain(8 | 1), true), text("A | D"));
    assert_eq!(deserialize(&t, &text("D | A")), Ok(Flags::from_bits_retain(9)));
}

#[test]
fn numeric_unknown_bits_are_retained() {
    let t = serde_flags();
    assert_eq!(deserialize(&t, &Encoded::Number(0x80)), Ok(Flags::from_bits_retain(0x80)));
    assert_eq!(deserialize(&t, &Encoded::Number(0x8001)).map(|f| f.bits()), Ok(0x8001));
    assert_eq!(deserialize(&t, &text("C | 0x80")), Ok(Flags::from_bits_retain(0x84)));
}

#[test]
fn malformed_input_is_rejected() {
    let t = serde_flags();
    assert_eq!(deserialize(&t, &text("A | E")), Err(DecodeError::InvalidNamedFlag));
    assert_eq!(deserialize(&t, &text("a")), Err(DecodeError::InvalidNamedFlag));
    assert_eq!(deserialize(&t, &text("0xzz")), Err(DecodeError::InvalidHexFlag));
    assert_eq!(deserialize(&t, &text("0x")), Err(DecodeError::InvalidHexFlag));
    assert_eq!(deserialize(&t, &text("0x-1")), Err(DecodeError::InvalidHexFlag));
    assert_eq!(deserialize(&t, &text("0x100000000")), Err(DecodeError::InvalidHexFlag));
    assert_eq!(deserialize(&t, &text("A |")), Err(DecodeError::EmptyFlag));
    assert_eq!(deserialize(&t, &text("| A")), Err(DecodeError::EmptyFlag));
    assert_eq!(deserialize(&t, &text("A || B")), Err(DecodeError::EmptyFlag));
    assert_eq!(deserialize(&t, &Encoded::Number(0x1_0000_0000)), Err(DecodeError::OutOfRange));
}

#[test]
fn first_bad_flag_decides_the_error() {
    let t = serde_flags();
    assert_eq!(deserialize(&t, &text("E | ")), Err(DecodeError::InvalidNamedFlag));
    assert_eq!(deserialize(&t, &text(" | E")), Err(DecodeError::EmptyFlag));
}

#[test]
fn whitespace_is_trimmed() {
    let t = serde_flags();
    assert_eq!(deserialize(&t, &text("   ")), Ok(Flags::empty()));
    assert_eq!(deserialize(&t, &text("\t\n")), Ok(Flags::empty()));
    assert_eq!(deserialize(&t, &text("  A|B  ")), Ok(Flags::from_bits_retain(3)));
    assert_eq!(deserialize(&t, &text("C\u{3000}|\u{a0}D")), Ok(Flags::from_bits_retain(12)));
}

#[test]
fn hex_flags_take_either_case_and_a_plus_sign() {
    let t = serde_flags();
    assert_eq!(deserialize(&t, &text("0xFF")), Ok(Flags::from_bits_retain(0xff)));
    assert_eq!(deserialize(&t, &text("0xaB")), Ok(Flags::from_bits_retain(0xab)));
    assert_eq!(deserialize(&t, &text("0x+10")), Ok(Flags::from_bits_retain(0x10)));
    assert_eq!(deserialize(&t, &text("0x0")), Ok(Flags::empty()));
    assert_eq!(deserialize(&t, &text("0x00000001")), Ok(Flags::from_bits_retain(1)));
    assert_eq!(deserialize(&t, &text("0xffffffff")), Ok(Flags::from_bits_retain(0xffff_ffff)));
}

#[test]
fn covering_flags_are_not_named_twice() {
    let singles_first = FlagTable {
        width: BitWidth::U8,
        flags: vec![flag("A", 1), flag("B", 2), flag("AB", 3)],
    };
    assert_eq!(to_text(&singles_first, 3), "A | B");
    let combined_first = FlagTable {
        width: BitWidth::U8,
        flags: vec![flag("AB", 3), flag("A", 1), flag("B", 2)],
    };
    assert_eq!(to_text(&combined_first, 3), "AB");
    assert_eq!(to_text(&combined_first, 1), "A");
    assert_eq!(from_text(&combined_first, "AB"), Ok(3));
}

#[test]
fn partly_set_multi_bit_flags_are_not_named() {
    let t = FlagTable { width: BitWidth::U8, flags: vec![flag("LOW", 0x0f), flag("HIGH", 0xf0)] };
    assert_eq!(to_text(&t, 0x1f), "LOW | 0x10");
    assert_eq!(from_text(&t, "LOW | 0x10"), Ok(0x1f));
}

#[test]
fn unnamed_flags_are_written_as_hex() {
    let t = FlagTable { width: BitWidth::U16, flags: vec![flag("A", 1), flag("", 0x10)] };
    assert_eq!(to_text(&t, 0x11), "A | 0x10");
    assert_eq!(from_text(&t, ""), Ok(0));
}

#[test]
fn widths_bound_numbers() {
    let byte = FlagTable { width: BitWidth::U8, flags: vec![flag("A", 1)] };
    assert_eq!(deserialize(&byte, &Encoded::Number(255)), Ok(Flags::from_bits_retain(255)));
    assert_eq!(deserialize(&byte, &Encoded::Number(256)), Err(DecodeError::OutOfRange));
    assert_eq!(deserialize(&byte, &text("0x100")), Err(DecodeError::InvalidHexFlag));
    let short = FlagTable { width: BitWidth::U16, flags: vec![] };
    assert_eq!(deserialize(&short, &Encoded::Number(0x1_0000)), Err(DecodeError::OutOfRange));
    assert_eq!(deserialize(&short, &text("0xffff")), Ok(Flags::from_bits_retain(0xffff)));
    let wide = FlagTable { width: BitWidth::U64, flags: vec![flag("TOP", 1 << 63)] };
    let max = Flags::from_bits_retain(u64::MAX);
    assert_both_ways(&wide, max, true, text("TOP | 0x7fffffffffffffff"));
    assert_both_ways(&wide, max, false, Encoded::Number(u64::MAX));
    assert_eq!(deserialize(&wide, &text("0x10000000000000000")), Err(DecodeError::InvalidHexFlag));
}

#[test]
fn width_maxima() {
    assert_eq!(BitWidth::U8.max(), 0xff);
    assert_eq!(BitWidth::U16.max(), 0xffff);
    assert_eq!(BitWidth::U32.max(), 0xffff_ffff);
    assert_eq!(BitWidth::U64.max(), u64::MAX);
}
