//! Bit-vector and address arithmetic, parsing and formatting.

use delirium::address::{Addr, AddrConvertError, AddrParseError};
use delirium::bv::{BitVec, ParseError};

#[test]
fn bitvec_add_promotes_width() {
    let a = BitVec::new(0xff, 8, false);
    let b = BitVec::new(0x1, 16, false);
    let r = a.add(&b);
    assert_eq!(r.bits(), 16);
    assert_eq!(r.value_u128(), 0x100);
}

#[test]
fn bitvec_add_wraps_at_width() {
    let a = BitVec::new(0xff, 8, false);
    let b = BitVec::new(0x1, 8, false);
    let r = a.add(&b);
    assert_eq!(r.bits(), 8);
    assert_eq!(r.value_u128(), 0x00);
}

#[test]
fn bitvec_sub_wraps_at_width() {
    let a = BitVec::new(0x0, 8, false);
    let b = BitVec::new(0x1, 8, false);
    let r = a.sub(&b);
    assert_eq!(r.bits(), 8);
    assert_eq!(r.value_u128(), 0xff);
}

#[test]
fn bitvec_mul_promotes_and_wraps() {
    let a = BitVec::new(0x80, 8, false);
    let b = BitVec::new(0x2, 8, false);
    let r = a.mul(&b);
    assert_eq!(r.bits(), 8);
    assert_eq!(r.value_u128(), 0x00);
    let c = BitVec::new(0x2, 16, false);
    let r2 = a.mul(&c);
    assert_eq!(r2.bits(), 16);
    assert_eq!(r2.value_u128(), 0x100);
}

#[test]
fn bitvec_div_rem_fail_on_zero_divisor() {
    let a = BitVec::new(0x10, 8, false);
    let z = BitVec::new(0, 16, false);
    assert!(a.div(&z).is_none());
    assert!(a.rem(&z).is_none());
    let b = BitVec::new(0x3, 16, false);
    let q = a.div(&b).unwrap();
    assert_eq!(q.bits(), 16);
    assert_eq!(q.value_u128(), 0x5);
    let m = a.rem(&b).unwrap();
    assert_eq!(m.bits(), 16);
    assert_eq!(m.value_u128(), 0x1);
}

#[test]
fn bitvec_parse_widths() {
    let v = BitVec::parse("ff").unwrap();
    assert_eq!(v.bits(), 8);
    assert_eq!(v.value_u128(), 0xff);
    assert!(!v.is_signed());
    let v = BitVec::parse("0x00ff").unwrap();
    assert_eq!(v.bits(), 16);
    assert_eq!(v.value_u128(), 0xff);
    let v = BitVec::parse("0b101").unwrap();
    assert_eq!(v.bits(), 3);
    assert_eq!(v.value_u128(), 5);
    let v = BitVec::parse("0o17").unwrap();
    assert_eq!(v.bits(), 6);
    assert_eq!(v.value_u128(), 15);
    let v = BitVec::parse("-1").unwrap();
    assert!(v.is_signed());
    assert_eq!(v.bits(), 4);
    let v = BitVec::parse("").unwrap();
    assert_eq!(v.bits(), 0);
}

#[test]
fn bitvec_parse_rejects() {
    assert_eq!(BitVec::parse("zz"), Err(ParseError::InvalidDigit));
    let wide = "123456789012345678901234567890123";
    assert_eq!(wide.len(), 33);
    assert_eq!(BitVec::parse(wide), Err(ParseError::TooWide));
}

#[test]
fn addr_width_promotion_scenario() {
    let a = Addr::from_u8(0xff);
    let b = Addr::from_u16(0x1);
    let r = a.add(&b);
    assert_eq!(r.bits(), 16);
    assert_eq!(r.value_u128(), 0x100);
    assert_eq!(r, Addr::from_u16(0x100));
}

#[test]
fn addr_equality_promotes_width() {
    assert_eq!(Addr::from_u8(0xf), Addr::from_u32(0xf));
    assert!(Addr::from_u8(0xff) < Addr::from_u16(0x100));
}

#[test]
fn addr_parse_errors_scenario() {
    assert_eq!(Addr::parse_str("-1"), Err(AddrParseError::Sign));
    assert_eq!(Addr::parse_str(""), Err(AddrParseError::ZeroSize));
}

#[test]
fn addr_parse_ok() {
    let a = Addr::parse_str("1000").unwrap();
    assert_eq!(a.bits(), 16);
    assert_eq!(a.value_u128(), 0x1000);
    let b = Addr::parse_str("0x1000").unwrap();
    assert_eq!(a, b);
}

#[test]
fn addr_from_str_radix() {
    assert_eq!(Addr::from_str_radix("ff", 10), Err(AddrParseError::Radix(10)));
    let a = Addr::from_str_radix("777", 8).unwrap();
    assert_eq!(a.value_u128(), 0o777);
    assert_eq!(a.bits(), 9);
    assert_eq!(
        Addr::from_str_radix("2", 2),
        Err(AddrParseError::Parse(ParseError::InvalidDigit))
    );
}

#[test]
fn addr_hex_roundtrip() {
    let a = Addr::from_u32(0xdeadbeef);
    let s = a.format_hex();
    assert_eq!(s.as_str(), "deadbeef");
    let back = Addr::parse_str(s.as_str()).unwrap();
    assert_eq!(back, a);

    let z = Addr::from_u64(0);
    assert_eq!(z.format_hex().as_str(), "0");
    assert_eq!(Addr::parse_str("0").unwrap(), z);

    let odd = Addr::from_u16(0x00f0);
    let s = odd.format_hex();
    assert_eq!(s.as_str(), "f0");
    assert_eq!(Addr::parse_str(s.as_str()).unwrap(), odd);
}

#[test]
fn addr_bits_and_difference() {
    let a = Addr::from_u32(0x1234);
    assert_eq!(a.as_bits(16).bits(), 16);
    assert_eq!(a.as_bits(16).value_u128(), 0x1234);
    assert_eq!(a.as_bits(8).value_u128(), 0x34);
    assert_eq!(a.into_bits(64).bits(), 64);

    let b = Addr::from_u32(0x1230);
    assert_eq!(a.absolute_difference(&b), Some(4));
    assert_eq!(b.absolute_difference(&a), Some(4));
}

#[test]
fn addr_to_u64_bounds() {
    let a = Addr::from_u128(u64::MAX as u128 + 1);
    assert_eq!(a.to_u64(), Err(AddrConvertError::TooWide));
    let b = Addr::from_u64(42);
    assert_eq!(b.to_u64(), Ok(42));
}

#[test]
fn addr_mul_usize_multiplies() {
    let a = Addr::from_u16(0x10);
    let r = a.mul_usize(3);
    assert_eq!(r.value_u128(), 0x30);
    assert_eq!(r.bits(), 16);
}
