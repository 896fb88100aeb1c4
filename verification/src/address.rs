//! Addresses: unsigned bit-vectors of positive width.
//!
//! Every operation on two addresses first zero-extends the narrower one to
//! the wider width and computes there, so addresses of different widths
//! compare and combine by value.

use vstd::prelude::*;
use vstd::arithmetic::power2::*;
use vstd::arithmetic::div_mod::*;

use crate::bv::{BitVec, ParseError, MAX_WIDTH};
use crate::bv;

verus! {

/// An address: a bit-vector with positive width and the signedness flag
/// forced off.
#[derive(Clone, Copy, Debug, Hash)]
pub struct Addr {
    bv: BitVec,
}

/// Errors from parsing a textual address.
#[derive(Clone, Copy, Debug, PartialEq, Eq, Structural)]
pub enum AddrParseError {
    /// The underlying bit-vector literal is malformed.
    Parse(ParseError),
    /// The requested radix is not supported.
    Radix(u32),
    /// The literal is signed; addresses cannot be negative.
    Sign,
    /// The literal is zero-sized; addresses have positive width.
    ZeroSize,
}

/// Error from converting an address to a fixed-width machine integer.
#[derive(Clone, Copy, Debug, PartialEq, Eq, Structural)]
pub enum AddrConvertError {
    /// The address value does not fit the target width.
    TooWide,
}

impl Addr {
    /// The numeric value.
    pub closed spec fn value(&self) -> int {
        self.bv.v()
    }

    /// The bit-width.
    pub closed spec fn width(&self) -> int {
        self.bv.w()
    }

    /// Addresses are unsigned, of positive width, and their value fits
    /// the width.
    #[verifier::type_invariant]
    pub closed spec fn wf(&self) -> bool {
        self.bv.w() > 0 && !self.bv.sgn()
    }

    /// The validity of an address, stated over its public view.
    pub open spec fn valid(&self) -> bool {
        0 < self.width() <= MAX_WIDTH && 0 <= self.value() < pow2(self.width() as nat)
    }

    /// Every `Addr` held by executable code has an unsigned-representable
    /// bit pattern and positive width; this exposes that invariant.
    pub fn check(&self)
        ensures
            self.valid(),
    {
        self.bv.check();
        proof {
            use_type_invariant(self);
        }
    }

    /// Wrap a bit-vector as an address, forcing it unsigned.
    pub fn from_bitvec(bv: BitVec) -> (r: Addr)
        requires
            bv.w() > 0,
        ensures
            r.value() == bv.v(),
            r.width() == bv.w(),
    {
        Addr { bv: bv.unsigned() }
    }

    /// The underlying bit-vector.
    pub fn as_bitvec(&self) -> (r: BitVec)
        ensures
            r.v() == self.value(),
            r.w() == self.width(),
            r.sgn() == false,
    {
        proof {
            use_type_invariant(self);
        }
        self.bv
    }

    /// The bit-width.
    pub fn bits(&self) -> (r: u32)
        ensures
            r == self.width(),
            r > 0,
    {
        proof {
            use_type_invariant(self);
        }
        self.bv.bits()
    }

    /// The value as a `u128`.
    pub fn value_u128(&self) -> (r: u128)
        ensures
            r == self.value(),
    {
        self.bv.value_u128()
    }

    /// Zero-extend or truncate to the given width, keeping the original.
    pub fn as_bits(&self, bits: u32) -> (r: Addr)
        requires
            1 <= bits <= MAX_WIDTH,
        ensures
            r.width() == bits,
            r.value() == self.value() % pow2(bits as nat) as int,
            self.width() <= bits ==> r.value() == self.value(),
    {
        Addr { bv: self.bv.unsigned_cast(bits) }
    }

    /// Zero-extend or truncate to the given width, consuming the original.
    pub fn into_bits(self, bits: u32) -> (r: Addr)
        requires
            1 <= bits <= MAX_WIDTH,
        ensures
            r.width() == bits,
            r.value() == self.value() % pow2(bits as nat) as int,
            self.width() <= bits ==> r.value() == self.value(),
    {
        Addr { bv: self.bv.unsigned_cast(bits) }
    }

    /// The width both operands are brought to: the larger of the two.
    pub open spec fn join_width(&self, rhs: &Addr) -> int {
        if self.width() >= rhs.width() {
            self.width()
        } else {
            rhs.width()
        }
    }

    /// Sum, wrapping modulo `2^w` at the joined width `w`.
    pub fn add(&self, rhs: &Addr) -> (r: Addr)
        ensures
            r.width() == self.join_width(rhs),
            r.value() == (self.value() + rhs.value()) % pow2(r.width() as nat) as int,
    {
        proof {
            use_type_invariant(self);
            use_type_invariant(rhs);
        }
        Addr { bv: self.bv.add(&rhs.bv) }
    }

    /// Difference, wrapping modulo `2^w` at the joined width `w`.
    pub fn sub(&self, rhs: &Addr) -> (r: Addr)
        ensures
            r.width() == self.join_width(rhs),
            r.value() == (self.value() - rhs.value()) % pow2(r.width() as nat) as int,
    {
        proof {
            use_type_invariant(self);
            use_type_invariant(rhs);
        }
        Addr { bv: self.bv.sub(&rhs.bv) }
    }

    /// Product, wrapping modulo `2^w` at the joined width `w`.
    pub fn mul(&self, rhs: &Addr) -> (r: Addr)
        ensures
            r.width() == self.join_width(rhs),
            r.value() == (self.value() * rhs.value()) % pow2(r.width() as nat) as int,
    {
        proof {
            use_type_invariant(self);
            use_type_invariant(rhs);
        }
        Addr { bv: self.bv.mul(&rhs.bv) }
    }

    /// Quotient at the joined width. Division by zero fails with `None`.
    pub fn div(&self, rhs: &Addr) -> (r: Option<Addr>)
        ensures
            r is Some <==> rhs.value() != 0,
            r matches Some(q) ==> {
                &&& q.width() == self.join_width(rhs)
                &&& q.value() == self.value() / rhs.value()
            },
    {
        proof {
            use_type_invariant(self);
            use_type_invariant(rhs);
        }
        match self.bv.div(&rhs.bv) {
            Some(q) => Some(Addr { bv: q }),
            None => None,
        }
    }

    /// Remainder at the joined width. A zero divisor fails with `None`.
    pub fn rem(&self, rhs: &Addr) -> (r: Option<Addr>)
        ensures
            r is Some <==> rhs.value() != 0,
            r matches Some(m) ==> {
                &&& m.width() == self.join_width(rhs)
                &&& m.value() == self.value() % rhs.value()
            },
    {
        proof {
            use_type_invariant(self);
            use_type_invariant(rhs);
        }
        match self.bv.rem(&rhs.bv) {
            Some(m) => Some(Addr { bv: m }),
            None => None,
        }
    }

    /// Add a host-sized offset, truncated to this address's width first,
    /// wrapping modulo `2^w`.
    pub fn add_usize(&self, rhs: usize) -> (r: Addr)
        ensures
            r.width() == self.width(),
            r.value() == (self.value() + rhs) % pow2(self.width() as nat) as int,
    {
        proof {
            use_type_invariant(self);
            use_type_invariant(&self.bv);
        }
        let w = self.bv.bits();
        let rhs_bv = BitVec::new_truncated(rhs as u128, w, false);
        let r = self.bv.add(&rhs_bv);
        proof {
            lemma_pow2_pos(w as nat);
            lemma_add_mod_noop_right(self.value(), rhs as int, pow2(w as nat) as int);
        }
        Addr { bv: r }
    }

    /// Subtract a host-sized offset, truncated to this address's width
    /// first, wrapping modulo `2^w`.
    pub fn sub_usize(&self, rhs: usize) -> (r: Addr)
        ensures
            r.width() == self.width(),
            r.value() == (self.value() - rhs) % pow2(self.width() as nat) as int,
    {
        proof {
            use_type_invariant(self);
            use_type_invariant(&self.bv);
        }
        let w = self.bv.bits();
        let rhs_bv = BitVec::new_truncated(rhs as u128, w, false);
        let r = self.bv.sub(&rhs_bv);
        proof {
            lemma_pow2_pos(w as nat);
            lemma_sub_mod_noop_right(self.value(), rhs as int, pow2(w as nat) as int);
        }
        Addr { bv: r }
    }

    /// Multiply by a host-sized factor, truncated to this address's width
    /// first, wrapping modulo `2^w`.
    pub fn mul_usize(&self, rhs: usize) -> (r: Addr)
        ensures
            r.width() == self.width(),
            r.value() == (self.value() * rhs) % pow2(self.width() as nat) as int,
    {
        proof {
            use_type_invariant(self);
            use_type_invariant(&self.bv);
        }
        let w = self.bv.bits();
        let rhs_bv = BitVec::new_truncated(rhs as u128, w, false);
        let r = self.bv.mul(&rhs_bv);
        proof {
            lemma_pow2_pos(w as nat);
            lemma_mul_mod_noop_right(self.value(), rhs as int, pow2(w as nat) as int);
        }
        Addr { bv: r }
    }

    /// The absolute difference as a host-sized integer, or `None` when it
    /// does not fit.
    pub fn absolute_difference(&self, other: &Addr) -> (r: Option<usize>)
        ensures
            ({
                let d = if self.value() >= other.value() {
                    self.value() - other.value()
                } else {
                    other.value() - self.value()
                };
                &&& (r is Some <==> d <= usize::MAX)
                &&& (r matches Some(v) ==> v == d)
            }),
    {
        let a = self.bv.value_u128();
        let b = other.bv.value_u128();
        let d = if a >= b {
            a - b
        } else {
            b - a
        };
        if d <= usize::MAX as u128 {
            Some(d as usize)
        } else {
            None
        }
    }

    /// The value as a `u64`, or an error when the value does not fit.
    pub fn to_u64(&self) -> (r: Result<u64, AddrConvertError>)
        ensures
            r is Ok <==> self.value() <= u64::MAX,
            r matches Ok(v) ==> v == self.value(),
    {
        let v = self.bv.value_u128();
        if v <= u64::MAX as u128 {
            Ok(v as u64)
        } else {
            Err(AddrConvertError::TooWide)
        }
    }
}

impl Addr {
    /// Build an address of width 8 from a byte value.
    pub fn from_u8(v: u8) -> (r: Addr)
        ensures
            r.value() == v,
            r.width() == 8,
    {
        proof {
            lemma2_to64();
        }
        Addr { bv: BitVec::new(v as u128, 8, false) }
    }

    /// Build an address of width 16.
    pub fn from_u16(v: u16) -> (r: Addr)
        ensures
            r.value() == v,
            r.width() == 16,
    {
        proof {
            lemma2_to64();
        }
        Addr { bv: BitVec::new(v as u128, 16, false) }
    }

    /// Build an address of width 32.
    pub fn from_u32(v: u32) -> (r: Addr)
        ensures
            r.value() == v,
            r.width() == 32,
    {
        proof {
            lemma2_to64();
        }
        Addr { bv: BitVec::new(v as u128, 32, false) }
    }

    /// Build an address of width 64.
    pub fn from_u64(v: u64) -> (r: Addr)
        ensures
            r.value() == v,
            r.width() == 64,
    {
        proof {
            lemma2_to64();
            lemma_pow2_adds(32, 32);
            assert((0x100000000int) * 0x100000000 == 0x10000000000000000int) by (nonlinear_arith);
        }
        Addr { bv: BitVec::new(v as u128, 64, false) }
    }

    /// Build an address of width 128.
    pub fn from_u128(v: u128) -> (r: Addr)
        ensures
            r.value() == v,
            r.width() == 128,
    {
        proof {
            bv::lemma_pow2_128();
        }
        Addr { bv: BitVec::new(v, 128, false) }
    }
}

impl Addr {
    /// Parse a textual address. A signed literal is rejected with `Sign`
    /// and a zero-width one with `ZeroSize`; the digits and optional
    /// radix prefix are read as a bit-vector literal.
    pub fn parse_str(s: &str) -> (r: Result<Addr, AddrParseError>)
        ensures
            ({
                let d = bv::literal_digits(bv::literal_body(s@));
                let radix = bv::literal_radix(bv::literal_body(s@));
                let width = bv::radix_bits(radix) * d.len();
                &&& (!bv::digits_ok(d, radix) ==> r == Err::<Addr, AddrParseError>(
                    AddrParseError::Parse(ParseError::InvalidDigit),
                ))
                &&& (bv::digits_ok(d, radix) && width > MAX_WIDTH ==> r == Err::<
                    Addr,
                    AddrParseError,
                >(AddrParseError::Parse(ParseError::TooWide)))
                &&& (bv::digits_ok(d, radix) && width <= MAX_WIDTH && bv::literal_signed(s@)
                    ==> r == Err::<Addr, AddrParseError>(AddrParseError::Sign))
                &&& (bv::digits_ok(d, radix) && width <= MAX_WIDTH && !bv::literal_signed(s@)
                    && width == 0 ==> r == Err::<Addr, AddrParseError>(AddrParseError::ZeroSize))
                &&& (r matches Ok(a) ==> {
                    &&& bv::digits_ok(d, radix)
                    &&& !bv::literal_signed(s@)
                    &&& 0 < width <= MAX_WIDTH
                    &&& a.width() == width
                    &&& a.value() == bv::digits_value(d, radix)
                })
            }),
    {
        let b = match BitVec::parse(s) {
            Ok(b) => b,
            Err(e) => {
                return Err(AddrParseError::Parse(e));
            },
        };
        if b.is_signed() {
            Err(AddrParseError::Sign)
        } else if b.bits() == 0 {
            Err(AddrParseError::ZeroSize)
        } else {
            Ok(Addr { bv: b })
        }
    }

    /// Parse a textual address under a caller-chosen radix, with no radix
    /// prefix. Only radixes 2, 8 and 16 are supported; any other fails
    /// with `Radix`.
    pub fn from_str_radix(s: &str, radix: u32) -> (r: Result<Addr, AddrParseError>)
        ensures
            (radix != 2 && radix != 8 && radix != 16) ==> r == Err::<Addr, AddrParseError>(
                AddrParseError::Radix(radix),
            ),
            (radix == 2 || radix == 8 || radix == 16) ==> ({
                let d = bv::literal_body(s@);
                let width = bv::radix_bits(radix as int) * d.len();
                &&& (!bv::digits_ok(d, radix as int) ==> r == Err::<Addr, AddrParseError>(
                    AddrParseError::Parse(ParseError::InvalidDigit),
                ))
                &&& (bv::digits_ok(d, radix as int) && width > MAX_WIDTH ==> r == Err::<
                    Addr,
                    AddrParseError,
                >(AddrParseError::Parse(ParseError::TooWide)))
                &&& (bv::digits_ok(d, radix as int) && width <= MAX_WIDTH && bv::literal_signed(
                    s@,
                ) ==> r == Err::<Addr, AddrParseError>(AddrParseError::Sign))
                &&& (bv::digits_ok(d, radix as int) && width <= MAX_WIDTH
                    && !bv::literal_signed(s@) && width == 0 ==> r == Err::<Addr, AddrParseError>(
                    AddrParseError::ZeroSize,
                ))
                &&& (r matches Ok(a) ==> {
                    &&& a.width() == width
                    &&& a.value() == bv::digits_value(d, radix as int)
                })
            }),
    {
        if !(radix == 2 || radix == 8 || radix == 16) {
            return Err(AddrParseError::Radix(radix));
        }
        let b = match BitVec::parse_in_radix(s, radix) {
            Ok(b) => b,
            Err(e) => {
                return Err(AddrParseError::Parse(e));
            },
        };
        if b.is_signed() {
            Err(AddrParseError::Sign)
        } else if b.bits() == 0 {
            Err(AddrParseError::ZeroSize)
        } else {
            Ok(Addr { bv: b })
        }
    }

    /// Format the value as lowercase hexadecimal with no prefix and no
    /// leading zeros. Parsing the result yields this address back.
    pub fn format_hex(&self) -> (r: String)
        ensures
            hex_formatted(r@, self.value()),
    {
        format_hex_u128(self.bv.value_u128())
    }
}

impl PartialEq for Addr {
    /// Addresses compare equal when their values agree after
    /// zero-extension to the joined width; the widths themselves need not.
    fn eq(&self, other: &Addr) -> (r: bool) {
        self.bv.same_value(&other.bv)
    }
}

impl Eq for Addr {}

impl vstd::std_specs::cmp::PartialEqSpecImpl for Addr {
    open spec fn obeys_eq_spec() -> bool {
        true
    }

    open spec fn eq_spec(&self, other: &Addr) -> bool {
        self.value() == other.value()
    }
}

impl PartialOrd for Addr {
    /// Addresses order by value after zero-extension to the joined width.
    fn partial_cmp(&self, other: &Addr) -> (r: Option<core::cmp::Ordering>) {
        if self.bv.lt_value(&other.bv) {
            Some(core::cmp::Ordering::Less)
        } else if self.bv.same_value(&other.bv) {
            Some(core::cmp::Ordering::Equal)
        } else {
            Some(core::cmp::Ordering::Greater)
        }
    }
}

impl vstd::std_specs::cmp::PartialOrdSpecImpl for Addr {
    open spec fn obeys_partial_cmp_spec() -> bool {
        true
    }

    open spec fn partial_cmp_spec(&self, other: &Addr) -> Option<core::cmp::Ordering> {
        if self.value() < other.value() {
            Some(core::cmp::Ordering::Less)
        } else if self.value() == other.value() {
            Some(core::cmp::Ordering::Equal)
        } else {
            Some(core::cmp::Ordering::Greater)
        }
    }
}

/// What `format_hex` guarantees of its output for a value `v`.
pub open spec fn hex_formatted(s: Seq<char>, v: int) -> bool {
    &&& 1 <= s.len() <= 32
    &&& bv::digits_ok(s, 16)
    &&& bv::digits_value(s, 16) == v
    &&& (forall|i: int| 0 <= i < s.len() ==> bv::is_lower_hex_char(#[trigger] s[i]))
    &&& (v == 0 ==> s =~= seq!['0'])
    &&& (v > 0 ==> bv::digit_val(s[0], 16) > 0)
}

use crate::bv::format_hex_u128;

/// Hexadecimal formatting round-trips through parsing: the output of
/// `format_hex` is an unprefixed, unsigned hexadecimal literal whose
/// digits denote exactly the formatted value, so `Addr::parse_str` on it
/// succeeds and returns an address of the same value.
pub proof fn lemma_hex_roundtrip(s: Seq<char>, v: int)
    requires
        hex_formatted(s, v),
        v >= 0,
    ensures
        !bv::literal_signed(s),
        bv::literal_body(s) == s,
        bv::literal_radix(s) == 16,
        bv::literal_digits(s) == s,
        bv::digits_ok(s, 16),
        0 < bv::radix_bits(16) * s.len() <= MAX_WIDTH,
        bv::digits_value(s, 16) == v,
{
    assert(bv::digit_val(s[0], 16) >= 0);
    assert(s[0] != '-');
    if s.len() >= 2 {
        if v == 0 {
            assert(s.len() == 1);
        }
        assert(bv::digit_val(s[0], 16) > 0);
        assert(s[0] != '0');
    }
}

} // verus!
