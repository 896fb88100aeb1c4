//! Variable-width bit-vectors with width-adapting arithmetic.
//!
//! A `BitVec` carries a value, a bit-width and a signedness flag. A binary
//! operation on two bit-vectors of widths `a` and `b` zero-extends the
//! narrower operand to `w = max(a, b)`, computes at width `w`, and wraps
//! the result modulo `2^w`. Widths up to 128 bits are representable.

use vstd::prelude::*;
use vstd::arithmetic::power2::*;
use vstd::arithmetic::power::pow;
use vstd::arithmetic::power::lemma_pow_adds;
use vstd::arithmetic::power::lemma_pow_positive;
use vstd::arithmetic::power::lemma_pow0;
use vstd::arithmetic::power::lemma_pow1;
use vstd::arithmetic::div_mod::*;

verus! {

/// Largest supported bit-width.
pub const MAX_WIDTH: u32 = 128;

/// A bit-vector value: `width` bits wide, holding `val < 2^width`.
#[derive(Clone, Copy, Debug, Hash, PartialEq, Eq)]
pub struct BitVec {
    val: u128,
    width: u32,
    signed: bool,
}

impl BitVec {
    /// The numeric value of the bit pattern, read as an unsigned integer.
    pub closed spec fn v(&self) -> int {
        self.val as int
    }

    /// The bit-width.
    pub closed spec fn w(&self) -> int {
        self.width as int
    }

    /// The signedness flag.
    pub closed spec fn sgn(&self) -> bool {
        self.signed
    }

    /// Well-formedness: the width is representable and the value fits in it.
    #[verifier::type_invariant]
    pub closed spec fn wf(&self) -> bool {
        self.width <= MAX_WIDTH && (self.val as nat) < pow2(self.width as nat)
    }

    /// The well-formedness of a bit-vector, stated over its public view.
    pub open spec fn valid(&self) -> bool {
        0 <= self.w() <= MAX_WIDTH && 0 <= self.v() < pow2(self.w() as nat)
    }

    /// Every `BitVec` held by executable code is valid; this exposes that
    /// invariant to callers.
    pub fn check(&self)
        ensures
            self.valid(),
    {
        proof {
            use_type_invariant(self);
        }
    }

    /// Construct a bit-vector from a value, width and signedness.
    pub fn new(val: u128, width: u32, signed: bool) -> (r: BitVec)
        requires
            width <= MAX_WIDTH,
            val < pow2(width as nat),
        ensures
            r.v() == val,
            r.w() == width,
            r.sgn() == signed,
    {
        BitVec { val, width, signed }
    }

    /// Construct a bit-vector of the given width from an arbitrary value,
    /// truncating the value to the width.
    pub fn new_truncated(val: u128, width: u32, signed: bool) -> (r: BitVec)
        requires
            width <= MAX_WIDTH,
        ensures
            r.v() == val as int % pow2(width as nat) as int,
            r.w() == width,
            r.sgn() == signed,
    {
        let v = mask_width(val, width);
        BitVec { val: v, width, signed }
    }

    /// The zero bit-vector of the given width.
    pub fn zero(width: u32) -> (r: BitVec)
        requires
            width <= MAX_WIDTH,
        ensures
            r.v() == 0,
            r.w() == width,
            r.sgn() == false,
    {
        proof {
            lemma_pow2_pos(width as nat);
        }
        BitVec { val: 0, width, signed: false }
    }

    /// The one bit-vector of the given width.
    pub fn one(width: u32) -> (r: BitVec)
        requires
            1 <= width <= MAX_WIDTH,
        ensures
            r.v() == 1,
            r.w() == width,
            r.sgn() == false,
    {
        proof {
            lemma_pow2_unfold(width as nat);
            lemma_pow2_pos((width - 1) as nat);
        }
        BitVec { val: 1, width, signed: false }
    }

    /// The bit-width.
    pub fn bits(&self) -> (r: u32)
        ensures
            r == self.w(),
            r <= MAX_WIDTH,
            self.v() < pow2(r as nat),
    {
        proof {
            use_type_invariant(self);
        }
        self.width
    }

    /// The signedness flag.
    pub fn is_signed(&self) -> (r: bool)
        ensures
            r == self.sgn(),
    {
        self.signed
    }

    /// Whether the value is zero.
    pub fn is_zero(&self) -> (r: bool)
        ensures
            r == (self.v() == 0),
    {
        self.val == 0
    }

    /// Whether the value is one.
    pub fn is_one(&self) -> (r: bool)
        ensures
            r == (self.v() == 1),
    {
        self.val == 1
    }

    /// The value as a `u128`.
    pub fn value_u128(&self) -> (r: u128)
        ensures
            r == self.v(),
    {
        self.val
    }

    /// The same bit pattern with the signedness flag cleared.
    pub fn unsigned(&self) -> (r: BitVec)
        ensures
            r.v() == self.v(),
            r.w() == self.w(),
            r.sgn() == false,
    {
        proof {
            use_type_invariant(self);
        }
        BitVec { val: self.val, width: self.width, signed: false }
    }

    /// The same bit pattern with the signedness flag set.
    pub fn signed(&self) -> (r: BitVec)
        ensures
            r.v() == self.v(),
            r.w() == self.w(),
            r.sgn() == true,
    {
        proof {
            use_type_invariant(self);
        }
        BitVec { val: self.val, width: self.width, signed: true }
    }

    /// Zero-extend or truncate to the given width, ignoring signedness.
    pub fn unsigned_cast(&self, width: u32) -> (r: BitVec)
        requires
            width <= MAX_WIDTH,
        ensures
            r.v() == self.v() % pow2(width as nat) as int,
            r.w() == width,
            r.sgn() == false,
            self.w() <= width ==> r.v() == self.v(),
    {
        proof {
            use_type_invariant(self);
            if self.width <= width {
                lemma_pow2_ordered(self.width as nat, width as nat);
                lemma_small_mod(self.val as nat, pow2(width as nat));
            }
        }
        let v = mask_width(self.val, width);
        BitVec { val: v, width, signed: false }
    }
}

impl BitVec {
    /// The width at which a binary operation on `self` and `rhs` computes:
    /// the larger of the two operand widths.
    pub open spec fn join_width(&self, rhs: &BitVec) -> int {
        if self.w() >= rhs.w() {
            self.w()
        } else {
            rhs.w()
        }
    }

    fn join_width_exec(&self, rhs: &BitVec) -> (w: u32)
        ensures
            w == self.join_width(rhs),
            w <= MAX_WIDTH,
            self.v() < pow2(w as nat),
            rhs.v() < pow2(w as nat),
    {
        proof {
            use_type_invariant(self);
            use_type_invariant(rhs);
            if self.width >= rhs.width {
                lemma_pow2_ordered(rhs.width as nat, self.width as nat);
            } else {
                lemma_pow2_ordered(self.width as nat, rhs.width as nat);
            }
        }
        if self.width >= rhs.width {
            self.width
        } else {
            rhs.width
        }
    }

    /// Sum with width promotion: the result is `(self + rhs) mod 2^w` at
    /// width `w = max(self.w(), rhs.w())`, the operands read zero-extended.
    pub fn add(&self, rhs: &BitVec) -> (r: BitVec)
        ensures
            r.w() == self.join_width(rhs),
            r.v() == (self.v() + rhs.v()) % pow2(r.w() as nat) as int,
            r.sgn() == self.sgn(),
    {
        let w = self.join_width_exec(rhs);
        let s = self.val.wrapping_add(rhs.val);
        proof {
            lemma_wrapping_add_mod(self.val, rhs.val);
            lemma_mod_128_to_w(self.val + rhs.val, w as nat);
        }
        let v = mask_width(s, w);
        BitVec { val: v, width: w, signed: self.signed }
    }

    /// Difference with width promotion, wrapping modulo `2^w`.
    pub fn sub(&self, rhs: &BitVec) -> (r: BitVec)
        ensures
            r.w() == self.join_width(rhs),
            r.v() == (self.v() - rhs.v()) % pow2(r.w() as nat) as int,
            r.sgn() == self.sgn(),
    {
        let w = self.join_width_exec(rhs);
        let s = self.val.wrapping_sub(rhs.val);
        proof {
            lemma_wrapping_sub_mod(self.val, rhs.val);
            lemma_mod_128_to_w(self.val - rhs.val, w as nat);
        }
        let v = mask_width(s, w);
        BitVec { val: v, width: w, signed: self.signed }
    }

    /// Product with width promotion, wrapping modulo `2^w`.
    pub fn mul(&self, rhs: &BitVec) -> (r: BitVec)
        ensures
            r.w() == self.join_width(rhs),
            r.v() == (self.v() * rhs.v()) % pow2(r.w() as nat) as int,
            r.sgn() == self.sgn(),
    {
        let w = self.join_width_exec(rhs);
        let s = self.val.wrapping_mul(rhs.val);
        proof {
            lemma_pow2_128();
            lemma_mod_128_to_w(self.val * rhs.val, w as nat);
        }
        let v = mask_width(s, w);
        BitVec { val: v, width: w, signed: self.signed }
    }

    /// Unsigned quotient with width promotion. Division by zero fails
    /// deterministically with `None`.
    pub fn div(&self, rhs: &BitVec) -> (r: Option<BitVec>)
        ensures
            r is Some <==> rhs.v() != 0,
            r matches Some(q) ==> {
                &&& q.w() == self.join_width(rhs)
                &&& q.v() == self.v() / rhs.v()
                &&& q.sgn() == self.sgn()
            },
    {
        let w = self.join_width_exec(rhs);
        if rhs.val == 0 {
            None
        } else {
            let q = self.val / rhs.val;
            proof {
                lemma_div_is_ordered(q as int, self.val as int, 1);
            }
            Some(BitVec { val: q, width: w, signed: self.signed })
        }
    }

    /// Unsigned remainder with width promotion. A zero divisor fails
    /// deterministically with `None`.
    pub fn rem(&self, rhs: &BitVec) -> (r: Option<BitVec>)
        ensures
            r is Some <==> rhs.v() != 0,
            r matches Some(m) ==> {
                &&& m.w() == self.join_width(rhs)
                &&& m.v() == self.v() % rhs.v()
                &&& m.sgn() == self.sgn()
            },
    {
        let w = self.join_width_exec(rhs);
        if rhs.val == 0 {
            None
        } else {
            let m = self.val % rhs.val;
            proof {
                use_type_invariant(rhs);
                lemma_pow2_ordered(rhs.width as nat, w as nat);
            }
            Some(BitVec { val: m, width: w, signed: self.signed })
        }
    }

    /// Value equality of the zero-extended operands; widths need not agree.
    pub fn same_value(&self, rhs: &BitVec) -> (r: bool)
        ensures
            r == (self.v() == rhs.v()),
    {
        self.val == rhs.val
    }

    /// Value order of the zero-extended operands; widths need not agree.
    pub fn lt_value(&self, rhs: &BitVec) -> (r: bool)
        ensures
            r == (self.v() < rhs.v()),
    {
        self.val < rhs.val
    }
}

/// `x.wrapping_add(y)` on `u128` equals `(x + y) mod 2^128`.
proof fn lemma_wrapping_add_mod(x: u128, y: u128)
    ensures
        vstd::wrapping::u128_specs::wrapping_add(x, y)
            == (x + y) % pow2(128) as int,
{
    lemma_pow2_128();
    let p = pow2(128) as int;
    if x + y > u128::MAX {
        lemma_mod_multiples_vanish(1, x + y - p, p);
        lemma_small_mod((x + y - p) as nat, pow2(128));
    } else {
        lemma_small_mod((x + y) as nat, pow2(128));
    }
}

/// `x.wrapping_sub(y)` on `u128` equals `(x - y) mod 2^128` with the
/// Euclidean (non-negative) remainder.
proof fn lemma_wrapping_sub_mod(x: u128, y: u128)
    ensures
        vstd::wrapping::u128_specs::wrapping_sub(x, y)
            == (x - y) % pow2(128) as int,
{
    lemma_pow2_128();
    let p = pow2(128) as int;
    if x - y < 0 {
        lemma_mod_multiples_vanish(1, x - y, p);
        lemma_small_mod((x - y + p) as nat, pow2(128));
    } else {
        lemma_small_mod((x - y) as nat, pow2(128));
    }
}

/// Reducing modulo `2^128` and then modulo `2^w` (for `w <= 128`) is the
/// same as reducing modulo `2^w` directly.
proof fn lemma_mod_128_to_w(x: int, w: nat)
    requires
        w <= 128,
    ensures
        (x % pow2(128) as int) % pow2(w) as int == x % pow2(w) as int,
{
    lemma_pow2_adds(w, (128 - w) as nat);
    lemma_pow2_pos(w);
    lemma_pow2_pos((128 - w) as nat);
    lemma_mod_mod(x, pow2(w) as int, pow2((128 - w) as nat) as int);
}

/// Errors from parsing a textual bit-vector literal.
#[derive(Clone, Copy, Debug, PartialEq, Eq, Structural)]
pub enum ParseError {
    /// A character is not a digit of the selected radix.
    InvalidDigit,
    /// The literal denotes a width above `MAX_WIDTH`.
    TooWide,
}

/// The value of one digit character under the given radix, or `-1` when the
/// character is not a digit of that radix. Hexadecimal accepts both cases.
pub open spec fn digit_val(c: char, radix: int) -> int {
    let v = if '0' <= c && c <= '9' {
        c as int - '0' as int
    } else if 'a' <= c && c <= 'f' {
        10 + c as int - 'a' as int
    } else if 'A' <= c && c <= 'F' {
        10 + c as int - 'A' as int
    } else {
        -1
    };
    if 0 <= v < radix {
        v
    } else {
        -1
    }
}

/// Whether every character of `d` is a digit of the given radix.
pub open spec fn digits_ok(d: Seq<char>, radix: int) -> bool {
    forall|i: int| 0 <= i < d.len() ==> digit_val(#[trigger] d[i], radix) >= 0
}

/// The numeric value of a digit string, most significant digit first.
pub open spec fn digits_value(d: Seq<char>, radix: int) -> int
    decreases d.len(),
{
    if d.len() == 0 {
        0
    } else {
        digits_value(d.drop_last(), radix) * radix + digit_val(d.last(), radix)
    }
}

/// Sign handling of a literal: a leading `-` marks it signed.
pub open spec fn literal_signed(s: Seq<char>) -> bool {
    s.len() > 0 && s[0] == '-'
}

/// The literal with its sign stripped.
pub open spec fn literal_body(s: Seq<char>) -> Seq<char> {
    if literal_signed(s) {
        s.skip(1)
    } else {
        s
    }
}

/// The radix selected by the body's prefix: `0x` is 16, `0o` is 8 and `0b`
/// is 2; a bare literal is read as hexadecimal.
pub open spec fn literal_radix(b: Seq<char>) -> int {
    if b.len() >= 2 && b[0] == '0' && b[1] == 'x' {
        16
    } else if b.len() >= 2 && b[0] == '0' && b[1] == 'o' {
        8
    } else if b.len() >= 2 && b[0] == '0' && b[1] == 'b' {
        2
    } else {
        16
    }
}

/// The digit characters of the body, with any radix prefix stripped.
pub open spec fn literal_digits(b: Seq<char>) -> Seq<char> {
    if b.len() >= 2 && b[0] == '0' && (b[1] == 'x' || b[1] == 'o' || b[1] == 'b') {
        b.skip(2)
    } else {
        b
    }
}

/// Bits carried by one digit of the given radix.
pub open spec fn radix_bits(radix: int) -> int {
    if radix == 16 {
        4
    } else if radix == 8 {
        3
    } else {
        1
    }
}

/// Decide and return the digit value of `c` under `radix`.
fn digit_of(c: char, radix: u32) -> (r: Option<u8>)
    requires
        radix == 2 || radix == 8 || radix == 16,
    ensures
        r is Some <==> digit_val(c, radix as int) >= 0,
        r matches Some(v) ==> v == digit_val(c, radix as int),
{
    let u = c as u32;
    let v: u32 = if u >= 48 && u <= 57 {
        u - 48
    } else if u >= 97 && u <= 102 {
        10 + u - 97
    } else if u >= 65 && u <= 70 {
        10 + u - 65
    } else {
        u32::MAX
    };
    if v < radix {
        Some(v as u8)
    } else {
        None
    }
}

impl BitVec {
    /// Parse a textual bit-vector literal.
    ///
    /// An optional leading `-` marks the literal signed. The body may carry
    /// a radix prefix (`0x`, `0o`, `0b`); a bare body is read as
    /// hexadecimal. Each digit contributes its radix's bit count to the
    /// width, so the width of `ff` is 8 and the width of `0b101` is 3; an
    /// empty digit string yields the zero-width bit-vector. A literal wider
    /// than `MAX_WIDTH` is rejected.
    pub fn parse(s: &str) -> (r: Result<BitVec, ParseError>)
        ensures
            ({
                let d = literal_digits(literal_body(s@));
                let radix = literal_radix(literal_body(s@));
                let width = radix_bits(radix) * d.len();
                &&& (r is Err <==> !digits_ok(d, radix) || width > MAX_WIDTH)
                &&& (!digits_ok(d, radix) ==> r == Err::<BitVec, ParseError>(
                    ParseError::InvalidDigit,
                ))
                &&& ((digits_ok(d, radix) && width > MAX_WIDTH) ==> r == Err::<
                    BitVec,
                    ParseError,
                >(ParseError::TooWide))
                &&& (r matches Ok(bv) ==> {
                    &&& bv.w() == width
                    &&& bv.v() == digits_value(d, radix)
                    &&& bv.sgn() == literal_signed(s@)
                })
            }),
    {
        let n = s.unicode_len();
        let mut i: usize = 0;
        let mut sgn = false;
        if n > 0 && s.get_char(0) == '-' {
            sgn = true;
            i = 1;
        }
        assert(s@.skip(i as int) =~= literal_body(s@));
        let ghost b = literal_body(s@);
        let mut radix: u32 = 16;
        let mut bp: u32 = 4;
        if i + 2 <= n && s.get_char(i) == '0' {
            let c = s.get_char(i + 1);
            if c == 'x' {
                i = i + 2;
            } else if c == 'o' {
                radix = 8;
                bp = 3;
                i = i + 2;
            } else if c == 'b' {
                radix = 2;
                bp = 1;
                i = i + 2;
            }
        }
        assert(radix == literal_radix(b) && bp == radix_bits(radix as int) && s@.skip(i as int)
            =~= literal_digits(b));
        let ghost d = literal_digits(b);
        let start = i;
        let nd = n - start;
        let mut j = start;
        while j < n
            invariant
                start <= j <= n,
                n == s@.len(),
                d == s@.skip(start as int),
                d == literal_digits(literal_body(s@)),
                radix == literal_radix(literal_body(s@)),
                radix == 2 || radix == 8 || radix == 16,
                bp == radix_bits(radix as int),
                nd == n - start,
                forall|k: int|
                    0 <= k < j - start ==> digit_val(#[trigger] d[k], radix as int) >= 0,
            decreases n - j,
        {
            if digit_of(s.get_char(j), radix).is_none() {
                proof {
                    assert(d[j - start] == s@[j as int]);
                    assert(!digits_ok(d, radix as int));
                }
                return Err(ParseError::InvalidDigit);
            }
            j = j + 1;
        }
        assert(digits_ok(d, radix as int));
        proof {
            assert((bp as u128) * (nd as u128) <= u128::MAX) by (nonlinear_arith)
                requires
                    nd <= u64::MAX,
                    bp <= 4,
            {}
        }
        let width_wide: u128 = (bp as u128) * (nd as u128);
        if width_wide > MAX_WIDTH as u128 {
            return Err(ParseError::TooWide);
        }
        let width: u32 = width_wide as u32;
        let mut val: u128 = 0;
        let mut j = start;
        proof {
            lemma2_to64();
            assert(d.take(0) =~= Seq::<char>::empty());
        }
        while j < n
            invariant
                start <= j <= n,
                n == s@.len(),
                d == s@.skip(start as int),
                d == literal_digits(literal_body(s@)),
                radix == literal_radix(literal_body(s@)),
                radix == 2 || radix == 8 || radix == 16,
                bp == radix_bits(radix as int),
                digits_ok(d, radix as int),
                sgn == literal_signed(s@),
                nd == n - start,
                width == bp * nd <= MAX_WIDTH,
                val == digits_value(d.take(j - start), radix as int),
                val < pow2((bp * (j - start)) as nat),
            decreases n - j,
        {
            let dv = match digit_of(s.get_char(j), radix) {
                Some(dv) => dv,
                None => {
                    proof {
                        assert(d[j - start] == s@[j as int]);
                        assert(false);
                    }
                    return Err(ParseError::InvalidDigit);
                },
            };
            let ghost k = (j - start) as int;
            proof {
                lemma2_to64();
                lemma_pow2_adds((bp * k) as nat, bp as nat);
                assert(pow2(bp as nat) == radix) by {
                    lemma2_to64();
                }
                lemma_pow2_ordered((bp * (k + 1)) as nat, 128);
                lemma_pow2_128();
                assert(val * radix + dv < pow2((bp * (k + 1)) as nat)) by (nonlinear_arith)
                    requires
                        val < pow2((bp * k) as nat),
                        0 <= dv < radix,
                        pow2((bp * (k + 1)) as nat) == pow2((bp * k) as nat) * pow2(bp as nat),
                        pow2(bp as nat) == radix,
                {}
                assert(d.take(k + 1).drop_last() =~= d.take(k));
                assert(d.take(k + 1).last() == d[k]);
            }
            val = val * (radix as u128) + (dv as u128);
            j = j + 1;
        }
        proof {
            assert(d.take((n - start) as int) =~= d);
            lemma_pow2_ordered((bp * nd) as nat, width as nat);
        }
        Ok(BitVec { val, width, signed: sgn })
    }
}

impl BitVec {
    /// Parse a literal under a caller-chosen radix, with no radix prefix:
    /// an optional `-` sign followed by digits only.
    pub fn parse_in_radix(s: &str, radix: u32) -> (r: Result<BitVec, ParseError>)
        requires
            radix == 2 || radix == 8 || radix == 16,
        ensures
            ({
                let d = literal_body(s@);
                let width = radix_bits(radix as int) * d.len();
                &&& (r is Err <==> !digits_ok(d, radix as int) || width > MAX_WIDTH)
                &&& (!digits_ok(d, radix as int) ==> r == Err::<BitVec, ParseError>(
                    ParseError::InvalidDigit,
                ))
                &&& ((digits_ok(d, radix as int) && width > MAX_WIDTH) ==> r == Err::<
                    BitVec,
                    ParseError,
                >(ParseError::TooWide))
                &&& (r matches Ok(bv) ==> {
                    &&& bv.w() == width
                    &&& bv.v() == digits_value(d, radix as int)
                    &&& bv.sgn() == literal_signed(s@)
                })
            }),
    {
        let n = s.unicode_len();
        let mut i: usize = 0;
        let mut sgn = false;
        if n > 0 && s.get_char(0) == '-' {
            sgn = true;
            i = 1;
        }
        assert(s@.skip(i as int) =~= literal_body(s@));
        let ghost d = literal_body(s@);
        let bp: u32 = if radix == 16 {
            4
        } else if radix == 8 {
            3
        } else {
            1
        };
        let start = i;
        let nd = n - start;
        let mut j = start;
        while j < n
            invariant
                start <= j <= n,
                n == s@.len(),
                d == s@.skip(start as int),
                d == literal_body(s@),
                radix == 2 || radix == 8 || radix == 16,
                bp == radix_bits(radix as int),
                nd == n - start,
                forall|k: int|
                    0 <= k < j - start ==> digit_val(#[trigger] d[k], radix as int) >= 0,
            decreases n - j,
        {
            if digit_of(s.get_char(j), radix).is_none() {
                proof {
                    assert(d[j - start] == s@[j as int]);
                    assert(!digits_ok(d, radix as int));
                }
                return Err(ParseError::InvalidDigit);
            }
            j = j + 1;
        }
        assert(digits_ok(d, radix as int));
        proof {
            assert((bp as u128) * (nd as u128) <= u128::MAX) by (nonlinear_arith)
                requires
                    nd <= u64::MAX,
                    bp <= 4,
            {}
        }
        let width_wide: u128 = (bp as u128) * (nd as u128);
        if width_wide > MAX_WIDTH as u128 {
            return Err(ParseError::TooWide);
        }
        let width: u32 = width_wide as u32;
        let mut val: u128 = 0;
        let mut j = start;
        proof {
            lemma2_to64();
            assert(d.take(0) =~= Seq::<char>::empty());
        }
        while j < n
            invariant
                start <= j <= n,
                n == s@.len(),
                d == s@.skip(start as int),
                d == literal_body(s@),
                radix == 2 || radix == 8 || radix == 16,
                bp == radix_bits(radix as int),
                digits_ok(d, radix as int),
                sgn == literal_signed(s@),
                nd == n - start,
                width == bp * nd <= MAX_WIDTH,
                val == digits_value(d.take(j - start), radix as int),
                val < pow2((bp * (j - start)) as nat),
            decreases n - j,
        {
            let dv = match digit_of(s.get_char(j), radix) {
                Some(dv) => dv,
                None => {
                    proof {
                        assert(d[j - start] == s@[j as int]);
                        assert(false);
                    }
                    return Err(ParseError::InvalidDigit);
                },
            };
            let ghost k = (j - start) as int;
            proof {
                lemma2_to64();
                lemma_pow2_adds((bp * k) as nat, bp as nat);
                assert(pow2(bp as nat) == radix) by {
                    lemma2_to64();
                }
                lemma_pow2_ordered((bp * (k + 1)) as nat, 128);
                lemma_pow2_128();
                assert(val * radix + dv < pow2((bp * (k + 1)) as nat)) by (nonlinear_arith)
                    requires
                        val < pow2((bp * k) as nat),
                        0 <= dv < radix,
                        pow2((bp * (k + 1)) as nat) == pow2((bp * k) as nat) * pow2(bp as nat),
                        pow2(bp as nat) == radix,
                {}
                assert(d.take(k + 1).drop_last() =~= d.take(k));
                assert(d.take(k + 1).last() == d[k]);
            }
            val = val * (radix as u128) + (dv as u128);
            j = j + 1;
        }
        proof {
            assert(d.take((n - start) as int) =~= d);
            lemma_pow2_ordered((bp * nd) as nat, width as nat);
        }
        Ok(BitVec { val, width, signed: sgn })
    }
}


/// What decimal formatting guarantees of its output for a value `v`:
/// decimal digits only, denoting exactly `v`, with no leading zero.
pub open spec fn dec_formatted(s: Seq<char>, v: int) -> bool {
    &&& s.len() >= 1
    &&& (forall|i: int| 0 <= i < s.len() ==> '0' <= #[trigger] s[i] && s[i] <= '9')
    &&& digits_ok(s, 10)
    &&& digits_value(s, 10) == v
    &&& (v == 0 ==> s =~= seq!['0'])
    &&& (v > 0 ==> digit_val(s[0], 10) > 0)
}

/// The numeric value of a decimal digit sequence, least significant
/// digit first.
pub open spec fn dec_digits_value(d: Seq<u8>) -> int
    decreases d.len(),
{
    if d.len() == 0 {
        0
    } else {
        d[0] + 10 * dec_digits_value(d.skip(1))
    }
}

/// Appending a digit adds its value at the next power of ten.
proof fn lemma_dec_digits_push(d: Seq<u8>, n: u8)
    ensures
        dec_digits_value(d.push(n)) == dec_digits_value(d) + n * pow(10, d.len()),
    decreases d.len(),
{
    if d.len() == 0 {
        assert(d.push(n)[0] == n);
        assert(d.push(n).skip(1) =~= Seq::<u8>::empty());
        assert(dec_digits_value(Seq::<u8>::empty()) == 0);
        assert(dec_digits_value(d.push(n)) == n + 10 * dec_digits_value(d.push(n).skip(1)));
        assert(dec_digits_value(d.push(n)) == n);
        assert(dec_digits_value(d) == 0);
        lemma_pow0(10);
        assert(n * pow(10, 0) == n) by (nonlinear_arith)
            requires
                pow(10, 0) == 1,
        {}
    } else {
        assert(d.push(n).skip(1) =~= d.skip(1).push(n));
        lemma_dec_digits_push(d.skip(1), n);
        assert(pow(10, d.len()) == 10 * pow(10, (d.len() - 1) as nat)) by {
            lemma_pow_adds(10, 1, (d.len() - 1) as nat);
            lemma_pow1(10);
        }
        assert(10 * (dec_digits_value(d.skip(1)) + n * pow(10, (d.len() - 1) as nat)) == 10
            * dec_digits_value(d.skip(1)) + n * (10 * pow(10, (d.len() - 1) as nat)))
            by (nonlinear_arith);
        assert(d.push(n)[0] == d[0]);
        assert(dec_digits_value(d.push(n)) == d[0] + 10 * dec_digits_value(d.skip(1).push(n)));
        assert(dec_digits_value(d) == d[0] + 10 * dec_digits_value(d.skip(1)));
        assert(dec_digits_value(d.push(n)) == d[0] + 10 * dec_digits_value(d.skip(1)) + n * pow(
            10,
            d.len(),
        ));
    }
}

/// Decimal digit sequences denote non-negative values.
proof fn lemma_dec_digits_nonneg(d: Seq<u8>)
    ensures
        dec_digits_value(d) >= 0,
    decreases d.len(),
{
    if d.len() > 0 {
        lemma_dec_digits_nonneg(d.skip(1));
    }
}

/// Format a value in decimal with no leading zeros; zero formats as
/// `0`.
pub fn format_dec_u32(v: u32) -> (r: String)
    ensures
        dec_formatted(r@, v as int),
{
    if v == 0 {
        let r = String::from_str("0");
        proof {
            reveal_strlit("0");
            assert(r@ =~= seq!['0']);
            assert(r@.drop_last() =~= Seq::<char>::empty());
            assert(digits_value(r@, 10) == digits_value(r@.drop_last(), 10) * 10 + digit_val(
                r@.last(),
                10,
            ));
        }
        return r;
    }
    let mut digs: Vec<u8> = Vec::new();
    let mut x = v;
    proof {
        assert(dec_digits_value(digs@) == 0);
        lemma_pow0(10);
        assert(x * pow(10, digs@.len()) == v) by (nonlinear_arith)
            requires
                x == v,
                pow(10, digs@.len()) == 1,
        {}
    }
    while x > 0
        invariant
            dec_digits_value(digs@) + x * pow(10, digs@.len()) == v,
            forall|i: int| 0 <= i < digs@.len() ==> #[trigger] digs@[i] < 10,
            x == 0 && digs@.len() > 0 ==> digs@.last() != 0,
        decreases x,
    {
        let ghost len0 = digs@.len();
        let dg = (x % 10) as u8;
        let x1 = x / 10;
        proof {
            lemma_dec_digits_push(digs@, dg);
            assert(pow(10, len0 + 1) == pow(10, len0) * 10) by {
                lemma_pow_adds(10, len0, 1);
                lemma_pow1(10);
            }
            assert(x * pow(10, len0) == (x % 10) * pow(10, len0) + (x / 10) * (pow(10, len0)
                * 10)) by (nonlinear_arith)
                requires
                    x >= 0,
            {}
            lemma_dec_digits_nonneg(digs@.push(dg));
        }
        digs.push(dg);
        x = x1;
    }
    let ghost dseq = digs@;
    let mut out = String::new();
    let mut k = digs.len();
    proof {
        assert(dseq.skip(k as int) =~= Seq::<u8>::empty());
        lemma_pow_positive(10, dseq.len());
        assert(dseq.len() > 0) by {
            if dseq.len() == 0 {
                assert(dec_digits_value(dseq) == 0);
            }
        }
    }
    while k > 0
        invariant
            k <= dseq.len(),
            digs@ == dseq,
            dseq.len() > 0,
            forall|i: int| 0 <= i < dseq.len() ==> #[trigger] dseq[i] < 10,
            dseq.last() != 0,
            digits_value(out@, 10) == dec_digits_value(dseq.skip(k as int)),
            out@.len() == dseq.len() - k,
            digits_ok(out@, 10),
            forall|i: int| 0 <= i < out@.len() ==> '0' <= #[trigger] out@[i] && out@[i] <= '9',
            k < dseq.len() ==> digit_val(out@[0], 10) == dseq.last(),
        decreases k,
    {
        k = k - 1;
        let c = hex_char_exec(digs[k]);
        let ghost out0 = out@;
        out.append(c);
        proof {
            lemma_dec_char_val(dseq[k as int] as int);
            assert(out@.drop_last() =~= out0);
            assert(out@.last() == hex_char(dseq[k as int] as int));
            assert(dseq.skip(k as int)[0] == dseq[k as int]);
            assert(dseq.skip(k as int).skip(1) =~= dseq.skip(k + 1));
            assert(digits_value(out@, 10) == digits_value(out0, 10) * 10 + dseq[k as int]);
        }
    }
    proof {
        assert(dseq.skip(0) =~= dseq);
    }
    out
}

/// Digits below ten invert back to their values under radix ten.
proof fn lemma_dec_char_val(d: int)
    requires
        0 <= d < 10,
    ensures
        digit_val(hex_char(d), 10) == d,
        '0' <= hex_char(d) && hex_char(d) <= '9',
{
}

/// Whether `c` is a lowercase hexadecimal digit character.
pub open spec fn is_lower_hex_char(c: char) -> bool {
    ('0' <= c && c <= '9') || ('a' <= c && c <= 'f')
}

/// The lowercase hexadecimal digit character for a value below 16.
pub open spec fn hex_char(d: int) -> char {
    if d == 0 { '0' }
    else if d == 1 { '1' }
    else if d == 2 { '2' }
    else if d == 3 { '3' }
    else if d == 4 { '4' }
    else if d == 5 { '5' }
    else if d == 6 { '6' }
    else if d == 7 { '7' }
    else if d == 8 { '8' }
    else if d == 9 { '9' }
    else if d == 10 { 'a' }
    else if d == 11 { 'b' }
    else if d == 12 { 'c' }
    else if d == 13 { 'd' }
    else if d == 14 { 'e' }
    else { 'f' }
}

/// The digit characters invert back to their values.
proof fn lemma_hex_char_val(d: int)
    requires
        0 <= d < 16,
    ensures
        digit_val(hex_char(d), 16) == d,
        is_lower_hex_char(hex_char(d)),
{
}

/// The numeric value of a nibble sequence, least significant nibble first.
pub open spec fn nibbles_value(d: Seq<u8>) -> int
    decreases d.len(),
{
    if d.len() == 0 {
        0
    } else {
        d[0] + 16 * nibbles_value(d.skip(1))
    }
}

/// Appending a nibble adds its value at the next power of sixteen.
proof fn lemma_nibbles_push(d: Seq<u8>, n: u8)
    ensures
        nibbles_value(d.push(n)) == nibbles_value(d) + n * pow2((4 * d.len()) as nat),
    decreases d.len(),
{
    lemma2_to64();
    if d.len() == 0 {
        assert(d.push(n)[0] == n);
        assert(d.push(n).skip(1) =~= Seq::<u8>::empty());
        assert(nibbles_value(d.push(n).skip(1)) == 0);
        assert(nibbles_value(d.push(n)) == n);
        assert(nibbles_value(d) == 0);
        assert(pow2((4 * d.len()) as nat) == 1);
        assert(n * pow2((4 * d.len()) as nat) == n) by (nonlinear_arith)
            requires
                pow2((4 * d.len()) as nat) == 1,
        {}
    } else {
        assert(d.push(n).skip(1) =~= d.skip(1).push(n));
        lemma_nibbles_push(d.skip(1), n);
        lemma_pow2_adds(4, (4 * (d.len() - 1)) as nat);
        assert(d.push(n)[0] == d[0]);
        assert(nibbles_value(d.push(n)) == d[0] + 16 * nibbles_value(d.skip(1).push(n)));
        assert(pow2((4 * d.len()) as nat) == 16 * pow2((4 * (d.len() - 1)) as nat));
        assert(16 * (nibbles_value(d.skip(1)) + n * pow2((4 * (d.len() - 1)) as nat))
            == 16 * nibbles_value(d.skip(1)) + n * (16 * pow2((4 * (d.len() - 1)) as nat)))
            by (nonlinear_arith);
        assert(nibbles_value(d.push(n)) == d[0] + 16 * nibbles_value(d.skip(1)) + n * pow2(
            (4 * d.len()) as nat,
        ));
    }
}

/// The string form of one nibble.
fn hex_char_exec(n: u8) -> (c: &'static str)
    requires
        n < 16,
    ensures
        c@ =~= seq![hex_char(n as int)],
{
    proof {
        reveal_strlit("0");
        reveal_strlit("1");
        reveal_strlit("2");
        reveal_strlit("3");
        reveal_strlit("4");
        reveal_strlit("5");
        reveal_strlit("6");
        reveal_strlit("7");
        reveal_strlit("8");
        reveal_strlit("9");
        reveal_strlit("a");
        reveal_strlit("b");
        reveal_strlit("c");
        reveal_strlit("d");
        reveal_strlit("e");
        reveal_strlit("f");
    }
    match n {
        0 => "0",
        1 => "1",
        2 => "2",
        3 => "3",
        4 => "4",
        5 => "5",
        6 => "6",
        7 => "7",
        8 => "8",
        9 => "9",
        10 => "a",
        11 => "b",
        12 => "c",
        13 => "d",
        14 => "e",
        _ => "f",
    }
}

/// The hexadecimal digits of a positive value, most significant first;
/// zero has no digits.
pub open spec fn hex_seq_spec(v: nat) -> Seq<char>
    decreases v,
{
    if v == 0 {
        Seq::empty()
    } else {
        hex_seq_spec(v / 16).push(hex_char((v % 16) as int))
    }
}

/// The canonical hexadecimal string of a value: its digits, or `0` for
/// zero.
pub open spec fn hex_str_spec(v: nat) -> Seq<char> {
    if v == 0 {
        seq!['0']
    } else {
        hex_seq_spec(v)
    }
}

/// A digit string of lowercase hexadecimal digits with no leading zero
/// is the canonical string of its value.
proof fn lemma_hex_canonical(s: Seq<char>)
    requires
        s.len() >= 1,
        digits_ok(s, 16),
        forall|i: int| 0 <= i < s.len() ==> is_lower_hex_char(#[trigger] s[i]),
        digits_value(s, 16) == 0 ==> s =~= seq!['0'],
        digits_value(s, 16) > 0 ==> digit_val(s[0], 16) > 0,
    ensures
        s =~= hex_str_spec(digits_value(s, 16) as nat),
    decreases s.len(),
{
    let v = digits_value(s, 16);
    lemma_digits_nonneg(s);
    if v == 0 {
    } else if s.len() == 1 {
        assert(s.drop_last() =~= Seq::<char>::empty());
        assert(digits_value(Seq::<char>::empty(), 16) == 0);
        assert(v == digit_val(s[0], 16));
        let n: nat = v as nat;
        assert(n != 0);
        assert(hex_seq_spec(n) == hex_seq_spec(n / 16).push(hex_char((n % 16) as int)));
        assert(n / 16 == 0 && n % 16 == v);
        assert(hex_seq_spec(0) =~= Seq::<char>::empty());
        assert(hex_seq_spec(n) =~= seq![hex_char(v)]);
        lemma_lower_hex_inverse(s[0]);
        assert(s[0] == hex_char(v));
    } else {
        let p = s.drop_last();
        let d = digit_val(s.last(), 16);
        assert(v == digits_value(p, 16) * 16 + d);
        lemma_digits_nonneg(p);
        assert((16 * digits_value(p, 16) + d) / 16 == digits_value(p, 16) && (16 * digits_value(
            p,
            16,
        ) + d) % 16 == d) by {
            lemma_div_multiples_vanish_fancy(digits_value(p, 16), d, 16);
            lemma_mod_multiples_vanish(digits_value(p, 16), d, 16);
            lemma_small_mod(d as nat, 16);
        }
        assert(16 * digits_value(p, 16) + d == v) by (nonlinear_arith)
            requires
                v == digits_value(p, 16) * 16 + d,
        {}
        assert(p[0] == s[0]);
        lemma_digits_positive(p);
        lemma_hex_canonical(p);
        assert(p =~= hex_seq_spec(digits_value(p, 16) as nat));
        let n: nat = v as nat;
        assert(n != 0);
        assert(hex_seq_spec(n) == hex_seq_spec(n / 16).push(hex_char((n % 16) as int)));
        assert(n / 16 == digits_value(p, 16) && n % 16 == d);
        lemma_lower_hex_inverse(s.last());
        assert(s.last() == hex_char(d));
        assert(s =~= p.push(s.last()));
    }
}

/// A digit string is non-negative.
proof fn lemma_digits_nonneg(s: Seq<char>)
    requires
        digits_ok(s, 16),
    ensures
        digits_value(s, 16) >= 0,
    decreases s.len(),
{
    if s.len() > 0 {
        assert(forall|i: int|
            0 <= i < s.drop_last().len() ==> digit_val(#[trigger] s.drop_last()[i], 16) >= 0);
        lemma_digits_nonneg(s.drop_last());
    }
}

/// A digit string whose first digit is positive denotes a positive
/// value.
proof fn lemma_digits_positive(s: Seq<char>)
    requires
        s.len() >= 1,
        digits_ok(s, 16),
        digit_val(s[0], 16) > 0,
    ensures
        digits_value(s, 16) > 0,
    decreases s.len(),
{
    if s.len() == 1 {
    } else {
        assert(s.drop_last()[0] == s[0]);
        assert(forall|i: int|
            0 <= i < s.drop_last().len() ==> digit_val(#[trigger] s.drop_last()[i], 16) >= 0);
        lemma_digits_positive(s.drop_last());
        assert(digits_value(s, 16) == digits_value(s.drop_last(), 16) * 16 + digit_val(
            s.last(),
            16,
        ));
        assert(digits_value(s.drop_last(), 16) * 16 >= 16) by (nonlinear_arith)
            requires
                digits_value(s.drop_last(), 16) >= 1,
        {}
    }
}

/// A lowercase hexadecimal digit is the digit character of its value.
proof fn lemma_lower_hex_inverse(c: char)
    requires
        is_lower_hex_char(c),
        digit_val(c, 16) >= 0,
    ensures
        hex_char(digit_val(c, 16)) == c,
{
}

/// Format a value as lowercase hexadecimal without prefix or leading
/// zeros; zero formats as `0`. The result is the canonical hexadecimal
/// string of the value.
pub fn format_hex_u128(v: u128) -> (r: String)
    ensures
        r@ == hex_str_spec(v as nat),
        1 <= r@.len() <= 32,
        digits_ok(r@, 16),
        digits_value(r@, 16) == v,
        forall|i: int| 0 <= i < r@.len() ==> is_lower_hex_char(#[trigger] r@[i]),
        v == 0 ==> r@ =~= seq!['0'],
        v > 0 ==> digit_val(r@[0], 16) > 0,
{
    if v == 0 {
        let r = String::from_str("0");
        proof {
            reveal_strlit("0");
            assert(r@ =~= seq!['0']);
            assert(r@.drop_last() =~= Seq::<char>::empty());
            assert(digits_value(r@, 16) == digits_value(r@.drop_last(), 16) * 16 + digit_val(
                r@.last(),
                16,
            ));
        }
        return r;
    }
    let mut nibs: Vec<u8> = Vec::new();
    let mut x = v;
    proof {
        lemma2_to64();
        assert(nibbles_value(nibs@) == 0);
        assert(nibs@.len() == 0);
        assert(pow2((4 * nibs@.len()) as nat) == 1);
        assert(x * pow2((4 * nibs@.len()) as nat) == v) by (nonlinear_arith)
            requires
                x == v,
                pow2((4 * nibs@.len()) as nat) == 1,
        {}
    }
    while x > 0
        invariant
            nibbles_value(nibs@) + x * pow2((4 * nibs@.len()) as nat) == v,
            nibs@.len() <= 32,
            x > 0 ==> pow2((4 * nibs@.len()) as nat) <= v,
            forall|i: int| 0 <= i < nibs@.len() ==> #[trigger] nibs@[i] < 16,
            x == 0 && nibs@.len() > 0 ==> nibs@.last() != 0,
        decreases x,
    {
        let ghost len0 = nibs@.len();
        let nib = (x % 16) as u8;
        let x1 = x / 16;
        proof {
            lemma2_to64();
            lemma_nibbles_push(nibs@, nib);
            lemma_pow2_adds((4 * len0) as nat, 4);
            // v stays decomposed after moving one nibble out of x
            assert(x * pow2((4 * len0) as nat) == (x % 16) * pow2((4 * len0) as nat) + (x / 16)
                * pow2((4 * len0 + 4) as nat)) by (nonlinear_arith)
                requires
                    x >= 0,
                    pow2((4 * len0 + 4) as nat) == pow2((4 * len0) as nat) * 16,
            {}
            if x1 > 0 {
                assert(x1 * pow2((4 * len0 + 4) as nat) >= pow2((4 * len0 + 4) as nat))
                    by (nonlinear_arith)
                    requires
                        x1 >= 1,
                        pow2((4 * len0 + 4) as nat) >= 0,
                {}
                assert(nibbles_value(nibs@.push(nib)) >= 0) by {
                    lemma_nibbles_nonneg(nibs@.push(nib));
                }
            }
            if 4 * len0 + 4 > 128 {
                lemma_pow2_128();
                lemma_pow2_ordered(128, (4 * len0 + 4) as nat);
                assert(false);
            }
        }
        nibs.push(nib);
        x = x1;
    }
    let ghost nseq = nibs@;
    let mut out = String::new();
    let mut k = nibs.len();
    proof {
        assert(nseq.skip(k as int) =~= Seq::<u8>::empty());
    }
    while k > 0
        invariant
            k <= nseq.len() <= 32,
            nibs@ == nseq,
            nseq.len() > 0,
            forall|i: int| 0 <= i < nseq.len() ==> #[trigger] nseq[i] < 16,
            nseq.last() != 0,
            digits_value(out@, 16) == nibbles_value(nseq.skip(k as int)),
            out@.len() == nseq.len() - k,
            digits_ok(out@, 16),
            forall|i: int| 0 <= i < out@.len() ==> is_lower_hex_char(#[trigger] out@[i]),
            k < nseq.len() ==> digit_val(out@[0], 16) == nseq.last(),
        decreases k,
    {
        k = k - 1;
        let c = hex_char_exec(nibs[k]);
        let ghost out0 = out@;
        out.append(c);
        proof {
            lemma_hex_char_val(nseq[k as int] as int);
            assert(out@.drop_last() =~= out0);
            assert(out@.last() == hex_char(nseq[k as int] as int));
            assert(nseq.skip(k as int)[0] == nseq[k as int]);
            assert(nseq.skip(k as int).skip(1) =~= nseq.skip(k + 1));
            assert(digits_value(out@, 16) == digits_value(out0, 16) * 16 + nseq[k as int]);
        }
    }
    proof {
        assert(nseq.skip(0) =~= nseq);
        lemma_hex_canonical(out@);
    }
    out
}

/// Nibble sequences denote non-negative values.
proof fn lemma_nibbles_nonneg(d: Seq<u8>)
    ensures
        nibbles_value(d) >= 0,
    decreases d.len(),
{
    if d.len() > 0 {
        lemma_nibbles_nonneg(d.skip(1));
    }
}

/// `pow2` is monotone (non-strict).
pub proof fn lemma_pow2_ordered(a: nat, b: nat)
    requires
        a <= b,
    ensures
        pow2(a) <= pow2(b),
{
    if a < b {
        lemma_pow2_strictly_increases(a, b);
    }
}

/// `pow2(128)` as a concrete bound: one more than `u128::MAX`.
pub proof fn lemma_pow2_128()
    ensures
        pow2(128) == 0x100000000000000000000000000000000,
{
    lemma2_to64();
    lemma_pow2_adds(64, 64);
    assert(0x10000000000000000 * 0x10000000000000000
        == 0x100000000000000000000000000000000int) by (nonlinear_arith);
}

/// Compute `2^width` for widths below 128.
pub(crate) fn pow2_exec(width: u32) -> (r: u128)
    requires
        width < 128,
    ensures
        r == pow2(width as nat),
{
    let mut p: u128 = 1;
    let mut i: u32 = 0;
    assert(pow2(0) == 1) by {
        lemma2_to64();
    }
    while i < width
        invariant
            i <= width < 128,
            p == pow2(i as nat),
        decreases width - i,
    {
        proof {
            lemma_pow2_unfold((i + 1) as nat);
            lemma_pow2_ordered((i + 1) as nat, 127);
            lemma_pow2_128();
            lemma_pow2_strictly_increases(127, 128);
        }
        p = p * 2;
        i = i + 1;
    }
    p
}

/// Truncate a value to the given width: `val mod 2^width`.
fn mask_width(val: u128, width: u32) -> (r: u128)
    requires
        width <= 128,
    ensures
        r == val as int % pow2(width as nat) as int,
        r < pow2(width as nat),
{
    if width >= 128 {
        proof {
            lemma_pow2_128();
            lemma_small_mod(val as nat, pow2(128));
        }
        val
    } else {
        let p = pow2_exec(width);
        proof {
            lemma_pow2_pos(width as nat);
            lemma_mod_bound(val as int, p as int);
        }
        val % p
    }
}

} // verus!
