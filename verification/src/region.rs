//! Byte regions: contiguous, endian-tagged mappings of program bytes.
//!
//! A region covers the half-open address interval `[start, start + len)`
//! and owns its bytes. Reads and writes address the bytes at bit
//! granularity: a read of `n` bits loads the covering bytes, orders them
//! by the region's endianness and truncates to exactly `n` bits; a write
//! of `n` bits preserves every bit of the covering bytes that lies
//! outside the addressed window.

use vstd::prelude::*;
use vstd::arithmetic::power2::*;
use vstd::arithmetic::div_mod::*;
use vstd::slice::slice_subrange;

use crate::address::Addr;
use crate::bv::{BitVec, MAX_WIDTH};
use crate::bv;
use crate::entity::Entity;
use crate::id::Id;

verus! {

/// Byte order of a region.
#[derive(Clone, Copy, Debug, PartialEq, Eq, Structural, Hash)]
pub enum Endian {
    /// Most significant byte first.
    Big,
    /// Least significant byte first.
    Little,
}

impl Endian {
    /// Whether this is little-endian order.
    pub fn is_little(&self) -> (r: bool)
        ensures
            r == (*self is Little),
    {
        match *self {
            Endian::Little => true,
            Endian::Big => false,
        }
    }

    /// Whether this is big-endian order.
    pub fn is_big(&self) -> (r: bool)
        ensures
            r == (*self is Big),
    {
        match *self {
            Endian::Little => false,
            Endian::Big => true,
        }
    }
}

/// Errors from region reads and writes.
#[derive(Clone, Debug, PartialEq, Eq)]
pub enum RegionIOError {
    /// The byte range is not representable as a host index.
    Range(String),
    /// An out-of-bounds read; carries the region's name.
    OOBRead(String),
    /// An out-of-bounds write; carries the region's name.
    OOBWrite(String),
}

/// A named, endian-tagged mapping of bytes at an address interval.
#[derive(Debug)]
pub struct Region {
    name: String,
    start: Addr,
    endian: Endian,
    bytes: Vec<u8>,
}

/// A half-open address interval `[start, end)`.
#[derive(Clone, Copy, Debug)]
pub struct AddrInterval {
    /// First address covered.
    pub start: Addr,
    /// First address past the covered range.
    pub end: Addr,
}

impl Region {
    /// The bytes.
    pub closed spec fn mem(&self) -> Seq<u8> {
        self.bytes@
    }

    /// The start address value.
    pub closed spec fn start_val(&self) -> int {
        self.start.value()
    }

    /// The address width, in bits.
    pub closed spec fn addr_width(&self) -> int {
        self.start.width()
    }

    /// The byte order.
    pub closed spec fn endian_spec(&self) -> Endian {
        self.endian
    }

    /// The name.
    pub closed spec fn name_spec(&self) -> Seq<char> {
        self.name@
    }

    /// The length in bytes.
    pub open spec fn len_spec(&self) -> int {
        self.mem().len() as int
    }

    /// A region is never empty, and its interval does not wrap at the
    /// address width.
    #[verifier::type_invariant]
    pub closed spec fn wf(&self) -> bool {
        &&& self.bytes@.len() > 0
        &&& self.start.value() + self.bytes@.len() < pow2(self.start.width() as nat)
    }

    /// The validity of a region, stated over its public view.
    pub open spec fn valid(&self) -> bool {
        &&& self.len_spec() > 0
        &&& 0 < self.addr_width() <= MAX_WIDTH
        &&& 0 <= self.start_val()
        &&& self.start_val() + self.len_spec() < pow2(self.addr_width() as nat)
    }

    /// Every `Region` held by executable code is valid; this exposes
    /// that invariant.
    pub fn check(&self)
        ensures
            self.valid(),
    {
        proof {
            use_type_invariant(self);
        }
        self.start.check();
    }

    /// Whether the address value `a` lies inside the region.
    pub open spec fn contains_spec(&self, a: int) -> bool {
        self.start_val() <= a < self.start_val() + self.len_spec()
    }

    /// Whether `[a, a + count)` is a non-empty range inside the region.
    pub open spec fn contains_range_spec(&self, a: int, count: int) -> bool {
        count > 0 && self.start_val() <= a && a + count <= self.start_val() + self.len_spec()
    }

    /// Build a region under the given id. The byte buffer must be
    /// non-empty, and the interval `[addr, addr + len)` must not wrap at
    /// the address width.
    pub fn new_with(id: Id<Region>, name: String, addr: Addr, endian: Endian, bytes: Vec<u8>) -> (r:
        Entity<Region>)
        requires
            bytes@.len() > 0,
            addr.value() + bytes@.len() < pow2(addr.width() as nat),
        ensures
            r.id_spec() == id,
            r.value_spec().mem() == bytes@,
            r.value_spec().start_val() == addr.value(),
            r.value_spec().addr_width() == addr.width(),
            r.value_spec().endian_spec() == endian,
            r.value_spec().name_spec() == name@,
    {
        Entity::from_parts(id, Region { name, start: addr, endian, bytes })
    }

    /// Build a region under a freshly minted id.
    pub fn new(name: String, addr: Addr, endian: Endian, bytes: Vec<u8>) -> (r: Entity<Region>)
        requires
            bytes@.len() > 0,
            addr.value() + bytes@.len() < pow2(addr.width() as nat),
        ensures
            r.value_spec().mem() == bytes@,
            r.value_spec().start_val() == addr.value(),
            r.value_spec().addr_width() == addr.width(),
            r.value_spec().endian_spec() == endian,
            r.value_spec().name_spec() == name@,
    {
        Self::new_with(Id::new("region"), name, addr, endian, bytes)
    }

    /// The covered half-open interval `[start, start + len)`.
    pub fn interval(&self) -> (r: AddrInterval)
        ensures
            r.start.value() == self.start_val(),
            r.start.width() == self.addr_width(),
            r.end.value() == self.start_val() + self.len_spec(),
            r.end.width() == self.addr_width(),
    {
        self.start.check();
        proof {
            use_type_invariant(self);
            lemma_small_mod(
                (self.start.value() + self.bytes@.len()) as nat,
                pow2(self.start.width() as nat),
            );
        }
        let end = self.start.add_usize(self.bytes.len());
        AddrInterval { start: self.start, end }
    }

    /// The name.
    pub fn name(&self) -> (r: &String)
        ensures
            r@ == self.name_spec(),
    {
        &self.name
    }

    /// The start address.
    pub fn address(&self) -> (r: Addr)
        ensures
            r.value() == self.start_val(),
            r.width() == self.addr_width(),
    {
        self.start
    }

    /// The address width, in bits.
    pub fn address_size(&self) -> (r: u32)
        ensures
            r == self.addr_width(),
    {
        self.start.bits()
    }

    /// The byte order.
    pub fn endian(&self) -> (r: Endian)
        ensures
            r == self.endian_spec(),
    {
        self.endian
    }

    /// The bytes.
    pub fn bytes(&self) -> (r: &[u8])
        ensures
            r@ == self.mem(),
    {
        self.bytes.as_slice()
    }

    /// The length in bytes.
    pub fn len(&self) -> (r: usize)
        ensures
            r == self.len_spec(),
            r > 0,
    {
        proof {
            use_type_invariant(self);
        }
        self.bytes.len()
    }

    /// Whether `[addr, addr + count)` is a non-empty in-bounds range.
    pub fn contains_range(&self, addr: &Addr, count: usize) -> (r: bool)
        ensures
            r == self.contains_range_spec(addr.value(), count as int),
    {
        proof {
            use_type_invariant(self);
        }
        let a = addr.value_u128();
        let s = self.start.value_u128();
        self.start.check();
        addr.check();
        let n = self.bytes.len();
        let r = count > 0 && a >= s && count as u128 <= n as u128 && a - s <= n as u128
            - count as u128;
        proof {
            assert(r == self.contains_range_spec(addr.value(), count as int));
        }
        r
    }

    /// The in-region offset of an in-bounds address.
    fn offset_of(&self, addr: &Addr) -> (r: usize)
        requires
            self.contains_spec(addr.value()),
        ensures
            r == addr.value() - self.start_val(),
    {
        proof {
            use_type_invariant(self);
        }
        let n = self.bytes.len();
        (addr.value_u128() - self.start.value_u128()) as usize
    }

    /// View the bytes from `addr` to the region's end. Fails with
    /// `OOBRead` when `addr` lies outside the region.
    pub fn view_bytes_from(&self, addr: &Addr) -> (r: Result<&[u8], RegionIOError>)
        ensures
            r is Ok <==> self.contains_spec(addr.value()),
            r matches Ok(sl) ==> sl@ == self.mem().skip(addr.value() - self.start_val()),
            r matches Err(e) ==> e matches RegionIOError::OOBRead(n) && n@ == self.name_spec(),
    {
        proof {
            use_type_invariant(self);
        }
        self.start.check();
        addr.check();
        let a = addr.value_u128();
        let s = self.start.value_u128();
        if !(a >= s && a - s < self.bytes.len() as u128) {
            return Err(RegionIOError::OOBRead(self.name.clone()));
        }
        let off = self.offset_of(addr);
        let sl = slice_subrange(self.bytes.as_slice(), off, self.bytes.len());
        proof {
            assert(sl@ =~= self.mem().skip(addr.value() - self.start_val()));
        }
        Ok(sl)
    }

    /// View `count` bytes starting at `addr`. Fails with `OOBRead` when
    /// the range is empty or exceeds the region.
    pub fn view_bytes(&self, addr: &Addr, count: usize) -> (r: Result<&[u8], RegionIOError>)
        ensures
            r is Ok <==> self.contains_range_spec(addr.value(), count as int),
            r matches Ok(sl) ==> {
                let off = addr.value() - self.start_val();
                sl@ == self.mem().subrange(off, off + count)
            },
            r matches Err(e) ==> e matches RegionIOError::OOBRead(n) && n@ == self.name_spec(),
    {
        proof {
            use_type_invariant(self);
        }
        if !self.contains_range(addr, count) {
            return Err(RegionIOError::OOBRead(self.name.clone()));
        }
        self.start.check();
        addr.check();
        let n = self.bytes.len();
        let off = self.offset_of(addr);
        Ok(slice_subrange(self.bytes.as_slice(), off, off + count))
    }
}

/// The value of a byte string read little-endian: the first byte is the
/// least significant.
pub open spec fn le_val(b: Seq<u8>) -> int
    decreases b.len(),
{
    if b.len() == 0 {
        0
    } else {
        b[0] + 256 * le_val(b.skip(1))
    }
}

/// The value of a byte string read big-endian: the last byte is the
/// least significant.
pub open spec fn be_val(b: Seq<u8>) -> int
    decreases b.len(),
{
    if b.len() == 0 {
        0
    } else {
        be_val(b.drop_last()) * 256 + b.last()
    }
}

/// The `n`-byte little-endian encoding of a value.
pub open spec fn le_bytes(v: int, n: nat) -> Seq<u8>
    decreases n,
{
    if n == 0 {
        Seq::empty()
    } else {
        seq![(v % 256) as u8] + le_bytes(v / 256, (n - 1) as nat)
    }
}

/// The `n`-byte big-endian encoding of a value.
pub open spec fn be_bytes(v: int, n: nat) -> Seq<u8>
    decreases n,
{
    if n == 0 {
        Seq::empty()
    } else {
        be_bytes(v / 256, (n - 1) as nat).push((v % 256) as u8)
    }
}

/// A byte string's little-endian value is bounded by `2^(8 len)`.
pub proof fn lemma_le_val_bound(b: Seq<u8>)
    ensures
        0 <= le_val(b) < pow2((8 * b.len()) as nat),
    decreases b.len(),
{
    lemma2_to64();
    if b.len() == 0 {
    } else {
        lemma_le_val_bound(b.skip(1));
        lemma_pow2_adds(8, (8 * (b.len() - 1)) as nat);
        assert(b[0] + 256 * le_val(b.skip(1)) < 256 * pow2((8 * (b.len() - 1)) as nat))
            by (nonlinear_arith)
            requires
                0 <= b[0] < 256,
                le_val(b.skip(1)) < pow2((8 * (b.len() - 1)) as nat),
        {}
        assert(256 * le_val(b.skip(1)) >= 0) by (nonlinear_arith)
            requires
                le_val(b.skip(1)) >= 0,
        {}
    }
}

/// A byte string's big-endian value is bounded by `2^(8 len)`.
pub proof fn lemma_be_val_bound(b: Seq<u8>)
    ensures
        0 <= be_val(b) < pow2((8 * b.len()) as nat),
    decreases b.len(),
{
    lemma2_to64();
    if b.len() == 0 {
    } else {
        lemma_be_val_bound(b.drop_last());
        lemma_pow2_adds((8 * (b.len() - 1)) as nat, 8);
        assert(be_val(b.drop_last()) * 256 + b.last() < pow2((8 * (b.len() - 1)) as nat) * 256)
            by (nonlinear_arith)
            requires
                0 <= b.last() < 256,
                be_val(b.drop_last()) < pow2((8 * (b.len() - 1)) as nat),
        {}
        assert(be_val(b.drop_last()) * 256 >= 0) by (nonlinear_arith)
            requires
                be_val(b.drop_last()) >= 0,
        {}
    }
}

/// Little-endian encoding inverts to the encoded value, for values that
/// fit the width.
pub proof fn lemma_le_bytes_val(v: int, n: nat)
    requires
        0 <= v < pow2((8 * n) as nat),
    ensures
        le_bytes(v, n).len() == n,
        le_val(le_bytes(v, n)) == v,
        forall|j: int| 0 <= j < n ==> 0 <= #[trigger] le_bytes(v, n)[j] < 256,
    decreases n,
{
    lemma2_to64();
    if n == 0 {
    } else {
        lemma_pow2_adds(8, (8 * (n - 1)) as nat);
        lemma_pow2_pos((8 * (n - 1)) as nat);
        assert(0 <= v / 256 < pow2((8 * (n - 1)) as nat)) by (nonlinear_arith)
            requires
                0 <= v < pow2((8 * n) as nat),
                pow2((8 * n) as nat) == 256 * pow2((8 * (n - 1)) as nat),
        {}
        lemma_le_bytes_val(v / 256, (n - 1) as nat);
        let b = le_bytes(v, n);
        assert(b.skip(1) =~= le_bytes(v / 256, (n - 1) as nat));
        lemma_fundamental_div_mod(v, 256);
        assert(le_val(b) == v % 256 + 256 * (v / 256));
    }
}

/// Big-endian encoding inverts to the encoded value, for values that
/// fit the width.
pub proof fn lemma_be_bytes_val(v: int, n: nat)
    requires
        0 <= v < pow2((8 * n) as nat),
    ensures
        be_bytes(v, n).len() == n,
        be_val(be_bytes(v, n)) == v,
        forall|j: int| 0 <= j < n ==> 0 <= #[trigger] be_bytes(v, n)[j] < 256,
    decreases n,
{
    lemma2_to64();
    if n == 0 {
    } else {
        lemma_pow2_adds(8, (8 * (n - 1)) as nat);
        lemma_pow2_pos((8 * (n - 1)) as nat);
        assert(0 <= v / 256 < pow2((8 * (n - 1)) as nat)) by (nonlinear_arith)
            requires
                0 <= v < pow2((8 * n) as nat),
                pow2((8 * n) as nat) == 256 * pow2((8 * (n - 1)) as nat),
        {}
        lemma_be_bytes_val(v / 256, (n - 1) as nat);
        let b = be_bytes(v, n);
        assert(b.drop_last() =~= be_bytes(v / 256, (n - 1) as nat));
        assert(b.last() == (v % 256) as u8);
        lemma_fundamental_div_mod(v, 256);
    }
}

/// Bytes needed to cover `bits` bits.
pub open spec fn count_of_bits(bits: int) -> int {
    bits / 8 + if bits % 8 == 0 {
        0int
    } else {
        1int
    }
}

/// Unused low bits of the covering bytes in big-endian order.
pub open spec fn shift_of_bits(bits: int) -> int {
    if bits % 8 == 0 {
        0
    } else {
        8 - bits % 8
    }
}

/// The value read by `read_bits` from memory `m` at byte offset `off`:
/// the covering bytes interpreted in the given byte order, shifted and
/// truncated to exactly `bits` bits.
pub open spec fn read_bits_spec(m: Seq<u8>, off: int, bits: int, e: Endian) -> int {
    let w = m.subrange(off, off + count_of_bits(bits));
    if e is Little {
        le_val(w) % pow2(bits as nat) as int
    } else {
        (be_val(w) / pow2(shift_of_bits(bits) as nat) as int) % pow2(bits as nat) as int
    }
}

/// `2^e` for small exponents.
fn pow2_small(e: u32) -> (r: u128)
    requires
        e <= 8,
    ensures
        r == pow2(e as nat),
        r >= 1,
{
    proof {
        lemma2_to64();
    }
    match e {
        0 => 1,
        1 => 2,
        2 => 4,
        3 => 8,
        4 => 16,
        5 => 32,
        6 => 64,
        7 => 128,
        _ => 256,
    }
}

impl Region {
    /// Load the little-endian value of `count` in-bounds bytes starting
    /// at in-region offset `off`.
    fn load_le(&self, off: usize, count: usize) -> (r: u128)
        requires
            off + count <= self.mem().len(),
            count <= 16,
        ensures
            r == le_val(self.mem().subrange(off as int, off + count)),
    {
        let ghost w = self.mem().subrange(off as int, off + count);
        let n = self.bytes.len();
        let mut val: u128 = 0;
        let mut k = count;
        proof {
            lemma2_to64();
            assert(w.skip(count as int) =~= Seq::<u8>::empty());
        }
        while k > 0
            invariant
                k <= count <= 16,
                off + count <= self.mem().len() <= usize::MAX,
                w == self.mem().subrange(off as int, off + count),
                val == le_val(w.skip(k as int)),
                0 <= val < pow2((8 * (count - k)) as nat),
            decreases k,
        {
            k = k - 1;
            let b = self.bytes[off + k];
            proof {
                lemma2_to64();
                assert(w.skip(k as int)[0] == self.mem()[off + k]);
                assert(w.skip(k as int).skip(1) =~= w.skip(k + 1));
                lemma_pow2_adds(8, (8 * (count - k - 1)) as nat);
                crate::bv::lemma_pow2_ordered((8 * (count - k)) as nat, 128);
                crate::bv::lemma_pow2_128();
                assert(b + 256 * val < pow2((8 * (count - k)) as nat)) by (nonlinear_arith)
                    requires
                        0 <= b < 256,
                        0 <= val < pow2((8 * (count - k - 1)) as nat),
                        pow2((8 * (count - k)) as nat) == 256 * pow2((8 * (count - k - 1)) as nat),
                {}
            }
            val = (b as u128) + 256 * val;
        }
        proof {
            assert(w.skip(0) =~= w);
        }
        val
    }

    /// Load the big-endian value of `count` in-bounds bytes starting at
    /// in-region offset `off`.
    fn load_be(&self, off: usize, count: usize) -> (r: u128)
        requires
            off + count <= self.mem().len(),
            count <= 16,
        ensures
            r == be_val(self.mem().subrange(off as int, off + count)),
    {
        let ghost w = self.mem().subrange(off as int, off + count);
        let n = self.bytes.len();
        let mut val: u128 = 0;
        let mut i: usize = 0;
        proof {
            lemma2_to64();
            assert(w.take(0) =~= Seq::<u8>::empty());
        }
        while i < count
            invariant
                i <= count <= 16,
                off + count <= self.mem().len() <= usize::MAX,
                w == self.mem().subrange(off as int, off + count),
                val == be_val(w.take(i as int)),
                0 <= val < pow2((8 * i) as nat),
            decreases count - i,
        {
            let b = self.bytes[off + i];
            proof {
                lemma2_to64();
                assert(w.take(i + 1).drop_last() =~= w.take(i as int));
                assert(w.take(i + 1).last() == self.mem()[off + i]);
                lemma_pow2_adds((8 * i) as nat, 8);
                crate::bv::lemma_pow2_ordered((8 * (i + 1)) as nat, 128);
                crate::bv::lemma_pow2_128();
                assert(val * 256 + b < pow2((8 * (i + 1)) as nat)) by (nonlinear_arith)
                    requires
                        0 <= b < 256,
                        0 <= val < pow2((8 * i) as nat),
                        pow2((8 * (i + 1)) as nat) == pow2((8 * i) as nat) * 256,
                {}
            }
            val = val * 256 + (b as u128);
            i = i + 1;
        }
        proof {
            assert(w.take(count as int) =~= w);
        }
        val
    }

    /// Read `bits` bits at `addr` as an unsigned bit-vector of width
    /// exactly `bits`. The covering bytes are interpreted by the
    /// region's byte order; for bit counts that are not a byte multiple,
    /// the most significant bits are truncated under little-endian order
    /// and the least significant bits are shifted out first under
    /// big-endian order. Fails with `OOBRead` when the covering bytes
    /// are not in bounds; a zero bit count reads no byte and fails.
    pub fn read_bits(&self, addr: &Addr, bits: u32) -> (r: Result<BitVec, RegionIOError>)
        requires
            bits <= MAX_WIDTH,
        ensures
            r is Ok <==> self.contains_range_spec(addr.value(), count_of_bits(bits as int)),
            r matches Ok(bv) ==> {
                &&& bv.w() == bits
                &&& bv.sgn() == false
                &&& bv.v() == read_bits_spec(
                    self.mem(),
                    addr.value() - self.start_val(),
                    bits as int,
                    self.endian_spec(),
                )
            },
            r matches Err(e) ==> e matches RegionIOError::OOBRead(n) && n@ == self.name_spec(),
    {
        let aligned = bits % 8 == 0;
        let count = (bits / 8 + if aligned {
            0u32
        } else {
            1u32
        }) as usize;
        if !self.contains_range(addr, count) {
            return Err(RegionIOError::OOBRead(self.name.clone()));
        }
        let off = self.offset_of(addr);
        proof {
            use_type_invariant(self);
        }
        let v = if self.endian.is_little() {
            self.load_le(off, count)
        } else {
            let raw = self.load_be(off, count);
            let sh: u32 = if aligned {
                0
            } else {
                8 - bits % 8
            };
            raw / pow2_small(sh)
        };
        Ok(BitVec::new_truncated(v, bits, false))
    }
}

/// The big-endian encoding is the little-endian encoding reversed.
proof fn lemma_be_le_index(v: int, n: nat, j: int)
    requires
        0 <= j < n,
    ensures
        be_bytes(v, n)[j] == le_bytes(v, n)[n - 1 - j],
    decreases n,
{
    lemma_bytes_len(v, n);
    lemma_bytes_len(v / 256, (n - 1) as nat);
    if j == n - 1 {
        assert(le_bytes(v, n)[0] == (v % 256) as u8);
    } else {
        lemma_be_le_index(v / 256, (n - 1) as nat, j);
        assert(be_bytes(v, n)[j] == be_bytes(v / 256, (n - 1) as nat)[j]);
        assert(le_bytes(v, n)[n - 1 - j] == le_bytes(v / 256, (n - 1) as nat)[n - 2 - j]);
    }
}

/// The encoding lengths.
proof fn lemma_bytes_len(v: int, n: nat)
    ensures
        le_bytes(v, n).len() == n,
        be_bytes(v, n).len() == n,
    decreases n,
{
    if n > 0 {
        lemma_bytes_len(v / 256, (n - 1) as nat);
    }
}

/// The covering bytes of a write, combined from the written value and
/// the bits of the old window that lie outside the addressed range.
///
/// Little-endian: the value occupies the low `bits` bits of the window
/// and the old high bits stay. Big-endian: the value is shifted left so
/// its least significant bit sits above the window's unused low bits,
/// which stay.
pub open spec fn write_window(w: Seq<u8>, v: int, bits: int, e: Endian) -> Seq<u8> {
    let count = count_of_bits(bits);
    let sh = shift_of_bits(bits);
    if e is Little {
        le_bytes(v + (le_val(w) / pow2(bits as nat) as int) * pow2(bits as nat) as int, count as nat)
    } else {
        be_bytes(v * pow2(sh as nat) as int + be_val(w) % pow2(sh as nat) as int, count as nat)
    }
}

/// The bytes after `write_bits` of value `v` (of width `bits`) at byte
/// offset `off`: only the covering bytes change, to `write_window`.
pub open spec fn write_bits_spec(m: Seq<u8>, off: int, v: int, bits: int, e: Endian) -> Seq<u8> {
    m.take(off) + write_window(m.subrange(off, off + count_of_bits(bits)), v, bits, e) + m.skip(
        off + count_of_bits(bits),
    )
}

impl Region {
    /// Write the bit-vector `bv` at `addr`. The covering bytes are
    /// replaced by the value laid out in the region's byte order; for
    /// bit counts that are not a byte multiple, every bit of the
    /// covering bytes outside the addressed window keeps its old value.
    /// Fails with `OOBWrite`, leaving the region unchanged, when the
    /// covering bytes are not in bounds.
    pub fn write_bits(&mut self, addr: &Addr, bv: &BitVec) -> (r: Result<(), RegionIOError>)
        ensures
            r is Ok <==> old(self).contains_range_spec(addr.value(), count_of_bits(bv.w())),
            final(self).start_val() == old(self).start_val(),
            final(self).addr_width() == old(self).addr_width(),
            final(self).endian_spec() == old(self).endian_spec(),
            final(self).name_spec() == old(self).name_spec(),
            r is Ok ==> final(self).mem() == write_bits_spec(
                old(self).mem(),
                addr.value() - old(self).start_val(),
                bv.v(),
                bv.w(),
                old(self).endian_spec(),
            ),
            r is Err ==> final(self).mem() == old(self).mem(),
            r matches Err(e) ==> e matches RegionIOError::OOBWrite(n) && n@ == old(
                self,
            ).name_spec(),
    {
        let bits = bv.bits();
        let aligned = bits % 8 == 0;
        let count = (bits / 8 + if aligned {
            0u32
        } else {
            1u32
        }) as usize;
        if !self.contains_range(addr, count) {
            return Err(RegionIOError::OOBWrite(self.name.clone()));
        }
        let off = self.offset_of(addr);
        let n = self.bytes.len();
        proof {
            use_type_invariant(&*self);
            lemma2_to64();
        }
        let ghost m = self.mem();
        let ghost w = self.mem().subrange(off as int, off + count);
        let v = bv.value_u128();
        let little = self.endian.is_little();
        let combined: u128 = if little {
            let orig = self.load_le(off, count);
            proof {
                lemma_le_val_bound(w);
            }
            if bits >= 128 {
                proof {
                    bv::lemma_pow2_128();
                    assert(count == 16 && 8 * count == 128);
                    lemma_basic_div(orig as int, pow2(128) as int);
                    assert((le_val(w) / pow2(bits as nat) as int) * pow2(bits as nat) as int
                        == 0) by (nonlinear_arith)
                        requires
                            le_val(w) / pow2(bits as nat) as int == 0,
                    {}
                }
                v
            } else {
                let p = bv::pow2_exec(bits);
                let q = orig / p;
                proof {
                    lemma_pow2_pos(bits as nat);
                    lemma_mod_bound(orig as int, p as int);
                    lemma_fundamental_div_mod(orig as int, p as int);
                    assert(q * p <= orig) by (nonlinear_arith)
                        requires
                            orig == p * q + orig % p,
                            orig % p >= 0,
                            q == orig / p,
                    {}
                    lemma_pow2_adds(bits as nat, (8 * count - bits) as nat);
                    lemma_pow2_pos((8 * count - bits) as nat);
                    lemma_multiply_divide_lt(
                        orig as int,
                        p as int,
                        pow2((8 * count - bits) as nat) as int,
                    );
                    assert(v + q * p < pow2((8 * count) as nat)) by (nonlinear_arith)
                        requires
                            0 <= v < p,
                            q < pow2((8 * count - bits) as nat),
                            q >= 0,
                            pow2((8 * count) as nat) == p * pow2((8 * count - bits) as nat),
                            p >= 1,
                    {}
                    crate::bv::lemma_pow2_ordered((8 * count) as nat, 128);
                    bv::lemma_pow2_128();
                }
                v + q * p
            }
        } else {
            let orig = self.load_be(off, count);
            let sh: u32 = if aligned {
                0
            } else {
                8 - bits % 8
            };
            let psh = pow2_small(sh);
            proof {
                lemma_be_val_bound(w);
                lemma_mod_bound(orig as int, psh as int);
                lemma_pow2_adds(bits as nat, sh as nat);
                assert(v * psh + psh <= pow2((bits + sh) as nat)) by (nonlinear_arith)
                    requires
                        0 <= v < pow2(bits as nat),
                        psh == pow2(sh as nat),
                        psh >= 1,
                        pow2((bits + sh) as nat) == pow2(bits as nat) * pow2(sh as nat),
                {}
                assert(bits + sh == 8 * count);
                crate::bv::lemma_pow2_ordered((8 * count) as nat, 128);
                bv::lemma_pow2_128();
            }
            v * psh + orig % psh
        };
        let ghost wnew = write_window(w, bv.v(), bits as int, self.endian_spec());
        proof {
            if little {
                assert(wnew == le_bytes(combined as int, count as nat));
            } else {
                assert(wnew == be_bytes(combined as int, count as nat));
            }
            lemma_bytes_len(combined as int, count as nat);
        }
        // lay the combined value out least-significant byte first
        let mut tmp: Vec<u8> = Vec::new();
        let mut c = combined;
        let mut i: usize = 0;
        proof {
            assert(le_bytes(combined as int, count as nat) =~= tmp@ + le_bytes(
                combined as int,
                count as nat,
            ));
        }
        while i < count
            invariant
                i <= count,
                tmp@.len() == i,
                le_bytes(combined as int, count as nat) =~= tmp@ + le_bytes(
                    c as int,
                    (count - i) as nat,
                ),
            decreases count - i,
        {
            proof {
                assert(le_bytes(c as int, (count - i) as nat) == seq![(c as int % 256) as u8]
                    + le_bytes(c as int / 256, (count - i - 1) as nat));
                assert(tmp@.push((c % 256) as u8) + le_bytes(c as int / 256, (count - i - 1) as nat)
                    =~= tmp@ + le_bytes(c as int, (count - i) as nat));
            }
            tmp.push((c % 256) as u8);
            c = c / 256;
            i = i + 1;
        }
        proof {
            assert(le_bytes(c as int, 0) =~= Seq::<u8>::empty());
            assert(tmp@ + le_bytes(c as int, 0) =~= tmp@);
            assert(tmp@ == le_bytes(combined as int, count as nat));
        }
        // assemble the new buffer: prefix, window, suffix
        let mut nb: Vec<u8> = Vec::new();
        let mut j: usize = 0;
        while j < off
            invariant
                j <= off,
                off + count <= n == self.mem().len(),
                m == self.mem(),
                nb@ =~= m.take(j as int),
            decreases off - j,
        {
            let b = self.bytes[j];
            proof {
                assert(m.take(j + 1) =~= m.take(j as int).push(m[j as int]));
            }
            nb.push(b);
            j = j + 1;
        }
        proof {
            if !little {
                assert forall|k: int| 0 <= k < count implies wnew[k] == tmp@[count - 1 - k] by {
                    lemma_be_le_index(combined as int, count as nat, k);
                }
            }
        }
        let mut i: usize = 0;
        while i < count
            invariant
                i <= count,
                off + count <= n == self.mem().len(),
                m == self.mem(),
                tmp@ == le_bytes(combined as int, count as nat),
                tmp@.len() == count,
                wnew == write_window(w, bv.v(), bits as int, self.endian_spec()),
                wnew.len() == count,
                little == (self.endian_spec() is Little),
                little ==> wnew == tmp@,
                !little ==> (forall|k: int|
                    0 <= k < count ==> wnew[k] == tmp@[count - 1 - k]),
                nb@ =~= m.take(off as int) + wnew.take(i as int),
            decreases count - i,
        {
            let b = if little {
                tmp[i]
            } else {
                tmp[count - 1 - i]
            };
            proof {
                assert(wnew.take(i + 1) =~= wnew.take(i as int).push(wnew[i as int]));
                assert(m.take(off as int) + wnew.take(i + 1) =~= (m.take(off as int) + wnew.take(
                    i as int,
                )).push(wnew[i as int]));
            }
            nb.push(b);
            i = i + 1;
        }
        let mut j: usize = off + count;
        proof {
            assert(wnew.take(count as int) =~= wnew);
        }
        while j < n
            invariant
                off + count <= j <= n,
                n == self.mem().len(),
                m == self.mem(),
                wnew.len() == count,
                nb@ =~= m.take(off as int) + wnew + m.subrange(off + count, j as int),
            decreases n - j,
        {
            let b = self.bytes[j];
            proof {
                assert(m.subrange(off + count, j + 1) =~= m.subrange(off + count, j as int).push(
                    m[j as int],
                ));
                assert(m.take(off as int) + wnew + m.subrange(off + count, j + 1) =~= (m.take(
                    off as int,
                ) + wnew + m.subrange(off + count, j as int)).push(m[j as int]));
            }
            nb.push(b);
            j = j + 1;
        }
        proof {
            assert(m.subrange(off + count, n as int) =~= m.skip(off + count));
            assert(nb@ =~= write_bits_spec(
                m,
                off as int,
                bv.v(),
                bits as int,
                self.endian_spec(),
            ));
            use_type_invariant(&*self);
        }
        self.bytes = nb;
        Ok(())
    }
}

/// The bit count, the shift and the byte count of a window fit
/// together: `bits + shift == 8 * count`.
proof fn lemma_bits_geometry(bits: int)
    requires
        0 < bits,
    ensures
        bits + shift_of_bits(bits) == 8 * count_of_bits(bits),
        count_of_bits(bits) > 0,
        0 <= shift_of_bits(bits) < 8,
{
    lemma_fundamental_div_mod(bits, 8);
    lemma_mod_bound(bits, 8);
    lemma_div_pos_is_pos(bits, 8);
}

/// What the written window's value is, in the region's byte order: the
/// written value sits in its bit range, and the remaining bits carry
/// over from the old window.
proof fn lemma_window_value(w: Seq<u8>, v: int, bits: int, e: Endian)
    requires
        0 < bits <= 128,
        0 <= v < pow2(bits as nat),
        w.len() == count_of_bits(bits),
    ensures
        write_window(w, v, bits, e).len() == count_of_bits(bits),
        e is Little ==> le_val(write_window(w, v, bits, e)) == v + (le_val(w) / pow2(
            bits as nat,
        ) as int) * pow2(bits as nat) as int,
        e is Big ==> be_val(write_window(w, v, bits, e)) == v * pow2(
            shift_of_bits(bits) as nat,
        ) as int + be_val(w) % pow2(shift_of_bits(bits) as nat) as int,
{
    let count = count_of_bits(bits);
    let sh = shift_of_bits(bits);
    lemma_bits_geometry(bits);
    lemma_pow2_pos(bits as nat);
    lemma_pow2_pos(sh as nat);
    lemma_pow2_adds(bits as nat, sh as nat);
    if e is Little {
        let p = pow2(bits as nat) as int;
        let q = le_val(w) / p;
        let combined = v + q * p;
        lemma_le_val_bound(w);
        lemma_multiply_divide_lt(le_val(w), p, pow2(sh as nat) as int);
        lemma_div_pos_is_pos(le_val(w), p);
        assert(0 <= combined < pow2((8 * count) as nat)) by (nonlinear_arith)
            requires
                combined == v + q * p,
                0 <= v < p,
                0 <= q < pow2(sh as nat),
                pow2((8 * count) as nat) == p * pow2(sh as nat),
                p >= 1,
        {}
        lemma_le_bytes_val(combined, count as nat);
    } else {
        let psh = pow2(sh as nat) as int;
        let r = be_val(w) % psh;
        let combined = v * psh + r;
        lemma_be_val_bound(w);
        lemma_mod_bound(be_val(w), psh);
        assert(0 <= combined < pow2((8 * count) as nat)) by (nonlinear_arith)
            requires
                combined == v * psh + r,
                0 <= v < pow2(bits as nat),
                0 <= r < psh,
                pow2((8 * count) as nat) == pow2(bits as nat) * psh,
                psh >= 1,
        {}
        lemma_be_bytes_val(combined, count as nat);
    }
}

/// After a write, the window of the written bytes is the written window.
proof fn lemma_write_bits_window(m: Seq<u8>, off: int, v: int, bits: int, e: Endian)
    requires
        0 < bits <= 128,
        0 <= v < pow2(bits as nat),
        0 <= off,
        off + count_of_bits(bits) <= m.len(),
    ensures
        write_bits_spec(m, off, v, bits, e).len() == m.len(),
        write_bits_spec(m, off, v, bits, e).subrange(off, off + count_of_bits(bits))
            =~= write_window(m.subrange(off, off + count_of_bits(bits)), v, bits, e),
        forall|j: int|
            0 <= j < m.len() && !(off <= j < off + count_of_bits(bits))
                ==> #[trigger] write_bits_spec(m, off, v, bits, e)[j] == m[j],
{
    lemma_bits_geometry(bits);
    lemma_window_value(m.subrange(off, off + count_of_bits(bits)), v, bits, e);
}

/// Writing a value of width `bits` at an offset and reading `bits` bits
/// back at the same offset yields exactly the written value, under
/// either byte order.
pub proof fn lemma_write_read_roundtrip(m: Seq<u8>, off: int, v: int, bits: int, e: Endian)
    requires
        0 < bits <= 128,
        0 <= v < pow2(bits as nat),
        0 <= off,
        off + count_of_bits(bits) <= m.len(),
    ensures
        read_bits_spec(write_bits_spec(m, off, v, bits, e), off, bits, e) == v,
{
    let count = count_of_bits(bits);
    let sh = shift_of_bits(bits);
    let w = m.subrange(off, off + count);
    let wnew = write_window(w, v, bits, e);
    lemma_bits_geometry(bits);
    lemma_window_value(w, v, bits, e);
    lemma_write_bits_window(m, off, v, bits, e);
    let p = pow2(bits as nat) as int;
    let psh = pow2(sh as nat) as int;
    lemma_pow2_pos(bits as nat);
    lemma_pow2_pos(sh as nat);
    if e is Little {
        let q = le_val(w) / p;
        assert(le_val(wnew) == v + q * p);
        assert((v + q * p) % p == v) by {
            assert(v + q * p == p * q + v) by (nonlinear_arith);
            lemma_mod_multiples_vanish(q, v, p);
            lemma_small_mod(v as nat, p as nat);
        }
    } else {
        let r = be_val(w) % psh;
        assert(be_val(wnew) == v * psh + r);
        assert((v * psh + r) / psh == v) by {
            assert(v * psh + r == psh * v + r) by (nonlinear_arith);
            lemma_div_multiples_vanish_fancy(v, r, psh);
            lemma_mod_bound(be_val(w), psh);
        }
        lemma_small_mod(v as nat, p as nat);
    }
}

/// A write at bit granularity preserves every bit of the covering bytes
/// that lies outside the addressed window, and touches no byte outside
/// the covering bytes: under little-endian order the bits of the window
/// above `bits` keep their value, and under big-endian order the low
/// `shift` bits of the window keep theirs.
pub proof fn lemma_write_bits_preserves_surroundings(
    m: Seq<u8>,
    off: int,
    v: int,
    bits: int,
    e: Endian,
)
    requires
        0 < bits <= 128,
        0 <= v < pow2(bits as nat),
        0 <= off,
        off + count_of_bits(bits) <= m.len(),
    ensures
        write_bits_spec(m, off, v, bits, e).len() == m.len(),
        forall|j: int|
            0 <= j < m.len() && !(off <= j < off + count_of_bits(bits))
                ==> #[trigger] write_bits_spec(m, off, v, bits, e)[j] == m[j],
        e is Little ==> le_val(
            write_bits_spec(m, off, v, bits, e).subrange(off, off + count_of_bits(bits)),
        ) / pow2(bits as nat) as int == le_val(m.subrange(off, off + count_of_bits(bits))) / pow2(
            bits as nat,
        ) as int,
        e is Big ==> be_val(
            write_bits_spec(m, off, v, bits, e).subrange(off, off + count_of_bits(bits)),
        ) % pow2(shift_of_bits(bits) as nat) as int == be_val(
            m.subrange(off, off + count_of_bits(bits)),
        ) % pow2(shift_of_bits(bits) as nat) as int,
{
    let count = count_of_bits(bits);
    let sh = shift_of_bits(bits);
    let w = m.subrange(off, off + count);
    let wnew = write_window(w, v, bits, e);
    lemma_bits_geometry(bits);
    lemma_window_value(w, v, bits, e);
    lemma_write_bits_window(m, off, v, bits, e);
    let p = pow2(bits as nat) as int;
    let psh = pow2(sh as nat) as int;
    lemma_pow2_pos(bits as nat);
    lemma_pow2_pos(sh as nat);
    if e is Little {
        let q = le_val(w) / p;
        assert(le_val(wnew) == v + q * p);
        assert((v + q * p) / p == q) by {
            assert(v + q * p == p * q + v) by (nonlinear_arith);
            lemma_div_multiples_vanish_fancy(q, v, p);
        }
    } else {
        let r = be_val(w) % psh;
        assert(be_val(wnew) == v * psh + r);
        assert((v * psh + r) % psh == r) by {
            assert(v * psh + r == psh * v + r) by (nonlinear_arith);
            lemma_mod_multiples_vanish(v, r, psh);
            lemma_mod_bound(be_val(w), psh);
            lemma_small_mod(r as nat, psh as nat);
        }
        lemma_mod_twice(be_val(w), psh);
    }
}

/// Fixed-size host values that a region can read and write through its
/// bit-level access path.
pub trait ByteCast: Sized {
    /// The width of the value in bits, a positive byte multiple.
    spec fn width_spec() -> int;

    /// The numeric value of the bit pattern.
    spec fn val_spec(&self) -> int;

    /// The width of the value in bits.
    fn width() -> (r: u32)
        ensures
            r == Self::width_spec(),
            r % 8 == 0,
            8 <= r <= 128,
    ;

    /// The bit pattern as an unsigned value.
    fn to_val(&self) -> (r: u128)
        ensures
            r == self.val_spec(),
            0 <= self.val_spec() < pow2(Self::width_spec() as nat),
    ;

    /// Rebuild a value from an unsigned bit pattern.
    fn of_val(v: u128) -> (r: Self)
        requires
            v < pow2(Self::width_spec() as nat),
        ensures
            r.val_spec() == v,
    ;
}

impl ByteCast for u8 {
    open spec fn width_spec() -> int {
        8
    }

    open spec fn val_spec(&self) -> int {
        *self as int
    }

    fn width() -> (r: u32) {
        proof {
            lemma2_to64();
        }
        8
    }

    fn to_val(&self) -> (r: u128) {
        proof {
            lemma2_to64();
        }
        *self as u128
    }

    fn of_val(v: u128) -> (r: Self) {
        proof {
            lemma2_to64();
        }
        v as u8
    }
}

impl ByteCast for u16 {
    open spec fn width_spec() -> int {
        16
    }

    open spec fn val_spec(&self) -> int {
        *self as int
    }

    fn width() -> (r: u32) {
        proof {
            lemma2_to64();
        }
        16
    }

    fn to_val(&self) -> (r: u128) {
        proof {
            lemma2_to64();
        }
        *self as u128
    }

    fn of_val(v: u128) -> (r: Self) {
        proof {
            lemma2_to64();
        }
        v as u16
    }
}

impl ByteCast for u32 {
    open spec fn width_spec() -> int {
        32
    }

    open spec fn val_spec(&self) -> int {
        *self as int
    }

    fn width() -> (r: u32) {
        proof {
            lemma2_to64();
        }
        32
    }

    fn to_val(&self) -> (r: u128) {
        proof {
            lemma2_to64();
        }
        *self as u128
    }

    fn of_val(v: u128) -> (r: Self) {
        proof {
            lemma2_to64();
        }
        v as u32
    }
}

impl ByteCast for u64 {
    open spec fn width_spec() -> int {
        64
    }

    open spec fn val_spec(&self) -> int {
        *self as int
    }

    fn width() -> (r: u32) {
        proof {
            lemma2_to64();
        }
        64
    }

    fn to_val(&self) -> (r: u128) {
        proof {
            lemma2_to64();
            lemma_pow2_adds(32, 32);
            assert((0x100000000int) * 0x100000000 == 0x10000000000000000int) by (nonlinear_arith);
        }
        *self as u128
    }

    fn of_val(v: u128) -> (r: Self) {
        proof {
            lemma2_to64();
            lemma_pow2_adds(32, 32);
            assert((0x100000000int) * 0x100000000 == 0x10000000000000000int) by (nonlinear_arith);
        }
        v as u64
    }
}

impl Region {
    /// Read a fixed-size host value at `addr`, interpreting its bytes by
    /// the region's byte order.
    pub fn read_value<T: ByteCast>(&self, addr: &Addr) -> (r: Result<T, RegionIOError>)
        ensures
            r is Ok <==> self.contains_range_spec(addr.value(), count_of_bits(T::width_spec())),
            r matches Ok(v) ==> v.val_spec() == read_bits_spec(
                self.mem(),
                addr.value() - self.start_val(),
                T::width_spec(),
                self.endian_spec(),
            ),
            r matches Err(e) ==> e matches RegionIOError::OOBRead(n) && n@ == self.name_spec(),
    {
        let bits = T::width();
        match self.read_bits(addr, bits) {
            Ok(bv) => {
                proof {
                    lemma_pow2_pos(bits as nat);
                    lemma_mod_bound(
                        if self.endian_spec() is Little {
                            le_val(
                                self.mem().subrange(
                                    addr.value() - self.start_val(),
                                    addr.value() - self.start_val() + count_of_bits(bits as int),
                                ),
                            )
                        } else {
                            0
                        },
                        pow2(bits as nat) as int,
                    );
                }
                bv.check();
                Ok(T::of_val(bv.value_u128()))
            },
            Err(e) => Err(e),
        }
    }

    /// Write a fixed-size host value at `addr`, laying its bytes out by
    /// the region's byte order.
    pub fn write_value<T: ByteCast>(&mut self, addr: &Addr, value: &T) -> (r: Result<
        (),
        RegionIOError,
    >)
        ensures
            r is Ok <==> old(self).contains_range_spec(
                addr.value(),
                count_of_bits(T::width_spec()),
            ),
            final(self).start_val() == old(self).start_val(),
            final(self).addr_width() == old(self).addr_width(),
            final(self).endian_spec() == old(self).endian_spec(),
            final(self).name_spec() == old(self).name_spec(),
            r is Ok ==> final(self).mem() == write_bits_spec(
                old(self).mem(),
                addr.value() - old(self).start_val(),
                value.val_spec(),
                T::width_spec(),
                old(self).endian_spec(),
            ),
            r is Err ==> final(self).mem() == old(self).mem(),
            r matches Err(e) ==> e matches RegionIOError::OOBWrite(n) && n@ == old(
                self,
            ).name_spec(),
    {
        let bits = T::width();
        let bv = BitVec::new(value.to_val(), bits, false);
        self.write_bits(addr, &bv)
    }
}

} // verus!
