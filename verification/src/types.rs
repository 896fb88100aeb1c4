//! Type sorts: handles identifying the primitive sorts of the IR.
//!
//! Every sort is referenced by a stable name-scheme identifier derived
//! from a fixed scope and a per-sort literal, so that sort identity
//! holds across processes bit-exactly.

use vstd::prelude::*;

use crate::id::{Erased, Id, Uuid};

verus! {

/// The phantom target of type identities.
pub type Type = Erased;

/// The fixed scope under which all sort identifiers are minted.
pub const TYPE_SCOPE: u64 = 0x21341e3f58957821;

/// The stable identifier of the sort with the given literal: a
/// name-scheme identifier under the fixed type scope.
pub open spec fn type_uuid_spec(id: u64) -> Uuid {
    Uuid::Name { name: id, scope: TYPE_SCOPE }
}

/// Mint the stable identifier of a sort from its literal.
pub fn type_uuid(id: u64) -> (r: Uuid)
    ensures
        r == type_uuid_spec(id),
{
    Uuid::Name { name: id, scope: TYPE_SCOPE }
}

/// What every type sort offers: an identity, a printable name, and a
/// width.
pub trait TypeSort {
    /// The sort's stable identity.
    spec fn sid(&self) -> Id<Type>;

    /// The sort's width in bits.
    spec fn sort_bits(&self) -> u32;

    /// The sort's stable identity.
    fn id(&self) -> (r: Id<Type>)
        ensures
            r == self.sid(),
    ;

    /// The sort's printable name.
    fn name(&self) -> String;

    /// The sort's width in bits.
    fn bits(&self) -> (r: u32)
        ensures
            r == self.sort_bits(),
    ;

    /// The sort's width in whole bytes, when the bit width is a byte
    /// multiple.
    fn bytes(&self) -> Option<usize>;

    /// Whether the sort is primitive.
    fn is_primitive(&self) -> bool;
}

/// The boolean sort.
#[derive(Clone, Copy, Debug, PartialEq, Eq, Structural, Hash)]
pub struct BoolT;

impl TypeSort for BoolT {
    open spec fn sid(&self) -> Id<Type> {
        Id::make_spec("type", type_uuid_spec(0x13374eaf1b4db8d4))
    }

    open spec fn sort_bits(&self) -> u32 {
        8
    }

    fn id(&self) -> (r: Id<Type>)
        ensures
            r.uuid_spec() == type_uuid_spec(0x13374eaf1b4db8d4),
    {
        Id::from_parts("type", type_uuid(0x13374eaf1b4db8d4))
    }

    fn name(&self) -> (r: String)
        ensures
            r@ == "bool"@,
    {
        String::from_str("bool")
    }

    fn bits(&self) -> (r: u32)
        ensures
            r == 8,
    {
        8
    }

    fn bytes(&self) -> (r: Option<usize>)
        ensures
            r == Some(1usize),
    {
        Some(1)
    }

    fn is_primitive(&self) -> (r: bool)
        ensures
            r,
    {
        true
    }
}

/// A fixed-width integer sort, signed or unsigned.
#[derive(Clone, Copy, Debug, Hash)]
pub struct BitVecT {
    id: Id<Type>,
    signed: bool,
    bits: u32,
}

/// The sort literal of the unsigned integer sort of a standard width,
/// or 0 for a non-standard width.
pub open spec fn unsigned_sort_literal(bits: u32) -> u64 {
    if bits == 8 { 0x119e6d7d2b71a2ee }
    else if bits == 16 { 0xdf153e77940e8cb6 }
    else if bits == 32 { 0xed7670e79be1004a }
    else if bits == 64 { 0x970642d009b7dbbf }
    else if bits == 128 { 0x9311f07f94067011 }
    else if bits == 256 { 0x11181ac23564ef0c }
    else if bits == 512 { 0xfdd18500239ea271 }
    else { 0 }
}

/// The sort literal of the signed integer sort of a standard width, or
/// 0 for a non-standard width.
pub open spec fn signed_sort_literal(bits: u32) -> u64 {
    if bits == 8 { 0xe8c5bdf5003305af }
    else if bits == 16 { 0xe4f13e886256d086 }
    else if bits == 32 { 0xefc6825656833849 }
    else if bits == 64 { 0x842618f4caf73f92 }
    else if bits == 128 { 0x8967a93cbe0d3727 }
    else if bits == 256 { 0xba71d38ea5c5da7a }
    else if bits == 512 { 0xb1222584f163fbef }
    else { 0 }
}

impl BitVecT {
    /// The sort's width.
    pub closed spec fn bits_spec(&self) -> u32 {
        self.bits
    }

    /// The sort's signedness.
    pub closed spec fn signed_spec(&self) -> bool {
        self.signed
    }

    /// The sort's identity.
    pub closed spec fn id_spec(&self) -> Id<Type> {
        self.id
    }

    /// Build an integer sort from a width, a signedness and a sort
    /// literal.
    pub fn new(bits: u32, signed: bool, id: u64) -> (r: BitVecT)
        ensures
            r.bits_spec() == bits,
            r.signed_spec() == signed,
            r.id_spec() == Id::<Type>::make_spec("type", type_uuid_spec(id)),
            r.id_spec().uuid_spec() == type_uuid_spec(id),
    {
        BitVecT { id: Id::from_parts("type", type_uuid(id)), signed, bits }
    }

    /// The standard integer sort of the given width and signedness:
    /// widths 8, 16, 32, 64, 128, 256 and 512 have stable identities.
    pub fn standard(bits: u32, signed: bool) -> (r: Option<BitVecT>)
        ensures
            r is Some <==> (bits == 8 || bits == 16 || bits == 32 || bits == 64 || bits == 128
                || bits == 256 || bits == 512),
            r matches Some(t) ==> {
                &&& t.bits_spec() == bits
                &&& t.signed_spec() == signed
                &&& t.id_spec() == Id::<Type>::make_spec(
                    "type",
                    type_uuid_spec(
                        if signed {
                            signed_sort_literal(bits)
                        } else {
                            unsigned_sort_literal(bits)
                        },
                    ),
                )
                &&& t.id_spec().uuid_spec() == type_uuid_spec(
                    if signed {
                        signed_sort_literal(bits)
                    } else {
                        unsigned_sort_literal(bits)
                    },
                )
            },
    {
        if !(bits == 8 || bits == 16 || bits == 32 || bits == 64 || bits == 128 || bits == 256
            || bits == 512) {
            return None;
        }
        let lit: u64 = if signed {
            if bits == 8 { 0xe8c5bdf5003305af }
            else if bits == 16 { 0xe4f13e886256d086 }
            else if bits == 32 { 0xefc6825656833849 }
            else if bits == 64 { 0x842618f4caf73f92 }
            else if bits == 128 { 0x8967a93cbe0d3727 }
            else if bits == 256 { 0xba71d38ea5c5da7a }
            else { 0xb1222584f163fbef }
        } else {
            if bits == 8 { 0x119e6d7d2b71a2ee }
            else if bits == 16 { 0xdf153e77940e8cb6 }
            else if bits == 32 { 0xed7670e79be1004a }
            else if bits == 64 { 0x970642d009b7dbbf }
            else if bits == 128 { 0x9311f07f94067011 }
            else if bits == 256 { 0x11181ac23564ef0c }
            else { 0xfdd18500239ea271 }
        };
        Some(BitVecT::new(bits, signed, lit))
    }
}

impl TypeSort for BitVecT {
    open spec fn sid(&self) -> Id<Type> {
        self.id_spec()
    }

    open spec fn sort_bits(&self) -> u32 {
        self.bits_spec()
    }

    fn id(&self) -> (r: Id<Type>)
        ensures
            r == self.id_spec(),
    {
        self.id
    }

    fn name(&self) -> (r: String)
        ensures
            r@.len() >= 2,
            r@[0] == (if self.signed_spec() {
                'i'
            } else {
                'u'
            }),
            crate::bv::dec_formatted(r@.skip(1), self.bits_spec() as int),
    {
        let mut name = if self.signed {
            String::from_str("i")
        } else {
            String::from_str("u")
        };
        proof {
            reveal_strlit("i");
            reveal_strlit("u");
            if self.signed {
                assert(name@ =~= seq!['i']);
            } else {
                assert(name@ =~= seq!['u']);
            }
        }
        let digits = crate::bv::format_dec_u32(self.bits);
        name.append(digits.as_str());
        proof {
            assert(name@.skip(1) =~= digits@);
        }
        name
    }

    fn bits(&self) -> (r: u32)
        ensures
            r == self.bits_spec(),
    {
        self.bits
    }

    fn bytes(&self) -> (r: Option<usize>)
        ensures
            r is Some <==> self.bits_spec() % 8 == 0,
            r matches Some(n) ==> n == self.bits_spec() / 8,
    {
        if self.bits % 8 == 0 {
            Some((self.bits / 8) as usize)
        } else {
            None
        }
    }

    fn is_primitive(&self) -> (r: bool)
        ensures
            r,
    {
        true
    }
}

/// A floating-point sort handle; only the handle exists here, never a
/// floating-point value.
#[derive(Clone, Copy, Debug, Hash)]
pub struct FloatT {
    id: Id<Type>,
    bits: u32,
}

/// The sort literal of the floating-point sort of a standard width, or
/// 0 for a non-standard width.
pub open spec fn float_sort_literal(bits: u32) -> u64 {
    if bits == 32 { 0xb2e5c631d50d5436 }
    else if bits == 64 { 0xb15fba32c4f1e09c }
    else if bits == 80 { 0xfa8604c26e19216 }
    else { 0 }
}

impl FloatT {
    /// The sort's width.
    pub closed spec fn bits_spec(&self) -> u32 {
        self.bits
    }

    /// The sort's identity.
    pub closed spec fn id_spec(&self) -> Id<Type> {
        self.id
    }

    /// Build a floating-point sort from a width and a sort literal.
    pub fn new(bits: u32, id: u64) -> (r: FloatT)
        ensures
            r.bits_spec() == bits,
            r.id_spec().uuid_spec() == type_uuid_spec(id),
    {
        FloatT { id: Id::from_parts("type", type_uuid(id)), bits }
    }

    /// The standard floating-point sort of the given width: widths 32,
    /// 64 and 80 have stable identities.
    pub fn standard(bits: u32) -> (r: Option<FloatT>)
        ensures
            r is Some <==> (bits == 32 || bits == 64 || bits == 80),
            r matches Some(t) ==> {
                &&& t.bits_spec() == bits
                &&& t.id_spec().uuid_spec() == type_uuid_spec(float_sort_literal(bits))
            },
    {
        if bits == 32 {
            Some(FloatT::new(32, 0xb2e5c631d50d5436))
        } else if bits == 64 {
            Some(FloatT::new(64, 0xb15fba32c4f1e09c))
        } else if bits == 80 {
            Some(FloatT::new(80, 0xfa8604c26e19216))
        } else {
            None
        }
    }
}

impl TypeSort for FloatT {
    open spec fn sid(&self) -> Id<Type> {
        self.id_spec()
    }

    open spec fn sort_bits(&self) -> u32 {
        self.bits_spec()
    }

    fn id(&self) -> (r: Id<Type>)
        ensures
            r == self.id_spec(),
    {
        self.id
    }

    fn name(&self) -> (r: String)
        ensures
            r@.len() >= 2,
            r@[0] == 'f',
            crate::bv::dec_formatted(r@.skip(1), self.bits_spec() as int),
    {
        let mut name = String::from_str("f");
        proof {
            reveal_strlit("f");
            assert(name@ =~= seq!['f']);
        }
        let digits = crate::bv::format_dec_u32(self.bits);
        name.append(digits.as_str());
        proof {
            assert(name@.skip(1) =~= digits@);
        }
        name
    }

    fn bits(&self) -> (r: u32)
        ensures
            r == self.bits_spec(),
    {
        self.bits
    }

    fn bytes(&self) -> (r: Option<usize>)
        ensures
            r is Some <==> self.bits_spec() % 8 == 0,
            r matches Some(n) ==> n == self.bits_spec() / 8,
    {
        if self.bits % 8 == 0 {
            Some((self.bits / 8) as usize)
        } else {
            None
        }
    }

    fn is_primitive(&self) -> (r: bool)
        ensures
            r,
    {
        true
    }
}

/// A pointer sort: a width and the identity of the pointed-to sort.
#[derive(Clone, Copy, Debug, Hash)]
pub struct PointerT {
    id: Id<Type>,
    pointee: Id<Type>,
    bits: u32,
}

impl PointerT {
    /// The sort's width.
    pub closed spec fn bits_spec(&self) -> u32 {
        self.bits
    }

    /// The sort's identity.
    pub closed spec fn id_spec(&self) -> Id<Type> {
        self.id
    }

    /// The pointed-to sort's identity.
    pub closed spec fn pointee_spec(&self) -> Id<Type> {
        self.pointee
    }

    /// Build a pointer sort over a pointed-to sort.
    pub fn new<T: TypeSort>(pointee: &T, bits: u32, id: u64) -> (r: PointerT)
        ensures
            r.bits_spec() == bits,
            r.id_spec().uuid_spec() == type_uuid_spec(id),
    {
        PointerT { id: Id::from_parts("type", type_uuid(id)), pointee: pointee.id(), bits }
    }

    /// The pointed-to sort's identity.
    pub fn pointee_type(&self) -> (r: Id<Type>)
        ensures
            r == self.pointee_spec(),
    {
        self.pointee
    }
}

impl TypeSort for PointerT {
    open spec fn sid(&self) -> Id<Type> {
        self.id_spec()
    }

    open spec fn sort_bits(&self) -> u32 {
        self.bits_spec()
    }

    fn id(&self) -> (r: Id<Type>)
        ensures
            r == self.id_spec(),
    {
        self.id
    }

    fn name(&self) -> (r: String)
        ensures
            r@.len() >= 4,
            r@.take(3) =~= seq!['p', 't', 'r'],
            crate::bv::dec_formatted(r@.skip(3), self.bits_spec() as int),
    {
        let mut name = String::from_str("ptr");
        proof {
            reveal_strlit("ptr");
            assert(name@ =~= seq!['p', 't', 'r']);
        }
        let digits = crate::bv::format_dec_u32(self.bits);
        name.append(digits.as_str());
        proof {
            assert(name@.take(3) =~= seq!['p', 't', 'r']);
            assert(name@.skip(3) =~= digits@);
        }
        name
    }

    fn bits(&self) -> (r: u32)
        ensures
            r == self.bits_spec(),
    {
        self.bits
    }

    fn bytes(&self) -> (r: Option<usize>)
        ensures
            r is Some <==> self.bits_spec() % 8 == 0,
            r matches Some(n) ==> n == self.bits_spec() / 8,
    {
        if self.bits % 8 == 0 {
            Some((self.bits / 8) as usize)
        } else {
            None
        }
    }

    fn is_primitive(&self) -> (r: bool)
        ensures
            !r,
    {
        false
    }
}

} // verus!
