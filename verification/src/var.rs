//! Named, generation-counted variables of the IR.
//!
//! A variable is either a memory variable (standing for a whole memory
//! space, with no width or type) or a physical or transient register-like
//! variable with a type identity and a bit width.

use vstd::prelude::*;

use crate::entity::Entity;
use crate::id::{Erased, Id, Identifiable};
use crate::mem::Mem;
use crate::types::{Type, TypeSort};

verus! {

/// What kind of storage a variable names.
#[derive(Clone, Copy, Debug)]
pub enum VarKind {
    /// A whole memory space; no width, no type.
    Memory {
        /// The identity of the memory space.
        id: Id<Erased>,
    },
    /// An architectural location with a type and a width.
    Physical {
        /// The identity of the variable's sort.
        typ: Id<Type>,
        /// The width in bits.
        bits: u32,
    },
    /// A temporary with a type and a width.
    Transient {
        /// The identity of the variable's sort.
        typ: Id<Type>,
        /// The width in bits.
        bits: u32,
    },
}

/// A named, generation-counted variable.
#[derive(Clone, Debug)]
pub struct Var {
    name: String,
    kind: VarKind,
    generation: u32,
}

impl Var {
    /// The name.
    pub closed spec fn name_spec(&self) -> Seq<char> {
        self.name@
    }

    /// The kind.
    pub closed spec fn kind_spec(&self) -> VarKind {
        self.kind
    }

    /// The generation counter.
    pub closed spec fn generation_spec(&self) -> u32 {
        self.generation
    }

    /// A memory variable standing for a whole memory map.
    pub fn memory(memory: &Entity<Mem>) -> (r: Entity<Var>)
        ensures
            r.value_spec().name_spec() == memory.value_spec().name_spec(),
            r.value_spec().kind_spec() == (VarKind::Memory {
                id: memory.id_spec().transmute_spec::<Erased>(),
            }),
            r.value_spec().generation_spec() == 0,
    {
        let name = memory.value().name().clone();
        Entity::new(
            "var",
            Var { name, kind: VarKind::Memory { id: memory.id().erase() }, generation: 0 },
        )
    }

    /// A physical variable of the given sort.
    pub fn physical<T: TypeSort>(name: String, typ: &T) -> (r: Entity<Var>)
        ensures
            r.value_spec().name_spec() == name@,
            r.value_spec().kind_spec() == (VarKind::Physical {
                typ: typ.sid(),
                bits: typ.sort_bits(),
            }),
            r.value_spec().generation_spec() == 0,
    {
        Entity::new(
            "var",
            Var { name, kind: VarKind::Physical { typ: typ.id(), bits: typ.bits() }, generation: 0 },
        )
    }

    /// A transient variable of the given sort.
    pub fn transient<T: TypeSort>(name: String, typ: &T) -> (r: Entity<Var>)
        ensures
            r.value_spec().name_spec() == name@,
            r.value_spec().kind_spec() == (VarKind::Transient {
                typ: typ.sid(),
                bits: typ.sort_bits(),
            }),
            r.value_spec().generation_spec() == 0,
    {
        Entity::new(
            "var",
            Var {
                name,
                kind: VarKind::Transient { typ: typ.id(), bits: typ.bits() },
                generation: 0,
            },
        )
    }

    /// A fresh transient variable of the given sort. The caller owns the
    /// mint counter; each call takes the next value, so names minted
    /// through one counter never repeat.
    pub fn fresh<T: TypeSort>(counter: &mut u64, typ: &T) -> (r: Entity<Var>)
        requires
            *old(counter) < u64::MAX,
        ensures
            *final(counter) == *old(counter) + 1,
            r.value_spec().kind_spec() == (VarKind::Transient {
                typ: typ.sid(),
                bits: typ.sort_bits(),
            }),
            r.value_spec().generation_spec() == 0,
            r.value_spec().name_spec() == seq!['v'] + crate::bv::hex_str_spec(
                *old(counter) as nat,
            ),
    {
        let n = *counter;
        *counter = *counter + 1;
        let digits = crate::bv::format_hex_u128(n as u128);
        let mut name = String::from_str("v");
        proof {
            reveal_strlit("v");
            assert(name@ =~= seq!['v']);
        }
        name.append(digits.as_str());
        proof {
            assert(name@ =~= seq!['v'] + crate::bv::hex_str_spec(n as nat));
        }
        Entity::new(
            "var",
            Var {
                name,
                kind: VarKind::Transient { typ: typ.id(), bits: typ.bits() },
                generation: 0,
            },
        )
    }

    /// A copy of this variable at another generation.
    pub fn with_generation(&self, generation: u32) -> (r: Var)
        ensures
            r.name_spec() == self.name_spec(),
            r.kind_spec() == self.kind_spec(),
            r.generation_spec() == generation,
    {
        Var { name: self.name.clone(), kind: self.kind, generation }
    }

    /// The name.
    pub fn name(&self) -> (r: &String)
        ensures
            r@ == self.name_spec(),
    {
        &self.name
    }

    /// The generation counter.
    pub fn generation(&self) -> (r: u32)
        ensures
            r == self.generation_spec(),
    {
        self.generation
    }

    /// Whether this is a memory variable.
    pub fn is_memory(&self) -> (r: bool)
        ensures
            r == (self.kind_spec() is Memory),
    {
        matches!(self.kind, VarKind::Memory { .. })
    }

    /// Whether this is a physical variable.
    pub fn is_physical(&self) -> (r: bool)
        ensures
            r == (self.kind_spec() is Physical),
    {
        matches!(self.kind, VarKind::Physical { .. })
    }

    /// Whether this is a transient variable.
    pub fn is_transient(&self) -> (r: bool)
        ensures
            r == (self.kind_spec() is Transient),
    {
        matches!(self.kind, VarKind::Transient { .. })
    }

    /// Whether the variable carries a type: memory variables do not.
    pub fn is_typed(&self) -> (r: bool)
        ensures
            r == !(self.kind_spec() is Memory),
    {
        !self.is_memory()
    }

    /// Whether the variable carries a width: memory variables do not.
    pub fn is_sized(&self) -> (r: bool)
        ensures
            r == !(self.kind_spec() is Memory),
    {
        !self.is_memory()
    }

    /// The memory space a memory variable names.
    pub fn region_id(&self) -> (r: Option<Id<Mem>>)
        ensures
            r is Some <==> self.kind_spec() is Memory,
            r matches Some(id) ==> id.uuid_spec() == self.kind_spec()->Memory_id.uuid_spec(),
    {
        match self.kind {
            VarKind::Memory { id } => Some(id.transmute()),
            _ => None,
        }
    }

    /// The identity of a typed variable's sort.
    pub fn type_id(&self) -> (r: Option<Id<Type>>)
        ensures
            r is Some <==> !(self.kind_spec() is Memory),
            self.kind_spec() matches VarKind::Physical { typ, .. } ==> r == Some(typ),
            self.kind_spec() matches VarKind::Transient { typ, .. } ==> r == Some(typ),
    {
        match self.kind {
            VarKind::Physical { typ, .. } => Some(typ),
            VarKind::Transient { typ, .. } => Some(typ),
            VarKind::Memory { .. } => None,
        }
    }

    /// The width of a typed variable.
    pub fn bits(&self) -> (r: Option<u32>)
        ensures
            r is Some <==> !(self.kind_spec() is Memory),
            self.kind_spec() matches VarKind::Physical { bits, .. } ==> r == Some(bits),
            self.kind_spec() matches VarKind::Transient { bits, .. } ==> r == Some(bits),
    {
        match self.kind {
            VarKind::Physical { bits, .. } => Some(bits),
            VarKind::Transient { bits, .. } => Some(bits),
            VarKind::Memory { .. } => None,
        }
    }
}

} // verus!
