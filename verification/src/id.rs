//! Generational, type-tagged identifiers.
//!
//! An `Id<T>` pairs a presentational tag with a 128-bit identifier drawn
//! from a four-scheme space (name, number, event, derived). Equality and
//! ordering of ids go by the identifier alone; the tag and the phantom
//! type play no part. The all-zero name identifier is the invalid id.

use vstd::prelude::*;

verus! {

/// A 128-bit identifier: two 60-bit payload words under one of four
/// schemes.
#[derive(Clone, Copy, Debug, Hash, PartialEq, Eq, Structural)]
pub enum Uuid {
    /// A scoped name.
    Name {
        /// Local name.
        name: u64,
        /// Global namespace.
        scope: u64,
    },
    /// A pair of context-dependent values.
    Number {
        /// First value.
        value1: u64,
        /// Second value.
        value2: u64,
    },
    /// A clock-dependent event stamp.
    Event {
        /// Local timestamp.
        timestamp: u64,
        /// Replica of origin.
        origin: u64,
    },
    /// A reference derived from an event stamp.
    Derived {
        /// Local timestamp.
        timestamp: u64,
        /// Replica of origin.
        origin: u64,
    },
}

impl Uuid {
    /// The all-zero identifier: the name identifier with both payload
    /// words zero.
    pub open spec fn zero_spec() -> Uuid {
        Uuid::Name { name: 0, scope: 0 }
    }

    /// Whether this is the all-zero identifier. Deliberately narrower
    /// than ignoring the scheme: only the all-zero *name* identifier is
    /// zero here, so an identifier of any other scheme is never the
    /// invalid id, whatever its payload words hold. This is what lets a
    /// minted event-scheme id count as valid on the strength of its
    /// scheme alone.
    pub open spec fn is_zero_spec(&self) -> bool {
        *self == Uuid::zero_spec()
    }

    /// The all-zero identifier.
    pub fn zero() -> (r: Uuid)
        ensures
            r == Uuid::zero_spec(),
    {
        Uuid::Name { name: 0, scope: 0 }
    }

    /// Whether this is the all-zero identifier.
    pub fn is_zero(&self) -> (r: bool)
        ensures
            r == self.is_zero_spec(),
    {
        match *self {
            Uuid::Name { name, scope } => name == 0 && scope == 0,
            _ => false,
        }
    }
}

/// Relies on `ron_uuid::UUID::now()`: it returns an event-scheme
/// identifier stamped with the process clock and node id. Nothing is
/// assumed about the stamp's value, only the scheme.
#[verifier::external_body]
fn mint_uuid() -> (r: Uuid)
    ensures
        r is Event,
{
    match ron_uuid::UUID::now() {
        ron_uuid::UUID::Name { name, scope } => Uuid::Event { timestamp: name, origin: scope },
        ron_uuid::UUID::Number { value1, value2 } => Uuid::Event {
            timestamp: value1,
            origin: value2,
        },
        ron_uuid::UUID::Event { timestamp, origin } => Uuid::Event { timestamp, origin },
        ron_uuid::UUID::Derived { timestamp, origin } => Uuid::Event { timestamp, origin },
    }
}

/// A type-tagged identifier. The phantom parameter ties an id to the
/// domain type it names; the tag is presentational only.
#[derive(Debug, Hash)]
#[verifier::reject_recursive_types(T)]
pub struct Id<T> {
    tag: &'static str,
    uuid: Uuid,
    marker: core::marker::PhantomData<T>,
}

impl<T> Clone for Id<T> {
    fn clone(&self) -> (r: Self)
        ensures
            r == *self,
    {
        Id { tag: self.tag, uuid: self.uuid, marker: core::marker::PhantomData }
    }
}

impl<T> Copy for Id<T> {

}

impl<T> Id<T> {
    /// The identifier part, which alone decides equality.
    pub closed spec fn uuid_spec(&self) -> Uuid {
        self.uuid
    }

    /// The same id under another phantom type.
    pub closed spec fn transmute_spec<U>(&self) -> Id<U> {
        Id { tag: self.tag, uuid: self.uuid, marker: core::marker::PhantomData }
    }

    /// The id carrying the given tag and identifier.
    pub closed spec fn make_spec(tag: &'static str, uuid: Uuid) -> Id<T> {
        Id { tag, uuid, marker: core::marker::PhantomData }
    }

    /// The presentational tag.
    pub closed spec fn tag_spec(&self) -> &'static str {
        self.tag
    }

    /// Mint a fresh id under the given tag. The identifier is an
    /// event-scheme stamp, so a minted id is never invalid.
    pub fn new(tag: &'static str) -> (r: Id<T>)
        ensures
            r.tag_spec() == tag,
            r.uuid_spec() is Event,
            !r.uuid_spec().is_zero_spec(),
    {
        Id { tag, uuid: mint_uuid(), marker: core::marker::PhantomData }
    }

    /// Assemble an id from a tag and an identifier. An id built here is
    /// invalid exactly when the identifier is the all-zero name
    /// identifier; an all-zero payload under another scheme stays valid
    /// (see `Uuid::is_zero_spec`).
    pub fn from_parts(tag: &'static str, uuid: Uuid) -> (r: Id<T>)
        ensures
            r == Id::<T>::make_spec(tag, uuid),
            r.tag_spec() == tag,
            r.uuid_spec() == uuid,
    {
        Id { tag, uuid, marker: core::marker::PhantomData }
    }

    /// Drop the phantom type.
    pub fn erase(self) -> (r: Id<Erased>)
        ensures
            r == self.transmute_spec::<Erased>(),
            r.tag_spec() == self.tag_spec(),
            r.uuid_spec() == self.uuid_spec(),
    {
        self.transmute()
    }

    /// Re-type the id; the tag and identifier carry over unchanged.
    pub fn transmute<U>(self) -> (r: Id<U>)
        ensures
            r == self.transmute_spec::<U>(),
            r.tag_spec() == self.tag_spec(),
            r.uuid_spec() == self.uuid_spec(),
    {
        Id { tag: self.tag, uuid: self.uuid, marker: core::marker::PhantomData }
    }

    /// The invalid id under the given tag: its identifier is all zero.
    pub fn invalid(tag: &'static str) -> (r: Id<T>)
        ensures
            r.tag_spec() == tag,
            r.uuid_spec().is_zero_spec(),
    {
        Id { tag, uuid: Uuid::zero(), marker: core::marker::PhantomData }
    }

    /// An id is valid exactly when its identifier is not all zero.
    pub fn is_valid(&self) -> (r: bool)
        ensures
            r == !self.uuid_spec().is_zero_spec(),
    {
        !self.is_invalid()
    }

    /// An id is invalid exactly when its identifier is all zero.
    pub fn is_invalid(&self) -> (r: bool)
        ensures
            r == self.uuid_spec().is_zero_spec(),
    {
        self.uuid.is_zero()
    }

    /// The presentational tag.
    pub fn tag(&self) -> (r: &'static str)
        ensures
            r == self.tag_spec(),
    {
        self.tag
    }

    /// The identifier part.
    pub fn uuid(&self) -> (r: Uuid)
        ensures
            r == self.uuid_spec(),
    {
        self.uuid
    }

    /// Whether two ids name the same thing: their identifiers agree. The
    /// tag plays no part.
    pub open spec fn same_spec(&self, other: &Id<T>) -> bool {
        self.uuid_spec() == other.uuid_spec()
    }
}

impl<T> PartialEq for Id<T> {
    /// Ids compare by identifier alone; the tag is presentational.
    fn eq(&self, other: &Id<T>) -> (r: bool) {
        self.uuid == other.uuid
    }
}

impl<T> Eq for Id<T> {

}

impl<T> vstd::std_specs::cmp::PartialEqSpecImpl for Id<T> {
    open spec fn obeys_eq_spec() -> bool {
        true
    }

    open spec fn eq_spec(&self, other: &Id<T>) -> bool {
        self.same_spec(other)
    }
}

/// The erased phantom type: the target of `Id::erase`.
#[derive(Clone, Copy, Debug, Hash, PartialEq, Eq, Structural, Default)]
pub struct Erased;

impl<T> Identifiable<T> for Id<T> {
    open spec fn sid(&self) -> Id<T> {
        *self
    }

    fn id(&self) -> (r: Id<T>) {
        *self
    }
}

/// Anything that carries the identity of a `V`.
pub trait Identifiable<V> {
    /// The id under which the value is known.
    spec fn sid(&self) -> Id<V>;

    /// The id under which the value is known.
    fn id(&self) -> (r: Id<V>)
        ensures
            r == self.sid(),
    ;
}

} // verus!
