//! Entities: identity-carrying owners of domain values.
//!
//! An `Entity<V>` couples a value with the id minted at its construction.
//! Uniqueness and equality are defined by the id alone: two entities
//! compare equal exactly when their ids do, whatever their values hold,
//! and however the values are mutated in place.

use vstd::prelude::*;

use crate::id::{Id, Identifiable};

verus! {

/// A value owned under a fixed identity.
#[derive(Debug)]
#[verifier::reject_recursive_types(V)]
pub struct Entity<V> {
    id: Id<V>,
    value: V,
}

impl<V: Clone> Clone for Entity<V> {
    fn clone(&self) -> (r: Self)
        ensures
            r.id_spec() == self.id_spec(),
    {
        Entity { id: self.id, value: self.value.clone() }
    }
}

impl<V> Entity<V> {
    /// The identity.
    pub closed spec fn id_spec(&self) -> Id<V> {
        self.id
    }

    /// The owned value.
    pub closed spec fn value_spec(&self) -> V {
        self.value
    }

    /// Own `value` under a freshly minted id.
    pub fn new(tag: &'static str, value: V) -> (r: Entity<V>)
        ensures
            r.value_spec() == value,
            r.id_spec().tag_spec() == tag,
            !r.id_spec().uuid_spec().is_zero_spec(),
    {
        Entity { id: Id::new(tag), value }
    }

    /// Own `value` under the given id.
    pub fn from_parts(id: Id<V>, value: V) -> (r: Entity<V>)
        ensures
            r.id_spec() == id,
            r.value_spec() == value,
    {
        Entity { id, value }
    }

    /// Split into id and value.
    pub fn into_parts(self) -> (r: (Id<V>, V))
        ensures
            r.0 == self.id_spec(),
            r.1 == self.value_spec(),
    {
        (self.id, self.value)
    }

    /// Read the owned value.
    pub fn value(&self) -> (r: &V)
        ensures
            *r == self.value_spec(),
    {
        &self.value
    }

    /// Mutate the owned value in place; the identity is untouched.
    pub fn value_mut(&mut self) -> (r: &mut V)
        ensures
            *r == old(self).value_spec(),
            final(self).id_spec() == old(self).id_spec(),
            final(self).value_spec() == *final(r),
    {
        &mut self.value
    }

    /// Take the owned value, dropping the identity.
    pub fn into_value(self) -> (r: V)
        ensures
            r == self.value_spec(),
    {
        self.value
    }

    /// Whether two entities are the same entity: their ids agree,
    /// whatever their values.
    pub open spec fn same_spec(&self, other: &Entity<V>) -> bool {
        self.id_spec().same_spec(&other.id_spec())
    }
}

impl<V> Identifiable<V> for Entity<V> {
    open spec fn sid(&self) -> Id<V> {
        self.id_spec()
    }

    fn id(&self) -> (r: Id<V>) {
        self.id
    }
}

impl<V> PartialEq for Entity<V> {
    /// Entities compare by id; the values play no part.
    fn eq(&self, other: &Entity<V>) -> (r: bool) {
        self.id == other.id
    }
}

impl<V> Eq for Entity<V> {

}

impl<V> vstd::std_specs::cmp::PartialEqSpecImpl for Entity<V> {
    open spec fn obeys_eq_spec() -> bool {
        true
    }

    open spec fn eq_spec(&self, other: &Entity<V>) -> bool {
        self.same_spec(other)
    }
}

/// Entity equality goes by id and by id alone: two entities are equal
/// exactly when their ids' identifiers agree, regardless of what their
/// values hold or how those values were mutated after construction.
pub proof fn lemma_entity_equality<V>(a: &Entity<V>, b: &Entity<V>)
    ensures
        vstd::std_specs::cmp::PartialEqSpec::eq_spec(a, b) <==> a.id_spec().uuid_spec()
            == b.id_spec().uuid_spec(),
{
}

} // verus!
