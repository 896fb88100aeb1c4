//! The memory map: an address-indexed collection of byte regions.
//!
//! Regions are kept in insertion order; a point lookup returns the
//! earliest-inserted region that covers the address, which makes the
//! behaviour on overlapping insertions deterministic.

use vstd::prelude::*;

use crate::address::Addr;
use crate::entity::Entity;
use crate::id::{Erased, Id, Identifiable};
use crate::region::Region;

verus! {

/// A named map from address intervals to regions.
pub struct Mem {
    id: Id<Erased>,
    name: String,
    regions: Vec<Entity<Region>>,
}

impl Identifiable<Mem> for Mem {
    open spec fn sid(&self) -> Id<Mem> {
        self.id_spec()
    }

    fn id(&self) -> (r: Id<Mem>) {
        self.id.transmute()
    }
}

impl Mem {
    /// The identity.
    pub closed spec fn id_spec(&self) -> Id<Mem> {
        self.id.transmute_spec::<Mem>()
    }

    /// The name.
    pub closed spec fn name_spec(&self) -> Seq<char> {
        self.name@
    }

    /// The regions, in insertion order.
    pub closed spec fn regions_spec(&self) -> Seq<Entity<Region>> {
        self.regions@
    }

    /// Whether some region covers the address value `a`.
    pub open spec fn covers(&self, a: int) -> bool {
        exists|i: int|
            0 <= i < self.regions_spec().len() && self.regions_spec()[i].value_spec().contains_spec(
                a,
            )
    }

    /// An empty memory map with the given name.
    pub fn new(name: String) -> (r: Mem)
        ensures
            r.regions_spec() =~= Seq::<Entity<Region>>::empty(),
            r.name_spec() == name@,
    {
        Mem { id: Id::new("mem"), name, regions: Vec::new() }
    }

    /// The name.
    pub fn name(&self) -> (r: &String)
        ensures
            r@ == self.name_spec(),
    {
        &self.name
    }

    /// Record a region; its interval is the one it carries.
    pub fn add_region(&mut self, region: Entity<Region>)
        ensures
            final(self).regions_spec() =~= old(self).regions_spec().push(region),
            final(self).name_spec() == old(self).name_spec(),
            final(self).id_spec() == old(self).id_spec(),
    {
        self.regions.push(region);
    }

    /// Find the region covering `addr`: the earliest-inserted one whose
    /// interval contains it, or `None` when no region covers it.
    pub fn find_region(&self, addr: &Addr) -> (r: Option<&Entity<Region>>)
        ensures
            r is Some <==> self.covers(addr.value()),
            r matches Some(e) ==> exists|i: int|
                {
                    &&& 0 <= i < self.regions_spec().len()
                    &&& *e == self.regions_spec()[i]
                    &&& (#[trigger] self.regions_spec()[i]).value_spec().contains_spec(
                        addr.value(),
                    )
                    &&& forall|j: int|
                        0 <= j < i ==> !(#[trigger] self.regions_spec()[j]).value_spec().contains_spec(
                            addr.value(),
                        )
                },
    {
        let n = self.regions.len();
        let mut i: usize = 0;
        while i < n
            invariant
                i <= n == self.regions_spec().len(),
                forall|j: int|
                    0 <= j < i ==> !(#[trigger] self.regions_spec()[j]).value_spec().contains_spec(
                        addr.value(),
                    ),
            decreases n - i,
        {
            let e = &self.regions[i];
            let rg = e.value();
            let a = addr.value_u128();
            let s = rg.address().value_u128();
            let l = rg.len();
            if a >= s && a - s < l as u128 {
                return Some(e);
            }
            i = i + 1;
        }
        None
    }

    /// The regions, in insertion order.
    pub fn regions(&self) -> (r: &Vec<Entity<Region>>)
        ensures
            r@ == self.regions_spec(),
    {
        &self.regions
    }
}

} // verus!
