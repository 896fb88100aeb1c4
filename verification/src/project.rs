//! The project container: a memory map, a lifter, and bidirectional
//! indices over the discovered blocks and subroutines.
//!
//! Discovering a block splits in two around the backend: `begin_blk`
//! locates the covering region and opens a lift session over its
//! remaining bytes, and `index_blks` records what a finished session
//! produced, keyed by id and by address.

use vstd::prelude::*;

use crate::address::Addr;
use crate::block::Blk;
use crate::entity::Entity;
use crate::id::{Id, Identifiable, Uuid};
use crate::lift::{LiftSession, Lifter};
use crate::mem::Mem;
use crate::region::{Endian, Region};

verus! {

/// A byte budget clamped by an optional size hint.
pub open spec fn clamp_hint(available: int, hint: Option<usize>) -> int {
    match hint {
        Some(h) => if h < available {
            h as int
        } else {
            available
        },
        None => available,
    }
}

/// A discovered subroutine: its symbol.
pub struct Sub {
    /// The subroutine's symbol.
    pub symbol: String,
}

/// A project: the named owner of a memory map, a lifter and the indices
/// of what has been discovered.
pub struct Project {
    name: String,
    lifter: Lifter,
    memory: Mem,
    blks: Vec<Entity<Blk>>,
    blks_to_addr: Vec<(Uuid, Addr)>,
    addr_to_blks: Vec<(Addr, Uuid)>,
    subs: Vec<Entity<Sub>>,
    subs_to_addr: Vec<(Uuid, Addr)>,
    addr_to_subs: Vec<(Addr, Uuid)>,
}

impl Project {
    /// The name.
    pub closed spec fn name_spec(&self) -> Seq<char> {
        self.name@
    }

    /// The memory map.
    pub closed spec fn memory_spec(&self) -> Mem {
        self.memory
    }

    /// The lifter.
    pub closed spec fn lifter_spec(&self) -> Lifter {
        self.lifter
    }

    /// The discovered blocks, in discovery order.
    pub closed spec fn blks_spec(&self) -> Seq<Entity<Blk>> {
        self.blks@
    }

    /// The block-to-address index.
    pub closed spec fn blks_to_addr_spec(&self) -> Seq<(Uuid, Addr)> {
        self.blks_to_addr@
    }

    /// The address-to-block index.
    pub closed spec fn addr_to_blks_spec(&self) -> Seq<(Addr, Uuid)> {
        self.addr_to_blks@
    }

    /// The discovered subroutines.
    pub closed spec fn subs_spec(&self) -> Seq<Entity<Sub>> {
        self.subs@
    }

    /// A project's validity: its lifter's.
    pub open spec fn valid(&self) -> bool {
        self.lifter_spec().valid()
    }

    /// A fresh project over a lifter, owned under a fresh id.
    pub fn new(name: String, lifter: Lifter) -> (r: Entity<Project>)
        requires
            lifter.valid(),
        ensures
            r.value_spec().name_spec() == name@,
            r.value_spec().lifter_spec() == lifter,
            r.value_spec().valid(),
            r.value_spec().blks_spec() =~= Seq::<Entity<Blk>>::empty(),
            r.value_spec().subs_spec() =~= Seq::<Entity<Sub>>::empty(),
            r.value_spec().memory_spec().regions_spec() =~= Seq::<Entity<Region>>::empty(),
    {
        Entity::new(
            "project",
            Project {
                name,
                lifter,
                memory: Mem::new(String::from_str("M")),
                blks: Vec::new(),
                blks_to_addr: Vec::new(),
                addr_to_blks: Vec::new(),
                subs: Vec::new(),
                subs_to_addr: Vec::new(),
                addr_to_subs: Vec::new(),
            },
        )
    }

    /// Record a region in the memory map.
    pub fn add_region_mapping(&mut self, region: Entity<Region>)
        ensures
            final(self).memory_spec().regions_spec() =~= old(
                self,
            ).memory_spec().regions_spec().push(region),
            final(self).lifter_spec() == old(self).lifter_spec(),
            final(self).blks_spec() == old(self).blks_spec(),
            final(self).name_spec() == old(self).name_spec(),
    {
        self.memory.add_region(region);
    }

    /// Build a region and record it in the memory map.
    pub fn add_region_mapping_with(&mut self, name: String, addr: Addr, endian: Endian, bytes: Vec<u8>)
        requires
            bytes@.len() > 0,
            addr.value() + bytes@.len() < vstd::arithmetic::power2::pow2(addr.width() as nat),
        ensures
            final(self).memory_spec().regions_spec().len() == old(
                self,
            ).memory_spec().regions_spec().len() + 1,
            final(self).lifter_spec() == old(self).lifter_spec(),
            final(self).blks_spec() == old(self).blks_spec(),
            final(self).name_spec() == old(self).name_spec(),
    {
        self.memory.add_region(Region::new(name, addr, endian, bytes));
    }

    /// Open a lift session for the block at `addr`: find the covering
    /// region and budget the bytes from `addr` to the region's end,
    /// clamped by the size hint. Yields nothing when no region covers
    /// the address.
    pub fn begin_blk(&self, addr: Addr, size_hint: Option<usize>) -> (r: Option<LiftSession>)
        ensures
            r is Some <==> self.memory_spec().covers(addr.value()),
            r matches Some(s) ==> {
                &&& s.addr_spec() == addr
                &&& s.offset_spec() == 0
                &&& !s.stopped_spec()
                &&& s.instrs_spec() =~= Seq::<crate::lift::LiftedInstr>::empty()
                &&& exists|i: int|
                    {
                        &&& 0 <= i < self.memory_spec().regions_spec().len()
                        &&& (#[trigger] self.memory_spec().regions_spec()[i]).value_spec().contains_spec(
                            addr.value(),
                        )
                        &&& (forall|j: int|
                            0 <= j < i ==> !(#[trigger] self.memory_spec().regions_spec()[j]).value_spec().contains_spec(
                                addr.value(),
                            ))
                        &&& s.limit_spec() == clamp_hint(
                            self.memory_spec().regions_spec()[i].value_spec().len_spec() - (
                            addr.value() - self.memory_spec().regions_spec()[i].value_spec().start_val()),
                            size_hint,
                        )
                    }
            },
    {
        match self.memory.find_region(&addr) {
            Some(region) => {
                let rg = region.value();
                rg.check();
                addr.check();
                let n = rg.len();
                let off = (addr.value_u128() - rg.address().value_u128()) as usize;
                let available = n - off;
                let sess = LiftSession::new(addr, available, size_hint);
                proof {
                    let i = choose|i: int|
                        {
                            &&& 0 <= i < self.memory_spec().regions_spec().len()
                            &&& *region == self.memory_spec().regions_spec()[i]
                            &&& (#[trigger] self.memory_spec().regions_spec()[i]).value_spec().contains_spec(
                                addr.value(),
                            )
                            &&& forall|j: int|
                                0 <= j < i ==> !(#[trigger] self.memory_spec().regions_spec()[j]).value_spec().contains_spec(
                                    addr.value(),
                                )
                        };
                    assert(self.memory_spec().regions_spec()[i].value_spec() == *rg);
                    assert(available == rg.len_spec() - (addr.value() - rg.start_val()));
                    assert(sess.limit_spec() == clamp_hint(
                        self.memory_spec().regions_spec()[i].value_spec().len_spec() - (
                        addr.value()
                            - self.memory_spec().regions_spec()[i].value_spec().start_val()),
                        size_hint,
                    ));
                }
                Some(sess)
            },
            None => None,
        }
    }

    /// Record the blocks a finished session produced: the first block's
    /// id stands for the instruction at `addr` in both directional
    /// indices, and every block joins the block registry. An empty list
    /// records nothing.
    pub fn index_blks(&mut self, addr: Addr, blks: Vec<Entity<Blk>>) -> (r: Vec<Id<Blk>>)
        ensures
            final(self).lifter_spec() == old(self).lifter_spec(),
            final(self).memory_spec() == old(self).memory_spec(),
            final(self).name_spec() == old(self).name_spec(),
            r@.len() == blks@.len(),
            forall|i: int|
                0 <= i < blks@.len() ==> (#[trigger] r@[i]).uuid_spec()
                    == blks@[i].id_spec().uuid_spec(),
            final(self).blks_spec() =~= old(self).blks_spec() + blks@,
            blks@.len() == 0 ==> final(self).blks_to_addr_spec() == old(self).blks_to_addr_spec()
                && final(self).addr_to_blks_spec() == old(self).addr_to_blks_spec(),
            blks@.len() > 0 ==> final(self).blks_to_addr_spec() =~= old(
                self,
            ).blks_to_addr_spec().push((blks@[0].id_spec().uuid_spec(), addr)),
            blks@.len() > 0 ==> final(self).addr_to_blks_spec() =~= old(
                self,
            ).addr_to_blks_spec().push((addr, blks@[0].id_spec().uuid_spec())),
    {
        let n = blks.len();
        let mut ids: Vec<Id<Blk>> = Vec::new();
        if n == 0 {
            proof {
                assert(self.blks@ + blks@ =~= self.blks@);
            }
            return ids;
        }
        let first = blks[0].id();
        self.blks_to_addr.push((first.uuid(), addr));
        self.addr_to_blks.push((addr, first.uuid()));
        let mut blks = blks;
        let ghost bv = blks@;
        let mut i: usize = 0;
        while i < n
            invariant
                i <= n == bv.len(),
                blks@ =~= bv.skip(i as int),
                ids@.len() == i,
                forall|j: int|
                    0 <= j < i ==> (#[trigger] ids@[j]).uuid_spec() == bv[j].id_spec().uuid_spec(),
                self.blks@ =~= old(self).blks@ + bv.take(i as int),
                self.lifter_spec() == old(self).lifter_spec(),
                self.memory_spec() == old(self).memory_spec(),
                self.name_spec() == old(self).name_spec(),
                self.blks_to_addr@ == old(self).blks_to_addr@.push((bv[0].id_spec().uuid_spec(), addr)),
                self.addr_to_blks@ == old(self).addr_to_blks@.push((addr, bv[0].id_spec().uuid_spec())),
            decreases n - i,
        {
            let b = blks.remove(0);
            proof {
                assert(b == bv[i as int]);
                assert(blks@ =~= bv.skip(i + 1));
                assert((old(self).blks@ + bv.take(i as int)).push(bv[i as int]) =~= old(self).blks@
                    + bv.take(i + 1));
            }
            ids.push(b.id());
            self.blks.push(b);
            i = i + 1;
        }
        proof {
            assert(bv.take(n as int) =~= bv);
        }
        ids
    }

    /// The block under an id, when the registry holds it.
    pub fn find_blk(&self, id: &Id<Blk>) -> (r: Option<&Entity<Blk>>)
        ensures
            r is Some <==> exists|i: int|
                0 <= i < self.blks_spec().len() && (#[trigger] self.blks_spec()[i]).id_spec().uuid_spec()
                    == id.uuid_spec(),
            r matches Some(b) ==> b.id_spec().uuid_spec() == id.uuid_spec(),
    {
        let n = self.blks.len();
        let mut i: usize = 0;
        while i < n
            invariant
                i <= n == self.blks_spec().len(),
                forall|j: int|
                    0 <= j < i ==> (#[trigger] self.blks_spec()[j]).id_spec().uuid_spec()
                        != id.uuid_spec(),
            decreases n - i,
        {
            if self.blks[i].id().uuid() == id.uuid() {
                return Some(&self.blks[i]);
            }
            i = i + 1;
        }
        None
    }

    /// The id of the block discovered at an address, when one is
    /// recorded: the earliest record wins.
    pub fn blk_at(&self, addr: &Addr) -> (r: Option<Uuid>)
        ensures
            r is Some <==> exists|i: int|
                0 <= i < self.addr_to_blks_spec().len() && (#[trigger] self.addr_to_blks_spec()[i]).0.value()
                    == addr.value(),
            r matches Some(u) ==> exists|i: int|
                {
                    &&& 0 <= i < self.addr_to_blks_spec().len()
                    &&& (#[trigger] self.addr_to_blks_spec()[i]).0.value() == addr.value()
                    &&& u == self.addr_to_blks_spec()[i].1
                    &&& forall|j: int|
                        0 <= j < i ==> (#[trigger] self.addr_to_blks_spec()[j]).0.value()
                            != addr.value()
                },
    {
        let n = self.addr_to_blks.len();
        let mut i: usize = 0;
        while i < n
            invariant
                i <= n == self.addr_to_blks_spec().len(),
                forall|j: int|
                    0 <= j < i ==> (#[trigger] self.addr_to_blks_spec()[j]).0.value()
                        != addr.value(),
            decreases n - i,
        {
            if self.addr_to_blks[i].0.value_u128() == addr.value_u128() {
                return Some(self.addr_to_blks[i].1);
            }
            i = i + 1;
        }
        None
    }

    /// The memory map.
    pub fn memory(&self) -> (r: &Mem)
        ensures
            *r == self.memory_spec(),
    {
        &self.memory
    }

    /// The lifter.
    pub fn lifter(&self) -> (r: &Lifter)
        ensures
            *r == self.lifter_spec(),
    {
        &self.lifter
    }

    /// The name.
    pub fn name(&self) -> (r: &String)
        ensures
            r@ == self.name_spec(),
    {
        &self.name
    }
}

} // verus!
