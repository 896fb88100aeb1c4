//! Basic blocks: ordered phis, data effects and control effects.
//!
//! A block under construction accumulates effects in order; a finished
//! block ends in its control effects. Splitting a block at a data-effect
//! position moves the tail of the data effects and all control effects
//! into a child block, and leaves the parent ending in exactly one
//! unconditional branch to the child.

use vstd::prelude::*;

use crate::address::Addr;
use crate::effect::{Def, Jmp};
use crate::entity::Entity;
use crate::id::{Id, Identifiable};
use crate::location::Loc;
use crate::phi::Phi;

verus! {

/// A basic block.
pub struct Blk {
    addr: Option<Addr>,
    phis: Vec<Entity<Phi>>,
    defs: Vec<Entity<Def>>,
    jmps: Vec<Entity<Jmp>>,
}

impl Blk {
    /// The anchor address, when the block starts an instruction.
    pub closed spec fn addr_spec(&self) -> Option<Addr> {
        self.addr
    }

    /// The join-point assignments.
    pub closed spec fn phis_spec(&self) -> Seq<Entity<Phi>> {
        self.phis@
    }

    /// The data effects, in order.
    pub closed spec fn defs_spec(&self) -> Seq<Entity<Def>> {
        self.defs@
    }

    /// The control effects, in order.
    pub closed spec fn jmps_spec(&self) -> Seq<Entity<Jmp>> {
        self.jmps@
    }

    /// An empty block, owned under a fresh id.
    pub fn new(addr: Option<Addr>) -> (r: Entity<Blk>)
        ensures
            r.value_spec().addr_spec() == addr,
            r.value_spec().phis_spec() =~= Seq::<Entity<Phi>>::empty(),
            r.value_spec().defs_spec() =~= Seq::<Entity<Def>>::empty(),
            r.value_spec().jmps_spec() =~= Seq::<Entity<Jmp>>::empty(),
            !r.id_spec().uuid_spec().is_zero_spec(),
    {
        Blk::new_with(addr, Vec::new(), Vec::new(), Vec::new())
    }

    /// A block with the given contents, owned under a fresh id.
    pub fn new_with(
        addr: Option<Addr>,
        phis: Vec<Entity<Phi>>,
        defs: Vec<Entity<Def>>,
        jmps: Vec<Entity<Jmp>>,
    ) -> (r: Entity<Blk>)
        ensures
            r.value_spec().addr_spec() == addr,
            r.value_spec().phis_spec() == phis@,
            r.value_spec().defs_spec() == defs@,
            r.value_spec().jmps_spec() == jmps@,
            !r.id_spec().uuid_spec().is_zero_spec(),
    {
        Entity::new("blk", Blk { addr, phis, defs, jmps })
    }

    /// The data effects.
    pub fn defs(&self) -> (r: &Vec<Entity<Def>>)
        ensures
            r@ == self.defs_spec(),
    {
        &self.defs
    }

    /// The join-point assignments.
    pub fn phis(&self) -> (r: &Vec<Entity<Phi>>)
        ensures
            r@ == self.phis_spec(),
    {
        &self.phis
    }

    /// The control effects.
    pub fn jmps(&self) -> (r: &Vec<Entity<Jmp>>)
        ensures
            r@ == self.jmps_spec(),
    {
        &self.jmps
    }

    /// Append a data effect.
    pub fn add_def(&mut self, def: Entity<Def>)
        ensures
            final(self).defs_spec() =~= old(self).defs_spec().push(def),
            final(self).phis_spec() == old(self).phis_spec(),
            final(self).jmps_spec() == old(self).jmps_spec(),
            final(self).addr_spec() == old(self).addr_spec(),
    {
        self.defs.push(def);
    }

    /// Append a join-point assignment.
    pub fn add_phi(&mut self, phi: Entity<Phi>)
        ensures
            final(self).phis_spec() =~= old(self).phis_spec().push(phi),
            final(self).defs_spec() == old(self).defs_spec(),
            final(self).jmps_spec() == old(self).jmps_spec(),
            final(self).addr_spec() == old(self).addr_spec(),
    {
        self.phis.push(phi);
    }

    /// Append a control effect.
    pub fn add_jmp(&mut self, jmp: Entity<Jmp>)
        ensures
            final(self).jmps_spec() =~= old(self).jmps_spec().push(jmp),
            final(self).defs_spec() == old(self).defs_spec(),
            final(self).phis_spec() == old(self).phis_spec(),
            final(self).addr_spec() == old(self).addr_spec(),
    {
        self.jmps.push(jmp);
    }

    /// Split at a data-effect position. The child takes the data
    /// effects from the position on and all control effects; the parent
    /// keeps the prefix and ends in exactly one unconditional branch to
    /// the child. With no position, the child takes no data effect and
    /// the parent keeps them all; the control effects still move.
    pub fn split_off(&mut self, pos: Option<usize>) -> (r: Entity<Blk>)
        requires
            pos matches Some(p) ==> p <= old(self).defs_spec().len(),
        ensures
            r.value_spec().addr_spec() is None,
            r.value_spec().phis_spec() =~= Seq::<Entity<Phi>>::empty(),
            pos matches Some(p) ==> r.value_spec().defs_spec() =~= old(self).defs_spec().skip(
                p as int,
            ),
            pos is None ==> r.value_spec().defs_spec() =~= Seq::<Entity<Def>>::empty(),
            r.value_spec().jmps_spec() =~= old(self).jmps_spec(),
            pos matches Some(p) ==> final(self).defs_spec() =~= old(self).defs_spec().take(
                p as int,
            ),
            pos is None ==> final(self).defs_spec() == old(self).defs_spec(),
            final(self).phis_spec() == old(self).phis_spec(),
            final(self).addr_spec() == old(self).addr_spec(),
            final(self).jmps_spec().len() == 1,
            final(self).jmps_spec()[0].value_spec() == Jmp::Branch(
                Loc::Resolved(r.id_spec().transmute_spec::<crate::id::Erased>()),
            ),
            !r.id_spec().uuid_spec().is_zero_spec(),
    {
        let ndefs = match pos {
            Some(p) => self.defs.split_off(p),
            None => Vec::new(),
        };
        let njmps = self.jmps.split_off(0);
        proof {
            assert(old(self).jmps_spec().subrange(0, old(self).jmps_spec().len() as int)
                =~= old(self).jmps_spec());
        }
        let nblk = Blk::new_with(None, Vec::new(), ndefs, njmps);
        let nid = nblk.id();
        self.jmps.push(Jmp::branch(Loc::resolved(nid)));
        nblk
    }

    /// Split off everything: the child takes all data and control
    /// effects.
    pub fn split_top(&mut self) -> (r: Entity<Blk>)
        ensures
            r.value_spec().addr_spec() is None,
            r.value_spec().phis_spec() =~= Seq::<Entity<Phi>>::empty(),
            r.value_spec().defs_spec() =~= old(self).defs_spec(),
            r.value_spec().jmps_spec() =~= old(self).jmps_spec(),
            final(self).defs_spec() =~= Seq::<Entity<Def>>::empty(),
            final(self).phis_spec() == old(self).phis_spec(),
            final(self).addr_spec() == old(self).addr_spec(),
            final(self).jmps_spec().len() == 1,
            final(self).jmps_spec()[0].value_spec() == Jmp::Branch(
                Loc::Resolved(r.id_spec().transmute_spec::<crate::id::Erased>()),
            ),
    {
        let r = self.split_off(Some(0));
        proof {
            assert(old(self).defs_spec().skip(0) =~= old(self).defs_spec());
        }
        r
    }

    /// Split off the end: the child takes no data effect, only the
    /// control effects.
    pub fn split_bottom(&mut self) -> (r: Entity<Blk>)
        ensures
            r.value_spec().addr_spec() is None,
            r.value_spec().phis_spec() =~= Seq::<Entity<Phi>>::empty(),
            r.value_spec().defs_spec() =~= Seq::<Entity<Def>>::empty(),
            r.value_spec().jmps_spec() =~= old(self).jmps_spec(),
            final(self).defs_spec() =~= old(self).defs_spec(),
            final(self).phis_spec() == old(self).phis_spec(),
            final(self).addr_spec() == old(self).addr_spec(),
            final(self).jmps_spec().len() == 1,
            final(self).jmps_spec()[0].value_spec() == Jmp::Branch(
                Loc::Resolved(r.id_spec().transmute_spec::<crate::id::Erased>()),
            ),
    {
        let n = self.defs.len();
        let r = self.split_off(Some(n));
        proof {
            assert(old(self).defs_spec().skip(old(self).defs_spec().len() as int)
                =~= Seq::<Entity<Def>>::empty());
            assert(old(self).defs_spec().take(old(self).defs_spec().len() as int)
                =~= old(self).defs_spec());
        }
        r
    }

    /// Whether position `i` holds the first data effect with the given
    /// identity.
    pub open spec fn first_def_at(&self, uuid: crate::id::Uuid, i: int) -> bool {
        &&& 0 <= i < self.defs_spec().len()
        &&& self.defs_spec()[i].id_spec().uuid_spec() == uuid
        &&& forall|j: int|
            0 <= j < i ==> (#[trigger] self.defs_spec()[j]).id_spec().uuid_spec() != uuid
    }

    /// Whether some data effect has the given identity.
    pub open spec fn has_def(&self, uuid: crate::id::Uuid) -> bool {
        exists|i: int|
            0 <= i < self.defs_spec().len() && (#[trigger] self.defs_spec()[i]).id_spec().uuid_spec()
                == uuid
    }

    /// Find the first data effect with the given identity.
    fn find_def(&self, id: &Id<Def>) -> (r: Option<usize>)
        ensures
            r is Some <==> exists|i: int|
                0 <= i < self.defs_spec().len() && (
                #[trigger] self.defs_spec()[i]).id_spec().uuid_spec() == id.uuid_spec(),
            r matches Some(p) ==> {
                &&& 0 <= p < self.defs_spec().len()
                &&& self.defs_spec()[p as int].id_spec().uuid_spec() == id.uuid_spec()
                &&& forall|j: int|
                    0 <= j < p ==> (#[trigger] self.defs_spec()[j]).id_spec().uuid_spec()
                        != id.uuid_spec()
            },
    {
        let n = self.defs.len();
        let mut i: usize = 0;
        while i < n
            invariant
                i <= n == self.defs_spec().len(),
                forall|j: int|
                    0 <= j < i ==> (#[trigger] self.defs_spec()[j]).id_spec().uuid_spec()
                        != id.uuid_spec(),
            decreases n - i,
        {
            if self.defs[i].id().uuid() == id.uuid() {
                return Some(i);
            }
            i = i + 1;
        }
        None
    }

    /// Split before the data effect with the given identity: the child
    /// takes it and everything after it. When no data effect has that
    /// identity, the child takes no data effect.
    pub fn split_before<D: Identifiable<Def>>(&mut self, def: &D) -> (r: Entity<Blk>)
        ensures
            r.value_spec().addr_spec() is None,
            r.value_spec().phis_spec() =~= Seq::<Entity<Phi>>::empty(),
            r.value_spec().jmps_spec() =~= old(self).jmps_spec(),
            final(self).phis_spec() == old(self).phis_spec(),
            final(self).addr_spec() == old(self).addr_spec(),
            final(self).jmps_spec().len() == 1,
            final(self).jmps_spec()[0].value_spec() == Jmp::Branch(
                Loc::Resolved(r.id_spec().transmute_spec::<crate::id::Erased>()),
            ),
            final(self).defs_spec() + r.value_spec().defs_spec() =~= old(self).defs_spec(),
            forall|i: int|
                old(self).first_def_at(def.sid().uuid_spec(), i) ==> {
                    &&& r.value_spec().defs_spec() =~= old(self).defs_spec().skip(i)
                    &&& final(self).defs_spec() =~= old(self).defs_spec().take(i)
                },
            !old(self).has_def(def.sid().uuid_spec()) ==> {
                &&& r.value_spec().defs_spec() =~= Seq::<Entity<Def>>::empty()
                &&& final(self).defs_spec() == old(self).defs_spec()
            },
    {
        let id = def.id();
        let pos = self.find_def(&id);
        let r = self.split_off(pos);
        proof {
            if pos is Some {
                assert(old(self).defs_spec().take(pos->0 as int) + old(self).defs_spec().skip(
                    pos->0 as int,
                ) =~= old(self).defs_spec());
            } else {
                assert(old(self).defs_spec() + Seq::<Entity<Def>>::empty() =~= old(
                    self,
                ).defs_spec());
            }
        }
        r
    }

    /// Split after the data effect with the given identity: the child
    /// takes everything after it. When no data effect has that
    /// identity, the child takes no data effect.
    pub fn split_after<D: Identifiable<Def>>(&mut self, def: &D) -> (r: Entity<Blk>)
        ensures
            r.value_spec().addr_spec() is None,
            r.value_spec().phis_spec() =~= Seq::<Entity<Phi>>::empty(),
            r.value_spec().jmps_spec() =~= old(self).jmps_spec(),
            final(self).phis_spec() == old(self).phis_spec(),
            final(self).addr_spec() == old(self).addr_spec(),
            final(self).jmps_spec().len() == 1,
            final(self).jmps_spec()[0].value_spec() == Jmp::Branch(
                Loc::Resolved(r.id_spec().transmute_spec::<crate::id::Erased>()),
            ),
            final(self).defs_spec() + r.value_spec().defs_spec() =~= old(self).defs_spec(),
            forall|i: int|
                old(self).first_def_at(def.sid().uuid_spec(), i) ==> {
                    &&& r.value_spec().defs_spec() =~= old(self).defs_spec().skip(i + 1)
                    &&& final(self).defs_spec() =~= old(self).defs_spec().take(i + 1)
                },
            !old(self).has_def(def.sid().uuid_spec()) ==> {
                &&& r.value_spec().defs_spec() =~= Seq::<Entity<Def>>::empty()
                &&& final(self).defs_spec() == old(self).defs_spec()
            },
    {
        let id = def.id();
        let n = self.defs.len();
        let pos = match self.find_def(&id) {
            Some(p) => Some(p + 1),
            None => None,
        };
        let r = self.split_off(pos);
        proof {
            if pos is Some {
                assert(old(self).defs_spec().take(pos->0 as int) + old(self).defs_spec().skip(
                    pos->0 as int,
                ) =~= old(self).defs_spec());
            } else {
                assert(old(self).defs_spec() + Seq::<Entity<Def>>::empty() =~= old(
                    self,
                ).defs_spec());
            }
        }
        r
    }
}

} // verus!
