//! Control-flow targets of the IR.

use vstd::prelude::*;

use crate::address::Addr;
use crate::block::Blk;
use crate::expr::Expr;
use crate::id::{Erased, Id};

verus! {

/// Where a control-flow effect goes.
#[derive(Debug)]
pub enum Loc {
    /// A known block, by its erased id.
    Resolved(Id<Erased>),
    /// A fixed address not yet tied to a block.
    Fixed(Addr),
    /// A target computed at run time.
    Computed(Expr),
}

impl Loc {
    /// A resolved target naming a block.
    pub fn resolved(id: Id<Blk>) -> (r: Loc)
        ensures
            r == Loc::Resolved(id.transmute_spec::<Erased>()),
    {
        Loc::Resolved(id.erase())
    }

    /// The named block of a resolved target.
    pub fn block_id(&self) -> (r: Option<Id<Blk>>)
        ensures
            r is Some <==> *self is Resolved,
            self matches Loc::Resolved(id) ==> r == Some(id.transmute_spec::<Blk>()),
    {
        match self {
            Loc::Resolved(id) => Some(id.transmute()),
            _ => None,
        }
    }

    /// Whether the target is a known block.
    pub fn is_resolved(&self) -> (r: bool)
        ensures
            r == (*self is Resolved),
    {
        matches!(*self, Loc::Resolved(_))
    }

    /// Whether the target is a fixed address.
    pub fn is_fixed(&self) -> (r: bool)
        ensures
            r == (*self is Fixed),
    {
        matches!(*self, Loc::Fixed(_))
    }

    /// Whether the target is known statically: resolved or fixed.
    pub fn is_determined(&self) -> (r: bool)
        ensures
            r == (*self is Resolved || *self is Fixed),
    {
        self.is_resolved() || self.is_fixed()
    }

    /// Whether the target is computed at run time.
    pub fn is_computed(&self) -> (r: bool)
        ensures
            r == (*self is Computed),
    {
        matches!(*self, Loc::Computed(_))
    }
}

} // verus!
