//! Advisory oracles: a priori knowledge a caller may layer over block
//! and subroutine discovery. Implementations live with the caller;
//! nothing here constrains what they answer.

use vstd::prelude::*;

use crate::address::Addr;

verus! {

/// A source of a priori knowledge about blocks.
pub trait BlkOracle {
    /// A size bound for the block at an address, when one is known.
    fn blk_size(&self, addr: &Addr) -> Option<usize>;

    /// The known outgoing jump targets of the block at an address.
    fn blk_jmps(&self, addr: &Addr) -> Vec<Addr>;
}

/// A source of a priori knowledge about subroutines.
pub trait SubOracle {
    /// The known subroutine entry points.
    fn sub_starts(&self) -> Vec<Addr>;

    /// The symbol of the subroutine at an address, when one is known.
    fn sub_symbol(&self, addr: &Addr) -> Option<String>;

    /// The known block addresses of the subroutine at an address.
    fn sub_blocks(&self, addr: &Addr) -> Vec<Addr>;
}

} // verus!
