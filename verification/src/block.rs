//! Block identity.

use vstd::prelude::*;

verus! {

/// Identifies a block type. `BlockId(0)` is always air: storage, meshing and
/// serialization rely on it.
///
/// Block *state* (orientation, growth stage) is a separate concern and is
/// never packed into the id.
#[derive(Debug, Clone, Copy, PartialEq, Eq, Hash, PartialOrd, Ord, Default, Structural)]
pub struct BlockId(pub u16);

impl BlockId {
    /// The empty block. Always id 0.
    #[inline]
    #[verifier::allow_in_spec]
    pub fn air() -> (id: BlockId)
        returns
            BlockId(0u16),
    {
        BlockId(0)
    }

    #[inline]
    #[verifier::allow_in_spec]
    pub fn is_air(self) -> (r: bool)
        returns
            self.0 == 0,
    {
        self.0 == 0
    }
}

} // verus!
