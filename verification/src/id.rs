//! Player identity: the 32 bytes of a player's long-term Ed25519 public key.

use vstd::prelude::*;

verus! {

/// A 32-byte opaque identifier derived from a player's public key.
/// Equality is byte-equality.
#[derive(Clone, Copy, Debug, PartialEq, Eq, PartialOrd, Ord)]
pub struct Id {
    pub bytes: [u8; 32],
}

impl View for Id {
    type V = Seq<u8>;

    open spec fn view(&self) -> Seq<u8> {
        self.bytes@
    }
}

impl Id {
    pub fn new(bytes: [u8; 32]) -> (r: Id)
        ensures
            r@ == bytes@,
    {
        Id { bytes }
    }

    /// Byte-for-byte equality of two identities.
    pub fn same_as(&self, other: &Id) -> (r: bool)
        ensures
            r == (self@ == other@),
    {
        let mut i: usize = 0;
        while i < 32
            invariant
                0 <= i <= 32,
                forall|k: int| 0 <= k < i ==> self.bytes@[k] == other.bytes@[k],
            decreases 32 - i,
        {
            if self.bytes[i] != other.bytes[i] {
                assert(self@ != other@);
                return false;
            }
            i += 1;
        }
        proof {
            assert(self@ =~= other@);
        }
        true
    }
}

} // verus!
