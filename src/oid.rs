use vstd::prelude::*;

verus! {

/// Number of bytes in an object id of the host version-control system.
pub const OID_LEN: usize = 20;

/// The id of an object (commit, tree or blob) of the version-control system.
#[derive(Clone, Copy, Debug)]
pub struct ObjectId {
    pub bytes: [u8; 20],
}

impl ObjectId {
    pub open spec fn id(self) -> Seq<u8> {
        self.bytes@
    }

    /// Whether two ids name the same object.
    pub fn same(&self, other: &ObjectId) -> (r: bool)
        ensures
            r == (*self == *other),
    {
        let mut i: usize = 0;
        while i < OID_LEN
            invariant
                0 <= i <= OID_LEN,
                self.bytes@.len() == OID_LEN,
                other.bytes@.len() == OID_LEN,
                forall|j: int| 0 <= j < i ==> self.bytes@[j] == other.bytes@[j],
            decreases OID_LEN - i,
        {
            if self.bytes[i] != other.bytes[i] {
                return false;
            }
            i = i + 1;
        }
        assert(self.bytes =~= other.bytes);
        true
    }
}

} // verus!
