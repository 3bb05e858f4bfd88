use vstd::prelude::*;

verus! {

/// An opaque owner identity: a 32-byte key issued and authenticated by
/// the external ledger. The registry never inspects it beyond equality.
#[derive(Clone, Copy, Debug)]
pub struct OwnerId {
    pub key: [u8; 32],
}

impl PartialEq for OwnerId {
    fn eq(&self, other: &OwnerId) -> (r: bool) {
        let mut i: usize = 0;
        while i < 32
            invariant
                i <= 32,
                forall|k: int| 0 <= k < i ==> self.key[k] == other.key[k],
            decreases 32 - i,
        {
            if self.key[i] != other.key[i] {
                return false;
            }
            i = i + 1;
        }
        proof {
            assert(self.key =~= other.key);
        }
        true
    }
}

impl vstd::std_specs::cmp::PartialEqSpecImpl for OwnerId {
    open spec fn obeys_eq_spec() -> bool {
        true
    }

    open spec fn eq_spec(&self, other: &OwnerId) -> bool {
        self.key == other.key
    }
}

} // verus!
