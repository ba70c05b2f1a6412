//! Identifiers used by the tracker: validators and candidates.

use vstd::prelude::*;

verus! {

/// The index of a validator within the active session.
#[derive(Clone, Copy, PartialEq, Eq, Structural, Debug, Hash)]
pub struct ValidatorIndex(pub u32);

/// The 32-byte digest that identifies a candidate.
#[derive(Clone, Copy, Eq, Debug, Hash)]
pub struct CandidateHash(pub [u8; 32]);

impl PartialEq for CandidateHash {
    fn eq(&self, other: &CandidateHash) -> (r: bool)
        ensures
            r == (self.0 == other.0),
    {
        let mut i: usize = 0;
        while i < 32
            invariant
                0 <= i <= 32,
                forall|j: int| 0 <= j < i ==> self.0[j] == other.0[j],
            decreases 32 - i,
        {
            if self.0[i] != other.0[i] {
                return false;
            }
            i = i + 1;
        }
        assert(self.0 =~= other.0);
        true
    }
}

impl vstd::std_specs::cmp::PartialEqSpecImpl for CandidateHash {
    open spec fn obeys_eq_spec() -> bool {
        true
    }

    open spec fn eq_spec(&self, other: &CandidateHash) -> bool {
        self.0 == other.0
    }
}

} // verus!
