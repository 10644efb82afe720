//! Checks on the identifiers of paired reads (mates read from two files in
//! lockstep).

use vstd::prelude::*;

verus! {

/// The byte that ends the identifier of a first mate (`1`).
pub const FIRST_MATE: u8 = 49;

/// The byte that ends the identifier of a second mate (`2`).
pub const SECOND_MATE: u8 = 50;

/// Whether the identifiers end in `1` and `2` respectively.
pub open spec fn spec_mates_numbered(f1: Seq<u8>, f2: Seq<u8>) -> bool {
    f1.len() > 0 && f2.len() > 0 && f1.last() == FIRST_MATE && f2.last() == SECOND_MATE
}

/// Whether the identifiers are equal but for their last bytes.
pub open spec fn spec_same_name(f1: Seq<u8>, f2: Seq<u8>) -> bool {
    f1.len() > 0 && f2.len() > 0 && f1.drop_last() == f2.drop_last()
}

/// What the check of one pair found.
#[derive(Debug, PartialEq, Eq, Structural, Clone, Copy)]
pub struct PairCheck {
    /// The first identifier ends in `1` and the second in `2`.
    pub numbered: bool,
    /// The identifiers agree up to their last bytes.
    pub same_name: bool,
}

impl PairCheck {
    /// Both checks passed.
    pub fn is_ok(&self) -> (r: bool)
        ensures
            r == (self.numbered && self.same_name),
    {
        self.numbered && self.same_name
    }
}

/// Checks the identifiers `f1` and `f2` of two mates. An empty identifier
/// fails both checks.
pub fn check_pair(f1: &[u8], f2: &[u8]) -> (r: PairCheck)
    ensures
        r.numbered == spec_mates_numbered(f1@, f2@),
        r.same_name == spec_same_name(f1@, f2@),
{
    let n1 = f1.len();
    let n2 = f2.len();
    if n1 == 0 || n2 == 0 {
        return PairCheck { numbered: false, same_name: false };
    }
    let numbered = f1[n1 - 1] == FIRST_MATE && f2[n2 - 1] == SECOND_MATE;
    if n1 != n2 {
        proof {
            assert(f1@.drop_last().len() != f2@.drop_last().len());
        }
        return PairCheck { numbered, same_name: false };
    }
    let mut i: usize = 0;
    while i < n1 - 1
        invariant
            n1 == f1@.len(),
            n2 == f2@.len(),
            n1 == n2,
            numbered == spec_mates_numbered(f1@, f2@),
            n1 > 0,
            i <= n1 - 1,
            f1@.subrange(0, i as int) == f2@.subrange(0, i as int),
        decreases n1 - i,
    {
        if f1[i] != f2[i] {
            proof {
                assert(f1@.drop_last()[i as int] != f2@.drop_last()[i as int]);
            }
            return PairCheck { numbered, same_name: false };
        }
        proof {
            assert(f1@.subrange(0, i + 1) =~= f1@.subrange(0, i as int).push(f1@[i as int]));
            assert(f2@.subrange(0, i + 1) =~= f2@.subrange(0, i as int).push(f2@[i as int]));
        }
        i = i + 1;
    }
    proof {
        assert(f1@.drop_last() =~= f1@.subrange(0, i as int));
        assert(f2@.drop_last() =~= f2@.subrange(0, i as int));
    }
    PairCheck { numbered, same_name: true }
}

} // verus!
