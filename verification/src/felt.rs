//! Elements of the field that Miden computes in.

use vstd::prelude::*;

verus! {

/// The number of field elements: `2^64 - 2^32 + 1`.
pub const MODULUS: u64 = 18_446_744_069_414_584_321;

/// A field element, which is a number below [`MODULUS`].
#[derive(Clone, Copy, Debug, PartialEq, Eq, Structural)]
pub struct Felt {
    value: u64,
}

impl View for Felt {
    type V = nat;

    closed spec fn view(&self) -> nat {
        self.value as nat
    }
}

impl Felt {
    #[verifier::type_invariant]
    closed spec fn below_modulus(self) -> bool {
        self.value < MODULUS
    }

    /// The element `value`, where there is one.
    pub fn new(value: u64) -> (r: Option<Felt>)
        ensures
            match r {
                Some(felt) => value < MODULUS && felt@ == value,
                None => value >= MODULUS,
            },
    {
        if value < MODULUS {
            Some(Felt { value })
        } else {
            None
        }
    }

    /// The element `value`.
    pub fn from(value: u32) -> (r: Felt)
        ensures
            r@ == value,
    {
        Felt { value: value as u64 }
    }

    /// The number that this element is.
    pub fn as_canonical_u64(&self) -> (r: u64)
        ensures
            r == self@,
            r < MODULUS,
    {
        proof {
            use_type_invariant(self);
        }
        self.value
    }
}

/// The numbers that `felts` are.
pub open spec fn values(felts: Seq<Felt>) -> Seq<nat> {
    felts.map_values(|felt: Felt| felt@)
}

/// The number of field elements is `2^64 - 2^32 + 1`.
pub proof fn lemma_modulus()
    ensures
        MODULUS == 0x1_0000_0000int * 0x1_0000_0000int - 0x1_0000_0000int + 1,
{
}

/// Every element gives its number, in its place.
pub proof fn lemma_values(felts: Seq<Felt>, i: int)
    requires
        0 <= i < felts.len(),
    ensures
        values(felts).len() == felts.len(),
        values(felts)[i] == felts[i]@,
{
}

} // verus!
