//! Bit flags that classify a sampled BSDF lobe.
use vstd::prelude::*;

verus! {

/// A set of lobe-classification flags, one bit per flag.
#[derive(Clone, Copy, Debug, Default, PartialEq, Eq, Structural)]
pub struct BsdfLobeType(pub u32);

impl BsdfLobeType {
    /// The empty set.
    pub fn none() -> (r: Self)
        ensures
            r.0 == 0,
    {
        BsdfLobeType(0)
    }

    /// Light leaves on the side it arrived from (bit 0).
    pub fn reflection() -> (r: Self)
        ensures
            r == Self::named_flags()[0],
    {
        BsdfLobeType(1)
    }

    /// Light passes through the surface (bit 1).
    pub fn transmission() -> (r: Self)
        ensures
            r == Self::named_flags()[1],
    {
        BsdfLobeType(2)
    }

    /// A diffuse lobe (bit 2).
    pub fn diffuse() -> (r: Self)
        ensures
            r == Self::named_flags()[2],
    {
        BsdfLobeType(4)
    }

    /// A glossy lobe (bit 3).
    pub fn glossy() -> (r: Self)
        ensures
            r == Self::named_flags()[3],
    {
        BsdfLobeType(8)
    }

    /// A perfectly specular lobe (bit 4).
    pub fn specular() -> (r: Self)
        ensures
            r == Self::named_flags()[4],
    {
        BsdfLobeType(16)
    }

    /// Scattering inside a volume (bit 5).
    pub fn volume() -> (r: Self)
        ensures
            r == Self::named_flags()[5],
    {
        BsdfLobeType(32)
    }

    /// Whether the two flag sets share at least one flag.
    pub open spec fn shares_flag(self, flag: Self) -> bool {
        self.0 & flag.0 != 0
    }

    /// The named flags, each a single bit, in increasing bit order.
    pub open spec fn named_flags() -> Seq<BsdfLobeType> {
        seq![
            BsdfLobeType(1),
            BsdfLobeType(2),
            BsdfLobeType(4),
            BsdfLobeType(8),
            BsdfLobeType(16),
            BsdfLobeType(32),
        ]
    }

    /// Whether `self` has at least one of the flags of `flag`.
    pub fn contains(self, flag: Self) -> (r: bool)
        ensures
            r == self.shares_flag(flag),
            r == (self.0 & flag.0 != 0),
    {
        self.0 & flag.0 != 0
    }
}

/// `contains` is symmetric: `a` has a flag of `b` exactly when `b` has a flag of `a`.
pub proof fn lemma_contains_symmetric(a: BsdfLobeType, b: BsdfLobeType)
    ensures
        a.shares_flag(b) == b.shares_flag(a),
{
    let (x, y) = (a.0, b.0);
    assert(x & y == y & x) by (bit_vector);
}

/// A set contains every non-empty set of flags that it holds all of: a glossy transmission
/// lobe contains the transmission flag.
pub proof fn lemma_contains_subset(a: BsdfLobeType, f: BsdfLobeType)
    requires
        f.0 != 0,
        a.0 & f.0 == f.0,
    ensures
        a.shares_flag(f),
{
    let (x, y) = (a.0, f.0);
    assert(y != 0 && x & y == y ==> x & y != 0) by (bit_vector);
}

/// Containment of a flag only grows with the set: if `a` shares a flag with `f`, so does every
/// set `b` that holds all the flags of `a`.
pub proof fn lemma_contains_monotone(a: BsdfLobeType, b: BsdfLobeType, f: BsdfLobeType)
    requires
        a.0 & b.0 == a.0,
        a.shares_flag(f),
    ensures
        b.shares_flag(f),
{
    let (x, y, z) = (a.0, b.0, f.0);
    assert(x & y == x && x & z != 0 ==> y & z != 0) by (bit_vector);
}

/// A union of flag sets shares a flag with `f` exactly when one of its parts does.
pub proof fn lemma_contains_union(a: BsdfLobeType, b: BsdfLobeType, f: BsdfLobeType)
    ensures
        BsdfLobeType(a.0 | b.0).shares_flag(f) == (a.shares_flag(f) || b.shares_flag(f)),
{
    let (x, y, z) = (a.0, b.0, f.0);
    assert(((x | y) & z != 0) == (x & z != 0 || y & z != 0)) by (bit_vector);
}

/// The empty set contains no flag, and no set contains a flag of the empty set.
pub proof fn lemma_none_contains_nothing(a: BsdfLobeType)
    ensures
        !BsdfLobeType(0).shares_flag(a),
        !a.shares_flag(BsdfLobeType(0)),
{
    let x = a.0;
    assert(0u32 & x == 0 && x & 0u32 == 0) by (bit_vector);
}

/// A set contains one of its own flags exactly when it is not empty.
pub proof fn lemma_contains_self(a: BsdfLobeType)
    ensures
        a.shares_flag(a) <==> a.0 != 0,
{
    let x = a.0;
    assert(x & x == x) by (bit_vector);
}

/// The named flags are pairwise distinct single bits: each contains itself and no other
/// named flag.
pub proof fn lemma_named_flags_distinct()
    ensures
        BsdfLobeType::named_flags().len() == 6,
        forall|i: int, j: int|
            0 <= i < 6 && 0 <= j < 6 ==> (#[trigger] BsdfLobeType::named_flags()[i]).shares_flag(
                #[trigger] BsdfLobeType::named_flags()[j],
            ) == (i == j),
{
    let f = BsdfLobeType::named_flags();
    assert(1u32 & 1u32 != 0 && 1u32 & 2u32 == 0 && 1u32 & 4u32 == 0 && 1u32 & 8u32 == 0 && 1u32 & 16u32 == 0 && 1u32 & 32u32 == 0) by (bit_vector);
    assert(2u32 & 1u32 == 0 && 2u32 & 2u32 != 0 && 2u32 & 4u32 == 0 && 2u32 & 8u32 == 0 && 2u32 & 16u32 == 0 && 2u32 & 32u32 == 0) by (bit_vector);
    assert(4u32 & 1u32 == 0 && 4u32 & 2u32 == 0 && 4u32 & 4u32 != 0 && 4u32 & 8u32 == 0 && 4u32 & 16u32 == 0 && 4u32 & 32u32 == 0) by (bit_vector);
    assert(8u32 & 1u32 == 0 && 8u32 & 2u32 == 0 && 8u32 & 4u32 == 0 && 8u32 & 8u32 != 0 && 8u32 & 16u32 == 0 && 8u32 & 32u32 == 0) by (bit_vector);
    assert(16u32 & 1u32 == 0 && 16u32 & 2u32 == 0 && 16u32 & 4u32 == 0 && 16u32 & 8u32 == 0 && 16u32 & 16u32 != 0 && 16u32 & 32u32 == 0) by (bit_vector);
    assert(32u32 & 1u32 == 0 && 32u32 & 2u32 == 0 && 32u32 & 4u32 == 0 && 32u32 & 8u32 == 0 && 32u32 & 16u32 == 0 && 32u32 & 32u32 != 0) by (bit_vector);
}

} // verus!
