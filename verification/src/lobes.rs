//! The lobe types of the BSDF and a fixed-size map from lobe type to value.
use std::ops::{Index, IndexMut};
use vstd::prelude::*;

verus! {

/// The number of lobe types, and so the number of entries of a [`PerLobe`].
pub const LOBE_COUNT: usize = 6;

/// The lobes of the layered BSDF, in the order of their discriminants.
#[derive(Clone, Copy, Debug, PartialEq, Eq, Structural)]
pub enum LobeType {
    Fuzz,
    Coat,
    Metal,
    SpecularReflection,
    SpecularTransmission,
    Diffuse,
}

impl LobeType {
    /// All lobe types, ordered by their discriminant. Used to index into [`PerLobe`].
    pub const ALL: [LobeType; LOBE_COUNT] = [
        LobeType::Fuzz,
        LobeType::Coat,
        LobeType::Metal,
        LobeType::SpecularReflection,
        LobeType::SpecularTransmission,
        LobeType::Diffuse,
    ];

    /// The discriminant of the lobe type: its position in [`LobeType::ALL`].
    pub open spec fn discriminant(self) -> int {
        match self {
            LobeType::Fuzz => 0,
            LobeType::Coat => 1,
            LobeType::Metal => 2,
            LobeType::SpecularReflection => 3,
            LobeType::SpecularTransmission => 4,
            LobeType::Diffuse => 5,
        }
    }

    /// Whether the lobe is one of the specular lobes: every lobe but fuzz and diffuse.
    pub open spec fn spec_is_specular(self) -> bool {
        !(self is Fuzz || self is Diffuse)
    }

    /// The discriminant as an array index.
    pub fn to_index(self) -> (r: usize)
        ensures
            r == self.discriminant(),
            r < LOBE_COUNT,
    {
        match self {
            LobeType::Fuzz => 0,
            LobeType::Coat => 1,
            LobeType::Metal => 2,
            LobeType::SpecularReflection => 3,
            LobeType::SpecularTransmission => 4,
            LobeType::Diffuse => 5,
        }
    }

    pub fn is_specular(&self) -> (r: bool)
        ensures
            r == self.spec_is_specular(),
    {
        match self {
            LobeType::Fuzz | LobeType::Diffuse => false,
            _ => true,
        }
    }
}

/// `LobeType::ALL` lists every lobe type exactly once, ordered by discriminant: the entry at
/// position `i` has discriminant `i`, and every lobe type stands at the position of its
/// discriminant.
pub proof fn lemma_all_ordered_by_discriminant()
    ensures
        LobeType::ALL@.len() == LOBE_COUNT,
        forall|i: int| 0 <= i < LOBE_COUNT ==> (#[trigger] LobeType::ALL@[i]).discriminant() == i,
        forall|lobe: LobeType| LobeType::ALL@[#[trigger] lobe.discriminant()] == lobe,
        forall|lobe: LobeType| 0 <= #[trigger] lobe.discriminant() < LOBE_COUNT,
{
    assert(LobeType::ALL@[0] == LobeType::Fuzz);
    assert(LobeType::ALL@[1] == LobeType::Coat);
    assert(LobeType::ALL@[2] == LobeType::Metal);
    assert(LobeType::ALL@[3] == LobeType::SpecularReflection);
    assert(LobeType::ALL@[4] == LobeType::SpecularTransmission);
    assert(LobeType::ALL@[5] == LobeType::Diffuse);
}

/// Distinct lobe types have distinct discriminants, so no two of them share an entry of a
/// [`PerLobe`].
pub proof fn lemma_discriminant_injective(a: LobeType, b: LobeType)
    ensures
        a.discriminant() == b.discriminant() <==> a == b,
{
}

/// Exactly four lobes are specular: coat, metal, specular reflection and specular
/// transmission; fuzz and diffuse are not.
pub proof fn lemma_specular_lobes()
    ensures
        forall|lobe: LobeType| #[trigger] lobe.spec_is_specular() <==> (lobe == LobeType::Coat
            || lobe == LobeType::Metal || lobe == LobeType::SpecularReflection || lobe
            == LobeType::SpecularTransmission),
        !LobeType::Fuzz.spec_is_specular(),
        !LobeType::Diffuse.spec_is_specular(),
{
}

/// A fixed-size map from each [`LobeType`] to a value of type `T`, backed by an array
/// indexed by the lobe's discriminant.
#[derive(Clone, Copy)]
pub struct PerLobe<T>([T; LOBE_COUNT]);

impl<T> View for PerLobe<T> {
    type V = Seq<T>;

    /// The stored values in [`LobeType::ALL`] order.
    closed spec fn view(&self) -> Seq<T> {
        self.0@
    }
}

impl<T> PerLobe<T> {
    /// The value stored for `lobe`.
    pub open spec fn get(self, lobe: LobeType) -> T {
        self@[lobe.discriminant()]
    }

    /// A map holds exactly one entry per lobe type.
    pub broadcast proof fn lemma_len(map: PerLobe<T>)
        ensures
            #[trigger] map@.len() == LOBE_COUNT,
    {
    }

    /// Build a map from values listed in [`LobeType::ALL`] order.
    pub fn new(values: [T; LOBE_COUNT]) -> (r: Self)
        ensures
            r@ == values@,
            forall|i: int| 0 <= i < LOBE_COUNT ==> r.get(#[trigger] LobeType::ALL@[i]) == values@[i],
    {
        proof {
            lemma_all_ordered_by_discriminant();
        }
        PerLobe(values)
    }

    /// Build a map by calling `f` for each lobe type, in [`LobeType::ALL`] order.
    pub fn from_fn(mut f: impl FnMut(LobeType) -> T) -> (r: Self)
        requires
            forall|lobe: LobeType| call_requires(f, (lobe,)),
        ensures
            r@.len() == LOBE_COUNT,
            forall|lobe: LobeType| call_ensures(f, (lobe,), #[trigger] r.get(lobe)),
    {
        let fuzz = f(LobeType::Fuzz);
        let coat = f(LobeType::Coat);
        let metal = f(LobeType::Metal);
        let specular_reflection = f(LobeType::SpecularReflection);
        let specular_transmission = f(LobeType::SpecularTransmission);
        let diffuse = f(LobeType::Diffuse);
        let r = PerLobe([fuzz, coat, metal, specular_reflection, specular_transmission, diffuse]);
        assert forall|lobe: LobeType| call_ensures(f, (lobe,), #[trigger] r.get(lobe)) by {
            match lobe {
                LobeType::Fuzz => {},
                LobeType::Coat => {},
                LobeType::Metal => {},
                LobeType::SpecularReflection => {},
                LobeType::SpecularTransmission => {},
                LobeType::Diffuse => {},
            }
        }
        r
    }

    /// The stored values in [`LobeType::ALL`] order.
    pub fn values(&self) -> (r: &[T])
        ensures
            r@ == self@,
            r@.len() == LOBE_COUNT,
            forall|i: int| 0 <= i < LOBE_COUNT ==> r@[i] == self.get(#[trigger] LobeType::ALL@[i]),
    {
        proof {
            lemma_all_ordered_by_discriminant();
        }
        self.0.as_slice()
    }

    /// The stored values in [`LobeType::ALL`] order, to be changed in place.
    pub fn values_mut(&mut self) -> (r: &mut [T; LOBE_COUNT])
        ensures
            r@ == old(self)@,
            final(self)@ == final(r)@,
    {
        &mut self.0
    }
}

impl<T> Index<LobeType> for PerLobe<T> {
    type Output = T;

    fn index(&self, lobe: LobeType) -> (r: &T)
        ensures
            *r == self.get(lobe),
    {
        &self.0[lobe.to_index()]
    }
}

impl<T> vstd::std_specs::core::IndexSpecImpl<LobeType> for PerLobe<T> {
    /// Every lobe type has an entry.
    open spec fn index_req(&self, index: &LobeType) -> bool {
        true
    }
}

impl<T> IndexMut<LobeType> for PerLobe<T> {
    fn index_mut(&mut self, lobe: LobeType) -> (r: &mut T)
        ensures
            *r == old(self).get(lobe),
            final(self)@ == old(self)@.update(lobe.discriminant(), *final(r)),
    {
        &mut self.0[lobe.to_index()]
    }
}

/// Writing the entry of one lobe type changes that entry alone: reading it back gives the
/// value written, and every other lobe type keeps its value.
pub proof fn lemma_write_then_read<T>(before: PerLobe<T>, after: PerLobe<T>, lobe: LobeType, value: T)
    requires
        after@ == before@.update(lobe.discriminant(), value),
    ensures
        after.get(lobe) == value,
        forall|other: LobeType| other != lobe ==> #[trigger] after.get(other) == before.get(other),
        after@.len() == LOBE_COUNT,
{
    PerLobe::lemma_len(before);
}

} // verus!
