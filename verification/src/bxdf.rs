use vstd::prelude::*;

verus! {

/// The kinds of BxDF that can be selected to decide which surface functions
/// are evaluated.
#[derive(Clone, Copy, Debug, PartialEq, Eq, Structural)]
pub enum BxDFType {
    Reflection,
    Transmission,
    Diffuse,
    Glossy,
    Specular,
}

/// Position of `t` in the bit mask of a `BxDFSet`.
pub open spec fn type_index(t: BxDFType) -> u32 {
    match t {
        BxDFType::Reflection => 0,
        BxDFType::Transmission => 1,
        BxDFType::Diffuse => 2,
        BxDFType::Glossy => 3,
        BxDFType::Specular => 4,
    }
}

/// Whether bit `k` of `bits` is set.
pub open spec fn bit_set(bits: u32, k: u32) -> bool {
    bits & (1u32 << k) != 0
}

impl BxDFType {
    /// The number of this kind, as a C-like enum would give it.
    pub fn to_u32(&self) -> (r: u32)
        ensures
            r == type_index(*self),
    {
        match self {
            BxDFType::Reflection => 0,
            BxDFType::Transmission => 1,
            BxDFType::Diffuse => 2,
            BxDFType::Glossy => 3,
            BxDFType::Specular => 4,
        }
    }
}

/// A set of `BxDFType`s held as a bit mask, one bit per kind. (The
/// `enum_set` crate's `EnumSet` needs its element type to implement `CLike`,
/// whose `from_u32` is an `unsafe fn`, so the set is kept here instead.)
#[derive(Clone, Copy, Debug, PartialEq, Eq, Structural)]
pub struct BxDFSet {
    bits: u32,
}

impl View for BxDFSet {
    type V = Set<BxDFType>;

    closed spec fn view(&self) -> Set<BxDFType> {
        Set::new(|t: BxDFType| bit_set(self.bits, type_index(t)))
    }
}

impl BxDFSet {
    #[verifier::type_invariant]
    closed spec fn inv(self) -> bool {
        self.bits < 32
    }

    /// The empty set.
    pub fn new() -> (r: Self)
        ensures
            r@ == Set::<BxDFType>::empty(),
    {
        let r = BxDFSet { bits: 0 };
        assert forall|k: u32| k < 32 implies !bit_set(0, k) by {
            assert(0u32 & (1u32 << k) == 0) by (bit_vector);
        }
        assert(r@ =~= Set::<BxDFType>::empty());
        r
    }

    /// Whether `value` is in the set.
    pub fn contains(&self, value: &BxDFType) -> (r: bool)
        ensures
            r == self@.contains(*value),
    {
        let k = value.to_u32();
        (self.bits & (1u32 << k)) != 0
    }

    /// Adds `value`; returns whether it was absent before.
    pub fn insert(&mut self, value: BxDFType) -> (r: bool)
        ensures
            final(self)@ == old(self)@.insert(value),
            r == !old(self)@.contains(value),
    {
        proof {
            use_type_invariant(&*self);
        }
        let result = !self.contains(&value);
        let k = value.to_u32();
        let old_bits = self.bits;
        let new_bits = old_bits | (1u32 << k);
        assert(new_bits < 32) by (bit_vector)
            requires
                old_bits < 32,
                k < 5,
                new_bits == old_bits | (1u32 << k),
        ;
        self.bits = new_bits;
        proof {
            assert forall|t: BxDFType| #[trigger] self@.contains(t) == old(self)@.insert(
                value,
            ).contains(t) by {
                let m = type_index(t);
                assert(bit_set(new_bits, m) == (bit_set(old_bits, m) || m == k)) by (bit_vector)
                    requires
                        new_bits == old_bits | (1u32 << k),
                        k < 5,
                        m < 5,
                ;
            }
            assert(self@ =~= old(self)@.insert(value));
        }
        result
    }

    /// Removes `value`; returns whether it was present before.
    pub fn remove(&mut self, value: &BxDFType) -> (r: bool)
        ensures
            final(self)@ == old(self)@.remove(*value),
            r == old(self)@.contains(*value),
    {
        proof {
            use_type_invariant(&*self);
        }
        let result = self.contains(value);
        let k = value.to_u32();
        let old_bits = self.bits;
        let new_bits = old_bits & !(1u32 << k);
        assert(new_bits < 32) by (bit_vector)
            requires
                old_bits < 32,
                new_bits == old_bits & !(1u32 << k),
        ;
        self.bits = new_bits;
        proof {
            assert forall|t: BxDFType| #[trigger] self@.contains(t) == old(self)@.remove(
                *value,
            ).contains(t) by {
                let m = type_index(t);
                assert(bit_set(new_bits, m) == (bit_set(old_bits, m) && m != k)) by (bit_vector)
                    requires
                        new_bits == old_bits & !(1u32 << k),
                        k < 5,
                        m < 5,
                ;
            }
            assert(self@ =~= old(self)@.remove(*value));
        }
        result
    }

    /// The set of kinds in either set.
    pub fn union(&self, other: Self) -> (r: Self)
        ensures
            r@ == self@.union(other@),
    {
        proof {
            use_type_invariant(self);
            use_type_invariant(&other);
        }
        let a = self.bits;
        let b = other.bits;
        let c = a | b;
        assert(c < 32) by (bit_vector)
            requires
                a < 32,
                b < 32,
                c == a | b,
        ;
        let r = BxDFSet { bits: c };
        assert forall|t: BxDFType| #[trigger] r@.contains(t) == self@.union(other@).contains(t) by {
            let m = type_index(t);
            assert(bit_set(c, m) == (bit_set(a, m) || bit_set(b, m))) by (bit_vector)
                requires
                    c == a | b,
                    m < 5,
            ;
        }
        assert(r@ =~= self@.union(other@));
        r
    }

    /// Whether every kind in this set is also in `other`.
    pub fn is_subset(&self, other: &Self) -> (r: bool)
        ensures
            r == self@.subset_of(other@),
    {
        proof {
            use_type_invariant(self);
            use_type_invariant(other);
        }
        let a = self.bits;
        let b = other.bits;
        let r = (b & a) == a;
        proof {
            assert(r == ((bit_set(a, 0) ==> bit_set(b, 0)) && (bit_set(a, 1) ==> bit_set(b, 1)) && (
            bit_set(a, 2) ==> bit_set(b, 2)) && (bit_set(a, 3) ==> bit_set(b, 3)) && (bit_set(a, 4)
                ==> bit_set(b, 4)))) by (bit_vector)
                requires
                    a < 32,
                    b < 32,
                    r == ((b & a) == a),
            ;
            assert(bit_set(a, type_index(BxDFType::Reflection)) == self@.contains(
                BxDFType::Reflection,
            ));
            assert(bit_set(a, type_index(BxDFType::Transmission)) == self@.contains(
                BxDFType::Transmission,
            ));
            assert(bit_set(a, type_index(BxDFType::Diffuse)) == self@.contains(BxDFType::Diffuse));
            assert(bit_set(a, type_index(BxDFType::Glossy)) == self@.contains(BxDFType::Glossy));
            assert(bit_set(a, type_index(BxDFType::Specular)) == self@.contains(
                BxDFType::Specular,
            ));
            assert(bit_set(b, type_index(BxDFType::Reflection)) == other@.contains(
                BxDFType::Reflection,
            ));
            assert(bit_set(b, type_index(BxDFType::Transmission)) == other@.contains(
                BxDFType::Transmission,
            ));
            assert(bit_set(b, type_index(BxDFType::Diffuse)) == other@.contains(BxDFType::Diffuse));
            assert(bit_set(b, type_index(BxDFType::Glossy)) == other@.contains(BxDFType::Glossy));
            assert(bit_set(b, type_index(BxDFType::Specular)) == other@.contains(
                BxDFType::Specular,
            ));
            if r {
                assert forall|t: BxDFType| self@.contains(t) implies other@.contains(t) by {
                    match t {
                        BxDFType::Reflection => {},
                        BxDFType::Transmission => {},
                        BxDFType::Diffuse => {},
                        BxDFType::Glossy => {},
                        BxDFType::Specular => {},
                    }
                }
            }
        }
        r
    }
}

} // verus!

verus! {

impl BxDFType {
    /// The flags of every lobe kind: diffuse, glossy and specular.
    pub fn all_types() -> (r: BxDFSet)
        ensures
            r@ == set![BxDFType::Diffuse, BxDFType::Glossy, BxDFType::Specular],
    {
        let mut e = BxDFSet::new();
        e.insert(BxDFType::Diffuse);
        e.insert(BxDFType::Glossy);
        e.insert(BxDFType::Specular);
        assert(e@ =~= set![BxDFType::Diffuse, BxDFType::Glossy, BxDFType::Specular]);
        e
    }

    /// The flags of every reflective BxDF (BRDFs).
    pub fn all_brdf() -> (r: BxDFSet)
        ensures
            r@ == set![BxDFType::Diffuse, BxDFType::Glossy, BxDFType::Specular, BxDFType::Reflection],
    {
        let mut e = BxDFType::all_types();
        e.insert(BxDFType::Reflection);
        assert(e@ =~= set![
            BxDFType::Diffuse,
            BxDFType::Glossy,
            BxDFType::Specular,
            BxDFType::Reflection,
        ]);
        e
    }

    /// The flags of every transmissive BxDF (BTDFs).
    pub fn all_btdf() -> (r: BxDFSet)
        ensures
            r@ == set![
                BxDFType::Diffuse,
                BxDFType::Glossy,
                BxDFType::Specular,
                BxDFType::Transmission,
            ],
    {
        let mut e = BxDFType::all_types();
        e.insert(BxDFType::Transmission);
        assert(e@ =~= set![
            BxDFType::Diffuse,
            BxDFType::Glossy,
            BxDFType::Specular,
            BxDFType::Transmission,
        ]);
        e
    }

    /// The flags of every BRDF and BTDF: all five kinds.
    pub fn all() -> (r: BxDFSet)
        ensures
            r@ == Set::<BxDFType>::full(),
    {
        let r = BxDFType::all_brdf().union(BxDFType::all_btdf());
        assert forall|t: BxDFType| #[trigger] r@.contains(t) by {
            match t {
                BxDFType::Reflection => {},
                BxDFType::Transmission => {},
                BxDFType::Diffuse => {},
                BxDFType::Glossy => {},
                BxDFType::Specular => {},
            }
        }
        assert(r@ =~= Set::<BxDFType>::full());
        r
    }

    /// The flags of every specular BxDF.
    pub fn specular() -> (r: BxDFSet)
        ensures
            r@ == set![BxDFType::Specular, BxDFType::Reflection, BxDFType::Transmission],
    {
        let mut e = BxDFSet::new();
        e.insert(BxDFType::Specular);
        e.insert(BxDFType::Reflection);
        e.insert(BxDFType::Transmission);
        assert(e@ =~= set![BxDFType::Specular, BxDFType::Reflection, BxDFType::Transmission]);
        e
    }

    /// The flags of every non-specular BxDF.
    pub fn non_specular() -> (r: BxDFSet)
        ensures
            r@ == set![
                BxDFType::Diffuse,
                BxDFType::Glossy,
                BxDFType::Reflection,
                BxDFType::Transmission,
            ],
    {
        let mut e = BxDFSet::new();
        e.insert(BxDFType::Diffuse);
        e.insert(BxDFType::Glossy);
        e.insert(BxDFType::Reflection);
        e.insert(BxDFType::Transmission);
        assert(e@ =~= set![
            BxDFType::Diffuse,
            BxDFType::Glossy,
            BxDFType::Reflection,
            BxDFType::Transmission,
        ]);
        e
    }
}

/// Whether a BxDF of the kinds `bxdf_type` is selected by `flags`: every one
/// of its kinds must be among the flags.
pub fn matches(bxdf_type: &BxDFSet, flags: &BxDFSet) -> (r: bool)
    ensures
        r == bxdf_type@.subset_of(flags@),
{
    bxdf_type.is_subset(flags)
}

} // verus!

verus! {

/// The specular and non-specular flags together select every BxDF, and they
/// share exactly the reflection and transmission flags.
pub proof fn law_specular_split(spec: BxDFSet, non_spec: BxDFSet)
    requires
        spec@ == set![BxDFType::Specular, BxDFType::Reflection, BxDFType::Transmission],
        non_spec@ == set![
            BxDFType::Diffuse,
            BxDFType::Glossy,
            BxDFType::Reflection,
            BxDFType::Transmission,
        ],
    ensures
        spec@.union(non_spec@) == Set::<BxDFType>::full(),
        spec@.intersect(non_spec@) == set![BxDFType::Reflection, BxDFType::Transmission],
{
    assert forall|t: BxDFType| #[trigger] spec@.union(non_spec@).contains(t) by {
        match t {
            BxDFType::Reflection => {},
            BxDFType::Transmission => {},
            BxDFType::Diffuse => {},
            BxDFType::Glossy => {},
            BxDFType::Specular => {},
        }
    }
    assert(spec@.union(non_spec@) =~= Set::<BxDFType>::full());
    assert(spec@.intersect(non_spec@) =~= set![BxDFType::Reflection, BxDFType::Transmission]);
}

/// Every BRDF flag set and every BTDF flag set is selected by the set of all
/// flags, and a BxDF is matched by a union of flag sets whenever it is matched
/// by one of them.
pub proof fn law_matches_monotone(bxdf_type: BxDFSet, a: BxDFSet, b: BxDFSet)
    requires
        bxdf_type@.subset_of(a@),
    ensures
        bxdf_type@.subset_of(a@.union(b@)),
        bxdf_type@.subset_of(Set::<BxDFType>::full()),
{
}

/// Inserting a kind and removing it again gives back a set without it, and
/// inserting is idempotent.
pub proof fn law_insert_remove(s: Set<BxDFType>, t: BxDFType)
    ensures
        s.insert(t).remove(t) == s.remove(t),
        s.insert(t).insert(t) == s.insert(t),
        s.insert(t).contains(t),
        !s.remove(t).contains(t),
{
    assert(s.insert(t).remove(t) =~= s.remove(t));
    assert(s.insert(t).insert(t) =~= s.insert(t));
}

} // verus!

verus! {

/// The specular reflection BRDF: the reflective colour of the material and
/// its Fresnel term.
#[derive(Clone, Copy)]
pub struct SpecularReflection<'a, C, F> {
    reflectance: C,
    fresnel: &'a F,
}

/// The Torrance-Sparrow microfacet BRDF: the reflective colour, the Fresnel
/// term and the distribution of the microfacets.
#[derive(Clone, Copy)]
pub struct TorranceSparrow<'a, C, F, M> {
    reflectance: C,
    fresnel: &'a F,
    microfacet: &'a M,
}

/// The BxDFs a BSDF is made of.
#[derive(Clone, Copy)]
pub enum BxDFs<'a, C, F, M> {
    SpecularReflection(SpecularReflection<'a, C, F>),
    TorranceSparrow(TorranceSparrow<'a, C, F, M>),
}

impl<'a, C: Copy, F> SpecularReflection<'a, C, F> {
    /// The reflective colour.
    pub closed spec fn reflectance(&self) -> C {
        self.reflectance
    }

    /// The Fresnel term.
    pub closed spec fn fresnel(&self) -> F {
        *self.fresnel
    }

    /// A specularly reflective BRDF with colour `c` and Fresnel term `fresnel`.
    pub fn new(c: &C, fresnel: &'a F) -> (r: Self)
        ensures
            r.reflectance() == *c,
            r.fresnel() == *fresnel,
    {
        SpecularReflection { reflectance: *c, fresnel }
    }

    /// The same BRDF, as one of the BxDFs of a BSDF.
    pub fn new_bxdf<M>(c: &C, fresnel: &'a F) -> (r: BxDFs<'a, C, F, M>)
        ensures
            r matches BxDFs::SpecularReflection(s) && s.reflectance() == *c && s.fresnel() == *fresnel,
    {
        BxDFs::SpecularReflection(Self::new(c, fresnel))
    }

    /// Specular reflection is specular and reflective.
    pub fn bxdf_type(&self) -> (r: BxDFSet)
        ensures
            r@ == set![BxDFType::Specular, BxDFType::Reflection],
    {
        let mut e = BxDFSet::new();
        e.insert(BxDFType::Specular);
        e.insert(BxDFType::Reflection);
        assert(e@ =~= set![BxDFType::Specular, BxDFType::Reflection]);
        e
    }
}

impl<'a, C: Copy, F, M> TorranceSparrow<'a, C, F, M> {
    /// The reflective colour.
    pub closed spec fn reflectance(&self) -> C {
        self.reflectance
    }

    /// The Fresnel term.
    pub closed spec fn fresnel(&self) -> F {
        *self.fresnel
    }

    /// The microfacet distribution.
    pub closed spec fn microfacet(&self) -> M {
        *self.microfacet
    }

    /// A Torrance-Sparrow BRDF with colour `c`, Fresnel term `fresnel` and
    /// microfacet distribution `microfacet`.
    pub fn new(c: &C, fresnel: &'a F, microfacet: &'a M) -> (r: Self)
        ensures
            r.reflectance() == *c,
            r.fresnel() == *fresnel,
            r.microfacet() == *microfacet,
    {
        TorranceSparrow { reflectance: *c, fresnel, microfacet }
    }

    /// The same BRDF, as one of the BxDFs of a BSDF.
    pub fn new_bxdf(c: &C, fresnel: &'a F, microfacet: &'a M) -> (r: BxDFs<'a, C, F, M>)
        ensures
            r matches BxDFs::TorranceSparrow(t) && t.reflectance() == *c && t.fresnel() == *fresnel
                && t.microfacet() == *microfacet,
    {
        BxDFs::TorranceSparrow(Self::new(c, fresnel, microfacet))
    }

    /// A Torrance-Sparrow BRDF is glossy and reflective.
    pub fn bxdf_type(&self) -> (r: BxDFSet)
        ensures
            r@ == set![BxDFType::Glossy, BxDFType::Reflection],
    {
        let mut e = BxDFSet::new();
        e.insert(BxDFType::Glossy);
        e.insert(BxDFType::Reflection);
        assert(e@ =~= set![BxDFType::Glossy, BxDFType::Reflection]);
        e
    }
}

impl<'a, C: Copy, F, M> BxDFs<'a, C, F, M> {
    /// The kinds of the BxDF.
    pub open spec fn kinds(&self) -> Set<BxDFType> {
        match self {
            BxDFs::SpecularReflection(_) => set![BxDFType::Specular, BxDFType::Reflection],
            BxDFs::TorranceSparrow(_) => set![BxDFType::Glossy, BxDFType::Reflection],
        }
    }

    /// The kinds of the BxDF.
    pub fn bxdf_type(&self) -> (r: BxDFSet)
        ensures
            r@ == self.kinds(),
    {
        match self {
            BxDFs::SpecularReflection(s) => s.bxdf_type(),
            BxDFs::TorranceSparrow(t) => t.bxdf_type(),
        }
    }

    /// Whether the BxDF is selected by `flags`: all its kinds are among them.
    pub fn matches(&self, flags: BxDFSet) -> (r: bool)
        ensures
            r == self.kinds().subset_of(flags@),
    {
        self.bxdf_type().is_subset(&flags)
    }
}

} // verus!
