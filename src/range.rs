//! Version ranges: sets of versions made of disjoint intervals.
//!
//! The interval arithmetic is that of `pubgrub::Ranges`; here each operation
//! is stated over the set of versions that a range denotes.
use vstd::prelude::*;
use pubgrub::{Ranges, SemanticVersion};
use crate::version::{Version, version_le, version_lt};

verus! {

#[verifier::external_type_specification]
#[verifier::external_body]
pub struct ExSemanticVersion(SemanticVersion);

#[verifier::external_type_specification]
#[verifier::external_body]
#[verifier::reject_recursive_types(V)]
pub struct ExRanges<V>(Ranges<V>);

/// The versions, as `(major, minor, patch)`, that a `Ranges` holds.
pub uninterp spec fn versions_in(r: Ranges<SemanticVersion>) -> Set<(u32, u32, u32)>;

/// How many disjoint intervals a `Ranges` is stored as.
pub uninterp spec fn segments_in(r: Ranges<SemanticVersion>) -> nat;

/// The stored intervals meet the invariant that `Ranges` checks after its set
/// operations: each interval is valid, and they are sorted with gaps between them.
pub uninterp spec fn well_formed(r: Ranges<SemanticVersion>) -> bool;

/// The range is stored as the one interval `(-inf, +inf)`.
pub uninterp spec fn is_unbounded(r: Ranges<SemanticVersion>) -> bool;

/// Relies on `Ranges::empty`: no interval, no version.
#[verifier::external_body]
fn ranges_empty() -> (r: Ranges<SemanticVersion>)
    ensures
        versions_in(r) == Set::<(u32, u32, u32)>::empty(),
        segments_in(r) == 0,
        well_formed(r),
        !is_unbounded(r),
{
    Ranges::empty()
}

/// Relies on `Ranges::full`: the one interval `(-inf, +inf)`, every version.
#[verifier::external_body]
fn ranges_full() -> (r: Ranges<SemanticVersion>)
    ensures
        versions_in(r) == Set::<(u32, u32, u32)>::full(),
        segments_in(r) == 1,
        well_formed(r),
        is_unbounded(r),
{
    Ranges::full()
}

/// Relies on `Ranges::singleton`: the one interval `[v, v]`.
#[verifier::external_body]
fn ranges_singleton(v: Version) -> (r: Ranges<SemanticVersion>)
    ensures
        versions_in(r) == set![v@],
        segments_in(r) == 1,
        well_formed(r),
        !is_unbounded(r),
{
    Ranges::singleton(SemanticVersion::new(v.major, v.minor, v.patch))
}

/// Relies on `Ranges::higher_than`: the one interval `[v, +inf)`.
#[verifier::external_body]
fn ranges_higher_than(v: Version) -> (r: Ranges<SemanticVersion>)
    ensures
        versions_in(r) == Set::new(|w: (u32, u32, u32)| version_le(v@, w)),
        segments_in(r) == 1,
        well_formed(r),
        !is_unbounded(r),
{
    Ranges::higher_than(SemanticVersion::new(v.major, v.minor, v.patch))
}

/// Relies on `Ranges::strictly_higher_than`: the one interval `(v, +inf)`.
#[verifier::external_body]
fn ranges_strictly_higher_than(v: Version) -> (r: Ranges<SemanticVersion>)
    ensures
        versions_in(r) == Set::new(|w: (u32, u32, u32)| version_lt(v@, w)),
        segments_in(r) == 1,
        well_formed(r),
        !is_unbounded(r),
{
    Ranges::strictly_higher_than(SemanticVersion::new(v.major, v.minor, v.patch))
}

/// Relies on `Ranges::lower_than`: the one interval `(-inf, v]`.
#[verifier::external_body]
fn ranges_lower_than(v: Version) -> (r: Ranges<SemanticVersion>)
    ensures
        versions_in(r) == Set::new(|w: (u32, u32, u32)| version_le(w, v@)),
        segments_in(r) == 1,
        well_formed(r),
        !is_unbounded(r),
{
    Ranges::lower_than(SemanticVersion::new(v.major, v.minor, v.patch))
}

/// Relies on `Ranges::strictly_lower_than`: the one interval `(-inf, v)`.
#[verifier::external_body]
fn ranges_strictly_lower_than(v: Version) -> (r: Ranges<SemanticVersion>)
    ensures
        versions_in(r) == Set::new(|w: (u32, u32, u32)| version_lt(w, v@)),
        segments_in(r) == 1,
        well_formed(r),
        !is_unbounded(r),
{
    Ranges::strictly_lower_than(SemanticVersion::new(v.major, v.minor, v.patch))
}

/// Relies on `Ranges::between`: the one interval `[lo, hi)`. The constructor
/// does not check its bounds, so `lo` must come before `hi` for the interval to
/// be valid.
#[verifier::external_body]
fn ranges_between(lo: Version, hi: Version) -> (r: Ranges<SemanticVersion>)
    requires
        version_lt(lo@, hi@),
    ensures
        versions_in(r) == Set::new(|w: (u32, u32, u32)| version_le(lo@, w) && version_lt(w, hi@)),
        segments_in(r) == 1,
        well_formed(r),
        !is_unbounded(r),
{
    Ranges::between(
        SemanticVersion::new(lo.major, lo.minor, lo.patch),
        SemanticVersion::new(hi.major, hi.minor, hi.patch),
    )
}

/// Relies on `Ranges::intersection`: the versions in both. Each output interval
/// is cut from one interval of each input, so an input with no interval gives an
/// output with none. The result's invariant is asserted in debug builds, which
/// needs well-formed inputs.
#[verifier::external_body]
fn ranges_intersection(a: &Ranges<SemanticVersion>, b: &Ranges<SemanticVersion>) -> (r: Ranges<
    SemanticVersion,
>)
    requires
        well_formed(*a),
        well_formed(*b),
    ensures
        versions_in(r) == versions_in(*a).intersect(versions_in(*b)),
        well_formed(r),
        segments_in(*a) == 0 || segments_in(*b) == 0 ==> segments_in(r) == 0,
{
    a.intersection(b)
}

/// Relies on `Ranges::union`: the versions in either. The input intervals are
/// merged in order, so the output has no more intervals than the two inputs
/// together, and with one input empty it has those of the other. The result's
/// invariant is asserted in debug builds, which needs well-formed inputs.
#[verifier::external_body]
fn ranges_union(a: &Ranges<SemanticVersion>, b: &Ranges<SemanticVersion>) -> (r: Ranges<
    SemanticVersion,
>)
    requires
        well_formed(*a),
        well_formed(*b),
    ensures
        versions_in(r) == versions_in(*a).union(versions_in(*b)),
        well_formed(r),
        segments_in(r) <= segments_in(*a) + segments_in(*b),
        segments_in(*a) == 0 ==> segments_in(r) == segments_in(*b),
        segments_in(*b) == 0 ==> segments_in(r) == segments_in(*a),
{
    a.union(b)
}

/// Relies on `Ranges::complement`: the versions not in the range. It has no
/// interval exactly when the input is `(-inf, +inf)`, and is `(-inf, +inf)`
/// exactly when the input has no interval.
#[verifier::external_body]
fn ranges_complement(a: &Ranges<SemanticVersion>) -> (r: Ranges<SemanticVersion>)
    requires
        well_formed(*a),
    ensures
        versions_in(r) == versions_in(*a).complement(),
        well_formed(r),
        segments_in(r) == 0 <==> is_unbounded(*a),
        is_unbounded(r) <==> segments_in(*a) == 0,
{
    a.complement()
}

/// Relies on `Ranges::contains`: membership of one version.
#[verifier::external_body]
fn ranges_contains(a: &Ranges<SemanticVersion>, v: Version) -> (r: bool)
    ensures
        r == versions_in(*a).contains(v@),
{
    a.contains(&SemanticVersion::new(v.major, v.minor, v.patch))
}

/// Relies on `Ranges::is_empty`: whether the range is stored with no interval.
/// A range without intervals holds no version. The converse fails: an interval
/// such as `(-inf, 0.0.0)` is stored although no version lies in it.
#[verifier::external_body]
fn ranges_is_empty(a: &Ranges<SemanticVersion>) -> (r: bool)
    ensures
        r == (segments_in(*a) == 0),
        r ==> versions_in(*a) == Set::<(u32, u32, u32)>::empty(),
{
    a.is_empty()
}

/// Relies on `Ranges::iter`: one item per stored interval.
#[verifier::external_body]
fn ranges_segment_count(a: &Ranges<SemanticVersion>) -> (r: usize)
    ensures
        r == segments_in(*a),
{
    a.iter().count()
}

/// Relies on the derived `Clone` of `Ranges`: a copy of the intervals.
#[verifier::external_body]
fn ranges_clone(a: &Ranges<SemanticVersion>) -> (r: Ranges<SemanticVersion>)
    ensures
        versions_in(r) == versions_in(*a),
        segments_in(r) == segments_in(*a),
        well_formed(r) == well_formed(*a),
        is_unbounded(r) == is_unbounded(*a),
{
    a.clone()
}

/// Relies on the derived `PartialEq` of `Ranges`: whether the two are stored as
/// the same intervals. A value equals itself, and ranges stored alike hold the
/// same versions.
#[verifier::external_body]
fn ranges_eq(a: &Ranges<SemanticVersion>, b: &Ranges<SemanticVersion>) -> (r: bool)
    ensures
        *a == *b ==> r,
        r ==> versions_in(*a) == versions_in(*b) && segments_in(*a) == segments_in(*b),
{
    a == b
}

/// A set of versions of one package.
#[derive(Debug)]
pub struct Range {
    inner: Ranges<SemanticVersion>,
}

impl View for Range {
    type V = Set<(u32, u32, u32)>;

    closed spec fn view(&self) -> Set<(u32, u32, u32)> {
        versions_in(self.inner)
    }
}

impl Range {
    #[verifier::type_invariant]
    spec fn inv(&self) -> bool {
        well_formed(self.inner)
    }

    /// The stored intervals.
    pub closed spec fn stored(&self) -> Ranges<SemanticVersion> {
        self.inner
    }

    /// The number of disjoint intervals the range is stored as.
    pub closed spec fn segments(&self) -> nat {
        segments_in(self.inner)
    }

    /// The range is stored as the one interval `(-inf, +inf)`.
    pub closed spec fn unbounded(&self) -> bool {
        is_unbounded(self.inner)
    }

    /// Whether the range holds `v`.
    pub open spec fn contains_spec(&self, v: Version) -> bool {
        self@.contains(v@)
    }

    /// No version.
    pub fn empty() -> (r: Range)
        ensures
            r@ == Set::<(u32, u32, u32)>::empty(),
            r.segments() == 0,
            !r.unbounded(),
    {
        Range { inner: ranges_empty() }
    }

    /// Every version, stored as `(-inf, +inf)`.
    pub fn full() -> (r: Range)
        ensures
            r@ == Set::<(u32, u32, u32)>::full(),
            r.segments() == 1,
            r.unbounded(),
    {
        Range { inner: ranges_full() }
    }

    /// Exactly the version `v`.
    pub fn singleton(v: Version) -> (r: Range)
        ensures
            r@ == set![v@],
            r.segments() == 1,
            !r.unbounded(),
    {
        Range { inner: ranges_singleton(v) }
    }

    /// The versions at or above `v`.
    pub fn higher_than(v: Version) -> (r: Range)
        ensures
            forall|w: (u32, u32, u32)| r@.contains(w) == version_le(v@, w),
            r.segments() == 1,
            !r.unbounded(),
    {
        Range { inner: ranges_higher_than(v) }
    }

    /// The versions strictly above `v`.
    pub fn strictly_higher_than(v: Version) -> (r: Range)
        ensures
            forall|w: (u32, u32, u32)| r@.contains(w) == version_lt(v@, w),
            r.segments() == 1,
            !r.unbounded(),
    {
        Range { inner: ranges_strictly_higher_than(v) }
    }

    /// The versions at or below `v`.
    pub fn lower_than(v: Version) -> (r: Range)
        ensures
            forall|w: (u32, u32, u32)| r@.contains(w) == version_le(w, v@),
            r.segments() == 1,
            !r.unbounded(),
    {
        Range { inner: ranges_lower_than(v) }
    }

    /// The versions strictly below `v`.
    pub fn strictly_lower_than(v: Version) -> (r: Range)
        ensures
            forall|w: (u32, u32, u32)| r@.contains(w) == version_lt(w, v@),
            r.segments() == 1,
            !r.unbounded(),
    {
        Range { inner: ranges_strictly_lower_than(v) }
    }

    /// The versions at or above `lo` and strictly below `hi`; empty unless `lo`
    /// comes before `hi`.
    pub fn between(lo: Version, hi: Version) -> (r: Range)
        ensures
            forall|w: (u32, u32, u32)|
                r@.contains(w) == (version_le(lo@, w) && version_lt(w, hi@)),
            r.segments() == (if version_lt(lo@, hi@) {
                1nat
            } else {
                0nat
            }),
            !r.unbounded(),
    {
        if lo.precedes(&hi) {
            Range { inner: ranges_between(lo, hi) }
        } else {
            let r = Range::empty();
            proof {
                assert forall|w: (u32, u32, u32)| !(version_le(lo@, w) && version_lt(w, hi@)) by {
                    crate::version::lemma_version_order(lo@, w, hi@);
                    crate::version::lemma_version_order(hi@, lo@, w);
                }
            }
            r
        }
    }

    pub fn contains(&self, v: Version) -> (r: bool)
        ensures
            r == self.contains_spec(v),
    {
        ranges_contains(&self.inner, v)
    }

    /// The versions in both; stored with no interval when either is.
    pub fn intersection(&self, other: &Range) -> (r: Range)
        ensures
            r@ == self@.intersect(other@),
            self.segments() == 0 || other.segments() == 0 ==> r.segments() == 0,
    {
        proof {
            use_type_invariant(self);
            use_type_invariant(other);
        }
        Range { inner: ranges_intersection(&self.inner, &other.inner) }
    }

    /// The versions in either; stored with at most the intervals of both.
    pub fn union(&self, other: &Range) -> (r: Range)
        ensures
            r@ == self@.union(other@),
            r.segments() <= self.segments() + other.segments(),
            self.segments() == 0 ==> r.segments() == other.segments(),
            other.segments() == 0 ==> r.segments() == self.segments(),
    {
        proof {
            use_type_invariant(self);
            use_type_invariant(other);
        }
        Range { inner: ranges_union(&self.inner, &other.inner) }
    }

    /// The versions not in the range.
    pub fn complement(&self) -> (r: Range)
        ensures
            r@ == self@.complement(),
            r.segments() == 0 <==> self.unbounded(),
            r.unbounded() <==> self.segments() == 0,
    {
        proof {
            use_type_invariant(self);
        }
        Range { inner: ranges_complement(&self.inner) }
    }

    /// Whether the range is stored with no interval; such a range holds no
    /// version.
    pub fn is_empty(&self) -> (r: bool)
        ensures
            r == (self.segments() == 0),
            r ==> self@ == Set::<(u32, u32, u32)>::empty(),
    {
        ranges_is_empty(&self.inner)
    }

    /// Whether the range is stored as `(-inf, +inf)`; such a range holds every
    /// version.
    pub fn is_full(&self) -> (r: bool)
        ensures
            r == self.unbounded(),
            r ==> self@ == Set::<(u32, u32, u32)>::full(),
    {
        proof {
            use_type_invariant(self);
        }
        let c = ranges_complement(&self.inner);
        let r = ranges_is_empty(&c);
        proof {
            if r {
                assert(self@ =~= Set::<(u32, u32, u32)>::full()) by {
                    assert forall|w: (u32, u32, u32)| self@.contains(w) by {
                        assert(!versions_in(c).contains(w));
                    }
                }
            }
        }
        r
    }

    /// The number of disjoint intervals the range is stored as.
    pub fn segment_count(&self) -> (r: usize)
        ensures
            r == self.segments(),
    {
        ranges_segment_count(&self.inner)
    }

    /// A range stored as the same intervals.
    pub fn duplicate(&self) -> (r: Range)
        ensures
            r@ == self@,
            r.segments() == self.segments(),
            r.unbounded() == self.unbounded(),
    {
        proof {
            use_type_invariant(self);
        }
        Range { inner: ranges_clone(&self.inner) }
    }

    /// Whether the two ranges are stored as the same intervals; when so, they
    /// hold the same versions.
    pub fn same_versions(&self, other: &Range) -> (r: bool)
        ensures
            self.stored() == other.stored() ==> r,
            r ==> self@ == other@ && self.segments() == other.segments(),
    {
        ranges_eq(&self.inner, &other.inner)
    }

    /// The stored intervals, as pubgrub's solver takes them.
    pub fn as_ranges(&self) -> (r: &Ranges<SemanticVersion>)
        ensures
            versions_in(*r) == self@,
            segments_in(*r) == self.segments(),
    {
        &self.inner
    }
}

/// A range made by `Range::singleton(v)` holds `v` and no other version.
pub proof fn lemma_singleton_round_trip(r: Range, v: Version, w: Version)
    requires
        r@ == set![v@],
    ensures
        r.contains_spec(w) <==> w == v,
{
}

/// Intersection is commutative and associative, and a version is in the
/// intersection of two ranges exactly when it is in both.
pub proof fn lemma_intersection_laws(
    a: Range,
    b: Range,
    c: Range,
    ab: Range,
    ba: Range,
    ab_c: Range,
    bc: Range,
    a_bc: Range,
    v: Version,
)
    requires
        ab@ == a@.intersect(b@),
        ba@ == b@.intersect(a@),
        bc@ == b@.intersect(c@),
        ab_c@ == ab@.intersect(c@),
        a_bc@ == a@.intersect(bc@),
    ensures
        ab@ == ba@,
        ab_c@ == a_bc@,
        ab.contains_spec(v) == (a.contains_spec(v) && b.contains_spec(v)),
{
    assert(ab@ =~= ba@);
    assert(ab_c@ =~= a_bc@);
}

/// The complement of the full range is stored with no interval, and holds no
/// version.
pub proof fn lemma_complement_of_full(f: Range, c: Range)
    requires
        f.unbounded(),
        f@ == Set::<(u32, u32, u32)>::full(),
        c@ == f@.complement(),
        c.segments() == 0 <==> f.unbounded(),
    ensures
        c.segments() == 0,
        c@ == Set::<(u32, u32, u32)>::empty(),
{
    assert(c@ =~= Set::<(u32, u32, u32)>::empty());
}

} // verus!
