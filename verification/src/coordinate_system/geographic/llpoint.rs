//! A point on the globe.

use vstd::prelude::*;
use crate::binary64::F64;
use crate::binary64::cast;

verus! {

/// A checked point: a latitude from -90 to 90 degrees and a longitude from -180
/// to 180 degrees.
#[derive(Clone, Copy, Debug)]
pub struct LLPoint {
    lat: F64,
    lng: F64,
}

/// What is wrong with a pair of coordinates.
#[derive(Clone, Copy, Debug)]
pub enum PointError {
    /// The latitude is not within -90 to 90.
    Latitude(F64),
    /// The longitude is not within -180 to 180.
    Longitude(F64),
}

/// Whether `a` is a number from `-limit` to `limit`.
pub open spec fn within(a: F64, limit: int) -> bool {
    cast::of_integer(-limit).at_most(a) && a.at_most(cast::of_integer(limit))
}

/// Whether `lat` is a latitude.
pub open spec fn is_latitude(lat: F64) -> bool {
    within(lat, 90)
}

/// Whether `lng` is a longitude.
pub open spec fn is_longitude(lng: F64) -> bool {
    within(lng, 180)
}

/// The latitude and the longitude of a point.
#[derive(Clone, Copy)]
pub struct Degrees {
    pub lat: F64,
    pub lng: F64,
}

impl View for LLPoint {
    type V = Degrees;

    closed spec fn view(&self) -> Degrees {
        Degrees { lat: self.lat, lng: self.lng }
    }
}

impl LLPoint {
    /// The coordinates are in range.
    #[verifier::type_invariant]
    pub open spec fn valid(self) -> bool {
        is_latitude(self@.lat) && is_longitude(self@.lng)
    }

    /// The point at `lat` and `lng`, if these are a latitude and a longitude.
    pub fn new(lat: F64, lng: F64) -> (r: Result<LLPoint, PointError>)
        ensures
            match r {
                Ok(p) => is_latitude(lat) && is_longitude(lng) && p@ == (Degrees { lat, lng }),
                Err(PointError::Latitude(x)) => !is_latitude(lat) && x == lat,
                Err(PointError::Longitude(x)) => is_latitude(lat) && !is_longitude(lng) && x == lng,
            },
    {
        if !in_range(lat, 90) {
            Err(PointError::Latitude(lat))
        } else if !in_range(lng, 180) {
            Err(PointError::Longitude(lng))
        } else {
            Ok(LLPoint { lat, lng })
        }
    }

    /// The point on the latitude of one point and the longitude of another.
    pub fn meeting(lat: &LLPoint, lng: &LLPoint) -> (r: LLPoint)
        ensures
            r@ == (Degrees { lat: lat@.lat, lng: lng@.lng }),
    {
        LLPoint { lat: lat.lat(), lng: lng.lng() }
    }

    /// The latitude in degrees.
    pub fn lat(&self) -> (r: F64)
        ensures
            r == self@.lat,
            is_latitude(r),
    {
        proof {
            use_type_invariant(self);
        }
        self.lat
    }

    /// The longitude in degrees.
    pub fn lng(&self) -> (r: F64)
        ensures
            r == self@.lng,
            is_longitude(r),
    {
        proof {
            use_type_invariant(self);
        }
        self.lng
    }
}

/// Whether a number lies between a limit and its negative.
fn in_range(a: F64, limit: i32) -> (r: bool)
    requires
        0 <= limit,
    ensures
        r == within(a, limit as int),
{
    F64::from_i32(-limit).le(a) && a.le(F64::from_i32(limit))
}

impl PartialEq for LLPoint {
    fn eq(&self, other: &LLPoint) -> (r: bool) {
        self.lat == other.lat && self.lng == other.lng
    }
}

impl vstd::std_specs::cmp::PartialEqSpecImpl for LLPoint {
    open spec fn obeys_eq_spec() -> bool {
        true
    }

    open spec fn eq_spec(&self, other: &LLPoint) -> bool {
        self@.lat.same_number(other@.lat) && self@.lng.same_number(other@.lng)
    }
}

/// Whether a number is one of at most `limit` degrees to either side of zero.
pub open spec fn is_of_degrees(a: F64, limit: int) -> bool {
    !a.nan() && -limit * cast::one() <= a.units() <= limit * cast::one()
}

/// What is within a limit, in values.
pub proof fn lemma_of_degrees(a: F64, limit: int)
    requires
        limit == 90 || limit == 180,
    ensures
        within(a, limit) <==> is_of_degrees(a, limit),
        is_of_degrees(a, limit) ==> a.finite(),
{
    vstd::arithmetic::power2::lemma2_to64_rest();
    crate::binary64::error::lemma_integer_value(limit);
    crate::binary64::error::lemma_integer_value(-limit);
    let top = crate::binary64::INFINITY_BITS as nat;
    crate::binary64::lemma_scale_order(a.magnitude(), top);
    crate::binary64::lemma_scale_order(cast::of_integer(limit).magnitude(), top);
    crate::binary64::lemma_scale_order(cast::of_integer(-limit).magnitude(), top);
    assert((-limit) * cast::one() == -(limit * cast::one())) by (nonlinear_arith);
}

/// There is a point for every latitude from -90 to 90 degrees and every longitude from
/// -180 to 180 degrees, the limits included, and for no others. The latitude is looked at
/// first.
pub proof fn law_points_are_on_the_globe(lat: F64, lng: F64, r: Result<LLPoint, PointError>)
    requires
        call_ensures(LLPoint::new, (lat, lng), r),
    ensures
        r is Ok <==> is_of_degrees(lat, 90) && is_of_degrees(lng, 180),
        r matches Ok(p) ==> p@.lat == lat && p@.lng == lng,
        !is_of_degrees(lat, 90) ==> r == Err::<LLPoint, PointError>(PointError::Latitude(lat)),
        is_of_degrees(lat, 90) && !is_of_degrees(lng, 180) ==> r == Err::<LLPoint, PointError>(
            PointError::Longitude(lng),
        ),
{
    lemma_of_degrees(lat, 90);
    lemma_of_degrees(lng, 180);
}

/// Points are equal if and only if their latitudes and their longitudes are equal numbers.
pub proof fn law_equal_points(a: LLPoint, b: LLPoint, equal: bool)
    requires
        is_latitude(a@.lat) && is_longitude(a@.lng),
        is_latitude(b@.lat) && is_longitude(b@.lng),
        call_ensures(LLPoint::eq, (&a, &b), equal),
    ensures
        equal <==> a@.lat.units() == b@.lat.units() && a@.lng.units() == b@.lng.units(),
{
}

/// The point on the latitude of one point and the longitude of another.
pub proof fn law_meeting_points(a: LLPoint, b: LLPoint, r: LLPoint, lat: F64, lng: F64)
    requires
        call_ensures(LLPoint::meeting, (&a, &b), r),
        call_ensures(LLPoint::lat, (&r,), lat),
        call_ensures(LLPoint::lng, (&r,), lng),
    ensures
        lat == a@.lat,
        lng == b@.lng,
{
}

} // verus!
