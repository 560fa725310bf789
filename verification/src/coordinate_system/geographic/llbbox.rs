//! A box on the globe.

use vstd::prelude::*;
use vstd::string::*;
use crate::binary64::F64;
use crate::binary64::decimal;
use crate::coordinate_system::geographic::llpoint;
use crate::coordinate_system::geographic::llpoint::{LLPoint, PointError};
use crate::text;
use crate::text::Separator;

verus! {

/// A checked bounding box.
#[derive(Clone, Copy, Debug)]
pub struct LLBBox {
    /// The south-west corner.
    min: LLPoint,
    /// The north-east corner.
    max: LLPoint,
}

/// The edges of a box.
#[derive(Clone, Copy)]
pub struct Edges {
    pub min_lat: F64,
    pub min_lng: F64,
    pub max_lat: F64,
    pub max_lng: F64,
}

/// Why there is no box.
#[derive(Debug)]
pub enum BBoxError {
    /// The western edge is not west of the eastern one.
    LongitudeOrder(F64, F64),
    /// The southern edge is not south of the northern one.
    LatitudeOrder(F64, F64),
    /// A corner is not on the globe.
    Corner(PointError),
    /// A field of the text is not a number.
    NotANumber(String),
    /// A field of the text is infinite or a NaN.
    NotFinite(String),
    /// The text has this many fields, not four.
    FieldCount(usize),
}

impl Edges {
    /// Whether the edges are in order and on the globe, as those of a box are.
    pub open spec fn valid(self) -> bool {
        &&& self.min_lng.below(self.max_lng)
        &&& self.min_lat.below(self.max_lat)
        &&& llpoint::is_latitude(self.min_lat)
        &&& llpoint::is_latitude(self.max_lat)
        &&& llpoint::is_longitude(self.min_lng)
        &&& llpoint::is_longitude(self.max_lng)
    }

    /// Whether the point at `lat` and `lng` lies within the edges or on them.
    pub open spec fn covers(self, lat: F64, lng: F64) -> bool {
        &&& self.min_lat.at_most(lat)
        &&& lat.at_most(self.max_lat)
        &&& self.min_lng.at_most(lng)
        &&& lng.at_most(self.max_lng)
    }
}

/// Whether `e` is what is wrong with the edges `b`.
///
/// An edge that is no number at all, a NaN, is in order with every other: it
/// shows when the corner is checked.
pub open spec fn is_fault(b: Edges, e: BBoxError) -> bool {
    let lng_order = b.max_lng.at_most(b.min_lng);
    let lat_order = b.max_lat.at_most(b.min_lat);
    let in_order = !lng_order && !lat_order;
    match e {
        BBoxError::LongitudeOrder(x, y) => lng_order && x == b.min_lng && y == b.max_lng,
        BBoxError::LatitudeOrder(x, y) => !lng_order && lat_order && x == b.min_lat && y
            == b.max_lat,
        BBoxError::Corner(p) => in_order && (if !llpoint::is_latitude(b.min_lat) {
            p == PointError::Latitude(b.min_lat)
        } else if !llpoint::is_longitude(b.min_lng) {
            p == PointError::Longitude(b.min_lng)
        } else if !llpoint::is_latitude(b.max_lat) {
            p == PointError::Latitude(b.max_lat)
        } else {
            !llpoint::is_longitude(b.max_lng) && p == PointError::Longitude(b.max_lng)
        }),
        _ => false,
    }
}

/// The number that a field of the text writes is of use.
pub open spec fn is_good_field(f: Seq<char>) -> bool {
    decimal::parsed(f) matches Some(v) && v.finite()
}

/// The number that a good field writes.
pub open spec fn field_value(f: Seq<char>) -> F64 {
    decimal::parsed(f)->0
}

/// The edges that four fields write: the south-west corner and the north-east
/// one, each by its latitude and then its longitude.
pub open spec fn edges_of_fields(fields: Seq<Seq<char>>) -> Edges {
    Edges {
        min_lat: field_value(fields[0]),
        min_lng: field_value(fields[1]),
        max_lat: field_value(fields[2]),
        max_lng: field_value(fields[3]),
    }
}

/// Whether `f` is the first field that is not good.
pub open spec fn is_first_bad_field(fields: Seq<Seq<char>>, f: Seq<char>) -> bool {
    exists|i: int|
        0 <= i < fields.len() && #[trigger] fields[i] == f && !is_good_field(f) && (forall|j: int|
            0 <= j < i ==> is_good_field(#[trigger] fields[j]))
}

pub open spec fn all_good(fields: Seq<Seq<char>>) -> bool {
    forall|i: int| 0 <= i < fields.len() ==> is_good_field(#[trigger] fields[i])
}

impl View for LLBBox {
    type V = Edges;

    closed spec fn view(&self) -> Edges {
        Edges {
            min_lat: self.min@.lat,
            min_lng: self.min@.lng,
            max_lat: self.max@.lat,
            max_lng: self.max@.lng,
        }
    }
}

impl LLBBox {
    /// The edges are in order and on the globe.
    #[verifier::type_invariant]
    pub open spec fn valid(self) -> bool {
        self@.valid()
    }

    /// The box with the given edges, if they are those of a box.
    pub fn new(min_lat: F64, min_lng: F64, max_lat: F64, max_lng: F64) -> (r: Result<
        LLBBox,
        BBoxError,
    >)
        ensures
            ({
                let b = Edges { min_lat, min_lng, max_lat, max_lng };
                match r {
                    Ok(bbox) => b.valid() && bbox@ == b,
                    Err(e) => is_fault(b, e),
                }
            }),
    {
        if max_lng.le(min_lng) {
            return Err(BBoxError::LongitudeOrder(min_lng, max_lng));
        }
        if max_lat.le(min_lat) {
            return Err(BBoxError::LatitudeOrder(min_lat, max_lat));
        }
        match LLPoint::new(min_lat, min_lng) {
            Err(e) => Err(BBoxError::Corner(e)),
            Ok(min) => match LLPoint::new(max_lat, max_lng) {
                Err(e) => Err(BBoxError::Corner(e)),
                Ok(max) => Ok(LLBBox { min, max }),
            },
        }
    }

    /// The box that a text writes: four numbers with commas or spaces between
    /// them, the latitude and longitude of the south-west corner and then those
    /// of the north-east one.
    pub fn from_str(s: &str) -> (r: Result<LLBBox, BBoxError>)
        ensures
            ({
                let fields = text::fields(s@, Separator::CommaOrSpace);
                let b = edges_of_fields(fields);
                match r {
                    Ok(bbox) => all_good(fields) && fields.len() == 4 && b.valid() && bbox@ == b,
                    Err(BBoxError::NotANumber(f)) => is_first_bad_field(fields, f@)
                        && decimal::parsed(f@) is None,
                    Err(BBoxError::NotFinite(f)) => is_first_bad_field(fields, f@)
                        && decimal::parsed(f@) is Some,
                    Err(BBoxError::FieldCount(n)) => all_good(fields) && fields.len() != 4 && n
                        == fields.len(),
                    Err(e) => all_good(fields) && fields.len() == 4 && is_fault(b, e),
                }
            }),
    {
        let chars: Vec<char> = text::characters(s);
        let places: Vec<(usize, usize)> = text::split(chars.as_slice(), Separator::CommaOrSpace);
        let ghost fields = text::fields(s@, Separator::CommaOrSpace);
        assert(fields.len() == places@.len());
        let mut values: Vec<F64> = Vec::new();
        let mut i: usize = 0;
        while i < places.len()
            invariant
                i <= places@.len(),
                chars@ == s@,
                fields == text::fields(s@, Separator::CommaOrSpace),
                fields.len() == places@.len(),
                text::at_places(chars@, places@) == fields,
                forall|j: int|
                    0 <= j < places@.len() ==> (#[trigger] places@[j]).0 <= places@[j].1
                        <= chars@.len(),
                values@.len() == i,
                forall|j: int|
                    0 <= j < i ==> is_good_field(#[trigger] fields[j]) && values@[j] == field_value(
                        fields[j],
                    ),
            decreases places@.len() - i,
        {
            let (from, to) = places[i];
            assert(places@[i as int].0 <= places@[i as int].1);
            let field: &[char] = &chars.as_slice()[from..to];
            assert(fields[i as int] == field@);
            match F64::parse(field) {
                None => {
                    let f: &str = s.substring_char(from, to);
                    assert(f@ == fields[i as int]);
                    return Err(BBoxError::NotANumber(f.to_owned()));
                },
                Some(v) => {
                    if !v.is_finite() {
                        let f: &str = s.substring_char(from, to);
                        assert(f@ == fields[i as int]);
                        return Err(BBoxError::NotFinite(f.to_owned()));
                    }
                    values.push(v);
                },
            }
            i = i + 1;
        }
        if values.len() != 4 {
            return Err(BBoxError::FieldCount(values.len()));
        }
        assert(is_good_field(fields[0]) && is_good_field(fields[1]) && is_good_field(fields[2])
            && is_good_field(fields[3]));
        LLBBox::new(values[0], values[1], values[2], values[3])
    }

    /// The south-west corner.
    pub fn min(&self) -> (r: LLPoint)
        ensures
            r@.lat == self@.min_lat,
            r@.lng == self@.min_lng,
            self@.valid(),
    {
        proof {
            use_type_invariant(self);
        }
        self.min
    }

    /// The north-east corner.
    pub fn max(&self) -> (r: LLPoint)
        ensures
            r@.lat == self@.max_lat,
            r@.lng == self@.max_lng,
            self@.valid(),
    {
        proof {
            use_type_invariant(self);
        }
        self.max
    }

    /// Whether a point lies in the box or on its edge.
    pub fn contains(&self, llpoint: &LLPoint) -> (r: bool)
        ensures
            r == self@.covers(llpoint@.lat, llpoint@.lng),
    {
        self.min.lat().le(llpoint.lat()) && llpoint.lat().le(self.max.lat()) && self.min.lng().le(
            llpoint.lng(),
        ) && llpoint.lng().le(self.max.lng())
    }
}

impl PartialEq for LLBBox {
    fn eq(&self, other: &LLBBox) -> (r: bool) {
        self.min == other.min && self.max == other.max
    }
}

impl vstd::std_specs::cmp::PartialEqSpecImpl for LLBBox {
    open spec fn obeys_eq_spec() -> bool {
        true
    }

    open spec fn eq_spec(&self, other: &LLBBox) -> bool {
        &&& self@.min_lat.same_number(other@.min_lat)
        &&& self@.min_lng.same_number(other@.min_lng)
        &&& self@.max_lat.same_number(other@.max_lat)
        &&& self@.max_lng.same_number(other@.max_lng)
    }
}

/// Whether edges are those of a box: on the globe, the western one west of the eastern
/// one, and the southern one south of the northern one.
pub open spec fn are_edges(min_lat: F64, min_lng: F64, max_lat: F64, max_lng: F64) -> bool {
    &&& llpoint::is_of_degrees(min_lat, 90) && llpoint::is_of_degrees(max_lat, 90)
    &&& llpoint::is_of_degrees(min_lng, 180) && llpoint::is_of_degrees(max_lng, 180)
    &&& min_lat.units() < max_lat.units()
    &&& min_lng.units() < max_lng.units()
}

proof fn lemma_edges(b: Edges)
    ensures
        b.valid() <==> are_edges(b.min_lat, b.min_lng, b.max_lat, b.max_lng),
{
    llpoint::lemma_of_degrees(b.min_lat, 90);
    llpoint::lemma_of_degrees(b.max_lat, 90);
    llpoint::lemma_of_degrees(b.min_lng, 180);
    llpoint::lemma_of_degrees(b.max_lng, 180);
}

/// There is a box for edges on the globe that are in order, and for no others; it has just
/// these edges.
pub proof fn law_boxes_have_their_edges(
    min_lat: F64,
    min_lng: F64,
    max_lat: F64,
    max_lng: F64,
    r: Result<LLBBox, BBoxError>,
)
    requires
        call_ensures(LLBBox::new, (min_lat, min_lng, max_lat, max_lng), r),
    ensures
        r is Ok <==> are_edges(min_lat, min_lng, max_lat, max_lng),
        r matches Ok(b) ==> b@ == (Edges { min_lat, min_lng, max_lat, max_lng }),
        r matches Err(BBoxError::LongitudeOrder(a, b)) ==> a == min_lng && b == max_lng
            && max_lng.units() <= min_lng.units(),
        r matches Err(BBoxError::LatitudeOrder(a, b)) ==> a == min_lat && b == max_lat
            && max_lat.units() <= min_lat.units(),
        r matches Err(BBoxError::Corner(PointError::Latitude(a))) ==> (a == min_lat || a == max_lat)
            && !llpoint::is_of_degrees(a, 90),
        r matches Err(BBoxError::Corner(PointError::Longitude(a))) ==> (a == min_lng || a
            == max_lng) && !llpoint::is_of_degrees(a, 180),
{
    let b = Edges { min_lat, min_lng, max_lat, max_lng };
    lemma_edges(b);
    llpoint::lemma_of_degrees(b.min_lat, 90);
    llpoint::lemma_of_degrees(b.max_lat, 90);
    llpoint::lemma_of_degrees(b.min_lng, 180);
    llpoint::lemma_of_degrees(b.max_lng, 180);
}

/// A box contains the points that are not south, north, west or east of it, those on its
/// edges included. Its corners are the south-west one and the north-east one.
pub proof fn law_boxes_contain_what_is_between_their_corners(
    bbox: LLBBox,
    point: LLPoint,
    contained: bool,
    min: LLPoint,
    max: LLPoint,
)
    requires
        bbox@.valid(),
        llpoint::is_latitude(point@.lat) && llpoint::is_longitude(point@.lng),
        call_ensures(LLBBox::contains, (&bbox, &point), contained),
        call_ensures(LLBBox::min, (&bbox,), min),
        call_ensures(LLBBox::max, (&bbox,), max),
    ensures
        contained <==> min@.lat.units() <= point@.lat.units() <= max@.lat.units()
            && min@.lng.units() <= point@.lng.units() <= max@.lng.units(),
        min@.lat.units() < max@.lat.units(),
        min@.lng.units() < max@.lng.units(),
{
}

/// A text of four numbers with commas and spaces between them writes the box whose
/// south-west corner has the first as its latitude and the second as its longitude, and
/// whose north-east corner has the third and the fourth, if there is such a box. No other
/// text writes one.
pub proof fn law_texts_of_boxes(
    s: &str,
    r: Result<LLBBox, BBoxError>,
    gaps: Seq<Seq<char>>,
    texts: Seq<Seq<char>>,
)
    requires
        call_ensures(LLBBox::from_str, (s,), r),
        text::are_gaps(gaps, texts.len() as int, Separator::CommaOrSpace),
        forall|i: int|
            0 <= i < texts.len() ==> text::is_field(#[trigger] texts[i], Separator::CommaOrSpace),
        s@ == text::woven(gaps, texts),
    ensures
        r is Ok ==> texts.len() == 4,
        texts.len() == 4 ==> match (
            decimal::parsed(texts[0]),
            decimal::parsed(texts[1]),
            decimal::parsed(texts[2]),
            decimal::parsed(texts[3]),
        ) {
            (Some(a), Some(b), Some(c), Some(d)) => {
                &&& r is Ok <==> are_edges(a, b, c, d)
                &&& r matches Ok(bbox) ==> bbox@ == (Edges {
                    min_lat: a,
                    min_lng: b,
                    max_lat: c,
                    max_lng: d,
                })
            },
            _ => r is Err,
        },
{
    text::law_fields_come_apart(gaps, texts, Separator::CommaOrSpace);
    let fields = text::fields(s@, Separator::CommaOrSpace);
    assert(fields == texts);
    if texts.len() == 4 {
        let b = edges_of_fields(fields);
        lemma_edges(b);
        llpoint::lemma_of_degrees(b.min_lat, 90);
        llpoint::lemma_of_degrees(b.max_lat, 90);
        llpoint::lemma_of_degrees(b.min_lng, 180);
        llpoint::lemma_of_degrees(b.max_lng, 180);
        assert(all_good(fields) <==> is_good_field(fields[0]) && is_good_field(fields[1])
            && is_good_field(fields[2]) && is_good_field(fields[3]));
        if !all_good(fields) {
            assert(r is Err);
        }
    }
}

/// What is no number, or is no finite one, is reported where it is the first such part of
/// a text; otherwise a count of parts that is not four is.
pub proof fn law_texts_of_no_boxes(
    s: &str,
    r: Result<LLBBox, BBoxError>,
    gaps: Seq<Seq<char>>,
    texts: Seq<Seq<char>>,
    k: int,
)
    requires
        call_ensures(LLBBox::from_str, (s,), r),
        text::are_gaps(gaps, texts.len() as int, Separator::CommaOrSpace),
        forall|i: int|
            0 <= i < texts.len() ==> text::is_field(#[trigger] texts[i], Separator::CommaOrSpace),
        s@ == text::woven(gaps, texts),
        0 <= k <= texts.len(),
        forall|i: int|
            0 <= i < k ==> (decimal::parsed(#[trigger] texts[i]) matches Some(v) && v.finite()),
    ensures
        k < texts.len() && decimal::parsed(texts[k]) is None ==> (r matches Err(
            BBoxError::NotANumber(f),
        ) && f@ == texts[k]),
        k < texts.len() && (decimal::parsed(texts[k]) matches Some(v) && !v.finite()) ==> (
        r matches Err(BBoxError::NotFinite(f)) && f@ == texts[k]),
        k == texts.len() && k != 4 ==> r == Err::<LLBBox, BBoxError>(
            BBoxError::FieldCount(k as usize),
        ),
{
    text::law_fields_come_apart(gaps, texts, Separator::CommaOrSpace);
    let fields = text::fields(s@, Separator::CommaOrSpace);
    assert(fields == texts);
    assert forall|i: int| 0 <= i < k implies is_good_field(#[trigger] fields[i]) by {
        assert(decimal::parsed(texts[i]) matches Some(v) && v.finite());
    }
    if k < texts.len() && !is_good_field(texts[k]) {
        assert(!is_good_field(fields[k]));
        assert(!all_good(fields));
        assert forall|f: Seq<char>| #[trigger] is_first_bad_field(fields, f) implies f
            == texts[k] by {
            let i = choose|i: int|
                0 <= i < fields.len() && #[trigger] fields[i] == f && !is_good_field(f) && (forall|
                    j: int,
                |
                    0 <= j < i ==> is_good_field(#[trigger] fields[j]));
            if i > k {
                assert(is_good_field(fields[k]));
            } else if i < k {
                assert(is_good_field(fields[i]));
            }
        }
    }
}

/// Boxes are equal if and only if their four edges are equal numbers.
pub proof fn law_equal_boxes(a: LLBBox, b: LLBBox, equal: bool)
    requires
        a@.valid() && b@.valid(),
        call_ensures(LLBBox::eq, (&a, &b), equal),
    ensures
        equal <==> a@.min_lat.units() == b@.min_lat.units() && a@.min_lng.units()
            == b@.min_lng.units() && a@.max_lat.units() == b@.max_lat.units() && a@.max_lng.units()
            == b@.max_lng.units(),
{
}

} // verus!
