//! What a chunk's measuring run reports of its terrain.

use vstd::prelude::*;
use crate::binary64::F64;
use crate::binary64::INFINITY_BITS;
use crate::binary64::SIGN_BIT;
use crate::binary64::decimal;
use crate::chunked::driver;
use crate::text;
use crate::text::Separator;

verus! {

/// The heights of some terrain: the lowest, the highest, and the base it needs.
#[derive(Clone, Copy, Debug)]
pub struct Measurement {
    pub lo: F64,
    pub hi: F64,
    pub base: i32,
}

/// Why a report says nothing.
#[derive(Debug)]
pub enum ProbeError {
    /// It holds no height range.
    NoRange,
    /// Its height range, which is given, is not two numbers.
    BadRange(Vec<char>),
    /// It holds no terrain base.
    NoBase,
}

/// What is wrong with a report.
pub enum Fault {
    NoRange,
    BadRange(Seq<char>),
    NoBase,
}

impl View for ProbeError {
    type V = Fault;

    open spec fn view(&self) -> Fault {
        match self {
            ProbeError::NoRange => Fault::NoRange,
            ProbeError::BadRange(line) => Fault::BadRange(line@),
            ProbeError::NoBase => Fault::NoBase,
        }
    }
}

/// The two numbers that a line starts with.
pub open spec fn first_two(line: Seq<char>) -> Option<(F64, F64)> {
    let fields = text::fields(line, Separator::Whitespace);
    if fields.len() < 2 {
        None
    } else {
        match (decimal::parsed(fields[0]), decimal::parsed(fields[1])) {
            (Some(a), Some(b)) => Some((a, b)),
            _ => None,
        }
    }
}

/// The terrain base that a report holds.
pub open spec fn reported_base(report: Seq<char>) -> Option<i32> {
    match text::after_prefix(report, "ARNIS_TERRAIN_BASE "@) {
        Some(line) => text::integer_32(text::trimmed(line)),
        None => None,
    }
}

/// What a report says: the line that starts with the range's keyword goes on with
/// the lowest and the highest height, and the one that starts with the base's
/// keyword with the base.
pub open spec fn reported(report: Seq<char>) -> Result<Measurement, Fault> {
    match text::after_prefix(report, "ARNIS_ELEVATION_RANGE "@) {
        None => Err(Fault::NoRange),
        Some(line) => match first_two(line) {
            None => Err(Fault::BadRange(line)),
            Some((lo, hi)) => match reported_base(report) {
                None => Err(Fault::NoBase),
                Some(base) => Ok(Measurement { lo, hi, base }),
            },
        },
    }
}

fn parse_first_two(line: &[char]) -> (r: Option<(F64, F64)>)
    ensures
        r == first_two(line@),
{
    let places: Vec<(usize, usize)> = text::split(line, Separator::Whitespace);
    let ghost fields = text::fields(line@, Separator::Whitespace);
    assert(fields == text::at_places(line@, places@));
    if places.len() < 2 {
        return None;
    }
    let (a, b) = places[0];
    let (c, d) = places[1];
    assert(places@[0].0 <= places@[0].1 && places@[1].0 <= places@[1].1);
    let first: &[char] = &line[a..b];
    let second: &[char] = &line[c..d];
    assert(first@ == fields[0] && second@ == fields[1]);
    match (F64::parse(first), F64::parse(second)) {
        (Some(x), Some(y)) => Some((x, y)),
        _ => None,
    }
}

/// Reads a report.
pub fn parse_report(report: &str) -> (r: Result<Measurement, ProbeError>)
    ensures
        match r {
            Ok(m) => reported(report@) == Ok::<Measurement, Fault>(m),
            Err(e) => reported(report@) == Err::<Measurement, Fault>(e@),
        },
{
    let chars: Vec<char> = text::characters(report);
    let keyword: Vec<char> = text::characters("ARNIS_ELEVATION_RANGE ");
    let line: Vec<char> = match text::find_after_prefix(chars.as_slice(), keyword.as_slice()) {
        None => return Err(ProbeError::NoRange),
        Some(line) => line,
    };
    let (lo, hi) = match parse_first_two(line.as_slice()) {
        None => return Err(ProbeError::BadRange(line)),
        Some(range) => range,
    };
    let keyword: Vec<char> = text::characters("ARNIS_TERRAIN_BASE ");
    let base: Option<i32> = match text::find_after_prefix(chars.as_slice(), keyword.as_slice()) {
        None => None,
        Some(line) => {
            let number: Vec<char> = text::trim(line.as_slice());
            text::parse_i32(number.as_slice())
        },
    };
    match base {
        None => Err(ProbeError::NoBase),
        Some(base) => Ok(Measurement { lo, hi, base }),
    }
}

impl Measurement {
    /// What is known before anything has been measured: a range that holds
    /// nothing, and the lowest base there is.
    pub open spec fn nothing() -> Measurement {
        Measurement {
            lo: F64 { bits: INFINITY_BITS },
            hi: F64 { bits: (SIGN_BIT + INFINITY_BITS) as u64 },
            base: i32::MIN,
        }
    }

    /// Computes `nothing`.
    pub fn none() -> (r: Measurement)
        ensures
            r == Measurement::nothing(),
    {
        Measurement {
            lo: F64::from_bits(INFINITY_BITS),
            hi: F64::from_bits(SIGN_BIT + INFINITY_BITS),
            base: i32::MIN,
        }
    }

    /// What is known of two terrains together: the range that spans both ranges,
    /// and the higher base, which leaves room enough for both.
    pub open spec fn joined(self, other: Measurement) -> Measurement {
        Measurement {
            lo: self.lo.lesser(other.lo),
            hi: self.hi.greater(other.hi),
            base: if self.base < other.base { other.base } else { self.base },
        }
    }

    /// Computes `joined`.
    pub fn join(self, other: Measurement) -> (r: Measurement)
        ensures
            r == self.joined(other),
    {
        Measurement {
            lo: self.lo.min(other.lo),
            hi: self.hi.max(other.hi),
            base: if self.base < other.base { other.base } else { self.base },
        }
    }

    /// What is known of all the given terrains together.
    pub open spec fn all(parts: Seq<Measurement>) -> Measurement
        decreases parts.len(),
    {
        if parts.len() == 0 {
            Measurement::nothing()
        } else {
            Measurement::all(parts.drop_last()).joined(parts.last())
        }
    }
}

/// The base of all terrains together is not below that of any.
pub proof fn law_shared_base_is_high_enough(parts: Seq<Measurement>, i: int)
    requires
        0 <= i < parts.len(),
    ensures
        parts[i].base <= Measurement::all(parts).base,
    decreases parts.len(),
{
    if i < parts.len() - 1 {
        law_shared_base_is_high_enough(parts.drop_last(), i);
    }
}

/// The base of all terrains together is that of one of them.
pub proof fn law_shared_base_is_one_of_them(parts: Seq<Measurement>)
    requires
        parts.len() > 0,
    ensures
        exists|i: int|
            0 <= i < parts.len() && (#[trigger] parts[i]).base == Measurement::all(parts).base,
    decreases parts.len(),
{
    let rest = parts.drop_last();
    let n = parts.len() - 1;
    let base = Measurement::all(parts).base;
    if rest.len() > 0 && parts[n].base != base {
        law_shared_base_is_one_of_them(rest);
        let i = choose|i: int|
            0 <= i < rest.len() && (#[trigger] rest[i]).base == Measurement::all(rest).base;
        assert(parts[i].base == base);
    } else {
        if rest.len() == 0 {
            assert(Measurement::all(rest) == Measurement::nothing());
        }
        assert(parts[n].base == base);
    }
}

/// The range of all terrains together holds the range of each, where that is made
/// of numbers.
pub proof fn law_shared_range_holds_each(parts: Seq<Measurement>, i: int)
    requires
        0 <= i < parts.len(),
    ensures
        !parts[i].lo.nan() ==> Measurement::all(parts).lo.at_most(parts[i].lo),
        !parts[i].hi.nan() ==> parts[i].hi.at_most(Measurement::all(parts).hi),
    decreases parts.len(),
{
    if i < parts.len() - 1 {
        law_shared_range_holds_each(parts.drop_last(), i);
    }
}

/// What is known of all terrains together is known of one of them.
pub proof fn lemma_all_is_tight(parts: Seq<Measurement>)
    requires
        parts.len() > 0,
    ensures
        driver::is_lowest(Measurement::all(parts).lo, parts),
        driver::is_highest(Measurement::all(parts).hi, parts),
        driver::is_highest_base(Measurement::all(parts).base, parts),
{
    assert forall|i: int| 0 <= i < parts.len() && !(#[trigger] parts[i]).lo.nan() implies
        Measurement::all(parts).lo.at_most(parts[i].lo) by {
        law_shared_range_holds_each(parts, i);
    }
    assert forall|i: int| 0 <= i < parts.len() && !(#[trigger] parts[i]).hi.nan() implies
        parts[i].hi.at_most(Measurement::all(parts).hi) by {
        law_shared_range_holds_each(parts, i);
    }
    assert forall|i: int| 0 <= i < parts.len() implies (#[trigger] parts[i]).base
        <= Measurement::all(parts).base by {
        law_shared_base_is_high_enough(parts, i);
    }
    law_shared_base_is_one_of_them(parts);
    lemma_range_is_of_one(parts);
}

proof fn lemma_infinities()
    ensures
        !Measurement::nothing().lo.nan() && !Measurement::nothing().hi.nan(),
        forall|a: F64|
            #![trigger a.units()]
            !a.nan() ==> a.at_most(Measurement::nothing().lo) && Measurement::nothing().hi.at_most(
                a,
            ),
        forall|a: F64|
            #![trigger a.units()]
            Measurement::nothing().lo.at_most(a) ==> a == Measurement::nothing().lo,
        forall|a: F64|
            #![trigger a.units()]
            a.at_most(Measurement::nothing().hi) ==> a == Measurement::nothing().hi,
{
    let i = INFINITY_BITS as nat;
    assert forall|a: F64|
        #![trigger a.units()]
        !a.nan() implies a.at_most(Measurement::nothing().lo) && Measurement::nothing().hi.at_most(
        a,
    ) by {
        crate::binary64::lemma_scale_order(a.magnitude(), i);
        crate::binary64::lemma_scale_order(i, a.magnitude());
    }
    assert forall|a: F64|
        #![trigger a.units()]
        Measurement::nothing().lo.at_most(a) implies a == Measurement::nothing().lo by {
        crate::binary64::lemma_scale_order(a.magnitude(), i);
        crate::binary64::lemma_scale_order(i, 0);
    }
    assert forall|a: F64|
        #![trigger a.units()]
        a.at_most(Measurement::nothing().hi) implies a == Measurement::nothing().hi by {
        crate::binary64::lemma_scale_order(a.magnitude(), i);
        crate::binary64::lemma_scale_order(i, 0);
    }
}

/// The lowest and the highest height of all terrains together are those of one of them,
/// unless there are none that are numbers.
proof fn lemma_range_is_of_one(parts: Seq<Measurement>)
    ensures
        ({
            let m = Measurement::all(parts);
            &&& !m.lo.nan() && !m.hi.nan()
            &&& (exists|i: int| 0 <= i < parts.len() && (#[trigger] parts[i]).lo == m.lo) || (m.lo
                == Measurement::nothing().lo && forall|i: int|
                0 <= i < parts.len() ==> (#[trigger] parts[i]).lo.nan())
            &&& (exists|i: int| 0 <= i < parts.len() && (#[trigger] parts[i]).hi == m.hi) || (m.hi
                == Measurement::nothing().hi && forall|i: int|
                0 <= i < parts.len() ==> (#[trigger] parts[i]).hi.nan())
        }),
    decreases parts.len(),
{
    lemma_infinities();
    if parts.len() > 0 {
        let rest = parts.drop_last();
        let n = parts.len() - 1;
        lemma_range_is_of_one(rest);
        let (m, last, before) = (Measurement::all(parts), parts[n], Measurement::all(rest));
        assert(last.lo.nan() || last.lo.units() == last.lo.units());
        assert(last.hi.nan() || last.hi.units() == last.hi.units());
        if exists|i: int| 0 <= i < rest.len() && (#[trigger] rest[i]).lo == before.lo {
            let i = choose|i: int| 0 <= i < rest.len() && (#[trigger] rest[i]).lo == before.lo;
            assert(parts[i].lo == before.lo);
            assert(m.lo == before.lo || m.lo == parts[n].lo);
        } else if !last.lo.nan() {
            assert(last.lo.at_most(before.lo));
            assert(m.lo == parts[n].lo);
        } else {
            assert forall|i: int| 0 <= i < parts.len() implies (#[trigger] parts[i]).lo.nan() by {
                if i < n {
                    assert(rest[i] == parts[i]);
                }
            }
        }
        if exists|i: int| 0 <= i < rest.len() && (#[trigger] rest[i]).hi == before.hi {
            let i = choose|i: int| 0 <= i < rest.len() && (#[trigger] rest[i]).hi == before.hi;
            assert(parts[i].hi == before.hi);
            assert(m.hi == before.hi || m.hi == parts[n].hi);
        } else if !last.hi.nan() {
            assert(before.hi.at_most(last.hi));
            assert(m.hi == parts[n].hi);
        } else {
            assert forall|i: int| 0 <= i < parts.len() implies (#[trigger] parts[i]).hi.nan() by {
                if i < n {
                    assert(rest[i] == parts[i]);
                }
            }
        }
    }
}

/// The text of lines that each end with a line feed.
pub open spec fn as_text(lines: Seq<Seq<char>>) -> Seq<char>
    decreases lines.len(),
{
    if lines.len() == 0 {
        Seq::empty()
    } else {
        lines[0] + seq!['\n'] + as_text(lines.skip(1))
    }
}

/// Whether `i` is the first line that starts with the prefix.
pub open spec fn is_first_line(lines: Seq<Seq<char>>, prefix: Seq<char>, i: int) -> bool {
    &&& 0 <= i < lines.len()
    &&& prefix.is_prefix_of(lines[i])
    &&& forall|j: int| 0 <= j < i ==> !prefix.is_prefix_of(#[trigger] lines[j])
}

/// Whether texts are lines: they hold no line feed and do not end with a carriage return.
pub open spec fn are_lines(lines: Seq<Seq<char>>) -> bool {
    forall|j: int|
        0 <= j < lines.len() ==> !(#[trigger] lines[j]).contains('\n') && (lines[j].len() > 0
            ==> lines[j].last() != '\r')
}

proof fn lemma_first_line(lines: Seq<Seq<char>>, prefix: Seq<char>)
    requires
        are_lines(lines),
    ensures
        forall|i: int| #[trigger]
            is_first_line(lines, prefix, i) ==> text::after_prefix(as_text(lines), prefix) == Some(
                lines[i].skip(prefix.len() as int),
            ),
        (forall|j: int| 0 <= j < lines.len() ==> !prefix.is_prefix_of(#[trigger] lines[j]))
            ==> text::after_prefix(as_text(lines), prefix) is None,
    decreases lines.len(),
{
    let none = Seq::<char>::empty();
    if lines.len() == 0 {
        text::law_first_line_with_prefix(none, false, none, prefix);
    } else {
        let rest = lines.skip(1);
        assert forall|j: int| 0 <= j < rest.len() implies !(#[trigger] rest[j]).contains('\n') && (
        rest[j].len() > 0 ==> rest[j].last() != '\r') by {
            assert(rest[j] == lines[j + 1]);
        }
        lemma_first_line(rest, prefix);
        let line = lines[0];
        assert forall|i: int| 0 <= i < line.len() implies #[trigger] line[i] != '\n' by {
            assert(line.contains(line[i]));
        }
        text::law_first_line_with_prefix(line, false, as_text(rest), prefix);
        assert forall|i: int| #[trigger] is_first_line(lines, prefix, i) implies text::after_prefix(
            as_text(lines),
            prefix,
        ) == Some(lines[i].skip(prefix.len() as int)) by {
            if i > 0 {
                assert(!prefix.is_prefix_of(lines[0]));
                assert(rest[i - 1] == lines[i]);
                assert forall|j: int| 0 <= j < i - 1 implies !prefix.is_prefix_of(
                    #[trigger] rest[j],
                ) by {
                    assert(rest[j] == lines[j + 1]);
                }
                assert(is_first_line(rest, prefix, i - 1));
            }
        }
        if forall|j: int| 0 <= j < lines.len() ==> !prefix.is_prefix_of(#[trigger] lines[j]) {
            assert(!prefix.is_prefix_of(lines[0]));
            assert forall|j: int| 0 <= j < rest.len() implies !prefix.is_prefix_of(
                #[trigger] rest[j],
            ) by {
                assert(rest[j] == lines[j + 1]);
            }
        }
    }
}

/// A report that has the two lines, wherever they stand among others, is read as what they
/// say: the first that starts with the range's keyword gives the lowest and the highest
/// height, in this order, and the first that starts with the base's keyword the base. A
/// report without the one or the other line is read as nothing.
pub proof fn law_reports_are_read(
    report: &str,
    r: Result<Measurement, ProbeError>,
    lines: Seq<Seq<char>>,
    i: int,
    j: int,
    lo: Seq<char>,
    hi: Seq<char>,
    base: i32,
)
    requires
        call_ensures(parse_report, (report,), r),
        report@ == as_text(lines),
        are_lines(lines),
        text::is_field(lo, Separator::Whitespace),
        text::is_field(hi, Separator::Whitespace),
    ensures
        ({
            let range_line = is_first_line(lines, "ARNIS_ELEVATION_RANGE "@, i) && lines[i]
                == "ARNIS_ELEVATION_RANGE "@ + lo + " "@ + hi;
            let base_line = is_first_line(lines, "ARNIS_TERRAIN_BASE "@, j) && lines[j]
                == "ARNIS_TERRAIN_BASE "@ + text::numeral(base as int);
            &&& range_line && base_line ==> match (decimal::parsed(lo), decimal::parsed(hi)) {
                (Some(a), Some(b)) => r == Ok::<Measurement, ProbeError>(
                    Measurement { lo: a, hi: b, base },
                ),
                _ => (r matches Err(ProbeError::BadRange(line)) && line@ == lo + " "@ + hi),
            }
            &&& (forall|k: int|
                0 <= k < lines.len() ==> !"ARNIS_ELEVATION_RANGE "@.is_prefix_of(
                    #[trigger] lines[k],
                )) ==> r == Err::<Measurement, ProbeError>(ProbeError::NoRange)
            &&& range_line && decimal::parsed(lo) is Some && decimal::parsed(hi) is Some && (forall|
                k: int,
            |
                0 <= k < lines.len() ==> !"ARNIS_TERRAIN_BASE "@.is_prefix_of(
                    #[trigger] lines[k],
                )) ==> r == Err::<Measurement, ProbeError>(ProbeError::NoBase)
        }),
{
    let (range_key, base_key) = ("ARNIS_ELEVATION_RANGE "@, "ARNIS_TERRAIN_BASE "@);
    lemma_first_line(lines, range_key);
    lemma_first_line(lines, base_key);
    reveal_strlit(" ");
    let line = lo + " "@ + hi;
    assert(line =~= lo + seq![' '] + hi);
    text::lemma_first_field(lo, ' ', hi, Separator::Whitespace);
    text::lemma_last_field(hi, Separator::Whitespace);
    let fields = text::fields(line, Separator::Whitespace);
    assert(fields =~= seq![lo, hi]);
    if lines[i] == range_key + lo + " "@ + hi {
        assert(lines[i].skip(range_key.len() as int) =~= line);
    }
    let number = text::numeral(base as int);
    if lines[j] == base_key + number {
        assert(lines[j].skip(base_key.len() as int) =~= number);
    }
    text::law_numerals_read_back(base);
    text::law_numerals_are_plain(base as int);
    text::lemma_numeral_is_one_field(base as int, Separator::Whitespace);
    let none = Seq::<char>::empty();
    assert(Separator::Whitespace.separates(number[0]) == text::white(number[0]));
    let last = number.len() - 1;
    assert(!Separator::Whitespace.separates(number[last]));
    text::law_white_ends_are_trimmed(none, number, none);
    assert(none + number + none =~= number);
}

/// Two terrains together reach from the lower of the lowest heights to the higher of the
/// highest, and need the higher of the bases.
pub proof fn law_terrains_are_joined(a: Measurement, b: Measurement, r: Measurement)
    requires
        call_ensures(Measurement::join, (a, b), r),
    ensures
        r.base >= a.base && r.base >= b.base && (r.base == a.base || r.base == b.base),
        r.lo == a.lo || r.lo == b.lo,
        r.hi == a.hi || r.hi == b.hi,
        !a.lo.nan() && !b.lo.nan() ==> r.lo.units() <= a.lo.units() && r.lo.units()
            <= b.lo.units(),
        !a.hi.nan() && !b.hi.nan() ==> r.hi.units() >= a.hi.units() && r.hi.units()
            >= b.hi.units(),
{
}

/// What follows the keywords may be spaced in any way: of the range's line the first two
/// parts count and further ones do not, and of the base's line what is left without the white
/// space at its ends.
#[verifier::spinoff_prover]
pub proof fn law_reports_are_read_in_any_spacing(
    report: &str,
    r: Result<Measurement, ProbeError>,
    lines: Seq<Seq<char>>,
    i: int,
    j: int,
    gaps: Seq<Seq<char>>,
    texts: Seq<Seq<char>>,
    before: Seq<char>,
    number: Seq<char>,
    after: Seq<char>,
)
    requires
        call_ensures(parse_report, (report,), r),
        report@ == as_text(lines),
        are_lines(lines),
        is_first_line(lines, "ARNIS_ELEVATION_RANGE "@, i),
        is_first_line(lines, "ARNIS_TERRAIN_BASE "@, j),
        lines[i] == "ARNIS_ELEVATION_RANGE "@ + text::woven(gaps, texts),
        text::are_gaps(gaps, texts.len() as int, Separator::Whitespace),
        forall|k: int|
            0 <= k < texts.len() ==> text::is_field(#[trigger] texts[k], Separator::Whitespace),
        lines[j] == "ARNIS_TERRAIN_BASE "@ + (before + number + after),
        forall|k: int| 0 <= k < before.len() ==> text::white(#[trigger] before[k]),
        forall|k: int| 0 <= k < after.len() ==> text::white(#[trigger] after[k]),
        number.len() > 0,
        !text::white(number[0]) && !text::white(number.last()),
    ensures
        texts.len() < 2 ==> (r matches Err(ProbeError::BadRange(line)) && line@ == text::woven(
            gaps,
            texts,
        )),
        texts.len() >= 2 ==> match (decimal::parsed(texts[0]), decimal::parsed(texts[1])) {
            (Some(lo), Some(hi)) => match text::integer_32(number) {
                Some(base) => r == Ok::<Measurement, ProbeError>(Measurement { lo, hi, base }),
                None => r == Err::<Measurement, ProbeError>(ProbeError::NoBase),
            },
            _ => (r matches Err(ProbeError::BadRange(line)) && line@ == text::woven(gaps, texts)),
        },
{
    let (range_key, base_key) = ("ARNIS_ELEVATION_RANGE "@, "ARNIS_TERRAIN_BASE "@);
    lemma_first_line(lines, range_key);
    lemma_first_line(lines, base_key);
    let line = text::woven(gaps, texts);
    assert(lines[i].skip(range_key.len() as int) =~= line);
    assert(lines[j].skip(base_key.len() as int) =~= before + number + after);
    text::law_fields_come_apart(gaps, texts, Separator::Whitespace);
    text::law_white_ends_are_trimmed(before, number, after);
}

} // verus!
