//! The names of files in a world.

use vstd::prelude::*;
use crate::text;
use crate::text::Separator;

verus! {

/// The place of the region that a file holds, by the file's name: `r.`, the
/// place along x, a dot, the place along z, and `.mca`.
pub open spec fn region_of(name: Seq<char>) -> Option<(i32, i32)> {
    match text::between(name, "r."@, ".mca"@) {
        None => None,
        Some(s) => {
            let n = text::field_length(s, Separator::Dot) as int;
            if n == s.len() {
                None
            } else {
                match (text::integer_32(s.take(n)), text::integer_32(s.skip(n + 1))) {
                    (Some(x), Some(z)) => Some((x, z)),
                    _ => None,
                }
            }
        },
    }
}

/// The id of the map that a file holds, by the file's name: `map_`, the id and
/// `.dat`.
pub open spec fn map_id_of(name: Seq<char>) -> Option<i32> {
    match text::between(name, "map_"@, ".dat"@) {
        None => None,
        Some(s) => text::integer_32(s),
    }
}

/// The place of the region that a file holds, by the file's name.
pub fn parse_region_name(name: &str) -> (r: Option<(i32, i32)>)
    ensures
        r == region_of(name@),
{
    let chars: Vec<char> = text::characters(name);
    let prefix: Vec<char> = text::characters("r.");
    let suffix: Vec<char> = text::characters(".mca");
    let s: &[char] = match text::strip(chars.as_slice(), prefix.as_slice(), suffix.as_slice()) {
        None => return None,
        Some(s) => s,
    };
    let n: usize = text::length_to(s, Separator::Dot);
    if n == s.len() {
        return None;
    }
    let first: &[char] = &s[0..n];
    let second: &[char] = &s[n + 1..s.len()];
    assert(first@ =~= s@.take(n as int));
    assert(second@ =~= s@.skip(n + 1));
    match (text::parse_i32(first), text::parse_i32(second)) {
        (Some(x), Some(z)) => Some((x, z)),
        _ => None,
    }
}

/// The id of the map that a file holds, by the file's name.
pub fn parse_map_id(name: &str) -> (r: Option<i32>)
    ensures
        r == map_id_of(name@),
{
    let chars: Vec<char> = text::characters(name);
    let prefix: Vec<char> = text::characters("map_");
    let suffix: Vec<char> = text::characters(".dat");
    match text::strip(chars.as_slice(), prefix.as_slice(), suffix.as_slice()) {
        None => None,
        Some(s) => text::parse_i32(s),
    }
}

/// The name of the file of the region at `x` and `z`.
pub open spec fn region_name(x: i32, z: i32) -> Seq<char> {
    "r."@ + text::numeral(x as int) + "."@ + text::numeral(z as int) + ".mca"@
}

/// The name of the file of a map.
pub open spec fn map_name(id: i32) -> Seq<char> {
    "map_"@ + text::numeral(id as int) + ".dat"@
}

proof fn lemma_between(prefix: Seq<char>, s: Seq<char>, suffix: Seq<char>)
    ensures
        text::between(prefix + s + suffix, prefix, suffix) == Some(s),
{
    let whole = prefix + s + suffix;
    let rest = whole.skip(prefix.len() as int);
    assert(rest =~= s + suffix);
    assert(prefix =~= whole.subrange(0, prefix.len() as int));
    assert(suffix =~= rest.subrange(s.len() as int, rest.len() as int));
    assert(rest.take(s.len() as int) =~= s);
}

/// The name of a region's file tells the region's place.
pub proof fn law_region_names_read_back(x: i32, z: i32)
    ensures
        region_of(region_name(x, z)) == Some((x, z)),
{
    let (a, b) = (text::numeral(x as int), text::numeral(z as int));
    let s = a + "."@ + b;
    reveal_strlit(".");
    assert(region_name(x, z) =~= "r."@ + s + ".mca"@);
    lemma_between("r."@, s, ".mca"@);
    text::law_numerals_read_back(x);
    text::law_numerals_read_back(z);
    text::lemma_numeral_is_one_field(x as int, Separator::Dot);
    let n = text::field_length(s, Separator::Dot) as int;
    text::lemma_field_length(s, Separator::Dot);
    assert(s[a.len() as int] == '.');
    assert(n == a.len()) by {
        if n < a.len() {
            assert(s[n] == a[n]);
        }
    }
    assert(s.take(n) =~= a);
    assert(s.skip(n + 1) =~= b);
}

/// The name of a map's file tells the map's id.
pub proof fn law_map_names_read_back(id: i32)
    ensures
        map_id_of(map_name(id)) == Some(id),
{
    lemma_between("map_"@, text::numeral(id as int), ".dat"@);
    text::law_numerals_read_back(id);
}

proof fn lemma_region_text(a: Seq<char>, b: Seq<char>)
    requires
        text::integer_32(a) is Some,
        text::integer_32(b) is Some,
    ensures
        region_of("r."@ + a + "."@ + b + ".mca"@) == Some(
            (text::integer_32(a)->0, text::integer_32(b)->0),
        ),
{
    let name = "r."@ + a + "."@ + b + ".mca"@;
    let s = a + "."@ + b;
    reveal_strlit(".");
    assert(name =~= "r."@ + s + ".mca"@);
    lemma_between("r."@, s, ".mca"@);
    text::law_integers_are_digits(a);
    let n = text::field_length(s, Separator::Dot) as int;
    text::lemma_field_length(s, Separator::Dot);
    assert(s[a.len() as int] == '.');
    assert(n == a.len()) by {
        if n < a.len() {
            assert(s[n] == a[n]);
            assert(n == 0 || '0' <= a[n] <= '9');
        }
    }
    assert(s.take(n) =~= a);
    assert(s.skip(n + 1) =~= b);
}

/// A name is that of a region's file if and only if it is `r.`, an integer, a dot, an
/// integer and `.mca`; the integers are the region's place.
pub proof fn law_region_names(name: &str, r: Option<(i32, i32)>, x: i32, z: i32)
    requires
        call_ensures(parse_region_name, (name,), r),
    ensures
        r == Some((x, z)) <==> exists|a: Seq<char>, b: Seq<char>|
            name@ == #[trigger] ("r."@ + a + "."@ + b + ".mca"@) && text::integer_32(a) == Some(x)
                && text::integer_32(b) == Some(z),
{
    if exists|a: Seq<char>, b: Seq<char>|
        name@ == #[trigger] ("r."@ + a + "."@ + b + ".mca"@) && text::integer_32(a) == Some(x)
            && text::integer_32(b) == Some(z) {
        let (a, b) = choose|a: Seq<char>, b: Seq<char>|
            name@ == #[trigger] ("r."@ + a + "."@ + b + ".mca"@) && text::integer_32(a) == Some(x)
                && text::integer_32(b) == Some(z);
        lemma_region_text(a, b);
    }
    if r == Some((x, z)) {
        reveal_strlit(".");
        let s = text::between(name@, "r."@, ".mca"@)->0;
        lemma_is_between(name@, "r."@, ".mca"@);
        let n = text::field_length(s, Separator::Dot) as int;
        text::lemma_field_length(s, Separator::Dot);
        let (a, b) = (s.take(n), s.skip(n + 1));
        assert(s =~= a + "."@ + b);
        assert(name@ =~= "r."@ + a + "."@ + b + ".mca"@);
    }
}

proof fn lemma_is_between(whole: Seq<char>, prefix: Seq<char>, suffix: Seq<char>)
    requires
        text::between(whole, prefix, suffix) is Some,
    ensures
        whole == prefix + text::between(whole, prefix, suffix)->0 + suffix,
{
    let s = text::between(whole, prefix, suffix)->0;
    let rest = whole.skip(prefix.len() as int);
    assert(prefix =~= whole.subrange(0, prefix.len() as int));
    assert(suffix =~= rest.subrange(rest.len() - suffix.len(), rest.len() as int));
    assert(whole =~= prefix + rest);
    assert(rest =~= s + suffix);
    assert(whole =~= prefix + s + suffix);
}

/// A name is that of a map's file if and only if it is `map_`, an integer and `.dat`; the
/// integer is the map's id.
pub proof fn law_map_names(name: &str, r: Option<i32>, id: i32)
    requires
        call_ensures(parse_map_id, (name,), r),
    ensures
        r == Some(id) <==> exists|a: Seq<char>|
            name@ == #[trigger] ("map_"@ + a + ".dat"@) && text::integer_32(a) == Some(id),
{
    if exists|a: Seq<char>|
        name@ == #[trigger] ("map_"@ + a + ".dat"@) && text::integer_32(a) == Some(id) {
        let a = choose|a: Seq<char>|
            name@ == #[trigger] ("map_"@ + a + ".dat"@) && text::integer_32(a) == Some(id);
        lemma_between("map_"@, a, ".dat"@);
    }
    if r == Some(id) {
        lemma_is_between(name@, "map_"@, ".dat"@);
    }
}

} // verus!
