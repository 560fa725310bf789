//! The command lines that chunks are run with.

use vstd::prelude::*;
use vstd::string::*;
use crate::binary64::F64;
use crate::binary64::cast;
use crate::binary64::decimal;
use crate::chunked::plan::ChunkPlan;
use crate::coordinate_system::geographic::llbbox;
use crate::coordinate_system::geographic::llbbox::{BBoxError, Edges, LLBBox};
use crate::coordinate_system::transformation::{CoordTransformer, Frame};
use crate::text;
use crate::text::Separator;

verus! {

/// Whether `flag` is one that chunks are given their own, and whether a value
/// follows it.
pub open spec fn own_flag(flag: Seq<char>) -> Option<bool> {
    if flag == "--bbox"@ || flag == "--output-dir"@ || flag == "--path"@ || flag == "--name"@
        || flag == "--reference-bbox"@ || flag == "--elevation-range"@ || flag
        == "--terrain-base"@ || flag == "--map-id-base"@ || flag == "--chunk-regions"@ || flag
        == "--chunk-margin-regions"@ {
        Some(true)
    } else if flag == "--probe-elevation"@ {
        Some(false)
    } else {
        None
    }
}

/// What an argument says before its first equals sign.
pub open spec fn flag_of(arg: Seq<char>) -> Seq<char> {
    arg.take(text::field_length(arg, Separator::Equals) as int)
}

/// How many arguments, from the first on, are a flag of a chunk's own with its
/// value.
pub open spec fn own_length(args: Seq<Seq<char>>) -> int {
    match own_flag(flag_of(args[0])) {
        None => 0,
        Some(takes_value) => if takes_value && flag_of(args[0]).len() == args[0].len() {
            2
        } else {
            1
        },
    }
}

/// The arguments without the flags that chunks are given their own, and without
/// the values of these.
pub open spec fn passed(args: Seq<Seq<char>>) -> Seq<Seq<char>>
    decreases args.len(),
{
    if args.len() == 0 {
        args
    } else if own_length(args) == 0 {
        seq![args[0]] + passed(args.skip(1))
    } else if own_length(args) < args.len() {
        passed(args.skip(own_length(args)))
    } else {
        Seq::empty()
    }
}

/// The characters of each string.
pub open spec fn texts(args: Seq<String>) -> Seq<Seq<char>> {
    args.map_values(|s: String| s@)
}

fn is(flag: &[char], name: &str) -> (r: bool)
    ensures
        r == (flag@ == name@),
{
    let name: Vec<char> = text::characters(name);
    text::same(flag, name.as_slice())
}

/// Computes `own_flag`.
fn find_own_flag(flag: &[char]) -> (r: Option<bool>)
    ensures
        r == own_flag(flag@),
{
    if is(flag, "--bbox") || is(flag, "--output-dir") || is(flag, "--path") || is(flag, "--name")
        || is(flag, "--reference-bbox") || is(flag, "--elevation-range") || is(
        flag,
        "--terrain-base",
    ) || is(flag, "--map-id-base") || is(flag, "--chunk-regions") || is(
        flag,
        "--chunk-margin-regions",
    ) {
        Some(true)
    } else if is(flag, "--probe-elevation") {
        Some(false)
    } else {
        None
    }
}

/// The arguments that every chunk is run with: all but the flags that it is
/// given its own.
pub fn passthrough_args(args: &Vec<String>) -> (r: Vec<String>)
    ensures
        texts(r@) == passed(texts(args@)),
{
    let ghost all = texts(args@);
    let mut out: Vec<String> = Vec::new();
    let mut i: usize = 0;
    assert(all.skip(0) =~= all);
    assert(texts(out@) + passed(all) =~= passed(all));
    while i < args.len()
        invariant
            i <= args@.len(),
            all == texts(args@),
            texts(out@) + passed(all.skip(i as int)) == passed(all),
        decreases args@.len() - i,
    {
        let ghost rest = all.skip(i as int);
        assert(rest[0] == args@[i as int]@);
        let arg: Vec<char> = text::characters(args[i].as_str());
        let n: usize = text::length_to(arg.as_slice(), Separator::Equals);
        let flag: &[char] = &arg.as_slice()[0..n];
        assert(flag@ =~= flag_of(rest[0]));
        match find_own_flag(flag) {
            Some(takes_value) => {
                if takes_value && n == arg.len() {
                    if i + 1 < args.len() {
                        assert(rest.skip(2) =~= all.skip(i + 2));
                        i = i + 2;
                    } else {
                        i = i + 1;
                        assert(all.skip(i as int) =~= Seq::empty());
                    }
                } else {
                    assert(rest.skip(1) =~= all.skip(i + 1));
                    proof {
                        if rest.len() == 1 {
                            assert(all.skip(i + 1) =~= Seq::empty());
                        }
                    }
                    i = i + 1;
                }
            },
            None => {
                assert(rest.skip(1) =~= all.skip(i + 1));
                let ghost before = texts(out@);
                out.push(args[i].clone());
                assert(texts(out@) =~= before.push(rest[0]));
                assert(before.push(rest[0]) + passed(all.skip(i + 1)) =~= before + (seq![rest[0]]
                    + passed(all.skip(i + 1))));
                i = i + 1;
            },
        }
    }
    assert(all.skip(i as int) =~= Seq::empty());
    assert(texts(out@) + Seq::empty() =~= texts(out@));
    out
}

/// Of what is passed on, nothing is a flag that chunks are given their own.
pub proof fn law_own_flags_are_not_passed(args: Seq<Seq<char>>, i: int)
    requires
        0 <= i < passed(args).len(),
    ensures
        own_flag(flag_of(passed(args)[i])) is None,
    decreases args.len(),
{
    if args.len() > 0 {
        if own_length(args) == 0 {
            if i > 0 {
                law_own_flags_are_not_passed(args.skip(1), i - 1);
            }
        } else if own_length(args) < args.len() {
            law_own_flags_are_not_passed(args.skip(own_length(args)), i);
        }
    }
}

/// Arguments without such flags are passed on as they are.
pub proof fn law_other_arguments_are_passed(args: Seq<Seq<char>>)
    requires
        forall|i: int| 0 <= i < args.len() ==> own_flag(flag_of(#[trigger] args[i])) is None,
    ensures
        passed(args) == args,
    decreases args.len(),
{
    if args.len() > 0 {
        let rest = args.skip(1);
        assert forall|i: int| 0 <= i < rest.len() implies own_flag(
            flag_of(#[trigger] rest[i]),
        ) is None by {
            assert(rest[i] == args[i + 1]);
        }
        law_other_arguments_are_passed(rest);
        assert(seq![args[0]] + rest =~= args);
    }
}

/// The edges of the area that a chunk generates, in the frame of the whole. The
/// area ends where the chunk's blocks do, but not behind the whole.
pub open spec fn chunk_edges(f: Frame, plan: ChunkPlan) -> Edges {
    let end_x = cast::of_integer(plan.block_x.1 as int).lesser(f.scale_factor_x);
    let end_z = cast::of_integer(plan.block_z.1 as int).lesser(f.scale_factor_z);
    Edges {
        min_lat: f.lat_at(end_z),
        min_lng: f.lng_at(cast::of_integer(plan.block_x.0 as int)),
        max_lat: f.lat_at(cast::of_integer(plan.block_z.0 as int)),
        max_lng: f.lng_at(end_x),
    }
}

/// Computes the edges of the area that a chunk generates.
pub fn bbox_of_chunk(t: &CoordTransformer, plan: &ChunkPlan) -> (r: Edges)
    ensures
        r == chunk_edges(t@, *plan),
{
    let (max_lat, min_lng) = t.reference_to_latlng(
        F64::from_i32(plan.block_x.0),
        F64::from_i32(plan.block_z.0),
    );
    let (min_lat, max_lng) = t.reference_to_latlng(
        F64::from_i32(plan.block_x.1).min(t.scale_factor_x()),
        F64::from_i32(plan.block_z.1).min(t.scale_factor_z()),
    );
    Edges { min_lat, min_lng, max_lat, max_lng }
}

/// The texts of the edges of an area.
pub struct EdgeTexts {
    pub min_lat: String,
    pub min_lng: String,
    pub max_lat: String,
    pub max_lng: String,
}

impl EdgeTexts {
    /// The edges with commas between them.
    pub open spec fn joined(self) -> Seq<char> {
        self.min_lat@ + ","@ + self.min_lng@ + ","@ + self.max_lat@ + ","@ + self.max_lng@
    }
}

/// An area as it is written on the command line: its edges, from the south-west
/// corner's latitude on, with commas between them.
pub fn bbox_arg(edges: &EdgeTexts) -> (r: String)
    ensures
        r@ == edges.joined(),
{
    let mut r: String = edges.min_lat.clone();
    r.append(",");
    r.append(edges.min_lng.as_str());
    r.append(",");
    r.append(edges.max_lat.as_str());
    r.append(",");
    r.append(edges.max_lng.as_str());
    r
}

/// An area that is written on the command line reads back as the same area.
pub proof fn law_areas_read_back(edges: EdgeTexts)
    requires
        llbbox::is_good_field(edges.min_lat@),
        llbbox::is_good_field(edges.min_lng@),
        llbbox::is_good_field(edges.max_lat@),
        llbbox::is_good_field(edges.max_lng@),
    ensures
        ({
            let fields = text::fields(edges.joined(), Separator::CommaOrSpace);
            &&& fields.len() == 4
            &&& llbbox::all_good(fields)
            &&& llbbox::edges_of_fields(fields) == (Edges {
                min_lat: llbbox::field_value(edges.min_lat@),
                min_lng: llbbox::field_value(edges.min_lng@),
                max_lat: llbbox::field_value(edges.max_lat@),
                max_lng: llbbox::field_value(edges.max_lng@),
            })
        }),
{
    let sep = Separator::CommaOrSpace;
    let (a, b, c, d) = (edges.min_lat@, edges.min_lng@, edges.max_lat@, edges.max_lng@);
    decimal::lemma_number_is_field(a);
    decimal::lemma_number_is_field(b);
    decimal::lemma_number_is_field(c);
    decimal::lemma_number_is_field(d);
    reveal_strlit(",");
    assert(","@ =~= seq![',']);
    let cd = c + seq![','] + d;
    let bcd = b + seq![','] + cd;
    assert(edges.joined() =~= a + seq![','] + bcd);
    text::lemma_last_field(d, sep);
    text::lemma_first_field(c, ',', d, sep);
    text::lemma_first_field(b, ',', cd, sep);
    text::lemma_first_field(a, ',', bcd, sep);
    assert(text::fields(edges.joined(), sep) =~= seq![a, b, c, d]);
}

/// An argument of a chunk's run: a text, or the directory that its world is to be
/// written to.
pub enum Argument {
    Text(String),
    OutputDir,
}

/// What an argument says.
pub enum Word {
    Text(Seq<char>),
    OutputDir,
}

impl View for Argument {
    type V = Word;

    open spec fn view(&self) -> Word {
        match self {
            Argument::Text(s) => Word::Text(s@),
            Argument::OutputDir => Word::OutputDir,
        }
    }
}

pub open spec fn words(args: Seq<Argument>) -> Seq<Word> {
    args.map_values(|a: Argument| a@)
}

pub open spec fn text_words(args: Seq<Seq<char>>) -> Seq<Word> {
    args.map_values(|s: Seq<char>| Word::Text(s))
}

/// What every run of a chunk starts with: the arguments that are passed on, the
/// chunk's area and the whole area.
pub open spec fn area_words(
    passed: Seq<Seq<char>>,
    bbox: Seq<char>,
    reference: Seq<char>,
) -> Seq<Word> {
    text_words(passed).push(Word::Text("--bbox="@ + bbox)).push(
        Word::Text("--reference-bbox="@ + reference),
    )
}

/// The command line that measures a chunk's terrain.
pub open spec fn probe_words(
    passed: Seq<Seq<char>>,
    bbox: Seq<char>,
    reference: Seq<char>,
) -> Seq<Word> {
    area_words(passed, bbox, reference).push(Word::Text("--probe-elevation"@)).push(
        Word::Text("--output-dir"@),
    ).push(Word::OutputDir)
}

/// The command line that generates a chunk, up to what all chunks share.
pub open spec fn chunk_words(
    passed: Seq<Seq<char>>,
    bbox: Seq<char>,
    reference: Seq<char>,
    map_id_base: i32,
) -> Seq<Word> {
    area_words(passed, bbox, reference).push(
        Word::Text("--map-id-base="@ + text::numeral(map_id_base as int)),
    ).push(Word::Text("--output-dir"@)).push(Word::OutputDir).push(Word::Text("--name"@)).push(
        Word::Text("chunk"@),
    )
}

/// The height range on a command line, if there is one.
pub open spec fn range_words(range: Option<(Seq<char>, Seq<char>)>) -> Seq<Word> {
    match range {
        Some((lo, hi)) => seq![Word::Text("--elevation-range="@ + lo + ","@ + hi)],
        None => Seq::empty(),
    }
}

/// The terrain base on a command line, if there is one.
pub open spec fn base_words(base: Option<i32>) -> Seq<Word> {
    match base {
        Some(b) => seq![Word::Text("--terrain-base="@ + text::numeral(b as int))],
        None => Seq::empty(),
    }
}

/// Appends a flag that is written together with its value.
fn push_flag(args: &mut Vec<Argument>, flag: &str, value: &str)
    ensures
        words(final(args)@) == words(old(args)@).push(Word::Text(flag@ + value@)),
{
    let mut arg: String = flag.to_owned();
    arg.append(value);
    args.push(Argument::Text(arg));
    assert(words(args@) =~= words(old(args)@).push(Word::Text(flag@ + value@)));
}

/// Appends a flag that is written together with an integer.
fn push_number(args: &mut Vec<Argument>, flag: &str, value: i32)
    ensures
        words(final(args)@) == words(old(args)@).push(
            Word::Text(flag@ + text::numeral(value as int)),
        ),
{
    let mut arg: String = flag.to_owned();
    text::append_i32(&mut arg, value);
    args.push(Argument::Text(arg));
    assert(words(args@) =~= words(old(args)@).push(
        Word::Text(flag@ + text::numeral(value as int)),
    ));
}

/// Appends a word as it is.
fn push_word(args: &mut Vec<Argument>, word: &str)
    ensures
        words(final(args)@) == words(old(args)@).push(Word::Text(word@)),
{
    args.push(Argument::Text(word.to_owned()));
    assert(words(args@) =~= words(old(args)@).push(Word::Text(word@)));
}

fn push_output_dir(args: &mut Vec<Argument>)
    ensures
        words(final(args)@) == words(old(args)@).push(Word::OutputDir),
{
    args.push(Argument::OutputDir);
    assert(words(args@) =~= words(old(args)@).push(Word::OutputDir));
}

/// What every run of a chunk starts with.
fn area_arguments(passthrough: &Vec<String>, bbox: &str, reference: &str) -> (r: Vec<Argument>)
    ensures
        words(r@) == area_words(texts(passthrough@), bbox@, reference@),
{
    let ghost all = texts(passthrough@);
    let mut args: Vec<Argument> = Vec::new();
    let mut i: usize = 0;
    assert(words(args@) =~= text_words(all.take(0)));
    while i < passthrough.len()
        invariant
            i <= passthrough@.len(),
            all == texts(passthrough@),
            words(args@) == text_words(all.take(i as int)),
        decreases passthrough@.len() - i,
    {
        push_word(&mut args, passthrough[i].as_str());
        assert(text_words(all.take(i + 1)) =~= text_words(all.take(i as int)).push(
            Word::Text(all[i as int]),
        ));
        i = i + 1;
    }
    assert(all.take(i as int) =~= all);
    push_flag(&mut args, "--bbox=", bbox);
    push_flag(&mut args, "--reference-bbox=", reference);
    args
}

/// The command line that measures a chunk's terrain: `bbox` is the chunk's area
/// and `reference` the whole area.
pub fn probe_arguments(passthrough: &Vec<String>, bbox: &str, reference: &str) -> (r: Vec<Argument>)
    ensures
        words(r@) == probe_words(texts(passthrough@), bbox@, reference@),
{
    let mut args: Vec<Argument> = area_arguments(passthrough, bbox, reference);
    push_word(&mut args, "--probe-elevation");
    push_word(&mut args, "--output-dir");
    push_output_dir(&mut args);
    args
}

/// The text of a height range, if there is one.
pub open spec fn range_view(range: &Option<(String, String)>) -> Option<(Seq<char>, Seq<char>)> {
    match range {
        Some((lo, hi)) => Some((lo@, hi@)),
        None => None,
    }
}

/// The command line that generates a chunk. The chunk numbers its maps from
/// `map_id_base` on, and takes the height range and the terrain base that all
/// chunks share, where these are known.
pub fn chunk_arguments(
    passthrough: &Vec<String>,
    bbox: &str,
    reference: &str,
    map_id_base: i32,
    elevation_range: &Option<(String, String)>,
    terrain_base: Option<i32>,
) -> (r: Vec<Argument>)
    ensures
        words(r@) == chunk_words(texts(passthrough@), bbox@, reference@, map_id_base) + range_words(
            range_view(elevation_range),
        ) + base_words(terrain_base),
{
    let mut args: Vec<Argument> = area_arguments(passthrough, bbox, reference);
    push_number(&mut args, "--map-id-base=", map_id_base);
    push_word(&mut args, "--output-dir");
    push_output_dir(&mut args);
    push_word(&mut args, "--name");
    push_word(&mut args, "chunk");
    let ghost start = words(args@);
    match elevation_range {
        Some((lo, hi)) => {
            let mut value: String = lo.clone();
            value.append(",");
            value.append(hi.as_str());
            push_flag(&mut args, "--elevation-range=", value.as_str());
            assert("--elevation-range="@ + value@ =~= "--elevation-range="@ + lo@ + ","@ + hi@);
        },
        None => {},
    }
    let ghost middle = start + range_words(range_view(elevation_range));
    assert(words(args@) =~= middle);
    match terrain_base {
        Some(base) => {
            push_number(&mut args, "--terrain-base=", base);
        },
        None => {},
    }
    assert(words(args@) =~= middle + base_words(terrain_base));
    args
}

/// Whether an argument names a flag: it is the flag, or the flag with its value behind an
/// equals sign.
pub open spec fn names_flag(arg: Seq<char>, flag: Seq<char>) -> bool {
    arg == flag || (flag + "="@).is_prefix_of(arg)
}

/// Whether a flag that takes a value is one that is not passed on.
pub open spec fn is_withheld(flag: Seq<char>) -> bool {
    ||| flag == "--bbox"@
    ||| flag == "--reference-bbox"@
    ||| flag == "--map-id-base"@
    ||| flag == "--output-dir"@
    ||| flag == "--path"@
    ||| flag == "--name"@
    ||| flag == "--elevation-range"@
    ||| flag == "--terrain-base"@
    ||| flag == "--chunk-regions"@
    ||| flag == "--chunk-margin-regions"@
}

/// The texts of the flags hold no equals sign.
proof fn lemma_no_equals_sign(flag: Seq<char>)
    requires
        is_withheld(flag) || flag == "--probe-elevation"@,
    ensures
        forall|i: int| 0 <= i < flag.len() ==> #[trigger] flag[i] != '=',
{
    reveal_strlit("--bbox");
    reveal_strlit("--reference-bbox");
    reveal_strlit("--map-id-base");
    reveal_strlit("--output-dir");
    reveal_strlit("--path");
    reveal_strlit("--name");
    reveal_strlit("--elevation-range");
    reveal_strlit("--terrain-base");
    reveal_strlit("--chunk-regions");
    reveal_strlit("--chunk-margin-regions");
    reveal_strlit("--probe-elevation");
}

/// An argument that names a flag says the flag before its first equals sign, and the
/// other way round.
proof fn lemma_names_flag(arg: Seq<char>, flag: Seq<char>)
    requires
        forall|i: int| 0 <= i < flag.len() ==> #[trigger] flag[i] != '=',
    ensures
        names_flag(arg, flag) <==> flag_of(arg) == flag,
        names_flag(arg, flag) ==> (flag_of(arg).len() == arg.len() <==> arg == flag),
{
    reveal_strlit("=");
    text::lemma_field_length(arg, Separator::Equals);
    let n = text::field_length(arg, Separator::Equals) as int;
    assert("="@ =~= seq!['=']);
    if arg == flag {
        assert(n == arg.len()) by {
            if n < arg.len() {
                assert(arg[n] == '=');
            }
        }
        assert(flag_of(arg) =~= flag);
    } else if (flag + "="@).is_prefix_of(arg) {
        let m = flag.len() as int;
        let f = flag + "="@;
        assert(f =~= arg.subrange(0, f.len() as int));
        assert(arg[m] == f[m]);
        assert(arg[m] == '=');
        if n < m {
            assert(arg[n] == f[n]);
            assert(flag[n] != '=');
        }
        assert(n == m);
        assert(flag_of(arg) =~= flag) by {
            assert forall|i: int| 0 <= i < m implies #[trigger] flag_of(arg)[i] == flag[i] by {
                assert(arg[i] == f[i]);
            }
        }
    }
    if flag_of(arg) == flag {
        if n == arg.len() {
            assert(flag_of(arg) =~= arg);
        } else {
            assert(arg[n] == '=');
            let f = flag + "="@;
            assert(f =~= arg.subrange(0, f.len() as int));
        }
    }
}

/// A flag that takes a value is dropped with its value, whether the value is the next
/// argument or stands behind an equals sign.
pub proof fn law_withheld_flags_are_dropped(
    flag: Seq<char>,
    value: Seq<char>,
    rest: Seq<Seq<char>>,
)
    requires
        is_withheld(flag),
    ensures
        passed(seq![flag, value] + rest) == passed(rest),
        passed(seq![flag + "="@ + value] + rest) == passed(rest),
        passed(seq![flag]) == Seq::<Seq<char>>::empty(),
{
    lemma_no_equals_sign(flag);
    lemma_names_flag(flag, flag);
    let joint = flag + "="@ + value;
    assert((flag + "="@).is_prefix_of(joint)) by {
        let f = flag + "="@;
        assert(f =~= joint.subrange(0, f.len() as int));
    }
    lemma_names_flag(joint, flag);
    reveal_strlit("=");
    assert(joint.len() > flag.len());
    assert(own_flag(flag) == Some(true));
    let two = seq![flag, value] + rest;
    assert(two[0] == flag);
    assert(own_length(two) == 2);
    if rest.len() == 0 {
        assert(two.len() == 2);
        assert(passed(two) =~= Seq::<Seq<char>>::empty());
        assert(passed(rest) =~= rest);
    } else {
        assert(two.skip(2) =~= rest);
    }
    let one = seq![joint] + rest;
    assert(one[0] == joint);
    assert(own_length(one) == 1);
    if rest.len() == 0 {
        assert(one.len() == 1);
        assert(passed(one) =~= Seq::<Seq<char>>::empty());
        assert(passed(rest) =~= rest);
    } else {
        assert(one.skip(1) =~= rest);
    }
    assert(own_length(seq![flag]) == 2);
}

/// The flag that asks for a measurement takes no value, and is dropped alone.
pub proof fn law_probe_flag_is_dropped(value: Seq<char>, rest: Seq<Seq<char>>)
    ensures
        passed(seq!["--probe-elevation"@] + rest) == passed(rest),
        passed(seq!["--probe-elevation"@ + "="@ + value] + rest) == passed(rest),
{
    let flag = "--probe-elevation"@;
    lemma_no_equals_sign(flag);
    lemma_names_flag(flag, flag);
    lemma_probe_is_no_other(flag);
    lemma_probe_is_dropped(flag, rest);
    let joint = flag + "="@ + value;
    assert((flag + "="@).is_prefix_of(joint)) by {
        let f = flag + "="@;
        assert(f =~= joint.subrange(0, f.len() as int));
    }
    lemma_names_flag(joint, flag);
    lemma_probe_is_dropped(joint, rest);
}

proof fn lemma_probe_is_dropped(arg: Seq<char>, rest: Seq<Seq<char>>)
    requires
        own_flag(flag_of(arg)) == Some(false),
    ensures
        passed(seq![arg] + rest) == passed(rest),
{
    let all = seq![arg] + rest;
    assert(all[0] == arg);
    assert(own_length(all) == 1);
    if rest.len() == 0 {
        assert(all.len() == 1);
        assert(passed(all) =~= Seq::<Seq<char>>::empty());
        assert(passed(rest) =~= rest);
    } else {
        assert(all.skip(1) =~= rest);
    }
}

proof fn lemma_probe_is_no_other(flag: Seq<char>)
    requires
        flag == "--probe-elevation"@,
    ensures
        !is_withheld(flag),
        own_flag(flag) == Some(false),
{
    reveal_strlit("--bbox");
    reveal_strlit("--reference-bbox");
    reveal_strlit("--map-id-base");
    reveal_strlit("--output-dir");
    reveal_strlit("--path");
    reveal_strlit("--name");
    reveal_strlit("--elevation-range");
    reveal_strlit("--terrain-base");
    reveal_strlit("--chunk-regions");
    reveal_strlit("--chunk-margin-regions");
    reveal_strlit("--probe-elevation");
    assert(flag[2] == 'p' && flag[3] == 'r');
    assert("--path"@[3] == 'a');
}

/// Whether an argument names a flag that a chunk is given its own, or one of the driver.
pub open spec fn is_withheld_argument(arg: Seq<char>) -> bool {
    ||| names_flag(arg, "--bbox"@)
    ||| names_flag(arg, "--reference-bbox"@)
    ||| names_flag(arg, "--map-id-base"@)
    ||| names_flag(arg, "--output-dir"@)
    ||| names_flag(arg, "--path"@)
    ||| names_flag(arg, "--name"@)
    ||| names_flag(arg, "--elevation-range"@)
    ||| names_flag(arg, "--terrain-base"@)
    ||| names_flag(arg, "--chunk-regions"@)
    ||| names_flag(arg, "--chunk-margin-regions"@)
    ||| names_flag(arg, "--probe-elevation"@)
}

proof fn lemma_withheld_argument(arg: Seq<char>)
    ensures
        is_withheld_argument(arg) <==> own_flag(flag_of(arg)) is Some,
{
    lemma_no_equals_sign("--bbox"@);
    lemma_no_equals_sign("--reference-bbox"@);
    lemma_no_equals_sign("--map-id-base"@);
    lemma_no_equals_sign("--output-dir"@);
    lemma_no_equals_sign("--path"@);
    lemma_no_equals_sign("--name"@);
    lemma_no_equals_sign("--elevation-range"@);
    lemma_no_equals_sign("--terrain-base"@);
    lemma_no_equals_sign("--chunk-regions"@);
    lemma_no_equals_sign("--chunk-margin-regions"@);
    lemma_no_equals_sign("--probe-elevation"@);
    lemma_names_flag(arg, "--bbox"@);
    lemma_names_flag(arg, "--reference-bbox"@);
    lemma_names_flag(arg, "--map-id-base"@);
    lemma_names_flag(arg, "--output-dir"@);
    lemma_names_flag(arg, "--path"@);
    lemma_names_flag(arg, "--name"@);
    lemma_names_flag(arg, "--elevation-range"@);
    lemma_names_flag(arg, "--terrain-base"@);
    lemma_names_flag(arg, "--chunk-regions"@);
    lemma_names_flag(arg, "--chunk-margin-regions"@);
    lemma_names_flag(arg, "--probe-elevation"@);
}

/// Any other argument is passed on as it is, in its place.
pub proof fn law_other_arguments_keep_their_place(arg: Seq<char>, rest: Seq<Seq<char>>)
    requires
        !is_withheld_argument(arg),
    ensures
        passed(seq![arg] + rest) == seq![arg] + passed(rest),
{
    lemma_withheld_argument(arg);
    let all = seq![arg] + rest;
    assert(all[0] == arg);
    assert(all.skip(1) =~= rest);
}

/// Nothing that is passed on names a flag that a chunk is given its own.
pub proof fn law_withheld_flags_never_occur(args: Seq<Seq<char>>, i: int)
    requires
        0 <= i < passed(args).len(),
    ensures
        !is_withheld_argument(passed(args)[i]),
{
    law_own_flags_are_not_passed(args, i);
    lemma_withheld_argument(passed(args)[i]);
}

/// Whether a word of a command line names a flag.
pub open spec fn word_names(w: Word, flag: Seq<char>) -> bool {
    w matches Word::Text(t) && names_flag(t, flag)
}

/// Whether a command line names a flag just once, by the given text.
pub open spec fn says_once(line: Seq<Word>, flag: Seq<char>, text: Seq<char>) -> bool {
    exists|i: int|
        0 <= i < line.len() && #[trigger] line[i] == Word::Text(text) && (forall|j: int|
            0 <= j < line.len() && #[trigger] word_names(line[j], flag) ==> j == i)
}

/// Whether a command line does not name a flag.
pub open spec fn says_never(line: Seq<Word>, flag: Seq<char>) -> bool {
    forall|j: int| 0 <= j < line.len() ==> !#[trigger] word_names(line[j], flag)
}

/// Whether the flag `flag` is followed by the word `value` wherever it stands.
pub open spec fn is_followed(line: Seq<Word>, flag: Seq<char>, value: Word) -> bool {
    forall|i: int|
        0 <= i < line.len() && #[trigger] line[i] == Word::Text(flag) ==> i + 1 < line.len()
            && line[i + 1] == value
}

/// The whole command line that generates a chunk.
pub open spec fn chunk_line(
    args: Seq<Seq<char>>,
    bbox: Seq<char>,
    reference: Seq<char>,
    map_id_base: i32,
    range: Option<(Seq<char>, Seq<char>)>,
    base: Option<i32>,
) -> Seq<Word> {
    chunk_words(passed(args), bbox, reference, map_id_base) + range_words(range) + base_words(base)
}

/// The texts of the flags differ.
proof fn lemma_flags_differ()
    ensures
        "--bbox"@ != "--name"@,
        "--bbox"@ != "--reference-bbox"@,
        "--bbox"@ != "--map-id-base"@,
        "--bbox"@ != "--output-dir"@,
        "--bbox"@ != "--elevation-range"@,
        "--bbox"@ != "--terrain-base"@,
        "--bbox"@ != "--probe-elevation"@,
        "--name"@ != "--reference-bbox"@,
        "--name"@ != "--map-id-base"@,
        "--name"@ != "--output-dir"@,
        "--name"@ != "--elevation-range"@,
        "--name"@ != "--terrain-base"@,
        "--name"@ != "--probe-elevation"@,
        "--reference-bbox"@ != "--map-id-base"@,
        "--reference-bbox"@ != "--output-dir"@,
        "--reference-bbox"@ != "--elevation-range"@,
        "--reference-bbox"@ != "--terrain-base"@,
        "--reference-bbox"@ != "--probe-elevation"@,
        "--map-id-base"@ != "--output-dir"@,
        "--map-id-base"@ != "--elevation-range"@,
        "--map-id-base"@ != "--terrain-base"@,
        "--map-id-base"@ != "--probe-elevation"@,
        "--output-dir"@ != "--elevation-range"@,
        "--output-dir"@ != "--terrain-base"@,
        "--output-dir"@ != "--probe-elevation"@,
        "--elevation-range"@ != "--terrain-base"@,
        "--elevation-range"@ != "--probe-elevation"@,
        "--terrain-base"@ != "--probe-elevation"@,
        "chunk"@.len() == 5,
        forall|i: int| 0 <= i < 5 ==> #[trigger] "chunk"@[i] != '=',
        "--bbox"@.len() > 5,
        "--name"@.len() > 5,
        "--reference-bbox"@.len() > 5,
        "--map-id-base"@.len() > 5,
        "--output-dir"@.len() > 5,
        "--elevation-range"@.len() > 5,
        "--terrain-base"@.len() > 5,
        "--probe-elevation"@.len() > 5,
{
    reveal_strlit("chunk");
    reveal_strlit("--bbox");
    reveal_strlit("--reference-bbox");
    reveal_strlit("--map-id-base");
    reveal_strlit("--output-dir");
    reveal_strlit("--name");
    reveal_strlit("--elevation-range");
    reveal_strlit("--terrain-base");
    reveal_strlit("--probe-elevation");
    assert("--bbox"@.len() == 6 && "--name"@.len() == 6);
    assert("--reference-bbox"@.len() == 16 && "--map-id-base"@.len() == 13);
    assert("--output-dir"@.len() == 12 && "--terrain-base"@.len() == 14);
    assert("--elevation-range"@.len() == 17 && "--probe-elevation"@.len() == 17);
    assert("--bbox"@[2] == 'b' && "--name"@[2] == 'n');
    assert("--elevation-range"@[2] == 'e' && "--probe-elevation"@[2] == 'p');
}

/// The flag of a word that is made of a flag, an equals sign and a value.
proof fn lemma_joint_flag(flag: Seq<char>, start: Seq<char>, value: Seq<char>)
    requires
        is_withheld(flag),
        start == flag + "="@,
    ensures
        flag_of(start + value) == flag,
{
    lemma_no_equals_sign(flag);
    let joint = start + value;
    assert(start =~= joint.subrange(0, start.len() as int));
    lemma_names_flag(joint, flag);
}

/// What the words say that a chunk's command line goes on with.
proof fn lemma_own_words(
    bbox: Seq<char>,
    reference: Seq<char>,
    number: Seq<char>,
    range: Seq<char>,
    base: Seq<char>,
)
    ensures
        flag_of("--bbox="@ + bbox) == "--bbox"@,
        flag_of("--reference-bbox="@ + reference) == "--reference-bbox"@,
        flag_of("--map-id-base="@ + number) == "--map-id-base"@,
        flag_of("--elevation-range="@ + range) == "--elevation-range"@,
        flag_of("--terrain-base="@ + base) == "--terrain-base"@,
        flag_of("--output-dir"@) == "--output-dir"@,
        flag_of("--name"@) == "--name"@,
        flag_of("--probe-elevation"@) == "--probe-elevation"@,
        flag_of("chunk"@) == "chunk"@,
{
    reveal_strlit("=");
    reveal_strlit("--bbox");
    reveal_strlit("--bbox=");
    reveal_strlit("--reference-bbox");
    reveal_strlit("--reference-bbox=");
    reveal_strlit("--map-id-base");
    reveal_strlit("--map-id-base=");
    reveal_strlit("--elevation-range");
    reveal_strlit("--elevation-range=");
    reveal_strlit("--terrain-base");
    reveal_strlit("--terrain-base=");
    assert("--bbox="@ =~= "--bbox"@ + "="@);
    assert("--reference-bbox="@ =~= "--reference-bbox"@ + "="@);
    assert("--map-id-base="@ =~= "--map-id-base"@ + "="@);
    assert("--elevation-range="@ =~= "--elevation-range"@ + "="@);
    assert("--terrain-base="@ =~= "--terrain-base"@ + "="@);
    lemma_joint_flag("--bbox"@, "--bbox="@, bbox);
    lemma_joint_flag("--reference-bbox"@, "--reference-bbox="@, reference);
    lemma_joint_flag("--map-id-base"@, "--map-id-base="@, number);
    lemma_joint_flag("--elevation-range"@, "--elevation-range="@, range);
    lemma_joint_flag("--terrain-base"@, "--terrain-base="@, base);
    lemma_no_equals_sign("--output-dir"@);
    lemma_no_equals_sign("--name"@);
    lemma_no_equals_sign("--probe-elevation"@);
    lemma_names_flag("--output-dir"@, "--output-dir"@);
    lemma_names_flag("--name"@, "--name"@);
    lemma_names_flag("--probe-elevation"@, "--probe-elevation"@);
    lemma_flags_differ();
    lemma_names_flag("chunk"@, "chunk"@);
}

/// What a word says before its first equals sign.
spec fn tag(w: Word) -> Seq<char> {
    match w {
        Word::Text(t) => flag_of(t),
        Word::OutputDir => Seq::empty(),
    }
}

/// Whether a command line starts with the arguments that are passed on.
spec fn is_line_of(line: Seq<Word>, args: Seq<Seq<char>>) -> bool {
    &&& passed(args).len() <= line.len()
    &&& forall|i: int|
        0 <= i < passed(args).len() ==> #[trigger] line[i] == Word::Text(passed(args)[i])
}

/// A word names a flag if its tag is the flag.
proof fn lemma_tag(args: Seq<Seq<char>>, line: Seq<Word>, flag: Seq<char>, j: int)
    requires
        is_line_of(line, args),
        is_withheld(flag) || flag == "--probe-elevation"@,
        flag.len() > 5,
        0 <= j < line.len(),
        word_names(line[j], flag),
    ensures
        j >= passed(args).len(),
        tag(line[j]) == flag,
{
    lemma_no_equals_sign(flag);
    if let Word::Text(t) = line[j] {
        lemma_names_flag(t, flag);
    }
    if j < passed(args).len() {
        law_withheld_flags_never_occur(args, j);
        assert(line[j] == Word::Text(passed(args)[j]));
    }
}

proof fn lemma_once(
    args: Seq<Seq<char>>,
    line: Seq<Word>,
    flag: Seq<char>,
    k: int,
    text: Seq<char>,
)
    requires
        is_line_of(line, args),
        is_withheld(flag) || flag == "--probe-elevation"@,
        flag.len() > 5,
        passed(args).len() <= k < line.len(),
        line[k] == Word::Text(text),
        forall|j: int|
            passed(args).len() <= j < line.len() && j != k ==> tag(#[trigger] line[j]) != flag,
    ensures
        says_once(line, flag, text),
{
    assert forall|j: int| 0 <= j < line.len() && #[trigger] word_names(
        line[j],
        flag,
    ) implies j == k by {
        lemma_tag(args, line, flag, j);
    }
}

proof fn lemma_never(args: Seq<Seq<char>>, line: Seq<Word>, flag: Seq<char>)
    requires
        is_line_of(line, args),
        is_withheld(flag) || flag == "--probe-elevation"@,
        flag.len() > 5,
        forall|j: int| passed(args).len() <= j < line.len() ==> tag(#[trigger] line[j]) != flag,
    ensures
        says_never(line, flag),
{
    assert forall|j: int| 0 <= j < line.len() implies !#[trigger] word_names(line[j], flag) by {
        if word_names(line[j], flag) {
            lemma_tag(args, line, flag, j);
        }
    }
}

proof fn lemma_followed(
    args: Seq<Seq<char>>,
    line: Seq<Word>,
    flag: Seq<char>,
    k: int,
    value: Word,
)
    requires
        is_line_of(line, args),
        is_withheld(flag),
        flag.len() > 5,
        flag_of(flag) == flag,
        passed(args).len() <= k < line.len() - 1,
        line[k + 1] == value,
        forall|j: int|
            passed(args).len() <= j < line.len() && j != k ==> tag(#[trigger] line[j]) != flag,
    ensures
        is_followed(line, flag, value),
{
    assert forall|i: int| 0 <= i < line.len() && #[trigger] line[i] == Word::Text(flag) implies i
        + 1 < line.len() && line[i + 1] == value by {
        assert(word_names(line[i], flag));
        lemma_tag(args, line, flag, i);
    }
}

/// The words that a chunk's command line goes on with, and their tags.
proof fn lemma_chunk_line(
    args: Seq<Seq<char>>,
    bbox: Seq<char>,
    reference: Seq<char>,
    map_id_base: i32,
    range: Option<(Seq<char>, Seq<char>)>,
    base: Option<i32>,
)
    ensures
        ({
            let line = chunk_line(args, bbox, reference, map_id_base, range, base);
            let n = passed(args).len() as int;
            let k = if range is Some { 1int } else { 0 };
            &&& is_line_of(line, args)
            &&& line.len() == n + 7 + k + (if base is Some { 1int } else { 0 })
            &&& line[n] == Word::Text("--bbox="@ + bbox)
            &&& line[n + 1] == Word::Text("--reference-bbox="@ + reference)
            &&& line[n + 2] == Word::Text("--map-id-base="@ + text::numeral(map_id_base as int))
            &&& line[n + 3] == Word::Text("--output-dir"@)
            &&& line[n + 4] == Word::OutputDir
            &&& line[n + 5] == Word::Text("--name"@)
            &&& line[n + 6] == Word::Text("chunk"@)
            &&& tag(line[n]) == "--bbox"@
            &&& tag(line[n + 1]) == "--reference-bbox"@
            &&& tag(line[n + 2]) == "--map-id-base"@
            &&& tag(line[n + 3]) == "--output-dir"@
            &&& tag(line[n + 4]).len() == 0
            &&& tag(line[n + 5]) == "--name"@
            &&& tag(line[n + 6]).len() == 5
            &&& range matches Some((lo, hi)) ==> line[n + 7] == Word::Text(
                "--elevation-range="@ + lo + ","@ + hi,
            ) && tag(line[n + 7]) == "--elevation-range"@
            &&& base matches Some(b) ==> line[n + 7 + k] == Word::Text(
                "--terrain-base="@ + text::numeral(b as int),
            ) && tag(line[n + 7 + k]) == "--terrain-base"@
        }),
{
    let line = chunk_line(args, bbox, reference, map_id_base, range, base);
    let n = passed(args).len() as int;
    let number = text::numeral(map_id_base as int);
    let rest = match range {
        Some((lo, hi)) => lo + ","@ + hi,
        None => Seq::empty(),
    };
    let b = match base {
        Some(i) => text::numeral(i as int),
        None => Seq::empty(),
    };
    if let Some((lo, hi)) = range {
        assert("--elevation-range="@ + lo + ","@ + hi =~= "--elevation-range="@ + rest);
    }
    lemma_own_words(bbox, reference, number, rest, b);
    lemma_flags_differ();
    let words = chunk_words(passed(args), bbox, reference, map_id_base);
    assert(words.len() == n + 7);
    assert forall|i: int| 0 <= i < n implies #[trigger] line[i] == Word::Text(
        passed(args)[i],
    ) by {}
}

/// The command line that generates a chunk: the arguments that are passed on, and then
/// each flag of the chunk just once, with the chunk's area, the whole area, the id that
/// its maps are numbered from, the directory, and the name. The height range and the
/// terrain base are given if and only if there are any. It asks for no measurement.
pub proof fn law_chunk_line_gives_each_flag_once(
    args: Seq<Seq<char>>,
    bbox: Seq<char>,
    reference: Seq<char>,
    map_id_base: i32,
    range: Option<(Seq<char>, Seq<char>)>,
    base: Option<i32>,
)
    ensures
        ({
            let line = chunk_line(args, bbox, reference, map_id_base, range, base);
            let n = passed(args).len() as int;
            &&& line.len() == n + 7 + (if range is Some { 1int } else { 0 }) + (if base is Some {
                1int
            } else {
                0
            })
            &&& forall|i: int| 0 <= i < n ==> #[trigger] line[i] == Word::Text(passed(args)[i])
            &&& says_once(line, "--bbox"@, "--bbox="@ + bbox)
            &&& says_once(line, "--reference-bbox"@, "--reference-bbox="@ + reference)
            &&& says_once(
                line,
                "--map-id-base"@,
                "--map-id-base="@ + text::numeral(map_id_base as int),
            )
            &&& says_once(line, "--output-dir"@, "--output-dir"@)
            &&& is_followed(line, "--output-dir"@, Word::OutputDir)
            &&& says_once(line, "--name"@, "--name"@)
            &&& is_followed(line, "--name"@, Word::Text("chunk"@))
            &&& says_never(line, "--probe-elevation"@)
            &&& match range {
                Some((lo, hi)) => says_once(
                    line,
                    "--elevation-range"@,
                    "--elevation-range="@ + lo + ","@ + hi,
                ),
                None => says_never(line, "--elevation-range"@),
            }
            &&& match base {
                Some(b) => says_once(
                    line,
                    "--terrain-base"@,
                    "--terrain-base="@ + text::numeral(b as int),
                ),
                None => says_never(line, "--terrain-base"@),
            }
        }),
{
    let line = chunk_line(args, bbox, reference, map_id_base, range, base);
    let n = passed(args).len() as int;
    let k = if range is Some { 1int } else { 0 };
    lemma_chunk_line(args, bbox, reference, map_id_base, range, base);
    lemma_flags_differ();
    lemma_once(args, line, "--bbox"@, n, "--bbox="@ + bbox);
    lemma_once(args, line, "--reference-bbox"@, n + 1, "--reference-bbox="@ + reference);
    lemma_once(
        args,
        line,
        "--map-id-base"@,
        n + 2,
        "--map-id-base="@ + text::numeral(map_id_base as int),
    );
    lemma_once(args, line, "--output-dir"@, n + 3, "--output-dir"@);
    lemma_followed(args, line, "--output-dir"@, n + 3, Word::OutputDir);
    lemma_once(args, line, "--name"@, n + 5, "--name"@);
    lemma_followed(args, line, "--name"@, n + 5, Word::Text("chunk"@));
    lemma_never(args, line, "--probe-elevation"@);
    match range {
        Some((lo, hi)) => lemma_once(
            args,
            line,
            "--elevation-range"@,
            n + 7,
            "--elevation-range="@ + lo + ","@ + hi,
        ),
        None => lemma_never(args, line, "--elevation-range"@),
    }
    match base {
        Some(b) => lemma_once(
            args,
            line,
            "--terrain-base"@,
            n + 7 + k,
            "--terrain-base="@ + text::numeral(b as int),
        ),
        None => lemma_never(args, line, "--terrain-base"@),
    }
}

/// The command line that measures a chunk's terrain: the arguments that are passed on,
/// the chunk's area, the whole area, the demand to measure, and the directory, each just
/// once, and nothing else.
pub proof fn law_probe_line_gives_each_flag_once(
    args: Seq<Seq<char>>,
    bbox: Seq<char>,
    reference: Seq<char>,
)
    ensures
        ({
            let line = probe_words(passed(args), bbox, reference);
            let n = passed(args).len() as int;
            &&& line.len() == n + 5
            &&& forall|i: int| 0 <= i < n ==> #[trigger] line[i] == Word::Text(passed(args)[i])
            &&& says_once(line, "--bbox"@, "--bbox="@ + bbox)
            &&& says_once(line, "--reference-bbox"@, "--reference-bbox="@ + reference)
            &&& says_once(line, "--probe-elevation"@, "--probe-elevation"@)
            &&& says_once(line, "--output-dir"@, "--output-dir"@)
            &&& is_followed(line, "--output-dir"@, Word::OutputDir)
        }),
{
    let line = probe_words(passed(args), bbox, reference);
    let n = passed(args).len() as int;
    let none = Seq::<char>::empty();
    lemma_own_words(bbox, reference, none, none, none);
    lemma_flags_differ();
    assert(line[n] == Word::Text("--bbox="@ + bbox));
    assert(line[n + 1] == Word::Text("--reference-bbox="@ + reference));
    assert(line[n + 2] == Word::Text("--probe-elevation"@));
    assert(line[n + 3] == Word::Text("--output-dir"@));
    assert(line[n + 4] == Word::OutputDir);
    assert forall|i: int| 0 <= i < n implies #[trigger] line[i] == Word::Text(
        passed(args)[i],
    ) by {}
    lemma_once(args, line, "--bbox"@, n, "--bbox="@ + bbox);
    lemma_once(args, line, "--reference-bbox"@, n + 1, "--reference-bbox="@ + reference);
    lemma_once(args, line, "--probe-elevation"@, n + 2, "--probe-elevation"@);
    lemma_once(args, line, "--output-dir"@, n + 3, "--output-dir"@);
    lemma_followed(args, line, "--output-dir"@, n + 3, Word::OutputDir);
}

/// What is passed on of arguments that start with one more: a flag that a chunk is given
/// its own is dropped, with its value where it takes one, whether the value is the next
/// argument or stands behind an equals sign. Any other argument is passed on in its place.
/// Nothing that is passed on names a flag that is dropped.
pub proof fn law_arguments_are_passed_on(
    rest: Vec<String>,
    of_rest: Vec<String>,
    args: Vec<String>,
    of_args: Vec<String>,
    arg: Seq<char>,
    value: Seq<char>,
    i: int,
)
    requires
        call_ensures(passthrough_args, (&rest,), of_rest),
        call_ensures(passthrough_args, (&args,), of_args),
    ensures
        rest@.len() == 0 ==> of_rest@.len() == 0,
        is_withheld(arg) && texts(args@) == seq![arg, value] + texts(rest@) ==> texts(of_args@)
            == texts(of_rest@),
        is_withheld(arg) && texts(args@) == seq![arg + "="@ + value] + texts(rest@) ==> texts(
            of_args@,
        ) == texts(of_rest@),
        is_withheld(arg) && texts(args@) == seq![arg] ==> of_args@.len() == 0,
        texts(args@) == seq!["--probe-elevation"@] + texts(rest@) ==> texts(of_args@) == texts(
            of_rest@,
        ),
        !is_withheld_argument(arg) && texts(args@) == seq![arg] + texts(rest@) ==> texts(of_args@)
            == seq![arg] + texts(of_rest@),
        0 <= i < of_args@.len() ==> !is_withheld_argument(of_args@[i]@),
{
    if is_withheld(arg) {
        law_withheld_flags_are_dropped(arg, value, texts(rest@));
    }
    if is_withheld(arg) && texts(args@) == seq![arg] {
        assert(texts(of_args@).len() == 0);
    }
    law_probe_flag_is_dropped(value, texts(rest@));
    if !is_withheld_argument(arg) {
        law_other_arguments_keep_their_place(arg, texts(rest@));
    }
    if 0 <= i < of_args@.len() {
        assert(texts(of_args@)[i] == of_args@[i]@);
        law_withheld_flags_never_occur(texts(args@), i);
    }
    if rest@.len() == 0 {
        assert(texts(rest@).len() == 0);
        assert(texts(of_rest@).len() == 0);
    }
}

/// A chunk is run with what is passed on of the arguments, and with each flag of its own
/// just once: its area, the whole area, the id that its maps are numbered from, the
/// directory and the name, and the height range and the terrain base if and only if there
/// are any. So no flag occurs twice.
pub proof fn law_chunks_are_run_with_their_own_flags(
    args: Vec<String>,
    passthrough: Vec<String>,
    bbox: &str,
    reference: &str,
    map_id_base: i32,
    range: Option<(String, String)>,
    base: Option<i32>,
    line: Vec<Argument>,
)
    requires
        call_ensures(passthrough_args, (&args,), passthrough),
        call_ensures(
            chunk_arguments,
            (&passthrough, bbox, reference, map_id_base, &range, base),
            line,
        ),
    ensures
        ({
            let w = words(line@);
            let n = passthrough@.len() as int;
            &&& w.len() == n + 7 + (if range is Some { 1int } else { 0 }) + (if base is Some {
                1int
            } else {
                0
            })
            &&& forall|i: int| 0 <= i < n ==> #[trigger] w[i] == Word::Text(passthrough@[i]@)
            &&& says_once(w, "--bbox"@, "--bbox="@ + bbox@)
            &&& says_once(w, "--reference-bbox"@, "--reference-bbox="@ + reference@)
            &&& says_once(
                w,
                "--map-id-base"@,
                "--map-id-base="@ + text::numeral(map_id_base as int),
            )
            &&& says_once(w, "--output-dir"@, "--output-dir"@)
            &&& is_followed(w, "--output-dir"@, Word::OutputDir)
            &&& says_once(w, "--name"@, "--name"@)
            &&& is_followed(w, "--name"@, Word::Text("chunk"@))
            &&& says_never(w, "--probe-elevation"@)
            &&& match range {
                Some((lo, hi)) => says_once(
                    w,
                    "--elevation-range"@,
                    "--elevation-range="@ + lo@ + ","@ + hi@,
                ),
                None => says_never(w, "--elevation-range"@),
            }
            &&& match base {
                Some(b) => says_once(
                    w,
                    "--terrain-base"@,
                    "--terrain-base="@ + text::numeral(b as int),
                ),
                None => says_never(w, "--terrain-base"@),
            }
        }),
{
    let t = texts(args@);
    law_chunk_line_gives_each_flag_once(
        t,
        bbox@,
        reference@,
        map_id_base,
        range_view(&range),
        base,
    );
    let w = words(line@);
    assert(texts(passthrough@).len() == passthrough@.len());
    assert forall|i: int| 0 <= i < passthrough@.len() implies #[trigger] w[i] == Word::Text(
        passthrough@[i]@,
    ) by {
        assert(texts(passthrough@)[i] == passthrough@[i]@);
        assert(w[i] == Word::Text(passed(t)[i]));
    }
}

/// A chunk is measured with what is passed on of the arguments, its area, the whole area,
/// the demand to measure and the directory, each just once, and nothing else.
pub proof fn law_chunks_are_measured_with_their_own_flags(
    args: Vec<String>,
    passthrough: Vec<String>,
    bbox: &str,
    reference: &str,
    line: Vec<Argument>,
)
    requires
        call_ensures(passthrough_args, (&args,), passthrough),
        call_ensures(probe_arguments, (&passthrough, bbox, reference), line),
    ensures
        ({
            let w = words(line@);
            let n = passthrough@.len() as int;
            &&& w.len() == n + 5
            &&& forall|i: int| 0 <= i < n ==> #[trigger] w[i] == Word::Text(passthrough@[i]@)
            &&& says_once(w, "--bbox"@, "--bbox="@ + bbox@)
            &&& says_once(w, "--reference-bbox"@, "--reference-bbox="@ + reference@)
            &&& says_once(w, "--probe-elevation"@, "--probe-elevation"@)
            &&& says_once(w, "--output-dir"@, "--output-dir"@)
            &&& is_followed(w, "--output-dir"@, Word::OutputDir)
        }),
{
    let t = texts(args@);
    law_probe_line_gives_each_flag_once(t, bbox@, reference@);
    let w = words(line@);
    assert(texts(passthrough@).len() == passthrough@.len());
    assert forall|i: int| 0 <= i < passthrough@.len() implies #[trigger] w[i] == Word::Text(
        passthrough@[i]@,
    ) by {
        assert(texts(passthrough@)[i] == passthrough@[i]@);
        assert(w[i] == Word::Text(passed(t)[i]));
    }
}

/// An area that is written on the command line is read as the box with the same edges, if
/// they are those of a box.
pub proof fn law_areas_on_the_command_line(
    edges: EdgeTexts,
    arg: String,
    s: &str,
    r: Result<LLBBox, BBoxError>,
)
    requires
        call_ensures(bbox_arg, (&edges,), arg),
        s@ == arg@,
        call_ensures(LLBBox::from_str, (s,), r),
        decimal::parsed(edges.min_lat@) is Some,
        decimal::parsed(edges.min_lng@) is Some,
        decimal::parsed(edges.max_lat@) is Some,
        decimal::parsed(edges.max_lng@) is Some,
    ensures
        ({
            let b = Edges {
                min_lat: decimal::parsed(edges.min_lat@)->0,
                min_lng: decimal::parsed(edges.min_lng@)->0,
                max_lat: decimal::parsed(edges.max_lat@)->0,
                max_lng: decimal::parsed(edges.max_lng@)->0,
            };
            &&& r is Ok <==> llbbox::are_edges(b.min_lat, b.min_lng, b.max_lat, b.max_lng)
            &&& r matches Ok(bbox) ==> bbox@ == b
        }),
{
    let texts = seq![edges.min_lat@, edges.min_lng@, edges.max_lat@, edges.max_lng@];
    let none = Seq::<char>::empty();
    let comma = seq![','];
    let gaps = seq![none, comma, comma, comma, none];
    decimal::lemma_number_is_field(edges.min_lat@);
    decimal::lemma_number_is_field(edges.min_lng@);
    decimal::lemma_number_is_field(edges.max_lat@);
    decimal::lemma_number_is_field(edges.max_lng@);
    reveal_strlit(",");
    assert(","@ =~= comma);
    assert(s@ =~= text::woven(gaps, texts)) by {
        let (g1, t1) = (gaps.skip(1), texts.skip(1));
        let (g2, t2) = (g1.skip(1), t1.skip(1));
        let (g3, t3) = (g2.skip(1), t2.skip(1));
        let (g4, t4) = (g3.skip(1), t3.skip(1));
        assert(text::woven(g4, t4) =~= none);
        assert(text::woven(g3, t3) =~= comma + edges.max_lng@);
        assert(text::woven(g2, t2) =~= comma + edges.max_lat@ + text::woven(g3, t3));
        assert(text::woven(g1, t1) =~= comma + edges.min_lng@ + text::woven(g2, t2));
        assert(text::woven(gaps, texts) =~= edges.min_lat@ + text::woven(g1, t1));
    }
    llbbox::law_texts_of_boxes(s, r, gaps, texts);
}

/// The flags of the driver differ from those of a chunk.
proof fn lemma_drivers_flags()
    ensures
        "--path"@.len() == 6 && "--chunk-regions"@.len() == 15 && "--chunk-margin-regions"@.len()
            == 22,
        "--path"@ != "--bbox"@ && "--path"@ != "--name"@,
        "--bbox"@.len() == 6 && "--name"@.len() == 6,
        "--reference-bbox"@.len() == 16 && "--map-id-base"@.len() == 13,
        "--output-dir"@.len() == 12 && "--terrain-base"@.len() == 14,
        "--elevation-range"@.len() == 17,
        "chunk"@.len() == 5,
{
    reveal_strlit("--path");
    reveal_strlit("--chunk-regions");
    reveal_strlit("--chunk-margin-regions");
    reveal_strlit("--bbox");
    reveal_strlit("--name");
    reveal_strlit("--reference-bbox");
    reveal_strlit("--map-id-base");
    reveal_strlit("--output-dir");
    reveal_strlit("--terrain-base");
    reveal_strlit("--elevation-range");
    reveal_strlit("chunk");
    assert("--path"@[2] == 'p' && "--bbox"@[2] == 'b' && "--name"@[2] == 'n');
}

/// A chunk is never run with a flag of the driver: no path, and no size of chunks or of their
/// margin.
#[verifier::spinoff_prover]
pub proof fn law_chunks_are_run_without_the_drivers_flags(
    args: Vec<String>,
    passthrough: Vec<String>,
    bbox: &str,
    reference: &str,
    map_id_base: i32,
    range: Option<(String, String)>,
    base: Option<i32>,
    line: Vec<Argument>,
)
    requires
        call_ensures(passthrough_args, (&args,), passthrough),
        call_ensures(
            chunk_arguments,
            (&passthrough, bbox, reference, map_id_base, &range, base),
            line,
        ),
    ensures
        says_never(words(line@), "--path"@),
        says_never(words(line@), "--chunk-regions"@),
        says_never(words(line@), "--chunk-margin-regions"@),
{
    let t = texts(args@);
    let w = words(line@);
    lemma_chunk_line(t, bbox@, reference@, map_id_base, range_view(&range), base);
    lemma_drivers_flags();
    lemma_never(t, w, "--path"@);
    lemma_never(t, w, "--chunk-regions"@);
    lemma_never(t, w, "--chunk-margin-regions"@);
}

} // verus!
