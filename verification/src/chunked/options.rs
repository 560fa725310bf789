//! What chunked generation asks of its options.

use vstd::prelude::*;
use vstd::string::*;
use crate::binary64::F64;
use crate::binary64::cast;
use crate::coordinate_system::geographic::llbbox::LLBBox;

verus! {

/// The options of a run, as far as chunked generation looks at them.
pub struct Options {
    pub bbox: Option<LLBBox>,
    pub bedrock: bool,
    pub luanti: bool,
    pub rotation: F64,
    pub reference_bbox: Option<LLBBox>,
    pub spawn_lat: Option<F64>,
    pub spawn_lng: Option<F64>,
    /// Whether what is fetched is to be saved to a file.
    pub saves_json: bool,
    /// Whether a directory to write to is given.
    pub has_output_dir: bool,
    pub chunk_regions: Option<u32>,
    pub chunk_margin_regions: u32,
    pub name: Option<String>,
}

/// What is to be generated.
pub struct Request {
    pub bbox: LLBBox,
    /// The regions along a side of a chunk, at least one.
    pub chunk_regions: u32,
    pub margin_regions: u32,
    /// The name that the world is to have.
    pub name: String,
}

/// Why there is no chunked generation.
#[derive(Clone, Copy, Debug, PartialEq, Eq, Structural)]
pub enum Refusal {
    NoBbox,
    NotJava,
    Rotation,
    ReferenceBbox,
    Spawn,
    SaveJson,
    NoOutputDir,
}

impl Options {
    /// The first thing that is wrong with the options.
    pub open spec fn refusal(self) -> Option<Refusal> {
        if self.bbox is None {
            Some(Refusal::NoBbox)
        } else if self.bedrock || self.luanti {
            Some(Refusal::NotJava)
        } else if !self.rotation.same_number(cast::of_integer(0)) {
            Some(Refusal::Rotation)
        } else if self.reference_bbox is Some {
            Some(Refusal::ReferenceBbox)
        } else if self.spawn_lat is Some || self.spawn_lng is Some {
            Some(Refusal::Spawn)
        } else if self.saves_json {
            Some(Refusal::SaveJson)
        } else if !self.has_output_dir {
            Some(Refusal::NoOutputDir)
        } else {
            None
        }
    }

    /// The side of a chunk: as given, but not zero, and one where none is given.
    pub open spec fn side(self) -> u32 {
        match self.chunk_regions {
            Some(n) => if n < 1 { 1 } else { n },
            None => 1,
        }
    }

    /// The name of the world: as given, or the usual one.
    pub open spec fn world_name(self) -> Seq<char> {
        match self.name {
            Some(s) => s@,
            None => "Arnis World"@,
        }
    }

    /// What the options ask for, unless something is wrong with them.
    pub fn check(&self) -> (r: Result<Request, Refusal>)
        ensures
            match r {
                Ok(request) => self.refusal() is None && Some(request.bbox) == self.bbox
                    && request.chunk_regions == self.side() && request.margin_regions
                    == self.chunk_margin_regions && request.name@ == self.world_name(),
                Err(e) => self.refusal() == Some(e),
            },
    {
        let bbox: LLBBox = match self.bbox {
            None => return Err(Refusal::NoBbox),
            Some(bbox) => bbox,
        };
        if self.bedrock || self.luanti {
            return Err(Refusal::NotJava);
        }
        if self.rotation != F64::from_i32(0) {
            return Err(Refusal::Rotation);
        }
        if self.reference_bbox.is_some() {
            return Err(Refusal::ReferenceBbox);
        }
        if self.spawn_lat.is_some() || self.spawn_lng.is_some() {
            return Err(Refusal::Spawn);
        }
        if self.saves_json {
            return Err(Refusal::SaveJson);
        }
        if !self.has_output_dir {
            return Err(Refusal::NoOutputDir);
        }
        let chunk_regions: u32 = match self.chunk_regions {
            Some(n) => if n < 1 { 1 } else { n },
            None => 1,
        };
        let name: String = match &self.name {
            Some(s) => s.clone(),
            None => "Arnis World".to_owned(),
        };
        Ok(Request { bbox, chunk_regions, margin_regions: self.chunk_margin_regions, name })
    }
}

impl Refusal {
    /// What is said of the refusal.
    pub open spec fn words(self) -> Seq<char> {
        match self {
            Refusal::NoBbox => "--chunk-regions needs --bbox."@,
            Refusal::NotJava => "--chunk-regions only supports Java worlds."@,
            Refusal::Rotation => "--chunk-regions cannot be combined with --rotation."@,
            Refusal::ReferenceBbox => "--chunk-regions sets --reference-bbox itself; drop it."@,
            Refusal::Spawn =>
                "--chunk-regions does not support --spawn-lat/--spawn-lng yet."@,
            Refusal::SaveJson =>
                "--chunk-regions cannot write --save-json-file; each chunk fetches its own area."@,
            Refusal::NoOutputDir => "--chunk-regions needs --output-dir."@,
        }
    }

    /// What to tell the user.
    pub fn message(self) -> (r: &'static str)
        ensures
            r@ == self.words(),
    {
        match self {
            Refusal::NoBbox => "--chunk-regions needs --bbox.",
            Refusal::NotJava => "--chunk-regions only supports Java worlds.",
            Refusal::Rotation => "--chunk-regions cannot be combined with --rotation.",
            Refusal::ReferenceBbox => "--chunk-regions sets --reference-bbox itself; drop it.",
            Refusal::Spawn => "--chunk-regions does not support --spawn-lat/--spawn-lng yet.",
            Refusal::SaveJson =>
                "--chunk-regions cannot write --save-json-file; each chunk fetches its own area.",
            Refusal::NoOutputDir => "--chunk-regions needs --output-dir.",
        }
    }
}

/// Whether a rotation is none: a zero of either sign.
pub open spec fn is_no_rotation(a: F64) -> bool {
    !a.nan() && a.units() == 0
}

/// Chunks are generated for a box of a Java world that is not rotated, has no reference
/// box and no spawn point, saves nothing and has a directory to go to, and for nothing
/// else. What is generated is the given box with the given margin and the given name. A
/// chunk has as many regions along its side as are asked for, and one where none or zero
/// are.
pub proof fn law_requests(options: Options, r: Result<Request, Refusal>)
    requires
        call_ensures(Options::check, (&options,), r),
    ensures
        r is Ok <==> (options.bbox is Some && !options.bedrock && !options.luanti && is_no_rotation(
            options.rotation,
        ) && options.reference_bbox is None && options.spawn_lat is None && options.spawn_lng
            is None && !options.saves_json && options.has_output_dir),
        r matches Ok(request) ==> {
            &&& options.bbox == Some(request.bbox)
            &&& request.margin_regions == options.chunk_margin_regions
            &&& request.chunk_regions >= 1
            &&& options.chunk_regions == Some(request.chunk_regions) || (request.chunk_regions == 1
                && (options.chunk_regions is None || options.chunk_regions == Some(0u32)))
            &&& options.name matches Some(name) ==> request.name@ == name@
            &&& options.name is None ==> request.name@ == "Arnis World"@
        },
{
    vstd::arithmetic::power2::lemma2_to64_rest();
    crate::binary64::error::lemma_integer_value(0);
    assert(0 * cast::one() == 0);
}

/// A refusal names the first thing that is wrong, in this order: no box, a world that is
/// not of Java, a rotation, a reference box, a spawn point, a file to save, no directory.
pub proof fn law_refusals(options: Options, e: Refusal)
    requires
        call_ensures(Options::check, (&options,), Err(e)),
    ensures
        e == Refusal::NoBbox <==> options.bbox is None,
        options.bbox is Some ==> (e == Refusal::NotJava <==> options.bedrock || options.luanti),
        e == Refusal::Rotation ==> !is_no_rotation(options.rotation),
        e == Refusal::ReferenceBbox ==> options.reference_bbox is Some && is_no_rotation(
            options.rotation,
        ),
        e == Refusal::Spawn ==> (options.spawn_lat is Some || options.spawn_lng is Some)
            && is_no_rotation(options.rotation) && options.reference_bbox is None,
        e == Refusal::SaveJson ==> options.saves_json && is_no_rotation(options.rotation)
            && options.reference_bbox is None && options.spawn_lat is None && options.spawn_lng
            is None,
        e == Refusal::NoOutputDir ==> !options.has_output_dir && is_no_rotation(options.rotation)
            && options.reference_bbox is None && options.spawn_lat is None && options.spawn_lng
            is None && !options.saves_json,
        e != Refusal::NoBbox && e != Refusal::NotJava ==> !options.bedrock && !options.luanti,
{
    vstd::arithmetic::power2::lemma2_to64_rest();
    crate::binary64::error::lemma_integer_value(0);
    assert(0 * cast::one() == 0);
}

/// What is told of a refusal names the option that is at fault.
pub proof fn law_messages(e: Refusal, r: &'static str)
    requires
        call_ensures(Refusal::message, (e,), r),
    ensures
        e == Refusal::NoBbox ==> r@ == "--chunk-regions needs --bbox."@,
        e == Refusal::NotJava ==> r@ == "--chunk-regions only supports Java worlds."@,
        e == Refusal::Rotation ==> r@ == "--chunk-regions cannot be combined with --rotation."@,
        e == Refusal::ReferenceBbox ==> r@
            == "--chunk-regions sets --reference-bbox itself; drop it."@,
        e == Refusal::Spawn ==> r@
            == "--chunk-regions does not support --spawn-lat/--spawn-lng yet."@,
        e == Refusal::SaveJson ==> r@
            == "--chunk-regions cannot write --save-json-file; each chunk fetches its own area."@,
        e == Refusal::NoOutputDir ==> r@ == "--chunk-regions needs --output-dir."@,
{
}

} // verus!
