//! What an invocation asks for: its flags, the decisions they lead to, and
//! where the output goes.

use crate::hf_url;
use crate::hf_url::{copy_optional, is_hf_url, is_repo_level, HubError};
use crate::layout::select::LayoutMode;
use crate::order;
use crate::registry::{DestKind, DiffPair, RenderHints};
use crate::text;
use crate::text::{decimal_string, trim};
use vstd::prelude::*;
use vstd::string::StringExecFns;

verus! {

/// Concurrency cap when resolving `hf://` inputs at startup.
pub const RESOLVE_CONCURRENCY: usize = 16;

/// How a tile is encoded.
#[derive(Clone, Copy, Debug, PartialEq, Eq, Structural)]
pub enum TileFormat {
    Png,
    Avif { quality: u8, speed: u8 },
}

/// The user's choice of tile format. AVIF is the default; PNG is the universal
/// fallback.
#[derive(Clone, Copy, Debug, PartialEq, Eq, Structural)]
pub enum TileFormatArg {
    Avif,
    Png,
}

impl Default for TileFormatArg {
    fn default() -> (f: TileFormatArg)
        ensures
            f == TileFormatArg::Avif,
    {
        TileFormatArg::Avif
    }
}

impl TileFormatArg {
    /// The formats of leaf and pyramid tiles. Leaf tiles are near-lossless,
    /// since each pixel is one source byte; pyramid tiles are lossy.
    pub fn split(self) -> (r: (TileFormat, TileFormat))
        ensures
            r == (match self {
                TileFormatArg::Avif => (
                    TileFormat::Avif { quality: 100, speed: 8 },
                    TileFormat::Avif { quality: 85, speed: 8 },
                ),
                TileFormatArg::Png => (TileFormat::Png, TileFormat::Png),
            }),
    {
        match self {
            TileFormatArg::Avif => (
                TileFormat::Avif { quality: 100, speed: 8 },
                TileFormat::Avif { quality: 85, speed: 8 },
            ),
            TileFormatArg::Png => (TileFormat::Png, TileFormat::Png),
        }
    }
}

/// The flags of an invocation.
#[derive(Debug)]
pub struct Args {
    /// Files to visualize; stdin where there are none.
    pub files: Vec<String>,
    /// A file that lists further files, one per line; `-` for stdin.
    pub file_list: Option<String>,
    /// Where the viewer bundle goes: a local directory or an `hf://` URL.
    pub out: Option<String>,
    /// Render a cube instead of a square.
    pub three_d: bool,
    /// Side of the voxel grid.
    pub grid: u32,
    /// The two sides of a diff.
    pub diff: Option<DiffPair>,
    /// The Space to deploy to.
    pub space: Option<String>,
    /// A bundle whose page is to be regenerated.
    pub regen_html: Option<String>,
    /// Title shown by the viewer.
    pub title: Option<String>,
    /// Color regions by xorb.
    pub show_xet_xorbs: bool,
    pub tile_format: TileFormatArg,
    /// Keep remote inputs remote and push output as it is produced.
    pub stream: bool,
}

/// Why an invocation is refused.
#[derive(Debug, Clone, Copy, PartialEq, Eq, Structural)]
pub enum CliError {
    /// Neither an output nor a Space is named.
    NoOutput,
    /// A Hub repo and a Space are both named.
    OutputAlternatives,
    /// Coloring by xorb does not go with a diff.
    XorbsWithDiff,
    /// The grid is no power of two, too small or too large.
    BadGrid { side: u32 },
    /// A cube has nowhere to be staged.
    NoVolumeDir,
    /// Tiles have nowhere to be staged.
    NoTilesDir,
}

/// The message for an error.
pub open spec fn cli_message(e: CliError) -> Seq<char> {
    match e {
        CliError::NoOutput => "no output specified: pass --out <DIR> to write the viewer bundle (a local dir or an hf:// URL), or --space <NAMESPACE/REPO> to render and deploy a Hugging Face Space."@,
        CliError::OutputAlternatives => "--out hf://… and --space are alternatives, not stackable: --space deploys via its own bucket; --out hf:// uploads to a separate repo. Pass one, or combine --space with --out <local_dir> to (re-)deploy an already-rendered bundle."@,
        CliError::XorbsWithDiff => "--show-xet-xorbs is incompatible with --diff"@,
        CliError::BadGrid { side } => "--grid must be a power of two between 2 and 512, got "@
            + text::decimal(side as nat),
        CliError::NoVolumeDir => "internal: 3D render without a local staging dir (OutputDest::from_args should have allocated one)"@,
        CliError::NoTilesDir => "internal: disk-backed tile render without a local path (OutputDest::from_args should have allocated one)"@,
    }
}

impl CliError {
    /// The message for the error.
    pub fn message(self) -> (s: String)
        ensures
            s@ == cli_message(self),
    {
        match self {
            CliError::NoOutput => "no output specified: pass --out <DIR> to write the viewer bundle (a local dir or an hf:// URL), or --space <NAMESPACE/REPO> to render and deploy a Hugging Face Space.".to_owned(),
            CliError::OutputAlternatives => "--out hf://… and --space are alternatives, not stackable: --space deploys via its own bucket; --out hf:// uploads to a separate repo. Pass one, or combine --space with --out <local_dir> to (re-)deploy an already-rendered bundle.".to_owned(),
            CliError::XorbsWithDiff => "--show-xet-xorbs is incompatible with --diff".to_owned(),
            CliError::BadGrid {
                side,
            } => "--grid must be a power of two between 2 and 512, got ".to_owned().concat(
                decimal_string(side as u64).as_str(),
            ),
            CliError::NoVolumeDir => "internal: 3D render without a local staging dir (OutputDest::from_args should have allocated one)".to_owned(),
            CliError::NoTilesDir => "internal: disk-backed tile render without a local path (OutputDest::from_args should have allocated one)".to_owned(),
        }
    }
}

/// The grid sides there are: the powers of two from 2 to 512.
pub open spec fn is_grid_side(side: u32) -> bool {
    exists|k: nat| 1 <= k <= 9 && side == #[trigger] vstd::arithmetic::power2::pow2(k)
}

/// Checks the side of a voxel grid: a power of two from 2 to 512.
pub fn validate_grid(side: u32) -> (r: Result<(), CliError>)
    ensures
        match r {
            Ok(_) => is_grid_side(side),
            Err(e) => !is_grid_side(side) && e == (CliError::BadGrid { side }),
        },
{
    let mut p: u32 = 2;
    let mut k: u32 = 1;
    proof {
        vstd::arithmetic::power2::lemma2_to64();
    }
    while k <= 9
        invariant
            1 <= k <= 10,
            p == vstd::arithmetic::power2::pow2(k as nat),
            p <= 1024,
            k <= 9 ==> p <= 512,
            forall|j: nat| 1 <= j < k ==> side != #[trigger] vstd::arithmetic::power2::pow2(j),
        decreases 10 - k,
    {
        if side == p {
            return Ok(());
        }
        proof {
            vstd::arithmetic::power2::lemma_pow2_unfold((k + 1) as nat);
            vstd::arithmetic::power2::lemma2_to64();
        }
        p = 2 * p;
        k = k + 1;
    }
    Err(CliError::BadGrid { side })
}

/// The title a viewer shows: the user's, else the brand name with the suffix of
/// the mode, if it has one.
pub open spec fn title_for(
    user: Option<Seq<char>>,
    name: Seq<char>,
    suffix: Seq<char>,
) -> Seq<char> {
    match user {
        Some(t) => t,
        None => if suffix.len() == 0 {
            name
        } else {
            name + " "@ + suffix
        },
    }
}

/// Picks the viewer title.
pub fn default_title(user: Option<String>, name: &str, suffix: &str) -> (s: String)
    ensures
        s@ == title_for(hf_url::optional_text(user), name@, suffix@),
{
    match user {
        Some(t) => t,
        None => if suffix.unicode_len() == 0 {
            name.to_owned()
        } else {
            name.to_owned().concat(" ").concat(suffix)
        },
    }
}

/// The paths that the lines of a file list name: each line without the white
/// space at its ends, blank lines left out.
pub open spec fn listed_paths(lines: Seq<Seq<char>>) -> Seq<Seq<char>>
    decreases lines.len(),
{
    if lines.len() == 0 {
        seq![]
    } else {
        let t = text::trimmed(lines.last());
        if t.len() == 0 {
            listed_paths(lines.drop_last())
        } else {
            listed_paths(lines.drop_last()).push(t)
        }
    }
}

/// The positional inputs followed by those of the file list.
pub fn collect_input_files(files: Vec<String>, lines: &Vec<String>) -> (r: Vec<String>)
    ensures
        order::texts(r@) == order::texts(files@) + listed_paths(order::texts(lines@)),
{
    let mut out = files;
    let ghost ts = order::texts(lines@);
    let mut i: usize = 0;
    assert(ts.take(0) =~= seq![]);
    assert(order::texts(out@) =~= order::texts(files@) + listed_paths(ts.take(0)));
    while i < lines.len()
        invariant
            i <= lines@.len(),
            ts == order::texts(lines@),
            order::texts(out@) == order::texts(files@) + listed_paths(ts.take(i as int)),
        decreases lines@.len() - i,
    {
        let t = trim(lines[i].as_str());
        assert(ts.take(i + 1).drop_last() =~= ts.take(i as int));
        assert(ts.take(i + 1).last() == lines@[i as int]@);
        if t.as_str().unicode_len() > 0 {
            let ghost was = order::texts(out@);
            out.push(t);
            assert(order::texts(out@) =~= was.push(t@));
        }
        i = i + 1;
        assert(order::texts(out@) =~= order::texts(files@) + listed_paths(ts.take(i as int)));
    }
    assert(ts.take(i as int) =~= ts);
    out
}

/// Where a bundle is rendered to.
#[derive(Debug)]
pub enum Place {
    /// A directory that the user named.
    UserDir { dir: String },
    /// A temporary directory, kept until the upload has read it.
    Staging,
    /// Nowhere on disk: tiles are pushed as they are produced.
    Nowhere,
}

/// Where a bundle is rendered to.
pub ghost enum PlaceSpec {
    UserDir { dir: Seq<char> },
    Staging,
    Nowhere,
}

impl View for Place {
    type V = PlaceSpec;

    open spec fn view(&self) -> PlaceSpec {
        match *self {
            Place::UserDir { dir } => PlaceSpec::UserDir { dir: dir@ },
            Place::Staging => PlaceSpec::Staging,
            Place::Nowhere => PlaceSpec::Nowhere,
        }
    }
}

/// Where the output goes.
#[derive(Debug)]
pub enum OutputDest {
    /// A web-viewer bundle: a 2D tile pyramid, or a volume.
    Bundle { place: Place, upload_hf: Option<String>, space: Option<String> },
}

/// Where the output goes.
pub ghost struct Dest {
    pub place: PlaceSpec,
    pub upload_hf: Option<Seq<char>>,
    pub space: Option<Seq<char>>,
}

impl View for OutputDest {
    type V = Dest;

    open spec fn view(&self) -> Dest {
        match *self {
            OutputDest::Bundle { place, upload_hf, space } => Dest {
                place: place@,
                upload_hf: hf_url::optional_text(upload_hf),
                space: hf_url::optional_text(space),
            },
        }
    }
}

/// Whether a text is an `hf://` URL.
pub open spec fn is_hub(s: Seq<char>) -> bool {
    text::begins(s, "hf://"@)
}

/// The place for output that goes to the Hub: staged, unless a square is
/// streamed.
pub open spec fn hub_place(stream: bool, three_d: bool) -> PlaceSpec {
    if !stream || three_d {
        PlaceSpec::Staging
    } else {
        PlaceSpec::Nowhere
    }
}

/// Where the output of an invocation goes. A Hub repo and a Space exclude each
/// other; a local directory is always written to, and output for the Hub is
/// staged unless a square is streamed.
pub open spec fn dest_of(
    out: Option<Seq<char>>,
    space: Option<Seq<char>>,
    stream: bool,
    three_d: bool,
) -> Result<Dest, CliError> {
    match out {
        None => if space is None {
            Err(CliError::NoOutput)
        } else {
            Ok(Dest { place: hub_place(stream, three_d), upload_hf: None, space })
        },
        Some(p) => if !is_hub(p) {
            Ok(Dest { place: PlaceSpec::UserDir { dir: p }, upload_hf: None, space })
        } else if space is Some {
            Err(CliError::OutputAlternatives)
        } else {
            Ok(Dest { place: hub_place(stream, three_d), upload_hf: Some(p), space })
        },
    }
}

/// Where the output of an invocation goes.
pub open spec fn dest_of_args(args: Args) -> Result<Dest, CliError> {
    dest_of(
        hf_url::optional_text(args.out),
        hf_url::optional_text(args.space),
        args.stream,
        args.three_d,
    )
}

impl OutputDest {
    /// Resolves the output flags into a destination. A temporary directory is
    /// asked for only where the disk-backed path will use one.
    pub fn from_args(args: &Args) -> (r: Result<OutputDest, CliError>)
        ensures
            match r {
                Ok(d) => dest_of_args(*args) == Ok::<Dest, CliError>(d@),
                Err(e) => dest_of_args(*args) == Err::<Dest, CliError>(e),
            },
    {
        let needs_staging = !args.stream || args.three_d;
        let space = copy_optional(&args.space);
        match &args.out {
            None => {
                if args.space.is_none() {
                    return Err(CliError::NoOutput);
                }
                let place = if needs_staging {
                    Place::Staging
                } else {
                    Place::Nowhere
                };
                Ok(OutputDest::Bundle { place, upload_hf: None, space })
            },
            Some(p) => {
                if !is_hf_url(p.as_str()) {
                    return Ok(
                        OutputDest::Bundle {
                            place: Place::UserDir { dir: p.clone() },
                            upload_hf: None,
                            space,
                        },
                    );
                }
                if args.space.is_some() {
                    return Err(CliError::OutputAlternatives);
                }
                let place = if needs_staging {
                    Place::Staging
                } else {
                    Place::Nowhere
                };
                Ok(OutputDest::Bundle { place, upload_hf: Some(p.clone()), space })
            },
        }
    }

    /// Coarse destination shape.
    pub fn kind(&self) -> (k: DestKind)
        ensures
            k == DestKind::Bundle,
    {
        match self {
            OutputDest::Bundle { .. } => DestKind::Bundle,
        }
    }
}

/// What an invocation comes to.
#[derive(Debug)]
pub enum RunPlan {
    /// Regenerate the page of a bundle.
    Regenerate { dir: String, three_d: bool },
    /// Deploy a bundle that is already rendered.
    Deploy { dir: String, space: String, three_d: bool },
    /// Render to a destination.
    Render { dest: OutputDest },
}

/// What an invocation comes to.
pub ghost enum RunSpec {
    Regenerate { dir: Seq<char>, three_d: bool },
    Deploy { dir: Seq<char>, space: Seq<char>, three_d: bool },
    Render { dest: Dest },
}

impl View for RunPlan {
    type V = RunSpec;

    open spec fn view(&self) -> RunSpec {
        match *self {
            RunPlan::Regenerate { dir, three_d } => RunSpec::Regenerate { dir: dir@, three_d },
            RunPlan::Deploy { dir, space, three_d } => RunSpec::Deploy {
                dir: dir@,
                space: space@,
                three_d,
            },
            RunPlan::Render { dest } => RunSpec::Render { dest: dest@ },
        }
    }
}

/// What an invocation comes to: regenerating a page goes before all else; a
/// Space and a local bundle without input files deploy the bundle as it is; all
/// else renders.
pub open spec fn plan_of(args: Args) -> Result<RunSpec, CliError> {
    if args.regen_html is Some {
        Ok(RunSpec::Regenerate { dir: args.regen_html->0@, three_d: args.three_d })
    } else if args.show_xet_xorbs && args.diff is Some {
        Err(CliError::XorbsWithDiff)
    } else if args.three_d && !is_grid_side(args.grid) {
        Err(CliError::BadGrid { side: args.grid })
    } else {
        match dest_of_args(args) {
            Err(e) => Err(e),
            Ok(dest) => if args.files@.len() == 0 && args.file_list is None && dest.place is UserDir
                && dest.space is Some {
                Ok(
                    RunSpec::Deploy {
                        dir: dest.place->dir,
                        space: dest.space->0,
                        three_d: args.three_d,
                    },
                )
            } else {
                Ok(RunSpec::Render { dest })
            },
        }
    }
}

/// Decides what an invocation comes to.
pub fn run(args: &Args) -> (r: Result<RunPlan, CliError>)
    ensures
        match r {
            Ok(p) => plan_of(*args) == Ok::<RunSpec, CliError>(p@),
            Err(e) => plan_of(*args) == Err::<RunSpec, CliError>(e),
        },
{
    if let Some(dir) = &args.regen_html {
        return Ok(RunPlan::Regenerate { dir: dir.clone(), three_d: args.three_d });
    }
    if args.show_xet_xorbs && args.diff.is_some() {
        return Err(CliError::XorbsWithDiff);
    }
    if args.three_d {
        match validate_grid(args.grid) {
            Ok(_) => {},
            Err(e) => {
                return Err(e);
            },
        }
    }
    let dest = match OutputDest::from_args(args) {
        Ok(d) => d,
        Err(e) => {
            return Err(e);
        },
    };
    if args.files.len() == 0 && args.file_list.is_none() {
        let OutputDest::Bundle { place, upload_hf: _, space } = &dest;
        if let Place::UserDir { dir } = place {
            if let Some(s) = space {
                return Ok(
                    RunPlan::Deploy { dir: dir.clone(), space: s.clone(), three_d: args.three_d },
                );
            }
        }
    }
    Ok(RunPlan::Render { dest })
}

/// How a render reaches its destination.
#[derive(Debug, Clone, Copy, PartialEq, Eq, Structural)]
pub enum RenderRoute {
    /// A volume is rendered to disk; then it is deployed and uploaded, where
    /// that is asked for.
    VolumeOnDisk,
    /// Tiles are rendered to disk; then they are deployed and uploaded, where
    /// that is asked for.
    TilesOnDisk,
    /// Tiles are pushed to the bucket of the Space as they are produced, and
    /// the Space is deployed.
    StreamToSpace,
    /// Tiles are pushed to the Hub repo as they are produced.
    StreamToRepo,
}

/// How a render reaches its destination. Only a square for the Hub is streamed;
/// what goes to disk needs a place there.
pub open spec fn route_of(dest: Dest, stream: bool, three_d: bool) -> Result<
    RenderRoute,
    CliError,
> {
    if three_d {
        if dest.place is Nowhere {
            Err(CliError::NoVolumeDir)
        } else {
            Ok(RenderRoute::VolumeOnDisk)
        }
    } else if stream && dest.space is Some {
        Ok(RenderRoute::StreamToSpace)
    } else if stream && dest.upload_hf is Some {
        Ok(RenderRoute::StreamToRepo)
    } else if dest.place is Nowhere {
        Err(CliError::NoTilesDir)
    } else {
        Ok(RenderRoute::TilesOnDisk)
    }
}

/// Decides how a render reaches its destination.
pub fn dispatch_render(dest: &OutputDest, stream: bool, three_d: bool) -> (r: Result<
    RenderRoute,
    CliError,
>)
    ensures
        r == route_of(dest@, stream, three_d),
{
    let OutputDest::Bundle { place, upload_hf, space } = dest;
    let nowhere = match place {
        Place::Nowhere => true,
        _ => false,
    };
    if three_d {
        return if nowhere {
            Err(CliError::NoVolumeDir)
        } else {
            Ok(RenderRoute::VolumeOnDisk)
        };
    }
    if stream && space.is_some() {
        return Ok(RenderRoute::StreamToSpace);
    }
    if stream && upload_hf.is_some() {
        return Ok(RenderRoute::StreamToRepo);
    }
    if nowhere {
        Err(CliError::NoTilesDir)
    } else {
        Ok(RenderRoute::TilesOnDisk)
    }
}

/// Every destination that the flags lead to can be reached: no accepted
/// invocation ends for want of a place on disk.
pub proof fn accepted_output_has_a_route(
    out: Option<Seq<char>>,
    space: Option<Seq<char>>,
    stream: bool,
    three_d: bool,
)
    requires
        dest_of(out, space, stream, three_d) is Ok,
    ensures
        route_of(dest_of(out, space, stream, three_d)->Ok_0, stream, three_d) is Ok,
{
}

/// A temporary directory is asked for exactly where the output goes to the Hub
/// alone and is not streamed.
pub proof fn staging_is_for_the_hub(
    out: Option<Seq<char>>,
    space: Option<Seq<char>>,
    stream: bool,
    three_d: bool,
)
    requires
        dest_of(out, space, stream, three_d) is Ok,
    ensures
        (dest_of(out, space, stream, three_d)->Ok_0.place is Staging) == ((out is None || is_hub(
            out->0,
        )) && (!stream || three_d)),
{
}

/// What happens to the inputs of a normal render before anything is drawn.
#[derive(Debug, Clone, Copy, PartialEq, Eq, Structural)]
pub struct InputPlan {
    /// Download every remote input first and treat it as a local file.
    pub download_first: bool,
    /// Look up the xorbs of remote inputs.
    pub xet_terms: bool,
    /// Download the remote inputs after that.
    pub materialize: bool,
}

/// Decides what happens to the inputs. Streaming keeps them remote; coloring by
/// xorb has to start from the remote files, which are downloaded afterwards.
pub fn resolve_input_sources(stream: bool, show_xet_xorbs: bool) -> (p: InputPlan)
    ensures
        p == (InputPlan {
            download_first: !stream && !show_xet_xorbs,
            xet_terms: show_xet_xorbs,
            materialize: !stream && show_xet_xorbs,
        }),
{
    InputPlan {
        download_first: !stream && !show_xet_xorbs,
        xet_terms: show_xet_xorbs,
        materialize: !stream && show_xet_xorbs,
    }
}

/// What an input stands for.
#[derive(Debug, Clone, Copy, PartialEq, Eq, Structural)]
pub enum InputShape {
    /// Every file of a repo.
    Repo,
    /// One file of a repo.
    RemoteFile,
    /// A local path.
    LocalPath,
}

/// What an input stands for, or what is wrong with its URL.
pub fn input_shape(input: &str) -> (r: Result<InputShape, HubError>)
    ensures
        match r {
            Ok(shape) => if !is_hub(input@) {
                shape == InputShape::LocalPath
            } else {
                match hf_url::parsed(input@) {
                    Ok(a) => shape == (if a.path.len() == 0 {
                        InputShape::Repo
                    } else {
                        InputShape::RemoteFile
                    }),
                    Err(_) => false,
                }
            },
            Err(e) => is_hub(input@) && hf_url::parsed(input@) == Err::<
                hf_url::Address,
                hf_url::HubFault,
            >(e@),
        },
{
    if !is_hf_url(input) {
        return Ok(InputShape::LocalPath);
    }
    match is_repo_level(input) {
        Ok(true) => Ok(InputShape::Repo),
        Ok(false) => Ok(InputShape::RemoteFile),
        Err(e) => Err(e),
    }
}

/// The parameters of a render.
#[derive(Debug)]
pub struct RenderConfig {
    pub title: String,
    pub inputs: Vec<String>,
    pub diff_mode: bool,
    pub show_xet_xorbs: bool,
    pub layout_mode: LayoutMode,
    pub leaf_format: TileFormat,
    pub pyramid_format: TileFormat,
    pub three_d: bool,
    pub grid_side: u32,
}

/// Folds the provider's hints into the parameters of a render.
pub fn render_config(
    args: &Args,
    hints: RenderHints,
    brand: &str,
    layout_mode: LayoutMode,
) -> (c: RenderConfig)
    ensures
        c.title@ == title_for(hf_url::optional_text(args.title), brand@, hints.title_suffix@),
        c.inputs == hints.inputs,
        c.diff_mode == hints.diff_mode,
        c.show_xet_xorbs == hints.show_xet_xorbs,
        c.layout_mode == layout_mode,
        args.tile_format == TileFormatArg::Avif ==> c.leaf_format == (TileFormat::Avif {
            quality: 100,
            speed: 8,
        }) && c.pyramid_format == (TileFormat::Avif { quality: 85, speed: 8 }),
        args.tile_format == TileFormatArg::Png ==> c.leaf_format == TileFormat::Png
            && c.pyramid_format == TileFormat::Png,
        c.three_d == args.three_d,
        c.grid_side == args.grid,
{
    let (leaf_format, pyramid_format) = args.tile_format.split();
    RenderConfig {
        title: default_title(copy_optional(&args.title), brand, hints.title_suffix.as_str()),
        inputs: hints.inputs,
        diff_mode: hints.diff_mode,
        show_xet_xorbs: hints.show_xet_xorbs,
        layout_mode,
        leaf_format,
        pyramid_format,
        three_d: args.three_d,
        grid_side: args.grid,
    }
}

} // verus!
