//! Which layout a run uses.

use vstd::prelude::*;
use vstd::string::StringExecFns;
use crate::format::types;
use crate::layout::arch;
use crate::layout::arch::{ArchInput, ArchLayout};
use crate::layout::blueprint;
use crate::layout::hilbert;
use crate::layout::hilbert::HilbertLayout;
use crate::layout::name_tree;
use crate::layout::name_tree::{classify, ArchProfile};
use crate::layout::sub_path;
use crate::layout::sub_path::extract_block_sub_path;
use crate::order;
use crate::source;
use crate::source::{Source, SourceKind};
use crate::text;
use crate::text::{decimal_string, join};

verus! {

/// What a model's `config.json` says of its architecture.
#[derive(Debug)]
pub struct ModelConfig {
    pub architectures: Vec<String>,
    pub num_hidden_layers: Option<u32>,
    pub hidden_size: Option<u32>,
}

/// What lies beside a source: its `config.json`, and the tensor names that its
/// `model.safetensors.index.json` lists.
#[derive(Debug)]
pub struct SourceMeta {
    pub config: Option<ModelConfig>,
    pub index: Option<Vec<String>>,
}

/// What is known of the size of a model, in words.
pub open spec fn size_words(c: ModelConfig) -> Seq<Seq<char>> {
    (match c.num_hidden_layers {
        Some(n) => seq![text::decimal(n as nat) + " layers"@],
        None => seq![],
    }) + (match c.hidden_size {
        Some(n) => seq!["hidden="@ + text::decimal(n as nat)],
        None => seq![],
    })
}

/// The architecture in words: its name, and its size in brackets.
pub open spec fn summary_of(c: ModelConfig) -> Seq<char> {
    (if c.architectures@.len() > 0 {
        c.architectures@[0]@
    } else {
        seq![]
    }) + (if size_words(c).len() > 0 {
        " ("@ + text::joined(size_words(c), ", "@) + ")"@
    } else {
        seq![]
    })
}

impl ModelConfig {
    /// The architecture in words, e.g. `LlamaForCausalLM (32 layers, hidden=4096)`.
    pub fn summary(&self) -> (s: String)
        ensures
            s@ == summary_of(*self),
    {
        let mut words: Vec<String> = Vec::new();
        if let Some(n) = self.num_hidden_layers {
            words.push(decimal_string(n as u64).concat(" layers"));
        }
        if let Some(n) = self.hidden_size {
            words.push("hidden=".to_owned().concat(decimal_string(n as u64).as_str()));
        }
        assert(words@.map_values(|w: String| w@) =~= size_words(*self));
        let name = if self.architectures.len() > 0 {
            self.architectures[0].clone()
        } else {
            String::new()
        };
        assert(name@ =~= (if self.architectures@.len() > 0 {
            self.architectures@[0]@
        } else {
            seq![]
        }));
        if words.len() > 0 {
            let s = name.concat(" (").concat(join(&words, ", ").as_str()).concat(")");
            assert(s@ =~= summary_of(*self));
            s
        } else {
            assert(name@ =~= summary_of(*self));
            name
        }
    }
}

/// The tensors of a source that the architectural canvas shows.
pub open spec fn source_items(s: Source, idx: usize, offset: u64) -> Seq<blueprint::Item> {
    if s.kind is UnmatchedRegion {
        seq![]
    } else {
        match source::model_of(s.safetensors) {
            Some(m) => m.tensors.map_values(
                |t: types::Tensor| blueprint::Item { source: idx, tensor: t, offset },
            ),
            None => seq![],
        }
    }
}

/// Where a source starts; 0 where that is not known.
pub open spec fn offset_of(offsets: Seq<u64>, i: int) -> u64 {
    if i < offsets.len() {
        offsets[i]
    } else {
        0
    }
}

/// The tensors of all sources, in order.
pub open spec fn gathered(sources: Seq<Source>, offsets: Seq<u64>) -> Seq<blueprint::Item>
    decreases sources.len(),
{
    if sources.len() == 0 {
        seq![]
    } else {
        let i = sources.len() - 1;
        gathered(sources.drop_last(), offsets) + source_items(
            sources.last(),
            i as usize,
            offset_of(offsets, i),
        )
    }
}

/// The first config that is known.
pub open spec fn first_config(metas: Seq<SourceMeta>) -> Option<ModelConfig>
    decreases metas.len(),
{
    if metas.len() == 0 {
        None
    } else {
        match first_config(metas.drop_last()) {
            Some(c) => Some(c),
            None => metas.last().config,
        }
    }
}

/// The number of layers that the first known config declares.
pub open spec fn declared_layers(metas: Seq<SourceMeta>) -> Option<u32> {
    match first_config(metas) {
        Some(c) => c.num_hidden_layers,
        None => None,
    }
}

/// The architecture that the first known config describes.
pub open spec fn architecture_of(metas: Seq<SourceMeta>) -> Seq<char> {
    match first_config(metas) {
        Some(c) => summary_of(c),
        None => seq![],
    }
}

/// The sub-paths among listed tensor names.
pub open spec fn listed_subs(names: Seq<Seq<char>>) -> Seq<Seq<char>>
    decreases names.len(),
{
    if names.len() == 0 {
        seq![]
    } else {
        match sub_path::block_sub_path(names.last()) {
            Some(s) => listed_subs(names.drop_last()).push(s),
            None => listed_subs(names.drop_last()),
        }
    }
}

/// The sub-paths that indices list.
pub open spec fn indexed_subs(metas: Seq<SourceMeta>) -> Seq<Seq<char>>
    decreases metas.len(),
{
    if metas.len() == 0 {
        seq![]
    } else {
        indexed_subs(metas.drop_last()) + match metas.last().index {
            Some(names) => listed_subs(order::texts(names@)),
            None => seq![],
        }
    }
}

/// The names of the tensors.
pub open spec fn item_names(its: Seq<blueprint::Item>) -> Seq<Seq<char>> {
    its.map_values(|i: blueprint::Item| i.tensor.name)
}

/// The structure that the names of the tensors show.
pub open spec fn arch_profile(its: Seq<blueprint::Item>) -> name_tree::Profile {
    let names = item_names(its);
    name_tree::profile(names, name_tree::all_parts(names))
}

/// What the canvas of the sources is drawn from.
pub open spec fn arch_plan(
    its: Seq<blueprint::Item>,
    metas: Seq<SourceMeta>,
) -> blueprint::Plan {
    blueprint::plan_of(
        its,
        arch_profile(its).slots,
        declared_layers(metas),
        indexed_subs(metas),
    )
}

/// The sources and what lies beside them can be laid out in the machine's
/// numbers.
pub open spec fn arch_fits(
    sources: Seq<Source>,
    offsets: Seq<u64>,
    metas: Seq<SourceMeta>,
) -> bool {
    let its = gathered(sources, offsets);
    &&& arch::items_fit(its)
    &&& its.len() + (match declared_layers(metas) {
        Some(n) => n as int,
        None => 0,
    }) <= u32::MAX
}

fn gather(sources: &[Source], offsets: &[u64]) -> (r: Vec<ArchInput>)
    ensures
        arch::items(r@) == gathered(sources@, offsets@),
{
    let mut out: Vec<ArchInput> = Vec::new();
    let mut i: usize = 0;
    assert(sources@.take(0) =~= seq![]);
    assert(arch::items(out@) =~= seq![]);
    while i < sources.len()
        invariant
            i <= sources@.len(),
            arch::items(out@) == gathered(sources@.take(i as int), offsets@),
        decreases sources@.len() - i,
    {
        let s = &sources[i];
        let offset: u64 = if i < offsets.len() {
            offsets[i]
        } else {
            0
        };
        let skip: bool = match &s.kind {
            SourceKind::UnmatchedRegion { .. } => true,
            _ => false,
        };
        let ghost was = arch::items(out@);
        let ghost more = source_items(*s, i, offset);
        assert(was + seq![] =~= was);
        if !skip {
            if let Some(info) = &s.safetensors {
                let mut j: usize = 0;
                assert(was + more.take(0) =~= was);
                assert(more.len() == info.tensors@.len());
                while j < info.tensors.len()
                    invariant
                        j <= info.tensors@.len(),
                        more.len() == info.tensors@.len(),
                        more == types::tensors(info.tensors@).map_values(
                            |t: types::Tensor| blueprint::Item { source: i, tensor: t, offset },
                        ),
                        arch::items(out@) == was + more.take(j as int),
                    decreases info.tensors@.len() - j,
                {
                    let t = ArchInput {
                        source_idx: i,
                        meta: info.tensors[j].clone(),
                        offset,
                    };
                    assert(t@ == more[j as int]);
                    let ghost here = arch::items(out@);
                    out.push(t);
                    assert(arch::items(out@) =~= here.push(more[j as int]));
                    assert(arch::items(out@) =~= was + more.take(j + 1));
                    j = j + 1;
                }
                assert(more.take(j as int) =~= more);
            }
        }
        assert(arch::items(out@) =~= was + more);
        assert(sources@.take(i + 1).drop_last() =~= sources@.take(i as int));
        assert(sources@.take(i + 1).last() == *s);
        assert(i < sources.len());
        i = i + 1;
    }
    assert(sources@.take(i as int) =~= sources@);
    out
}

/// The place of the first known config.
fn find_config(metas: &[SourceMeta]) -> (r: Option<usize>)
    ensures
        match r {
            Some(i) => i < metas@.len() && metas@[i as int].config is Some && first_config(
                metas@,
            ) == metas@[i as int].config,
            None => first_config(metas@) is None,
        },
{
    let mut i: usize = 0;
    assert(metas@.take(0) =~= seq![]);
    while i < metas.len()
        invariant
            i <= metas@.len(),
            first_config(metas@.take(i as int)) is None,
        decreases metas@.len() - i,
    {
        proof {
            assert(metas@.take(i + 1).drop_last() =~= metas@.take(i as int));
            assert(metas@.take(i + 1).last() == metas@[i as int]);
        }
        if metas[i].config.is_some() {
            proof {
                lemma_first_config(metas@, i + 1);
            }
            return Some(i);
        }
        i = i + 1;
    }
    assert(metas@.take(i as int) =~= metas@);
    None
}

proof fn lemma_first_config(metas: Seq<SourceMeta>, n: int)
    requires
        0 <= n <= metas.len(),
        first_config(metas.take(n)) is Some,
    ensures
        first_config(metas) == first_config(metas.take(n)),
    decreases metas.len(),
{
    if n < metas.len() {
        assert(metas.drop_last().take(n) =~= metas.take(n));
        lemma_first_config(metas.drop_last(), n);
    } else {
        assert(metas.take(n) =~= metas);
    }
}

fn sub_paths_of(names: &Vec<String>, out: &mut Vec<String>)
    ensures
        order::texts(final(out)@) == order::texts(old(out)@) + listed_subs(order::texts(names@)),
{
    let ghost ns = order::texts(names@);
    let ghost was = order::texts(out@);
    let mut i: usize = 0;
    assert(ns.take(0) =~= seq![]);
    assert(was + seq![] =~= was);
    while i < names.len()
        invariant
            i <= names@.len(),
            ns == order::texts(names@),
            order::texts(out@) == was + listed_subs(ns.take(i as int)),
        decreases names@.len() - i,
    {
        assert(ns.take(i + 1).drop_last() =~= ns.take(i as int));
        assert(ns.take(i + 1).last() == names@[i as int]@);
        let ghost here = order::texts(out@);
        if let Some(s) = extract_block_sub_path(names[i].as_str()) {
            out.push(s);
            assert(order::texts(out@) =~= here.push(s@));
        }
        assert(order::texts(out@) =~= was + listed_subs(ns.take(i + 1)));
        i = i + 1;
    }
    assert(ns.take(i as int) =~= ns);
}

fn known_sub_paths(metas: &[SourceMeta]) -> (r: Vec<String>)
    ensures
        order::texts(r@) == indexed_subs(metas@),
{
    let mut out: Vec<String> = Vec::new();
    let mut i: usize = 0;
    assert(metas@.take(0) =~= seq![]);
    assert(order::texts(out@) =~= seq![]);
    while i < metas.len()
        invariant
            i <= metas@.len(),
            order::texts(out@) == indexed_subs(metas@.take(i as int)),
        decreases metas@.len() - i,
    {
        assert(metas@.take(i + 1).drop_last() =~= metas@.take(i as int));
        assert(metas@.take(i + 1).last() == metas@[i as int]);
        let ghost was = order::texts(out@);
        if let Some(names) = &metas[i].index {
            sub_paths_of(names, &mut out);
        }
        assert(order::texts(out@) =~= indexed_subs(metas@.take(i + 1)));
        i = i + 1;
    }
    assert(metas@.take(i as int) =~= metas@);
    out
}

fn profile_of(all: &Vec<ArchInput>) -> (p: ArchProfile)
    ensures
        p@ == arch_profile(arch::items(all@)),
{
    let mut names: Vec<&str> = Vec::new();
    let mut i: usize = 0;
    while i < all.len()
        invariant
            i <= all@.len(),
            names@.len() == i,
            forall|k: int| 0 <= k < i ==> (#[trigger] names@[k])@ == all@[k].meta.name@,
        decreases all@.len() - i,
    {
        names.push(all[i].meta.name.as_str());
        i = i + 1;
    }
    assert(name_tree::name_texts(names@) =~= item_names(arch::items(all@)));
    classify(names.as_slice())
}

impl ArchLayout {
    /// Build an architectural layout. Returns `None` if the inputs can't be
    /// shape-mapped (zero tensors after merging sources).
    ///
    /// `metas` (parallel to `sources`, possibly shorter or empty) carries
    /// opportunistically-loaded `config.json` / `model.safetensors.index.json`
    /// data. When present these are used to (1) extend the layer stack to
    /// `num_hidden_layers` so partial-shard loads still produce a stable
    /// layout, (2) extend the canonical sub-path set with names from the
    /// index, and (3) record an architecture string for downstream display.
    pub fn try_build(
        sources: &[Source],
        cumulative_offsets: &[u64],
        metas: &[SourceMeta],
    ) -> (r: Option<Self>)
        requires
            arch_fits(sources@, cumulative_offsets@, metas@),
        ensures
            ({
                let its = gathered(sources@, cumulative_offsets@);
                match r {
                    Some(l) => its.len() > 0 && l.draws(
                        arch_plan(its, metas@),
                        architecture_of(metas@),
                    ) && l.wf(),
                    None => its.len() == 0,
                }
            }),
    {
        let all = gather(sources, cumulative_offsets);
        assert(arch::items(all@).len() == all@.len());
        if all.len() == 0 {
            return None;
        }
        let (declared, architecture): (Option<u32>, String) = match find_config(metas) {
            Some(i) => match &metas[i].config {
                Some(c) => (c.num_hidden_layers, c.summary()),
                None => (None, String::new()),
            },
            None => (None, String::new()),
        };
        assert(architecture@ =~= architecture_of(metas@));
        let profile = profile_of(&all);
        assert(profile.slots@.len() == name_tree::places(profile.slots@).len());
        let extra = known_sub_paths(metas);
        proof {
            arch::lemma_layers_len(name_tree::places(profile.slots@), declared);
        }
        Some(ArchLayout::from_slots(&all, &profile.slots, declared, &extra, architecture))
    }
}

/// User-facing layout selection.
#[derive(Debug, Clone, Copy, PartialEq, Eq, Structural)]
pub enum LayoutMode {
    /// Auto-select: architectural if every source is safetensors AND
    /// transformer-style names are detected; otherwise hilbert.
    Auto,
    /// Force architectural (structure-aware) layout. Falls back to hilbert if
    /// no source is safetensors.
    Arch,
    /// Force the global-Hilbert layout.
    Hilbert,
}

impl Default for LayoutMode {
    fn default() -> (m: Self)
        ensures
            m == LayoutMode::Auto,
    {
        LayoutMode::Auto
    }
}

/// The chosen layout for the current run.
#[derive(Debug)]
pub enum Layout {
    HilbertGlobal(HilbertLayout),
    Architectural(ArchLayout),
}

impl Layout {
    /// Whether this is the architectural variant (drives a few mode branches
    /// downstream — e.g. element-per-pixel decoding vs byte-per-pixel LUT).
    pub fn is_architectural(&self) -> (r: bool)
        ensures
            r == (self is Architectural),
    {
        match self {
            Layout::Architectural(_) => true,
            Layout::HilbertGlobal(_) => false,
        }
    }
}

/// Whether the sources can be shown by structure: all of them carry tensors,
/// or, in a diff, at least one.
pub open spec fn arch_eligible(sources: Seq<Source>, diff_mode: bool) -> bool {
    if diff_mode {
        exists|i: int| 0 <= i < sources.len() && (#[trigger] sources[i]).safetensors is Some
    } else {
        sources.len() > 0 && forall|i: int|
            0 <= i < sources.len() ==> (#[trigger] sources[i]).safetensors is Some
    }
}

fn eligible(sources: &[Source], diff_mode: bool) -> (r: bool)
    ensures
        r == arch_eligible(sources@, diff_mode),
{
    let mut any = false;
    let mut all = true;
    let mut i: usize = 0;
    while i < sources.len()
        invariant
            i <= sources@.len(),
            any == exists|k: int|
                0 <= k < i && (#[trigger] sources@[k]).safetensors is Some,
            all == forall|k: int|
                0 <= k < i ==> (#[trigger] sources@[k]).safetensors is Some,
        decreases sources@.len() - i,
    {
        assert(sources@[i as int].safetensors is Some || sources@[i as int].safetensors is None);
        if sources[i].safetensors.is_some() {
            any = true;
        } else {
            all = false;
        }
        i = i + 1;
    }
    if diff_mode {
        any
    } else {
        sources.len() > 0 && all
    }
}

/// Whether the sources are shown by structure: never where the global curve is
/// forced; where the layout is left open, only if the names of the tensors are
/// transformer-style.
pub open spec fn shows_structure(
    mode: LayoutMode,
    sources: Seq<Source>,
    offsets: Seq<u64>,
    diff_mode: bool,
) -> bool {
    &&& mode != LayoutMode::Hilbert
    &&& arch_eligible(sources, diff_mode)
    &&& gathered(sources, offsets).len() > 0
    &&& mode == LayoutMode::Auto ==> arch_profile(gathered(sources, offsets)).block_regex is Some
}

/// Build the layout for the given sources. Returns `Layout::HilbertGlobal`
/// for non-architectural runs.
///
/// `metas` is an optional list parallel to `sources` carrying opportunistic
/// `config.json` / `model.safetensors.index.json` data. Pass `&[]` to opt out.
///
/// `diff_mode` relaxes the all-safetensors gate. In a diff run between two
/// model repos, every per-tensor source carries synthetic safetensors info, but
/// non-tensor file diffs (e.g. tokenizer.json) remain without it. In diff mode
/// we accept arch as long as *some* source has safetensors; non-safetensors
/// diff sources stay in the pipeline but aren't placed on the arch canvas.
pub fn select_layout(
    sources: &[Source],
    cumulative_offsets: &[u64],
    total_bytes: u64,
    mode: LayoutMode,
    metas: &[SourceMeta],
    diff_mode: bool,
) -> (l: Layout)
    requires
        total_bytes <= 0x4000_0000_0000_0000,
        arch_fits(sources@, cumulative_offsets@, metas@),
    ensures
        ({
            let its = gathered(sources@, cumulative_offsets@);
            let structured = shows_structure(mode, sources@, cumulative_offsets@, diff_mode);
            match l {
                Layout::Architectural(a) => structured && a.draws(
                    arch_plan(its, metas@),
                    architecture_of(metas@),
                ) && a.wf(),
                Layout::HilbertGlobal(h) => !structured && hilbert::laid_out(
                    h,
                    hilbert::canvas_exponent(total_bytes as int),
                    total_bytes,
                ),
            }
        }),
{
    if mode != LayoutMode::Hilbert && eligible(sources, diff_mode) {
        let named = mode != LayoutMode::Auto || profile_of(
            &gather(sources, cumulative_offsets),
        ).block_regex.is_some();
        if named {
            if let Some(a) = ArchLayout::try_build(sources, cumulative_offsets, metas) {
                return Layout::Architectural(a);
            }
        }
    }
    Layout::HilbertGlobal(HilbertLayout::from_total(total_bytes))
}

} // verus!
