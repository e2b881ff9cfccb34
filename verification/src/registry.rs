//! The pluggable surface of a run: branding, and the providers among which the
//! highest-priority applicable one is chosen.

use crate::diff::{JsonDiffBuilder, PairBuilder, PlainBytesDiffBuilder};
use crate::layout::plugin::HilbertLayoutPlugin;
use crate::layout::select::LayoutMode;
use crate::order;
use vstd::prelude::*;

verus! {

/// Coarse output-destination shape, enough for a provider to gate on.
#[derive(Clone, Copy, PartialEq, Eq, Debug, Structural)]
pub enum DestKind {
    Window,
    SingleImage,
    Tiles,
    Bundle,
}

/// The two sides of a diff, exactly as the user wrote them: a local path or an
/// `hf://` URL. The order of the sides counts.
#[derive(Debug)]
pub struct DiffPair {
    pub original: String,
    pub modified: String,
}

/// The neutral description of what the user asked to render.
#[derive(Debug)]
pub struct SourceCtx {
    /// Positional inputs, already collected. Empty means "read stdin".
    pub inputs: Vec<String>,
    pub diff: Option<DiffPair>,
    pub dest_kind: DestKind,
    pub three_d: bool,
    pub stream: bool,
    pub show_xet_xorbs: bool,
}

/// Turns an invocation into render sources. `applicable` is a cheap gate on the
/// shape of the invocation; the chosen provider commits.
pub trait SourceProvider {
    spec fn rank(&self) -> i32;

    spec fn accepts(&self, ctx: SourceCtx) -> bool;

    /// Stable identifier for diagnostics.
    fn id(&self) -> &'static str;

    /// Selection priority; higher wins.
    fn priority(&self) -> (p: i32)
        ensures
            p == self.rank(),
    ;

    /// Whether the provider takes the invocation.
    fn applicable(&self, ctx: &SourceCtx) -> (r: bool)
        ensures
            r == self.accepts(*ctx),
    ;
}

/// Candidate `i` is the choice: it is applicable, every other applicable one
/// ranks lower, or ranks the same and stands behind it.
pub open spec fn is_choice(ranks: Seq<i32>, applies: Seq<bool>, i: int) -> bool {
    &&& 0 <= i < ranks.len()
    &&& applies[i]
    &&& forall|k: int|
        0 <= k < ranks.len() && k != i && #[trigger] applies[k] ==> ranks[k] < ranks[i] || (ranks[k]
            == ranks[i] && i < k)
}

/// There is at most one choice.
pub proof fn choice_is_unique(ranks: Seq<i32>, applies: Seq<bool>, i: int, j: int)
    requires
        is_choice(ranks, applies, i),
        is_choice(ranks, applies, j),
    ensures
        i == j,
{
    if i != j {
        assert(applies[j]);
        assert(applies[i]);
    }
}

/// The position of the highest-ranking applicable candidate, the first of them
/// where several rank the same.
pub fn choose_by_priority(ranks: &Vec<i32>, applies: &Vec<bool>) -> (r: Option<usize>)
    requires
        ranks@.len() == applies@.len(),
    ensures
        match r {
            Some(i) => is_choice(ranks@, applies@, i as int),
            None => forall|k: int| 0 <= k < applies@.len() ==> !applies@[k],
        },
{
    let mut best: Option<usize> = None;
    let mut i: usize = 0;
    while i < ranks.len()
        invariant
            i <= ranks@.len(),
            ranks@.len() == applies@.len(),
            match best {
                Some(b) => is_choice(ranks@.take(i as int), applies@.take(i as int), b as int),
                None => forall|k: int| 0 <= k < i ==> !applies@[k],
            },
        decreases ranks@.len() - i,
    {
        let ghost before = applies@.take(i as int);
        let ghost after = applies@.take(i + 1);
        assert(forall|k: int| 0 <= k < i ==> after[k] == before[k]);
        if applies[i] {
            match best {
                Some(b) => {
                    if ranks[i] > ranks[b] {
                        best = Some(i);
                    }
                },
                None => {
                    best = Some(i);
                },
            }
        }
        i = i + 1;
    }
    assert(ranks@.take(i as int) =~= ranks@);
    assert(applies@.take(i as int) =~= applies@);
    best
}

/// The ranks of providers.
pub open spec fn ranks<P: SourceProvider>(providers: Seq<P>) -> Seq<i32> {
    providers.map_values(|p: P| p.rank())
}

/// Which providers take an invocation.
pub open spec fn accepting<P: SourceProvider>(providers: Seq<P>, ctx: SourceCtx) -> Seq<bool> {
    providers.map_values(|p: P| p.accepts(ctx))
}

/// Picks the highest-priority provider that takes the invocation, the first of
/// them where several rank the same.
pub fn select_provider<'a, P: SourceProvider>(providers: &'a Vec<P>, ctx: &SourceCtx) -> (r: Option<
    &'a P,
>)
    ensures
        match r {
            Some(p) => exists|i: int| #[trigger]
                is_choice(ranks(providers@), accepting(providers@, *ctx), i) && providers@[i] == *p,
            None => forall|i: int| 0 <= i < providers@.len() ==> !providers@[i].accepts(*ctx),
        },
{
    let mut rs: Vec<i32> = Vec::new();
    let mut applies: Vec<bool> = Vec::new();
    let mut i: usize = 0;
    while i < providers.len()
        invariant
            i <= providers@.len(),
            rs@ == ranks(providers@).take(i as int),
            applies@ == accepting(providers@, *ctx).take(i as int),
        decreases providers@.len() - i,
    {
        rs.push(providers[i].priority());
        applies.push(providers[i].applicable(ctx));
        i = i + 1;
        assert(rs@ =~= ranks(providers@).take(i as int));
        assert(applies@ =~= accepting(providers@, *ctx).take(i as int));
    }
    assert(rs@ =~= ranks(providers@));
    assert(applies@ =~= accepting(providers@, *ctx));
    match choose_by_priority(&rs, &applies) {
        Some(k) => Some(&providers[k]),
        None => {
            assert forall|j: int| 0 <= j < providers@.len() implies !providers@[j].accepts(
                *ctx,
            ) by {
                assert(!applies@[j]);
            }
            None
        },
    }
}

/// Per-provider hints that are folded into the render configuration.
#[derive(Debug)]
pub struct RenderHints {
    /// Drives the diff colors, the crosshatch and the layout gate.
    pub diff_mode: bool,
    /// Title suffix where the user gave no title.
    pub title_suffix: String,
    /// Whether to color regions by xorb id.
    pub show_xet_xorbs: bool,
    /// Inputs as the viewer shows them.
    pub inputs: Vec<String>,
}

impl Default for RenderHints {
    fn default() -> (h: RenderHints)
        ensures
            !h.diff_mode,
            h.title_suffix@.len() == 0,
            !h.show_xet_xorbs,
            h.inputs@.len() == 0,
    {
        RenderHints {
            diff_mode: false,
            title_suffix: String::new(),
            show_xet_xorbs: false,
            inputs: Vec::new(),
        }
    }
}

/// Byte and JSON diff over a pair of inputs.
#[derive(Debug, Clone, Copy)]
pub struct ByteDiffProvider {}

impl SourceProvider for ByteDiffProvider {
    open spec fn rank(&self) -> i32 {
        100
    }

    open spec fn accepts(&self, ctx: SourceCtx) -> bool {
        ctx.diff is Some
    }

    fn id(&self) -> (s: &'static str)
        ensures
            s@ == "byte-diff"@,
    {
        "byte-diff"
    }

    fn priority(&self) -> (p: i32) {
        100
    }

    fn applicable(&self, ctx: &SourceCtx) -> (r: bool) {
        ctx.diff.is_some()
    }
}

impl ByteDiffProvider {
    /// What a diff tells the renderer: the two sides in their order, and no
    /// coloring by xorb.
    pub fn hints(diff: &DiffPair) -> (h: RenderHints)
        ensures
            h.diff_mode,
            h.title_suffix@ == "diff"@,
            !h.show_xet_xorbs,
            order::texts(h.inputs@) == seq![diff.original@, diff.modified@],
    {
        let mut inputs: Vec<String> = Vec::new();
        inputs.push(diff.original.clone());
        inputs.push(diff.modified.clone());
        assert(order::texts(inputs@) =~= seq![diff.original@, diff.modified@]);
        RenderHints {
            diff_mode: true,
            title_suffix: "diff".to_owned(),
            show_xet_xorbs: false,
            inputs,
        }
    }
}

/// Normal byte render of the positional inputs, or of stdin. It takes every
/// invocation and ranks lowest.
#[derive(Debug, Clone, Copy)]
pub struct NormalBytesProvider {}

impl SourceProvider for NormalBytesProvider {
    open spec fn rank(&self) -> i32 {
        i32::MIN
    }

    open spec fn accepts(&self, ctx: SourceCtx) -> bool {
        true
    }

    fn id(&self) -> (s: &'static str)
        ensures
            s@ == "normal-bytes"@,
    {
        "normal-bytes"
    }

    fn priority(&self) -> (p: i32) {
        i32::MIN
    }

    fn applicable(&self, _ctx: &SourceCtx) -> (r: bool) {
        true
    }
}

impl NormalBytesProvider {
    /// What a normal render tells the renderer: the inputs as they came, and
    /// the user's choice of coloring.
    pub fn hints(ctx: &SourceCtx) -> (h: RenderHints)
        ensures
            !h.diff_mode,
            h.title_suffix@.len() == 0,
            h.show_xet_xorbs == ctx.show_xet_xorbs,
            order::texts(h.inputs@) == order::texts(ctx.inputs@),
    {
        let mut inputs: Vec<String> = Vec::new();
        let mut i: usize = 0;
        while i < ctx.inputs.len()
            invariant
                i <= ctx.inputs@.len(),
                order::texts(inputs@) == order::texts(ctx.inputs@).take(i as int),
            decreases ctx.inputs@.len() - i,
        {
            let ghost was = order::texts(inputs@);
            let s = ctx.inputs[i].clone();
            inputs.push(s);
            i = i + 1;
            assert(order::texts(inputs@) =~= was.push(s@));
            assert(order::texts(inputs@) =~= order::texts(ctx.inputs@).take(i as int));
        }
        assert(order::texts(inputs@) =~= order::texts(ctx.inputs@));
        RenderHints {
            diff_mode: false,
            title_suffix: String::new(),
            show_xet_xorbs: ctx.show_xet_xorbs,
            inputs,
        }
    }
}

/// The providers that are always there.
#[derive(Debug, Clone, Copy)]
pub enum BuiltinProvider {
    ByteDiff(ByteDiffProvider),
    NormalBytes(NormalBytesProvider),
}

impl SourceProvider for BuiltinProvider {
    open spec fn rank(&self) -> i32 {
        match self {
            BuiltinProvider::ByteDiff(p) => p.rank(),
            BuiltinProvider::NormalBytes(p) => p.rank(),
        }
    }

    open spec fn accepts(&self, ctx: SourceCtx) -> bool {
        match self {
            BuiltinProvider::ByteDiff(p) => p.accepts(ctx),
            BuiltinProvider::NormalBytes(p) => p.accepts(ctx),
        }
    }

    fn id(&self) -> (s: &'static str)
        ensures
            s@ == (match self {
                BuiltinProvider::ByteDiff(_) => "byte-diff"@,
                BuiltinProvider::NormalBytes(_) => "normal-bytes"@,
            }),
    {
        match self {
            BuiltinProvider::ByteDiff(p) => p.id(),
            BuiltinProvider::NormalBytes(p) => p.id(),
        }
    }

    fn priority(&self) -> (p: i32) {
        match self {
            BuiltinProvider::ByteDiff(p) => p.priority(),
            BuiltinProvider::NormalBytes(p) => p.priority(),
        }
    }

    fn applicable(&self, ctx: &SourceCtx) -> (r: bool) {
        match self {
            BuiltinProvider::ByteDiff(p) => p.applicable(ctx),
            BuiltinProvider::NormalBytes(p) => p.applicable(ctx),
        }
    }
}

/// Viewer branding: the tool name shown in the title fallbacks, and the URL
/// that the title links to.
#[derive(Debug)]
pub struct Branding {
    pub name: String,
    pub repo_url: String,
}

impl Branding {
    pub fn new(name: String, repo_url: String) -> (b: Branding)
        ensures
            b.name@ == name@,
            b.repo_url@ == repo_url@,
    {
        Branding { name, repo_url }
    }
}

impl Default for Branding {
    fn default() -> (b: Branding)
        ensures
            b.name@ == "arbvis"@,
            b.repo_url@ == "https://github.com/znation/arbvis"@,
    {
        Branding::new("arbvis".to_owned(), "https://github.com/znation/arbvis".to_owned())
    }
}

/// Plugin slots of a run.
pub struct Registry {
    /// Ways to lay the sources out.
    pub layouts: Vec<HilbertLayoutPlugin>,
    /// Source providers; the highest-priority applicable one is used.
    pub providers: Vec<BuiltinProvider>,
    /// Ways to compare two files.
    pub diffs: Vec<PairBuilder>,
    /// The user's choice of layout.
    pub layout_mode: LayoutMode,
    pub branding: Branding,
}

impl Registry {
    /// The byte-only built-ins. Every invocation finds a provider among them.
    pub fn with_defaults() -> (r: Registry)
        ensures
            r.layouts@ == seq![HilbertLayoutPlugin {  }],
            ranks(r.providers@) == seq![100i32, i32::MIN],
            forall|ctx: SourceCtx| #[trigger]
                accepting(r.providers@, ctx) == seq![ctx.diff is Some, true],
            r.diffs@ == seq![
                PairBuilder::Json(JsonDiffBuilder {  }),
                PairBuilder::PlainBytes(PlainBytesDiffBuilder {  }),
            ],
            r.layout_mode == LayoutMode::Auto,
            r.branding.name@ == "arbvis"@,
            r.branding.repo_url@ == "https://github.com/znation/arbvis"@,
    {
        let mut providers: Vec<BuiltinProvider> = Vec::new();
        providers.push(BuiltinProvider::ByteDiff(ByteDiffProvider {  }));
        providers.push(BuiltinProvider::NormalBytes(NormalBytesProvider {  }));
        assert(ranks(providers@) =~= seq![100i32, i32::MIN]);
        assert forall|ctx: SourceCtx| #[trigger]
            accepting(providers@, ctx) == seq![ctx.diff is Some, true] by {
            assert(accepting(providers@, ctx) =~= seq![ctx.diff is Some, true]);
        }
        let mut diffs: Vec<PairBuilder> = Vec::new();
        diffs.push(PairBuilder::Json(JsonDiffBuilder {  }));
        diffs.push(PairBuilder::PlainBytes(PlainBytesDiffBuilder {  }));
        assert(diffs@ =~= seq![
            PairBuilder::Json(JsonDiffBuilder {  }),
            PairBuilder::PlainBytes(PlainBytesDiffBuilder {  }),
        ]);
        let mut layouts: Vec<HilbertLayoutPlugin> = Vec::new();
        layouts.push(HilbertLayoutPlugin {  });
        assert(layouts@ =~= seq![HilbertLayoutPlugin {  }]);
        Registry {
            layouts,
            providers,
            diffs,
            layout_mode: LayoutMode::Auto,
            branding: Branding::default(),
        }
    }
}

/// Among the built-ins a diff goes to the first provider and every other
/// invocation to the second, the floor.
pub proof fn builtins_take_every_invocation(is_diff: bool)
    ensures
        is_choice(
            seq![100i32, i32::MIN],
            seq![is_diff, true],
            if is_diff {
                0
            } else {
                1
            },
        ),
{
    let applies = seq![is_diff, true];
    assert(applies[0] == is_diff && applies[1]);
}

} // verus!
