//! Layout plugins: the highest-priority one that applies and builds lays the
//! sources out.

use crate::layout::hilbert;
use crate::layout::hilbert::HilbertLayout;
use crate::layout::select::LayoutMode;
use crate::registry;
use crate::registry::choose_by_priority;
use crate::source::Source;
use vstd::prelude::*;

verus! {

/// What a layout plugin sees when it decides whether and how to build.
#[derive(Clone, Copy)]
pub struct LayoutBuildCtx<'a> {
    pub sources: &'a [Source],
    pub cumulative_offsets: &'a [u64],
    pub total_bytes: u64,
    pub mode: LayoutMode,
    pub diff_mode: bool,
}

/// Builds a layout for the given sources, when applicable.
pub trait LayoutPlugin {
    type Shape;

    spec fn rank(&self) -> i32;

    spec fn accepts(&self, ctx: LayoutBuildCtx) -> bool;

    spec fn builds(&self, ctx: LayoutBuildCtx) -> bool;

    spec fn lays_out(&self, ctx: LayoutBuildCtx, shape: Self::Shape) -> bool;

    /// Stable identifier for diagnostics.
    fn id(&self) -> &'static str;

    /// Selection priority; higher wins.
    fn priority(&self) -> (p: i32)
        ensures
            p == self.rank(),
    ;

    /// Whether the plugin is meant for the sources.
    fn applicable(&self, ctx: &LayoutBuildCtx) -> (r: bool)
        ensures
            r == self.accepts(*ctx),
    ;

    /// The layout of the sources, if the plugin finds one.
    fn build(&self, ctx: &LayoutBuildCtx) -> (r: Option<Self::Shape>)
        requires
            ctx.total_bytes <= 0x4000_0000_0000_0000,
        ensures
            match r {
                Some(l) => self.builds(*ctx) && self.lays_out(*ctx, l),
                None => !self.builds(*ctx),
            },
    ;
}

/// Byte-Hilbert plugin: always applies, always builds. The floor of the
/// priority stack.
#[derive(Debug, Clone, Copy)]
pub struct HilbertLayoutPlugin {}

impl LayoutPlugin for HilbertLayoutPlugin {
    type Shape = HilbertLayout;

    open spec fn rank(&self) -> i32 {
        i32::MIN
    }

    open spec fn accepts(&self, ctx: LayoutBuildCtx) -> bool {
        true
    }

    open spec fn builds(&self, ctx: LayoutBuildCtx) -> bool {
        true
    }

    open spec fn lays_out(&self, ctx: LayoutBuildCtx, shape: HilbertLayout) -> bool {
        hilbert::laid_out(
            shape,
            hilbert::canvas_exponent(ctx.total_bytes as int),
            ctx.total_bytes,
        )
    }

    fn id(&self) -> (s: &'static str)
        ensures
            s@ == "hilbert-bytes"@,
    {
        "hilbert-bytes"
    }

    fn priority(&self) -> (p: i32) {
        i32::MIN
    }

    fn applicable(&self, _ctx: &LayoutBuildCtx) -> (r: bool) {
        true
    }

    fn build(&self, ctx: &LayoutBuildCtx) -> (r: Option<HilbertLayout>) {
        Some(HilbertLayout::from_total(ctx.total_bytes))
    }
}

/// The ranks of plugins.
pub open spec fn plugin_ranks<P: LayoutPlugin>(plugins: Seq<P>) -> Seq<i32> {
    plugins.map_values(|p: P| p.rank())
}

/// Which plugins apply and build.
pub open spec fn building<P: LayoutPlugin>(plugins: Seq<P>, ctx: LayoutBuildCtx) -> Seq<bool> {
    plugins.map_values(|p: P| p.accepts(ctx) && p.builds(ctx))
}

/// How many entries hold.
spec fn count(s: Seq<bool>) -> nat
    decreases s.len(),
{
    if s.len() == 0 {
        0
    } else {
        count(s.drop_last()) + if s.last() {
            1nat
        } else {
            0nat
        }
    }
}

proof fn lemma_count_drops(s: Seq<bool>, i: int)
    requires
        0 <= i < s.len(),
        s[i],
    ensures
        count(s.update(i, false)) < count(s),
    decreases s.len(),
{
    if i < s.len() - 1 {
        lemma_count_drops(s.drop_last(), i);
        assert(s.update(i, false).drop_last() =~= s.drop_last().update(i, false));
    } else {
        assert(s.update(i, false).drop_last() =~= s.drop_last());
    }
}

/// Builds the layout of the plugin with the highest priority among those that
/// apply and build, the first of them where several rank the same. A plugin
/// that applies but does not build gives way to the next.
pub fn build_layout<P: LayoutPlugin>(plugins: &Vec<P>, ctx: &LayoutBuildCtx) -> (r: Option<
    P::Shape,
>)
    requires
        ctx.total_bytes <= 0x4000_0000_0000_0000,
    ensures
        match r {
            Some(l) => exists|i: int| #[trigger]
                registry::is_choice(plugin_ranks(plugins@), building(plugins@, *ctx), i)
                    && plugins@[i].lays_out(*ctx, l),
            None => forall|i: int|
                0 <= i < plugins@.len() ==> !((#[trigger] plugins@[i]).accepts(*ctx)
                    && plugins@[i].builds(*ctx)),
        },
{
    let mut ranks: Vec<i32> = Vec::new();
    let mut open: Vec<bool> = Vec::new();
    let mut i: usize = 0;
    while i < plugins.len()
        invariant
            i <= plugins@.len(),
            ranks@ == plugin_ranks(plugins@).take(i as int),
            open@.len() == i,
            forall|k: int| 0 <= k < i ==> #[trigger] open@[k] == plugins@[k].accepts(*ctx),
        decreases plugins@.len() - i,
    {
        ranks.push(plugins[i].priority());
        open.push(plugins[i].applicable(ctx));
        i = i + 1;
        assert(ranks@ =~= plugin_ranks(plugins@).take(i as int));
    }
    assert(ranks@ =~= plugin_ranks(plugins@));
    let ghost goal = building(plugins@, *ctx);
    loop
        invariant
            ctx.total_bytes <= 0x4000_0000_0000_0000,
            ranks@ == plugin_ranks(plugins@),
            open@.len() == plugins@.len(),
            goal == building(plugins@, *ctx),
            forall|k: int|
                0 <= k < open@.len() && #[trigger] open@[k] ==> plugins@[k].accepts(*ctx),
            forall|k: int| 0 <= k < open@.len() && #[trigger] goal[k] ==> open@[k],
        decreases count(open@),
    {
        match choose_by_priority(&ranks, &open) {
            Some(k) => {
                match plugins[k].build(ctx) {
                    Some(l) => {
                        assert(registry::is_choice(ranks@, goal, k as int)) by {
                            assert(open@[k as int]);
                            assert forall|j: int|
                                0 <= j < ranks@.len() && j != k && #[trigger] goal[j] implies ranks@[j]
                                < ranks@[k as int] || (ranks@[j] == ranks@[k as int] && k < j) by {
                                assert(open@[j]);
                            }
                        }
                        return Some(l);
                    },
                    None => {
                        proof {
                            lemma_count_drops(open@, k as int);
                        }
                        open.set(k, false);
                    },
                }
            },
            None => {
                assert forall|j: int| 0 <= j < plugins@.len() implies !((
                #[trigger] plugins@[j]).accepts(*ctx) && plugins@[j].builds(*ctx)) by {
                    if goal[j] {
                        assert(open@[j]);
                    }
                }
                return None;
            },
        }
    }
}

} // verus!
