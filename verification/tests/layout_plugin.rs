use arbvis::layout::hilbert::HilbertLayout;
use arbvis::layout::plugin::{build_layout, HilbertLayoutPlugin, LayoutBuildCtx, LayoutPlugin};
use arbvis::layout::select::LayoutMode;

/// A stack of plugins: the floor, and one of a given priority that applies and
/// builds as told.
enum Stacked {
    Floor(HilbertLayoutPlugin),
    Above { rank: i32, applies: bool, width: Option<u32> },
}

impl LayoutPlugin for Stacked {
    type Shape = u32;

    fn rank(&self) -> i32 {
        self.priority()
    }
    fn accepts(&self, ctx: LayoutBuildCtx) -> bool {
        self.applicable(&ctx)
    }
    fn builds(&self, ctx: LayoutBuildCtx) -> bool {
        self.build(&ctx).is_some()
    }
    fn lays_out(&self, ctx: LayoutBuildCtx, shape: u32) -> bool {
        self.build(&ctx) == Some(shape)
    }
    fn id(&self) -> &'static str {
        match self {
            Stacked::Floor(p) => p.id(),
            Stacked::Above { .. } => "above",
        }
    }
    fn priority(&self) -> i32 {
        match self {
            Stacked::Floor(p) => p.priority(),
            Stacked::Above { rank, .. } => *rank,
        }
    }
    fn applicable(&self, ctx: &LayoutBuildCtx) -> bool {
        match self {
            Stacked::Floor(p) => p.applicable(ctx),
            Stacked::Above { applies, .. } => *applies,
        }
    }
    fn build(&self, ctx: &LayoutBuildCtx) -> Option<u32> {
        match self {
            Stacked::Floor(p) => p.build(ctx).map(|l| l.width_tiles),
            Stacked::Above { width, .. } => *width,
        }
    }
}

fn ctx(total_bytes: u64) -> LayoutBuildCtx<'static> {
    LayoutBuildCtx {
        sources: &[],
        cumulative_offsets: &[],
        total_bytes,
        mode: LayoutMode::Auto,
        diff_mode: false,
    }
}

fn floor() -> Stacked {
    Stacked::Floor(HilbertLayoutPlugin {})
}

#[test]
fn the_floor_always_builds() {
    let p = HilbertLayoutPlugin {};
    assert_eq!(p.id(), "hilbert-bytes");
    assert_eq!(p.priority(), i32::MIN);
    for total in [0, 1, 70_000, 1 << 40] {
        let l = p.build(&ctx(total)).unwrap();
        assert_eq!(l.width_tiles, HilbertLayout::from_total(total).width_tiles);
        assert_eq!(l.total, total);
    }
    assert!(build_layout(&vec![floor()], &ctx(5)).is_some());
}

#[test]
fn the_highest_plugin_that_builds_wins() {
    let low = Stacked::Above { rank: 1, applies: true, width: Some(11) };
    let high = Stacked::Above { rank: 9, applies: true, width: Some(99) };
    let tie = Stacked::Above { rank: 9, applies: true, width: Some(98) };
    assert_eq!(build_layout(&vec![floor(), low, high, tie], &ctx(5)), Some(99));
}

#[test]
fn a_plugin_that_does_not_build_gives_way() {
    let failing = Stacked::Above { rank: 9, applies: true, width: None };
    let other = Stacked::Above { rank: 7, applies: false, width: Some(77) };
    let next = Stacked::Above { rank: 5, applies: true, width: Some(55) };
    assert_eq!(build_layout(&vec![floor(), failing, other, next], &ctx(5)), Some(55));
    let failing = Stacked::Above { rank: 9, applies: true, width: None };
    assert_eq!(build_layout(&vec![failing, floor()], &ctx(5)), Some(1));
    let none: Vec<Stacked> = vec![Stacked::Above { rank: 9, applies: true, width: None }];
    assert_eq!(build_layout(&none, &ctx(5)), None);
}
