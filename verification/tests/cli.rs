use arbvis::cli::{
    collect_input_files, default_title, dispatch_render, input_shape, render_config,
    resolve_input_sources, run, validate_grid, Args, CliError, InputShape, OutputDest, Place,
    RenderRoute, RunPlan, TileFormat, TileFormatArg,
};
use arbvis::layout::select::LayoutMode;
use arbvis::registry::{
    choose_by_priority, select_provider, Branding, BuiltinProvider, ByteDiffProvider, DestKind,
    DiffPair, NormalBytesProvider, Registry, RenderHints, SourceCtx, SourceProvider,
};

#[test]
fn brand_and_suffix_fallbacks() {
    assert_eq!(
        default_title(None, "modelweightvis", "moe"),
        "modelweightvis moe"
    );
    assert_eq!(default_title(None, "arbvis", "diff"), "arbvis diff");
    assert_eq!(default_title(None, "arbvis", ""), "arbvis");
}

#[test]
fn user_title_wins() {
    assert_eq!(
        default_title(Some("custom".to_string()), "arbvis", "moe"),
        "custom"
    );
}

/// The built-in providers and a high-priority diff-only one, standing in for
/// that of a specialization.
enum TestProvider {
    Builtin(BuiltinProvider),
    MockDiff,
}

impl SourceProvider for TestProvider {
    fn rank(&self) -> i32 {
        self.priority()
    }
    fn accepts(&self, ctx: SourceCtx) -> bool {
        self.applicable(&ctx)
    }
    fn id(&self) -> &'static str {
        match self {
            TestProvider::Builtin(p) => p.id(),
            TestProvider::MockDiff => "mock-high",
        }
    }
    fn priority(&self) -> i32 {
        match self {
            TestProvider::Builtin(p) => p.priority(),
            TestProvider::MockDiff => 500,
        }
    }
    fn applicable(&self, ctx: &SourceCtx) -> bool {
        match self {
            TestProvider::Builtin(p) => p.applicable(ctx),
            TestProvider::MockDiff => ctx.diff.is_some(),
        }
    }
}

fn ctx(inputs: &[&str], diff: Option<DiffPair>) -> SourceCtx {
    SourceCtx {
        inputs: inputs.iter().map(|s| s.to_string()).collect(),
        diff,
        dest_kind: DestKind::Bundle,
        three_d: false,
        stream: false,
        show_xet_xorbs: false,
    }
}

fn pair() -> DiffPair {
    DiffPair {
        original: "a".to_string(),
        modified: "b".to_string(),
    }
}

// The byte built-ins: a normal-input invocation falls to the `i32::MIN`
// floor; a `--diff` invocation is caught by the byte-diff provider.
#[test]
fn byte_builtins_ladder() {
    let reg = Registry::with_defaults();
    assert_eq!(
        select_provider(&reg.providers, &ctx(&["a.bin"], None))
            .unwrap()
            .id(),
        "normal-bytes"
    );
    assert_eq!(
        select_provider(&reg.providers, &ctx(&[], Some(pair())))
            .unwrap()
            .id(),
        "byte-diff"
    );
}

// A higher-priority provider shadows the byte-diff built-in when it
// applies, but the floor still wins when it doesn't.
#[test]
fn higher_priority_shadows_then_falls_through() {
    let reg = Registry::with_defaults();
    let mut providers: Vec<TestProvider> =
        reg.providers.into_iter().map(TestProvider::Builtin).collect();
    providers.push(TestProvider::MockDiff);
    assert_eq!(
        select_provider(&providers, &ctx(&[], Some(pair())))
            .unwrap()
            .id(),
        "mock-high"
    );
    assert_eq!(
        select_provider(&providers, &ctx(&[], None))
            .unwrap()
            .id(),
        "normal-bytes"
    );
}

#[test]
fn ties_go_to_the_first() {
    assert_eq!(choose_by_priority(&vec![1, 5, 5], &vec![true, true, true]), Some(1));
    assert_eq!(choose_by_priority(&vec![9, 5, 5], &vec![false, false, true]), Some(2));
    assert_eq!(choose_by_priority(&vec![1, 2], &vec![false, false]), None);
}

#[test]
fn providers_say_what_they_render() {
    let h = ByteDiffProvider::hints(&pair());
    assert!(h.diff_mode);
    assert_eq!(h.title_suffix, "diff");
    assert_eq!(h.inputs, ["a", "b"]);
    let mut c = ctx(&["x", "y"], None);
    c.show_xet_xorbs = true;
    let h = NormalBytesProvider::hints(&c);
    assert!(!h.diff_mode && h.show_xet_xorbs);
    assert_eq!(h.inputs, ["x", "y"]);
    let d = RenderHints::default();
    assert!(!d.diff_mode && d.inputs.is_empty());
    let b = Branding::default();
    assert_eq!(b.name, "arbvis");
    assert_eq!(b.repo_url, "https://github.com/znation/arbvis");
}

fn args() -> Args {
    Args {
        files: Vec::new(),
        file_list: None,
        out: None,
        three_d: false,
        grid: 128,
        diff: None,
        space: None,
        regen_html: None,
        title: None,
        show_xet_xorbs: false,
        tile_format: TileFormatArg::Avif,
        stream: false,
    }
}

#[test]
fn grids_are_powers_of_two() {
    for side in [2, 4, 8, 16, 32, 64, 128, 256, 512] {
        assert!(validate_grid(side).is_ok());
    }
    for side in [0, 1, 3, 6, 500, 1024] {
        let e = validate_grid(side).unwrap_err();
        assert_eq!(e, CliError::BadGrid { side });
    }
    assert_eq!(
        validate_grid(7).unwrap_err().message(),
        "--grid must be a power of two between 2 and 512, got 7"
    );
}

#[test]
fn an_output_is_needed() {
    let e = run(&args()).unwrap_err();
    assert_eq!(e, CliError::NoOutput);
    assert!(e.message().starts_with("no output specified: pass --out <DIR>"));
}

#[test]
fn a_repo_and_a_space_exclude_each_other() {
    let mut a = args();
    a.out = Some("hf://me/vis".to_string());
    a.space = Some("me/space".to_string());
    let e = run(&a).unwrap_err();
    assert_eq!(e, CliError::OutputAlternatives);
    assert!(e.message().contains("alternatives, not stackable"));
}

#[test]
fn xorbs_and_diff_exclude_each_other() {
    let mut a = args();
    a.out = Some("out".to_string());
    a.show_xet_xorbs = true;
    a.diff = Some(pair());
    let e = run(&a).unwrap_err();
    assert_eq!(e, CliError::XorbsWithDiff);
    assert_eq!(e.message(), "--show-xet-xorbs is incompatible with --diff");
}

#[test]
fn a_bad_grid_stops_a_cube_only() {
    let mut a = args();
    a.files = vec!["x".to_string()];
    a.out = Some("out".to_string());
    a.grid = 100;
    assert!(matches!(run(&a), Ok(RunPlan::Render { .. })));
    a.three_d = true;
    assert_eq!(run(&a).unwrap_err(), CliError::BadGrid { side: 100 });
}

#[test]
fn regenerating_goes_first() {
    let mut a = args();
    a.regen_html = Some("dir".to_string());
    a.three_d = true;
    match run(&a) {
        Ok(RunPlan::Regenerate { dir, three_d }) => {
            assert_eq!(dir, "dir");
            assert!(three_d);
        }
        other => panic!("unexpected plan {other:?}"),
    }
}

#[test]
fn a_rendered_bundle_is_deployed_as_it_is() {
    let mut a = args();
    a.out = Some("bundle".to_string());
    a.space = Some("me/space".to_string());
    match run(&a) {
        Ok(RunPlan::Deploy { dir, space, three_d }) => {
            assert_eq!((dir.as_str(), space.as_str(), three_d), ("bundle", "me/space", false));
        }
        other => panic!("unexpected plan {other:?}"),
    }
    a.files = vec!["input.bin".to_string()];
    assert!(matches!(run(&a), Ok(RunPlan::Render { .. })));
}

fn route(a: &Args) -> (Place, RenderRoute) {
    let dest = OutputDest::from_args(a).unwrap();
    assert_eq!(dest.kind(), DestKind::Bundle);
    let r = dispatch_render(&dest, a.stream, a.three_d).unwrap();
    let OutputDest::Bundle { place, .. } = dest;
    (place, r)
}

#[test]
fn output_takes_its_route() {
    let mut a = args();
    a.out = Some("dir".to_string());
    assert!(matches!(route(&a), (Place::UserDir { .. }, RenderRoute::TilesOnDisk)));
    a.stream = true;
    assert!(matches!(route(&a), (Place::UserDir { .. }, RenderRoute::TilesOnDisk)));
    a.out = Some("hf://me/vis".to_string());
    assert!(matches!(route(&a), (Place::Nowhere, RenderRoute::StreamToRepo)));
    a.three_d = true;
    assert!(matches!(route(&a), (Place::Staging, RenderRoute::VolumeOnDisk)));
    a.three_d = false;
    a.stream = false;
    assert!(matches!(route(&a), (Place::Staging, RenderRoute::TilesOnDisk)));
    a.out = None;
    a.space = Some("me/space".to_string());
    assert!(matches!(route(&a), (Place::Staging, RenderRoute::TilesOnDisk)));
    a.stream = true;
    assert!(matches!(route(&a), (Place::Nowhere, RenderRoute::StreamToSpace)));
}

#[test]
fn a_render_without_a_place_is_refused() {
    let nowhere = OutputDest::Bundle { place: Place::Nowhere, upload_hf: None, space: None };
    let e = dispatch_render(&nowhere, false, false).unwrap_err();
    assert_eq!(e, CliError::NoTilesDir);
    assert!(e.message().starts_with("internal: disk-backed tile render"));
    let e = dispatch_render(&nowhere, false, true).unwrap_err();
    assert_eq!(e, CliError::NoVolumeDir);
    assert!(e.message().starts_with("internal: 3D render"));
}

#[test]
fn inputs_are_resolved_as_the_flags_say() {
    let p = resolve_input_sources(false, false);
    assert!(p.download_first && !p.xet_terms && !p.materialize);
    let p = resolve_input_sources(true, false);
    assert!(!p.download_first && !p.xet_terms && !p.materialize);
    let p = resolve_input_sources(false, true);
    assert!(!p.download_first && p.xet_terms && p.materialize);
    assert_eq!(input_shape("a/b.bin").unwrap(), InputShape::LocalPath);
    assert_eq!(input_shape("hf://o/r").unwrap(), InputShape::Repo);
    assert_eq!(input_shape("hf://o/r/f.bin").unwrap(), InputShape::RemoteFile);
    assert!(input_shape("hf://o").is_err());
}

#[test]
fn file_lists_follow_the_positional_inputs() {
    let lines: Vec<String> = ["  b ", "", " \t", "c\r"].iter().map(|s| s.to_string()).collect();
    assert_eq!(collect_input_files(vec!["a".to_string()], &lines), ["a", "b", "c"]);
}

#[test]
fn tile_formats_come_in_pairs() {
    assert_eq!(TileFormatArg::default(), TileFormatArg::Avif);
    assert_eq!(
        TileFormatArg::Avif.split(),
        (
            TileFormat::Avif { quality: 100, speed: 8 },
            TileFormat::Avif { quality: 85, speed: 8 },
        )
    );
    assert_eq!(TileFormatArg::Png.split(), (TileFormat::Png, TileFormat::Png));
}

#[test]
fn hints_are_folded_into_the_config() {
    let mut a = args();
    a.tile_format = TileFormatArg::Png;
    let c = render_config(&a, ByteDiffProvider::hints(&pair()), "arbvis", LayoutMode::Auto);
    assert_eq!(c.title, "arbvis diff");
    assert!(c.diff_mode && !c.show_xet_xorbs);
    assert_eq!(c.leaf_format, TileFormat::Png);
    assert_eq!(c.grid_side, 128);
}
