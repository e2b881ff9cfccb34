//! What a diff of two files, directories or repositories puts on the canvas.

use vstd::prelude::*;
use vstd::string::StringExecFns;
use crate::format::types;
use crate::format::types::DiffFill;
use crate::json_diff;
use crate::json_diff::source::push_unmatched_file;
use crate::order;
use crate::order::sort_strings;
use crate::path;
use crate::path::{has_extension, is_json_path, sort_paths};
use crate::registry;
use crate::registry::choose_by_priority;
use crate::source;
use crate::source::{push_source, Source, SourceKind};
use crate::tensor_match;
use crate::tensor_match::{distinct_names, holds};
use crate::text;
use crate::text::{decimal_string, ends_with, str_eq};

verus! {

/// Why there is nothing to show.
#[derive(Debug)]
pub enum DiffError {
    SizesDiffer { orig_size: u64, mod_size: u64, original: String, modified: String },
    NoBuilder { original: String, modified: String },
    NoDirectoryPairs,
    NoRepoPairs,
    KindsDiffer { orig_kind: PathKind, mod_kind: PathKind },
}

/// What a path leads to.
#[derive(Debug, Clone, Copy, PartialEq, Eq, Structural)]
pub enum PathKind {
    File,
    Directory,
    Missing,
}

/// What is wrong with the two sides of a diff.
pub ghost enum DiffFault {
    SizesDiffer { orig_size: u64, mod_size: u64, original: Seq<char>, modified: Seq<char> },
    NoBuilder { original: Seq<char>, modified: Seq<char> },
    NoDirectoryPairs,
    NoRepoPairs,
    KindsDiffer { orig_kind: PathKind, mod_kind: PathKind },
}

impl View for DiffError {
    type V = DiffFault;

    open spec fn view(&self) -> DiffFault {
        match self {
            DiffError::SizesDiffer { orig_size, mod_size, original, modified } =>
                DiffFault::SizesDiffer {
                orig_size: *orig_size,
                mod_size: *mod_size,
                original: original@,
                modified: modified@,
            },
            DiffError::NoBuilder { original, modified } => DiffFault::NoBuilder {
                original: original@,
                modified: modified@,
            },
            DiffError::NoDirectoryPairs => DiffFault::NoDirectoryPairs,
            DiffError::NoRepoPairs => DiffFault::NoRepoPairs,
            DiffError::KindsDiffer { orig_kind, mod_kind } => DiffFault::KindsDiffer {
                orig_kind: *orig_kind,
                mod_kind: *mod_kind,
            },
        }
    }
}

/// The name of what a path leads to.
pub open spec fn kind_text(k: PathKind) -> Seq<char> {
    match k {
        PathKind::File => "file"@,
        PathKind::Directory => "directory"@,
        PathKind::Missing => "missing path"@,
    }
}

/// What is said of a fault.
pub open spec fn diff_message(f: DiffFault) -> Seq<char> {
    match f {
        DiffFault::SizesDiffer { orig_size, mod_size, original, modified } =>
            "--diff: file sizes differ ("@ + text::decimal(orig_size as nat) + " bytes vs "@
            + text::decimal(mod_size as nat) + " bytes): "@ + original + " vs "@ + modified,
        DiffFault::NoBuilder { original, modified } =>
            "--diff: no registered builder handled the input pair ("@ + original + " vs "@
            + modified + ")"@,
        DiffFault::NoDirectoryPairs =>
            "--diff: no matching file pairs found between the two directories"@,
        DiffFault::NoRepoPairs => "--diff: no matching file pairs found between the two repos"@,
        DiffFault::KindsDiffer { orig_kind, mod_kind } =>
            "--diff: both arguments must be files or both must be directories (got "@ + kind_text(
            orig_kind,
        ) + " and "@ + kind_text(mod_kind) + ")"@,
    }
}

impl PathKind {
    /// The name of what a path leads to.
    pub fn label(self) -> (s: &'static str)
        ensures
            s@ == kind_text(self),
    {
        match self {
            PathKind::File => "file",
            PathKind::Directory => "directory",
            PathKind::Missing => "missing path",
        }
    }
}

impl DiffError {
    /// What is said of the error.
    pub fn message(&self) -> (s: String)
        ensures
            s@ == diff_message(self@),
    {
        match self {
            DiffError::SizesDiffer { orig_size, mod_size, original, modified } => {
                "--diff: file sizes differ (".to_owned().concat(
                    decimal_string(*orig_size).as_str(),
                ).concat(" bytes vs ").concat(decimal_string(*mod_size).as_str()).concat(
                    " bytes): ",
                ).concat(original.as_str()).concat(" vs ").concat(modified.as_str())
            },
            DiffError::NoBuilder { original, modified } => {
                "--diff: no registered builder handled the input pair (".to_owned().concat(
                    original.as_str(),
                ).concat(" vs ").concat(modified.as_str()).concat(")")
            },
            DiffError::NoDirectoryPairs => {
                "--diff: no matching file pairs found between the two directories".to_owned()
            },
            DiffError::NoRepoPairs => {
                "--diff: no matching file pairs found between the two repos".to_owned()
            },
            DiffError::KindsDiffer { orig_kind, mod_kind } => {
                "--diff: both arguments must be files or both must be directories (got ".to_owned().concat(
                orig_kind.label()).concat(" and ").concat(mod_kind.label()).concat(")")
            },
        }
    }
}

/// Which way a diff goes.
#[derive(Debug, Clone, Copy, PartialEq, Eq, Structural)]
pub enum DiffRoute {
    FilePair,
    DirectoryPair,
}

/// Two files or two directories can be compared, nothing else.
pub fn diff_route(original: PathKind, modified: PathKind) -> (r: Result<DiffRoute, DiffError>)
    ensures
        match r {
            Ok(DiffRoute::FilePair) => original == PathKind::File && modified == PathKind::File,
            Ok(DiffRoute::DirectoryPair) => original == PathKind::Directory && modified
                == PathKind::Directory,
            Err(e) => e@ == (DiffFault::KindsDiffer {
                orig_kind: original,
                mod_kind: modified,
            }) && !(original
                == PathKind::File && modified == PathKind::File) && !(original
                == PathKind::Directory && modified == PathKind::Directory),
        },
{
    match (original, modified) {
        (PathKind::File, PathKind::File) => Ok(DiffRoute::FilePair),
        (PathKind::Directory, PathKind::Directory) => Ok(DiffRoute::DirectoryPair),
        _ => Err(DiffError::KindsDiffer { orig_kind: original, mod_kind: modified }),
    }
}

/// What a builder sees of a diff of two files.
#[derive(Debug)]
pub struct DiffBuildCtx {
    pub original: String,
    pub modified: String,
    pub is_finetune: bool,
}

/// Compares two files when the pair matches its shape.
pub trait DiffSourceBuilder {
    spec fn rank(&self) -> i32;

    spec fn handles(&self, original: Seq<char>, modified: Seq<char>) -> bool;

    /// Stable identifier for diagnostics.
    fn id(&self) -> &'static str;

    /// Selection priority; higher wins.
    fn priority(&self) -> (p: i32)
        ensures
            p == self.rank(),
    ;

    /// Whether the builder handles the pair.
    fn applies(&self, ctx: &DiffBuildCtx) -> (r: bool)
        ensures
            r == self.handles(ctx.original@, ctx.modified@),
    ;
}

/// Tensor by tensor, for two safetensors files.
#[derive(Debug, Clone, Copy, PartialEq, Eq, Structural)]
pub struct TensorDiffBuilder {}

/// JSON / JSONL structure-aware diff. Applies when both paths have a `.json` or
/// `.jsonl` extension.
#[derive(Debug, Clone, Copy, PartialEq, Eq, Structural)]
pub struct JsonDiffBuilder {}

/// Byte by byte. The floor of the builder priority stack.
#[derive(Debug, Clone, Copy, PartialEq, Eq, Structural)]
pub struct PlainBytesDiffBuilder {}

/// Whether a path names a JSON or JSONL file.
pub open spec fn is_json(p: Seq<char>) -> bool {
    path::extension(p) == Some("json"@) || path::extension(p) == Some("jsonl"@)
}

impl DiffSourceBuilder for TensorDiffBuilder {
    open spec fn rank(&self) -> i32 {
        300
    }

    open spec fn handles(&self, original: Seq<char>, modified: Seq<char>) -> bool {
        path::extension(original) == Some("safetensors"@) && path::extension(modified) == Some(
            "safetensors"@,
        )
    }

    fn id(&self) -> (s: &'static str)
        ensures
            s@ == "tensors"@,
    {
        "tensors"
    }

    fn priority(&self) -> (p: i32) {
        300
    }

    fn applies(&self, ctx: &DiffBuildCtx) -> (r: bool) {
        has_extension(ctx.original.as_str(), "safetensors") && has_extension(
            ctx.modified.as_str(),
            "safetensors",
        )
    }
}

impl DiffSourceBuilder for JsonDiffBuilder {
    open spec fn rank(&self) -> i32 {
        200
    }

    open spec fn handles(&self, original: Seq<char>, modified: Seq<char>) -> bool {
        is_json(original) && is_json(modified)
    }

    fn id(&self) -> (s: &'static str)
        ensures
            s@ == "json"@,
    {
        "json"
    }

    fn priority(&self) -> (p: i32) {
        200
    }

    fn applies(&self, ctx: &DiffBuildCtx) -> (r: bool) {
        is_json_path(ctx.original.as_str()) && is_json_path(ctx.modified.as_str())
    }
}

impl DiffSourceBuilder for PlainBytesDiffBuilder {
    open spec fn rank(&self) -> i32 {
        0
    }

    open spec fn handles(&self, original: Seq<char>, modified: Seq<char>) -> bool {
        true
    }

    fn id(&self) -> (s: &'static str)
        ensures
            s@ == "plain-bytes"@,
    {
        "plain-bytes"
    }

    fn priority(&self) -> (p: i32) {
        0
    }

    fn applies(&self, _ctx: &DiffBuildCtx) -> (r: bool) {
        true
    }
}

/// The built-in ways to compare two files.
#[derive(Debug, Clone, Copy, PartialEq, Eq, Structural)]
pub enum PairBuilder {
    Tensors(TensorDiffBuilder),
    Json(JsonDiffBuilder),
    PlainBytes(PlainBytesDiffBuilder),
}

impl DiffSourceBuilder for PairBuilder {
    open spec fn rank(&self) -> i32 {
        match self {
            PairBuilder::Tensors(b) => b.rank(),
            PairBuilder::Json(b) => b.rank(),
            PairBuilder::PlainBytes(b) => b.rank(),
        }
    }

    open spec fn handles(&self, original: Seq<char>, modified: Seq<char>) -> bool {
        match self {
            PairBuilder::Tensors(b) => b.handles(original, modified),
            PairBuilder::Json(b) => b.handles(original, modified),
            PairBuilder::PlainBytes(b) => b.handles(original, modified),
        }
    }

    fn id(&self) -> (s: &'static str)
        ensures
            s@ == (match self {
                PairBuilder::Tensors(_) => "tensors"@,
                PairBuilder::Json(_) => "json"@,
                PairBuilder::PlainBytes(_) => "plain-bytes"@,
            }),
    {
        match self {
            PairBuilder::Tensors(b) => b.id(),
            PairBuilder::Json(b) => b.id(),
            PairBuilder::PlainBytes(b) => b.id(),
        }
    }

    fn priority(&self) -> (p: i32) {
        match self {
            PairBuilder::Tensors(b) => b.priority(),
            PairBuilder::Json(b) => b.priority(),
            PairBuilder::PlainBytes(b) => b.priority(),
        }
    }

    fn applies(&self, ctx: &DiffBuildCtx) -> (r: bool) {
        match self {
            PairBuilder::Tensors(b) => b.applies(ctx),
            PairBuilder::Json(b) => b.applies(ctx),
            PairBuilder::PlainBytes(b) => b.applies(ctx),
        }
    }
}

/// The ranks of builders.
pub open spec fn builder_ranks<B: DiffSourceBuilder>(bs: Seq<B>) -> Seq<i32> {
    bs.map_values(|b: B| b.rank())
}

/// Which builders handle two paths.
pub open spec fn builders_applying<B: DiffSourceBuilder>(
    bs: Seq<B>,
    original: Seq<char>,
    modified: Seq<char>,
) -> Seq<bool> {
    bs.map_values(|b: B| b.handles(original, modified))
}

/// The builder that compares two files: the highest-ranking one that handles
/// them, an error where none does.
pub fn pick_builder<'a, B: DiffSourceBuilder>(builders: &'a Vec<B>, ctx: &DiffBuildCtx) -> (r:
    Result<&'a B, DiffError>)
    ensures
        match r {
            Ok(b) => exists|i: int| #[trigger]
                registry::is_choice(
                    builder_ranks(builders@),
                    builders_applying(builders@, ctx.original@, ctx.modified@),
                    i,
                ) && builders@[i] == *b,
            Err(e) => e@ == (DiffFault::NoBuilder {
                original: ctx.original@,
                modified: ctx.modified@,
            }) && forall|i: int|
                0 <= i < builders@.len() ==> !(#[trigger] builders@[i]).handles(
                    ctx.original@,
                    ctx.modified@,
                ),
        },
{
    let mut ranks: Vec<i32> = Vec::new();
    let mut applies: Vec<bool> = Vec::new();
    let ghost goal = builders_applying(builders@, ctx.original@, ctx.modified@);
    let mut i: usize = 0;
    while i < builders.len()
        invariant
            i <= builders@.len(),
            goal == builders_applying(builders@, ctx.original@, ctx.modified@),
            ranks@ == builder_ranks(builders@).take(i as int),
            applies@ == goal.take(i as int),
        decreases builders@.len() - i,
    {
        ranks.push(builders[i].priority());
        applies.push(builders[i].applies(ctx));
        i = i + 1;
        assert(ranks@ =~= builder_ranks(builders@).take(i as int));
        assert(applies@ =~= goal.take(i as int));
    }
    assert(ranks@ =~= builder_ranks(builders@));
    assert(applies@ =~= goal);
    match choose_by_priority(&ranks, &applies) {
        Some(k) => Ok(&builders[k]),
        None => {
            assert forall|j: int| 0 <= j < builders@.len() implies !(#[trigger] builders@[j]).handles(
                ctx.original@,
                ctx.modified@,
            ) by {
                assert(!applies@[j]);
            }
            Err(
                DiffError::NoBuilder {
                    original: ctx.original.clone(),
                    modified: ctx.modified.clone(),
                },
            )
        },
    }
}

/// Two files of one kind are compared as that kind: the built-ins send tensor
/// files, JSON files and all others to the builder made for them.
pub proof fn builtins_compare_by_kind(original: Seq<char>, modified: Seq<char>)
    ensures
        ({
            let t = PairBuilder::Tensors(TensorDiffBuilder {  });
            let j = PairBuilder::Json(JsonDiffBuilder {  });
            let p = PairBuilder::PlainBytes(PlainBytesDiffBuilder {  });
            registry::is_choice(
                builder_ranks(seq![t, j, p]),
                builders_applying(seq![t, j, p], original, modified),
                if t.handles(original, modified) {
                    0
                } else if j.handles(original, modified) {
                    1
                } else {
                    2
                },
            )
        }),
{
    let t = PairBuilder::Tensors(TensorDiffBuilder {  });
    let j = PairBuilder::Json(JsonDiffBuilder {  });
    let p = PairBuilder::PlainBytes(PlainBytesDiffBuilder {  });
    let applies = builders_applying(seq![t, j, p], original, modified);
    assert(applies =~= seq![t.handles(original, modified), j.handles(original, modified), true]);
    assert(builder_ranks(seq![t, j, p]) =~= seq![300i32, 200i32, 0i32]);
    let i: int = if t.handles(original, modified) {
        0
    } else if j.handles(original, modified) {
        1
    } else {
        2
    };
    assert(applies[i]);
}

/// Plain-byte diff of two files: one source over a same-sized pair, an error
/// where the sizes differ.
pub fn plain_bytes_diff(original: &str, modified: &str, orig_size: u64, mod_size: u64) -> (r: Result<
    (Vec<Source>, u64),
    DiffError,
>)
    ensures
        match r {
            Ok(p) => orig_size == mod_size && source::planned(
                p,
                json_diff::source::fallback_regions(
                    original@,
                    modified@,
                    orig_size as int,
                    mod_size as int,
                    false,
                ),
            ),
            Err(e) => orig_size != mod_size && e@ == (DiffFault::SizesDiffer {
                orig_size,
                mod_size,
                original: original@,
                modified: modified@,
            }),
        },
{
    if orig_size != mod_size {
        return Err(
            DiffError::SizesDiffer {
                orig_size,
                mod_size,
                original: original.to_owned(),
                modified: modified.to_owned(),
            },
        );
    }
    let mut out: Vec<Source> = Vec::new();
    let mut total: u64 = 0;
    assert(source::regions(out@) =~= seq![]);
    push_source(
        &mut out,
        &mut total,
        SourceKind::Diff { original: original.to_owned(), modified: modified.to_owned() },
        orig_size,
        None,
    );
    assert(source::regions(out@) =~= seq![
        source::plain_region(
            source::Storage::Diff { original: original@, modified: modified@ },
            orig_size,
            None,
        ),
    ]);
    Ok((out, total))
}

// ---- directories ----

/// A file below a directory: its path relative to the directory, where it lies,
/// and its size where that could be read.
#[derive(Debug)]
pub struct DirFile {
    pub rel: String,
    pub path: String,
    pub size: Option<u64>,
}

/// What a file below a directory stands for.
pub ghost struct DirEntry {
    pub rel: Seq<char>,
    pub path: Seq<char>,
    pub size: Option<u64>,
}

impl View for DirFile {
    type V = DirEntry;

    open spec fn view(&self) -> DirEntry {
        DirEntry { rel: self.rel@, path: self.path@, size: self.size }
    }
}

/// What files below a directory stand for.
pub open spec fn entries(v: Seq<DirFile>) -> Seq<DirEntry> {
    v.map_values(|f: DirFile| f@)
}

/// The relative paths of the files.
pub open spec fn rels(es: Seq<DirEntry>) -> Seq<Seq<char>> {
    es.map_values(|e: DirEntry| e.rel)
}

/// The file with a relative path; the last one where there are several.
pub open spec fn entry_at(es: Seq<DirEntry>, rel: Seq<char>) -> Option<DirEntry>
    decreases es.len(),
{
    if es.len() == 0 {
        None
    } else if es.last().rel == rel {
        Some(es.last())
    } else {
        entry_at(es.drop_last(), rel)
    }
}

/// How a pair of files with different sizes is shown.
#[derive(Debug, Clone, Copy, PartialEq, Eq, Structural)]
pub enum SizeRule {
    /// Each file by itself, as if it had no counterpart.
    Separate,
    /// Byte by byte, with zeros behind the shorter file.
    Pad,
}

/// What a file of the original's directory puts on the canvas.
pub open spec fn orig_entry_regions(
    o: Seq<DirEntry>,
    m: Seq<DirEntry>,
    rel: Seq<char>,
    rule: SizeRule,
    is_finetune: bool,
) -> Seq<source::Region> {
    match (entry_at(o, rel), entry_at(m, rel)) {
        (Some(fo), Some(fm)) => match (fo.size, fm.size) {
            (Some(so), Some(sm)) => pair_regions(fo.path, fm.path, rel, so, sm, rule, is_finetune),
            _ => seq![],
        },
        (Some(fo), None) => match fo.size {
            Some(so) => json_diff::source::unmatched_file(
                so as int,
                types::fill_of_original(is_finetune),
                "[only in original] "@,
                rel,
            ),
            None => seq![],
        },
        _ => seq![],
    }
}

/// What two files with one relative path put on the canvas.
pub open spec fn pair_regions(
    orig_path: Seq<char>,
    mod_path: Seq<char>,
    rel: Seq<char>,
    so: u64,
    sm: u64,
    rule: SizeRule,
    is_finetune: bool,
) -> Seq<source::Region> {
    match rule {
        SizeRule::Separate => if so == sm {
            seq![
                source::plain_region(
                    source::Storage::Diff { original: orig_path, modified: mod_path },
                    so,
                    None,
                ),
            ]
        } else {
            json_diff::source::unmatched_file(
                so as int,
                types::fill_of_original(is_finetune),
                "[only in original] "@,
                rel,
            ) + json_diff::source::unmatched_file(
                sm as int,
                DiffFill::Green,
                "[only in modified] "@,
                rel,
            )
        },
        SizeRule::Pad => {
            let size = if so >= sm {
                so
            } else {
                sm
            };
            if size == 0 {
                seq![]
            } else {
                seq![
                    source::plain_region(
                        source::Storage::Diff { original: orig_path, modified: mod_path },
                        size,
                        None,
                    ),
                ]
            }
        },
    }
}

/// What a file that only the modified directory has puts on the canvas.
pub open spec fn mod_entry_regions(m: Seq<DirEntry>, rel: Seq<char>) -> Seq<source::Region> {
    match entry_at(m, rel) {
        Some(fm) => match fm.size {
            Some(sm) => json_diff::source::unmatched_file(
                sm as int,
                DiffFill::Green,
                "[only in modified] "@,
                rel,
            ),
            None => seq![],
        },
        None => seq![],
    }
}

/// The stretches of the first `n` names of the original.
pub open spec fn orig_run(
    names: Seq<Seq<char>>,
    o: Seq<DirEntry>,
    m: Seq<DirEntry>,
    rule: SizeRule,
    is_finetune: bool,
    n: int,
) -> Seq<source::Region>
    decreases n,
{
    if n <= 0 {
        seq![]
    } else {
        orig_run(names, o, m, rule, is_finetune, n - 1) + orig_entry_regions(
            o,
            m,
            names[n - 1],
            rule,
            is_finetune,
        )
    }
}

/// The stretches of the first `n` names that only the modified side has.
pub open spec fn mod_run(
    names: Seq<Seq<char>>,
    o: Seq<DirEntry>,
    m: Seq<DirEntry>,
    n: int,
) -> Seq<source::Region>
    decreases n,
{
    if n <= 0 {
        seq![]
    } else {
        mod_run(names, o, m, n - 1) + if rels(o).contains(names[n - 1]) {
            seq![]
        } else {
            mod_entry_regions(m, names[n - 1])
        }
    }
}

/// The names of a directory in order, each once.
pub open spec fn names_in_order(es: Seq<DirEntry>) -> Seq<Seq<char>> {
    path::sorted_paths(tensor_match::distinct(rels(es)))
}

/// What the files of two directories put on the canvas: those of the original
/// in path order, each with its counterpart, then what only the modified
/// directory has.
pub open spec fn directory_regions(
    o: Seq<DirEntry>,
    m: Seq<DirEntry>,
    rule: SizeRule,
    is_finetune: bool,
) -> Seq<source::Region> {
    let on = names_in_order(o);
    let mn = names_in_order(m);
    orig_run(on, o, m, rule, is_finetune, on.len() as int) + mod_run(mn, o, m, mn.len() as int)
}

fn rel_names(es: &Vec<DirFile>) -> (r: Vec<String>)
    ensures
        order::texts(r@) == rels(entries(es@)),
{
    let mut out: Vec<String> = Vec::new();
    let mut i: usize = 0;
    while i < es.len()
        invariant
            i <= es@.len(),
            out@.len() == i,
            forall|j: int| 0 <= j < i ==> (#[trigger] out@[j])@ == es@[j].rel@,
        decreases es@.len() - i,
    {
        out.push(es[i].rel.clone());
        i = i + 1;
    }
    assert(order::texts(out@) =~= rels(entries(es@)));
    out
}

fn find_entry(es: &Vec<DirFile>, rel: &str) -> (r: Option<usize>)
    ensures
        match r {
            Some(i) => i < es@.len() && entry_at(entries(es@), rel@) == Some(es@[i as int]@),
            None => entry_at(entries(es@), rel@) is None,
        },
{
    let ghost all = entries(es@);
    let mut i: usize = es.len();
    assert(all.take(i as int) =~= all);
    while i > 0
        invariant
            i <= es@.len(),
            all == entries(es@),
            entry_at(all.take(i as int), rel@) == entry_at(all, rel@),
        decreases i,
    {
        assert(all.take(i as int).last() == es@[i - 1]@);
        if str_eq(es[i - 1].rel.as_str(), rel) {
            return Some(i - 1);
        }
        assert(all.take(i as int).drop_last() =~= all.take(i - 1));
        i = i - 1;
    }
    None
}

/// Appends what two files with one relative path put on the canvas.
fn push_pair(
    out: &mut Vec<Source>,
    total: &mut u64,
    fo: &DirFile,
    fm: &DirFile,
    rel: &str,
    so: u64,
    sm: u64,
    rule: SizeRule,
    is_finetune: bool,
)
    requires
        source::indexed(old(out)@),
        *old(total) == source::total_size(source::regions(old(out)@)),
        *old(total) + source::total_size(
            pair_regions(fo.path@, fm.path@, rel@, so, sm, rule, is_finetune),
        ) <= u64::MAX,
    ensures
        source::indexed(final(out)@),
        source::regions(final(out)@) == source::regions(old(out)@) + pair_regions(
            fo.path@,
            fm.path@,
            rel@,
            so,
            sm,
            rule,
            is_finetune,
        ),
        *final(total) == source::total_size(source::regions(final(out)@)),
{
    let ghost was = source::regions(out@);
    let ghost rs = pair_regions(fo.path@, fm.path@, rel@, so, sm, rule, is_finetune);
    let matched: bool = match rule {
        SizeRule::Separate => so == sm,
        SizeRule::Pad => true,
    };
    if matched {
        let size: u64 = if so >= sm {
            so
        } else {
            sm
        };
        let skip: bool = match rule {
            SizeRule::Separate => false,
            SizeRule::Pad => size == 0,
        };
        if !skip {
            let ghost r = source::plain_region(
                source::Storage::Diff { original: fo.path@, modified: fm.path@ },
                size,
                None,
            );
            proof {
                assert(rs =~= seq![r]);
                assert(seq![r].drop_last() =~= seq![]);
                reveal_with_fuel(source::total_size, 2);
            }
            push_source(
                out,
                total,
                SourceKind::Diff { original: fo.path.clone(), modified: fm.path.clone() },
                size,
                None,
            );
        }
        assert(source::regions(out@) =~= was + rs);
    } else {
        let fill = DiffFill::of_original(is_finetune);
        let ghost a = json_diff::source::unmatched_file(
            so as int,
            fill,
            "[only in original] "@,
            rel@,
        );
        let ghost b = json_diff::source::unmatched_file(
            sm as int,
            DiffFill::Green,
            "[only in modified] "@,
            rel@,
        );
        proof {
            lemma_unmatched_total(so, fill, "[only in original] "@, rel@);
            lemma_unmatched_total(sm, DiffFill::Green, "[only in modified] "@, rel@);
            source::lemma_total_concat(a, b);
        }
        push_unmatched_file(out, total, so, fill, "[only in original] ", rel);
        push_unmatched_file(out, total, sm, DiffFill::Green, "[only in modified] ", rel);
        assert(source::regions(out@) =~= was + rs);
    }
}

proof fn lemma_unmatched_total(size: u64, fill: DiffFill, prefix: Seq<char>, label: Seq<char>)
    ensures
        source::total_size(
            json_diff::source::unmatched_file(size as int, fill, prefix, label),
        ) == size,
{
    let rs = json_diff::source::unmatched_file(size as int, fill, prefix, label);
    reveal_with_fuel(source::total_size, 2);
    if size > 0 {
        assert(rs.drop_last() =~= seq![]);
    }
}

proof fn lemma_orig_run_prefix(
    names: Seq<Seq<char>>,
    o: Seq<DirEntry>,
    m: Seq<DirEntry>,
    rule: SizeRule,
    is_finetune: bool,
    i: int,
    n: int,
)
    requires
        0 <= i <= n,
    ensures
        source::total_size(orig_run(names, o, m, rule, is_finetune, i)) <= source::total_size(
            orig_run(names, o, m, rule, is_finetune, n),
        ),
    decreases n - i,
{
    if i < n {
        lemma_orig_run_prefix(names, o, m, rule, is_finetune, i, n - 1);
        source::lemma_total_concat(
            orig_run(names, o, m, rule, is_finetune, n - 1),
            orig_entry_regions(o, m, names[n - 1], rule, is_finetune),
        );
    }
}

proof fn lemma_mod_run_prefix(
    names: Seq<Seq<char>>,
    o: Seq<DirEntry>,
    m: Seq<DirEntry>,
    i: int,
    n: int,
)
    requires
        0 <= i <= n,
    ensures
        source::total_size(mod_run(names, o, m, i)) <= source::total_size(
            mod_run(names, o, m, n),
        ),
    decreases n - i,
{
    if i < n {
        lemma_mod_run_prefix(names, o, m, i, n - 1);
        source::lemma_total_concat(
            mod_run(names, o, m, n - 1),
            if rels(o).contains(names[n - 1]) {
                seq![]
            } else {
                mod_entry_regions(m, names[n - 1])
            },
        );
    }
}

/// Appends the files of the original's directory, each with its counterpart.
fn push_orig_run(
    out: &mut Vec<Source>,
    total: &mut u64,
    orig: &Vec<DirFile>,
    modified: &Vec<DirFile>,
    rule: SizeRule,
    is_finetune: bool,
)
    requires
        source::indexed(old(out)@),
        *old(total) == source::total_size(source::regions(old(out)@)),
        ({
            let o = entries(orig@);
            let on = names_in_order(o);
            *old(total) + source::total_size(
                orig_run(on, o, entries(modified@), rule, is_finetune, on.len() as int),
            ) <= u64::MAX
        }),
    ensures
        source::indexed(final(out)@),
        ({
            let o = entries(orig@);
            let on = names_in_order(o);
            source::regions(final(out)@) == source::regions(old(out)@) + orig_run(
                on,
                o,
                entries(modified@),
                rule,
                is_finetune,
                on.len() as int,
            )
        }),
        *final(total) == source::total_size(source::regions(final(out)@)),
{
    let ghost o = entries(orig@);
    let ghost m = entries(modified@);
    let names = sort_paths(distinct_names(&rel_names(orig)));
    let ghost on = names_in_order(o);
    let ghost was = source::regions(out@);
    let ghost before: int = *total as int;
    let mut i: usize = 0;
    assert(names@.len() == order::texts(names@).len());
    assert(was + seq![] =~= was);
    while i < names.len()
        invariant
            i <= names@.len(),
            o == entries(orig@),
            m == entries(modified@),
            on == order::texts(names@),
            on.len() == names@.len(),
            before == source::total_size(was),
            before + source::total_size(orig_run(on, o, m, rule, is_finetune, on.len() as int))
                <= u64::MAX,
            source::indexed(out@),
            source::regions(out@) == was + orig_run(on, o, m, rule, is_finetune, i as int),
            *total == source::total_size(source::regions(out@)),
        decreases names@.len() - i,
    {
        let ghost done = orig_run(on, o, m, rule, is_finetune, i as int);
        let ghost here = source::regions(out@);
        let ghost rs = orig_entry_regions(o, m, on[i as int], rule, is_finetune);
        proof {
            lemma_orig_run_prefix(on, o, m, rule, is_finetune, i + 1, on.len() as int);
            source::lemma_total_concat(was, done);
            source::lemma_total_concat(done, rs);
            assert(on[i as int] == names@[i as int]@);
        }
        let rel = names[i].as_str();
        if let Some(a) = find_entry(orig, rel) {
            match find_entry(modified, rel) {
                Some(b) => {
                    if let (Some(so), Some(sm)) = (orig[a].size, modified[b].size) {
                        push_pair(
                            out,
                            total,
                            &orig[a],
                            &modified[b],
                            rel,
                            so,
                            sm,
                            rule,
                            is_finetune,
                        );
                    }
                },
                None => {
                    if let Some(so) = orig[a].size {
                        proof {
                            lemma_unmatched_total(
                                so,
                                types::fill_of_original(is_finetune),
                                "[only in original] "@,
                                rel@,
                            );
                        }
                        push_unmatched_file(
                            out,
                            total,
                            so,
                            DiffFill::of_original(is_finetune),
                            "[only in original] ",
                            rel,
                        );
                    }
                },
            }
        }
        assert(source::regions(out@) =~= here + rs);
        assert(here + rs =~= was + (done + rs));
        i = i + 1;
    }
}

/// Appends what only the modified directory has.
fn push_mod_run(
    out: &mut Vec<Source>,
    total: &mut u64,
    orig: &Vec<DirFile>,
    modified: &Vec<DirFile>,
)
    requires
        source::indexed(old(out)@),
        *old(total) == source::total_size(source::regions(old(out)@)),
        ({
            let m = entries(modified@);
            let mn = names_in_order(m);
            *old(total) + source::total_size(mod_run(mn, entries(orig@), m, mn.len() as int))
                <= u64::MAX
        }),
    ensures
        source::indexed(final(out)@),
        ({
            let m = entries(modified@);
            let mn = names_in_order(m);
            source::regions(final(out)@) == source::regions(old(out)@) + mod_run(
                mn,
                entries(orig@),
                m,
                mn.len() as int,
            )
        }),
        *final(total) == source::total_size(source::regions(final(out)@)),
{
    let ghost o = entries(orig@);
    let ghost m = entries(modified@);
    let known = rel_names(orig);
    let names = sort_paths(distinct_names(&rel_names(modified)));
    let ghost mn = names_in_order(m);
    let ghost was = source::regions(out@);
    let ghost before: int = *total as int;
    let mut i: usize = 0;
    assert(names@.len() == order::texts(names@).len());
    assert(was + seq![] =~= was);
    while i < names.len()
        invariant
            i <= names@.len(),
            o == entries(orig@),
            m == entries(modified@),
            order::texts(known@) == rels(o),
            mn == order::texts(names@),
            mn.len() == names@.len(),
            before == source::total_size(was),
            before + source::total_size(mod_run(mn, o, m, mn.len() as int)) <= u64::MAX,
            source::indexed(out@),
            source::regions(out@) == was + mod_run(mn, o, m, i as int),
            *total == source::total_size(source::regions(out@)),
        decreases names@.len() - i,
    {
        let ghost done = mod_run(mn, o, m, i as int);
        let ghost here = source::regions(out@);
        let ghost rs = if rels(o).contains(mn[i as int]) {
            seq![]
        } else {
            mod_entry_regions(m, mn[i as int])
        };
        proof {
            lemma_mod_run_prefix(mn, o, m, i + 1, mn.len() as int);
            source::lemma_total_concat(was, done);
            source::lemma_total_concat(done, rs);
            assert(mn[i as int] == names@[i as int]@);
        }
        let rel = names[i].as_str();
        if !holds(&known, rel) {
            if let Some(b) = find_entry(modified, rel) {
                if let Some(sm) = modified[b].size {
                    proof {
                        lemma_unmatched_total(sm, DiffFill::Green, "[only in modified] "@, rel@);
                    }
                    push_unmatched_file(
                        out,
                        total,
                        sm,
                        DiffFill::Green,
                        "[only in modified] ",
                        rel,
                    );
                }
            }
        }
        assert(source::regions(out@) =~= here + rs);
        assert(here + rs =~= was + (done + rs));
        i = i + 1;
    }
}

/// Build diff sources from two directories: files are matched by relative path,
/// behind what was prepared for the files that are compared otherwise. Files
/// that could not be read are skipped; files without counterpart become
/// crosshatched regions so they remain visible.
pub fn directory_diff_sources(
    prepared: Vec<Source>,
    prepared_total: u64,
    orig: &Vec<DirFile>,
    modified: &Vec<DirFile>,
    rule: SizeRule,
    is_finetune: bool,
) -> (r: Result<(Vec<Source>, u64), DiffError>)
    requires
        source::planned((prepared, prepared_total), source::regions(prepared@)),
        prepared_total + source::total_size(
            directory_regions(entries(orig@), entries(modified@), rule, is_finetune),
        ) <= u64::MAX,
    ensures
        ({
            let all = source::regions(prepared@) + directory_regions(
                entries(orig@),
                entries(modified@),
                rule,
                is_finetune,
            );
            match r {
                Ok(p) => all.len() > 0 && source::planned(p, all),
                Err(e) => all.len() == 0 && e@ == DiffFault::NoDirectoryPairs,
            }
        }),
{
    let ghost o = entries(orig@);
    let ghost m = entries(modified@);
    let ghost was = source::regions(prepared@);
    let mut out = prepared;
    let mut total: u64 = prepared_total;
    let ghost a = orig_run(
        names_in_order(o),
        o,
        m,
        rule,
        is_finetune,
        names_in_order(o).len() as int,
    );
    let ghost b = mod_run(names_in_order(m), o, m, names_in_order(m).len() as int);
    proof {
        source::lemma_total_concat(a, b);
        source::lemma_total_concat(was, a);
    }
    push_orig_run(&mut out, &mut total, orig, modified, rule, is_finetune);
    push_mod_run(&mut out, &mut total, orig, modified);
    assert(source::regions(out@) =~= was + (a + b));
    assert(source::regions(out@).len() == out@.len());
    if out.len() == 0 {
        return Err(DiffError::NoDirectoryPairs);
    }
    Ok((out, total))
}

/// Whether a path names a safetensors file.
pub open spec fn is_tensor_file(e: DirEntry) -> bool {
    path::extension(e.path) == Some("safetensors"@)
}

/// Parts the files of a directory into those that are compared tensor by tensor
/// and the rest.
pub fn partition_tensor_files(files: Vec<DirFile>) -> (r: (Vec<DirFile>, Vec<DirFile>))
    ensures
        entries(r.0@) == entries(files@).filter(|e: DirEntry| is_tensor_file(e)),
        entries(r.1@) == entries(files@).filter(|e: DirEntry| !is_tensor_file(e)),
{
    let ghost all = entries(files@);
    let ghost yes = |e: DirEntry| is_tensor_file(e);
    let ghost no = |e: DirEntry| !is_tensor_file(e);
    let mut tensors: Vec<DirFile> = Vec::new();
    let mut rest: Vec<DirFile> = Vec::new();
    let mut i: usize = 0;
    proof {
        reveal(Seq::filter);
        assert(all.take(0) =~= seq![]);
        assert(entries(tensors@) =~= all.take(0).filter(yes));
        assert(entries(rest@) =~= all.take(0).filter(no));
    }
    while i < files.len()
        invariant
            i <= files@.len(),
            all == entries(files@),
            yes == (|e: DirEntry| is_tensor_file(e)),
            no == (|e: DirEntry| !is_tensor_file(e)),
            entries(tensors@) == all.take(i as int).filter(yes),
            entries(rest@) == all.take(i as int).filter(no),
        decreases files@.len() - i,
    {
        let f = &files[i];
        let ghost a = entries(tensors@);
        let ghost b = entries(rest@);
        proof {
            reveal(Seq::filter);
            assert(all.take(i + 1).drop_last() =~= all.take(i as int));
            assert(all.take(i + 1).last() == f@);
        }
        let c = DirFile { rel: f.rel.clone(), path: f.path.clone(), size: f.size };
        assert(c@ == f@);
        if has_extension(f.path.as_str(), "safetensors") {
            tensors.push(c);
            assert(entries(tensors@) =~= a.push(f@));
        } else {
            rest.push(c);
            assert(entries(rest@) =~= b.push(f@));
        }
        i = i + 1;
    }
    assert(all.take(i as int) =~= all);
    (tensors, rest)
}

// ---- repositories ----

/// What a remote file is to a diff: its name and size.
pub ghost struct RemoteEntry {
    pub name: Seq<char>,
    pub size: u64,
}

/// The files of a remote listing.
pub open spec fn remote_entries(v: Seq<(String, u64)>) -> Seq<RemoteEntry> {
    v.map_values(|e: (String, u64)| RemoteEntry { name: e.0@, size: e.1 })
}

/// Whether a remote file is compared tensor by tensor.
pub open spec fn is_tensor_name(name: Seq<char>) -> bool {
    text::ends(name, ".safetensors"@)
}

/// The names that are compared byte by byte.
pub open spec fn byte_names(es: Seq<RemoteEntry>) -> Seq<Seq<char>>
    decreases es.len(),
{
    if es.len() == 0 {
        seq![]
    } else if is_tensor_name(es.last().name) {
        byte_names(es.drop_last())
    } else {
        byte_names(es.drop_last()).push(es.last().name)
    }
}

/// The size of a listed file; that of the last one where there are several.
pub open spec fn listed_size(es: Seq<RemoteEntry>, name: Seq<char>) -> Option<u64>
    decreases es.len(),
{
    if es.len() == 0 {
        None
    } else if es.last().name == name {
        Some(es.last().size)
    } else {
        listed_size(es.drop_last(), name)
    }
}

/// Larger files are not downloaded for a byte diff.
pub const MAX_EAGER_SIZE: u64 = 16_777_216;

/// What becomes of the files of two repositories.
pub ghost struct RemoteSplit {
    /// Downloaded and compared byte by byte.
    pub jobs: Seq<Seq<char>>,
    /// Shown as present in the original only.
    pub orig_only: Seq<RemoteEntry>,
    /// Shown as present in the modified repository only.
    pub mod_only: Seq<RemoteEntry>,
}

/// An entry, unless it is empty.
pub open spec fn non_empty(name: Seq<char>, size: u64) -> Seq<RemoteEntry> {
    if size > 0 {
        seq![RemoteEntry { name, size }]
    } else {
        seq![]
    }
}

/// What becomes of the first `n` names of the original: without counterpart or
/// with one of another size it stands alone, as does one too large to download.
pub open spec fn split_orig(
    names: Seq<Seq<char>>,
    o: Seq<RemoteEntry>,
    m: Seq<RemoteEntry>,
    n: int,
) -> RemoteSplit
    decreases n,
{
    if n <= 0 {
        RemoteSplit { jobs: seq![], orig_only: seq![], mod_only: seq![] }
    } else {
        let s = split_orig(names, o, m, n - 1);
        let name = names[n - 1];
        let so = listed_size(o, name)->0;
        match listed_size(m, name) {
            None => RemoteSplit { orig_only: s.orig_only + non_empty(name, so), ..s },
            Some(sm) => if so != sm {
                RemoteSplit {
                    orig_only: s.orig_only + non_empty(name, so),
                    mod_only: s.mod_only + non_empty(name, sm),
                    ..s
                }
            } else if so > MAX_EAGER_SIZE {
                RemoteSplit { orig_only: s.orig_only + non_empty(name, so), ..s }
            } else {
                RemoteSplit { jobs: s.jobs.push(name), ..s }
            },
        }
    }
}

/// The files that only the modified repository has, among the first `n` names.
pub open spec fn split_mod(
    names: Seq<Seq<char>>,
    o: Seq<RemoteEntry>,
    m: Seq<RemoteEntry>,
    n: int,
) -> Seq<RemoteEntry>
    decreases n,
{
    if n <= 0 {
        seq![]
    } else {
        let before = split_mod(names, o, m, n - 1);
        if byte_names(o).contains(names[n - 1]) {
            before
        } else {
            before + non_empty(names[n - 1], listed_size(m, names[n - 1])->0)
        }
    }
}

/// Entries ordered by name.
pub open spec fn by_name(es: Seq<RemoteEntry>) -> Seq<RemoteEntry> {
    order::stable_sort(es, |a: RemoteEntry, b: RemoteEntry| order::text_le(a.name, b.name))
}

/// What becomes of the files of two repositories, safetensors files apart.
pub open spec fn remote_split(o: Seq<RemoteEntry>, m: Seq<RemoteEntry>) -> RemoteSplit {
    let on = order::sorted_texts(tensor_match::distinct(byte_names(o)));
    let mn = order::sorted_texts(tensor_match::distinct(byte_names(m)));
    let s = split_orig(on, o, m, on.len() as int);
    RemoteSplit {
        jobs: s.jobs,
        orig_only: by_name(s.orig_only),
        mod_only: by_name(s.mod_only + split_mod(mn, o, m, mn.len() as int)),
    }
}

/// What becomes of the files of two repositories.
#[derive(Debug)]
pub struct RemoteDiffPlan {
    /// Names of the files to download and compare byte by byte.
    pub jobs: Vec<String>,
    /// Files shown as present in the original only, with their sizes.
    pub orig_only: Vec<(String, u64)>,
    /// Files shown as present in the modified repository only, with their sizes.
    pub mod_only: Vec<(String, u64)>,
}

impl View for RemoteDiffPlan {
    type V = RemoteSplit;

    open spec fn view(&self) -> RemoteSplit {
        RemoteSplit {
            jobs: order::texts(self.jobs@),
            orig_only: remote_entries(self.orig_only@),
            mod_only: remote_entries(self.mod_only@),
        }
    }
}

fn byte_file_names(es: &Vec<(String, u64)>) -> (r: Vec<String>)
    ensures
        order::texts(r@) == byte_names(remote_entries(es@)),
{
    let ghost all = remote_entries(es@);
    let mut out: Vec<String> = Vec::new();
    let mut i: usize = 0;
    assert(all.take(0) =~= seq![]);
    assert(order::texts(out@) =~= seq![]);
    while i < es.len()
        invariant
            i <= es@.len(),
            all == remote_entries(es@),
            order::texts(out@) == byte_names(all.take(i as int)),
        decreases es@.len() - i,
    {
        assert(all.take(i + 1).drop_last() =~= all.take(i as int));
        assert(all.take(i + 1).last() == (RemoteEntry {
            name: es@[i as int].0@,
            size: es@[i as int].1,
        }));
        if !ends_with(es[i].0.as_str(), ".safetensors") {
            let ghost was = order::texts(out@);
            out.push(es[i].0.clone());
            assert(order::texts(out@) =~= was.push(es@[i as int].0@));
        }
        i = i + 1;
    }
    assert(all.take(i as int) =~= all);
    out
}

fn size_of_listed(es: &Vec<(String, u64)>, name: &str) -> (r: Option<u64>)
    ensures
        r == listed_size(remote_entries(es@), name@),
{
    let ghost all = remote_entries(es@);
    let mut i: usize = es.len();
    assert(all.take(i as int) =~= all);
    while i > 0
        invariant
            i <= es@.len(),
            all == remote_entries(es@),
            listed_size(all.take(i as int), name@) == listed_size(all, name@),
        decreases i,
    {
        assert(all.take(i as int).last() == (RemoteEntry {
            name: es@[i - 1].0@,
            size: es@[i - 1].1,
        }));
        if str_eq(es[i - 1].0.as_str(), name) {
            return Some(es[i - 1].1);
        }
        assert(all.take(i as int).drop_last() =~= all.take(i - 1));
        i = i - 1;
    }
    None
}

proof fn lemma_byte_names_listed(es: Seq<RemoteEntry>, name: Seq<char>)
    ensures
        byte_names(es).contains(name) ==> listed_size(es, name) is Some,
    decreases es.len(),
{
    if es.len() > 0 {
        let init = es.drop_last();
        lemma_byte_names_listed(init, name);
        if byte_names(es).contains(name) && es.last().name != name {
            let i = choose|i: int| 0 <= i < byte_names(es).len() && byte_names(es)[i] == name;
            if !is_tensor_name(es.last().name) {
                assert(byte_names(init)[i] == name);
            }
            assert(byte_names(init).contains(name));
        }
    }
}

/// The names of the byte-compared files in order all are listed.
proof fn lemma_names_listed(es: Seq<RemoteEntry>, i: int)
    requires
        0 <= i < order::sorted_texts(tensor_match::distinct(byte_names(es))).len(),
    ensures
        listed_size(
            es,
            order::sorted_texts(tensor_match::distinct(byte_names(es)))[i],
        ) is Some,
{
    let ds = tensor_match::distinct(byte_names(es));
    let names = order::sorted_texts(ds);
    order::stable_sort_permutes(ds, |a: Seq<char>, b: Seq<char>| order::text_le(a, b));
    names.to_multiset_ensures();
    ds.to_multiset_ensures();
    assert(names.contains(names[i]));
    assert(names.to_multiset().count(names[i]) > 0);
    assert(ds.contains(names[i]));
    tensor_match::lemma_distinct_contains(byte_names(es), names[i]);
    lemma_byte_names_listed(es, names[i]);
}

fn push_listed(out: &mut Vec<(String, u64)>, name: &str, size: u64)
    ensures
        remote_entries(final(out)@) == remote_entries(old(out)@) + non_empty(name@, size),
{
    let ghost was = remote_entries(out@);
    if size > 0 {
        out.push((name.to_owned(), size));
    }
    assert(remote_entries(out@) =~= was + non_empty(name@, size));
}

fn listed_before(a: &(String, u64), b: &(String, u64)) -> (r: bool)
    ensures
        r == order::text_le(a.0@, b.0@),
{
    order::str_le(a.0.as_str(), b.0.as_str())
}

fn sort_listed(v: Vec<(String, u64)>) -> (r: Vec<(String, u64)>)
    ensures
        remote_entries(r@) == by_name(remote_entries(v@)),
{
    let ghost le = |a: (String, u64), b: (String, u64)| order::text_le(a.0@, b.0@);
    proof {
        order::stable_sort_map(
            v@,
            le,
            |e: (String, u64)| RemoteEntry { name: e.0@, size: e.1 },
            |a: RemoteEntry, b: RemoteEntry| order::text_le(a.name, b.name),
        );
    }
    order::sort_by(v, listed_before, Ghost(le))
}

/// Part the files of two repositories, safetensors files apart: small files of
/// one size on both sides are compared byte by byte, everything else is shown
/// as present on one side only.
pub fn plan_remote_diff(orig: &Vec<(String, u64)>, modified: &Vec<(String, u64)>) -> (r:
    RemoteDiffPlan)
    ensures
        r@ == remote_split(remote_entries(orig@), remote_entries(modified@)),
{
    let ghost o = remote_entries(orig@);
    let ghost m = remote_entries(modified@);
    let known = byte_file_names(orig);
    let on = sort_strings(distinct_names(&known));
    let mn = sort_strings(distinct_names(&byte_file_names(modified)));
    let ghost ons = order::texts(on@);
    let ghost mns = order::texts(mn@);
    let mut jobs: Vec<String> = Vec::new();
    let mut orig_only: Vec<(String, u64)> = Vec::new();
    let mut mod_only: Vec<(String, u64)> = Vec::new();
    let mut i: usize = 0;
    assert(order::texts(jobs@) =~= seq![]);
    assert(remote_entries(orig_only@) =~= seq![]);
    assert(remote_entries(mod_only@) =~= seq![]);
    assert(on@.len() == ons.len());
    assert(mn@.len() == mns.len());
    while i < on.len()
        invariant
            i <= on@.len(),
            o == remote_entries(orig@),
            m == remote_entries(modified@),
            ons == order::texts(on@),
            ons == order::sorted_texts(tensor_match::distinct(byte_names(o))),
            on@.len() == ons.len(),
            (RemoteSplit {
                jobs: order::texts(jobs@),
                orig_only: remote_entries(orig_only@),
                mod_only: remote_entries(mod_only@),
            }) == split_orig(ons, o, m, i as int),
        decreases on@.len() - i,
    {
        let name = on[i].as_str();
        proof {
            lemma_names_listed(o, i as int);
            assert(ons[i as int] == on@[i as int]@);
        }
        if let Some(so) = size_of_listed(orig, name) {
            match size_of_listed(modified, name) {
                None => push_listed(&mut orig_only, name, so),
                Some(sm) => {
                    if so != sm {
                        push_listed(&mut orig_only, name, so);
                        push_listed(&mut mod_only, name, sm);
                    } else if so > MAX_EAGER_SIZE {
                        push_listed(&mut orig_only, name, so);
                    } else {
                        let ghost was = order::texts(jobs@);
                        jobs.push(name.to_owned());
                        assert(order::texts(jobs@) =~= was.push(ons[i as int]));
                    }
                },
            }
        }
        i = i + 1;
    }
    let ghost first = remote_entries(mod_only@);
    let mut j: usize = 0;
    assert(first + seq![] =~= first);
    while j < mn.len()
        invariant
            j <= mn@.len(),
            o == remote_entries(orig@),
            m == remote_entries(modified@),
            mns == order::texts(mn@),
            mns == order::sorted_texts(tensor_match::distinct(byte_names(m))),
            mn@.len() == mns.len(),
            order::texts(known@) == byte_names(o),
            remote_entries(mod_only@) == first + split_mod(mns, o, m, j as int),
        decreases mn@.len() - j,
    {
        let name = mn[j].as_str();
        let ghost was = remote_entries(mod_only@);
        proof {
            lemma_names_listed(m, j as int);
            assert(mns[j as int] == mn@[j as int]@);
        }
        if !holds(&known, name) {
            if let Some(sm) = size_of_listed(modified, name) {
                push_listed(&mut mod_only, name, sm);
            }
        }
        assert(remote_entries(mod_only@) =~= first + split_mod(mns, o, m, j + 1));
        j = j + 1;
    }
    RemoteDiffPlan { jobs, orig_only: sort_listed(orig_only), mod_only: sort_listed(mod_only) }
}

/// A file that was downloaded and compared.
pub ghost struct Compared {
    pub name: Seq<char>,
    pub bytes: Seq<u8>,
}

/// The compared files.
pub open spec fn compared(v: Seq<(String, Vec<u8>)>) -> Seq<Compared> {
    v.map_values(|d: (String, Vec<u8>)| Compared { name: d.0@, bytes: d.1@ })
}

/// The stretch of a compared file.
pub open spec fn compared_region(c: Compared) -> source::Region {
    source::plain_region(source::Storage::Buffered(c.bytes), c.bytes.len() as u64, Some(c.name))
}

/// Compared files ordered by name.
pub open spec fn compared_by_name(cs: Seq<Compared>) -> Seq<Compared> {
    order::stable_sort(cs, |a: Compared, b: Compared| order::text_le(a.name, b.name))
}

/// The stretches of files that only one side has.
pub open spec fn one_sided_regions(
    es: Seq<RemoteEntry>,
    fill: DiffFill,
    prefix: Seq<char>,
) -> Seq<source::Region> {
    es.map_values(
        |e: RemoteEntry|
            source::plain_region(
                source::Storage::UnmatchedRegion { fill },
                e.size,
                Some(prefix + e.name),
            ),
    )
}

/// What the files of two repositories put on the canvas.
pub open spec fn remote_regions(
    cs: Seq<Compared>,
    s: RemoteSplit,
    is_finetune: bool,
) -> Seq<source::Region> {
    compared_by_name(cs).map_values(|c: Compared| compared_region(c)) + one_sided_regions(
        s.orig_only,
        types::fill_of_original(is_finetune),
        "[only in original] "@,
    ) + one_sided_regions(s.mod_only, DiffFill::Green, "[only in modified] "@)
}

fn compared_before(a: &(String, Vec<u8>), b: &(String, Vec<u8>)) -> (r: bool)
    ensures
        r == order::text_le(a.0@, b.0@),
{
    order::str_le(a.0.as_str(), b.0.as_str())
}

proof fn lemma_total_prefix(rs: Seq<source::Region>, n: int)
    requires
        0 <= n <= rs.len(),
    ensures
        source::total_size(rs.take(n)) <= source::total_size(rs),
{
    assert(rs.take(n) + rs.skip(n) =~= rs);
    source::lemma_total_concat(rs.take(n), rs.skip(n));
}

/// Appends files that only one side has.
fn push_one_sided(
    out: &mut Vec<Source>,
    total: &mut u64,
    es: &Vec<(String, u64)>,
    fill: DiffFill,
    prefix: &str,
)
    requires
        source::indexed(old(out)@),
        *old(total) == source::total_size(source::regions(old(out)@)),
        *old(total) + source::total_size(
            one_sided_regions(remote_entries(es@), fill, prefix@),
        ) <= u64::MAX,
    ensures
        source::indexed(final(out)@),
        source::regions(final(out)@) == source::regions(old(out)@) + one_sided_regions(
            remote_entries(es@),
            fill,
            prefix@,
        ),
        *final(total) == source::total_size(source::regions(final(out)@)),
{
    let ghost was = source::regions(out@);
    let ghost rs = one_sided_regions(remote_entries(es@), fill, prefix@);
    let mut i: usize = 0;
    assert(was + rs.take(0) =~= was);
    while i < es.len()
        invariant
            i <= es@.len(),
            rs == one_sided_regions(remote_entries(es@), fill, prefix@),
            rs.len() == es@.len(),
            source::total_size(was) + source::total_size(rs) <= u64::MAX,
            source::indexed(out@),
            source::regions(out@) == was + rs.take(i as int),
            *total == source::total_size(source::regions(out@)),
        decreases es@.len() - i,
    {
        proof {
            lemma_total_prefix(rs, i + 1);
            assert(rs.take(i + 1).drop_last() =~= rs.take(i as int));
            source::lemma_total_concat(was, rs.take(i as int));
        }
        push_source(
            out,
            total,
            SourceKind::UnmatchedRegion { fill },
            es[i].1,
            Some(prefix.to_owned().concat(es[i].0.as_str())),
        );
        assert(source::regions(out@) =~= was + rs.take(i + 1));
        i = i + 1;
    }
    assert(rs.take(i as int) =~= rs);
}

/// Build diff sources from two repositories: what was prepared for the
/// safetensors files, then the downloaded diffs by name, then the files that
/// only one side has.
pub fn remote_diff_sources(
    prepared: Vec<Source>,
    prepared_total: u64,
    diffs: Vec<(String, Vec<u8>)>,
    plan: &RemoteDiffPlan,
    is_finetune: bool,
) -> (r: Result<(Vec<Source>, u64), DiffError>)
    requires
        source::planned((prepared, prepared_total), source::regions(prepared@)),
        prepared_total + source::total_size(
            remote_regions(compared(diffs@), plan@, is_finetune),
        ) <= u64::MAX,
    ensures
        ({
            let all = source::regions(prepared@) + remote_regions(
                compared(diffs@),
                plan@,
                is_finetune,
            );
            match r {
                Ok(p) => all.len() > 0 && source::planned(p, all),
                Err(e) => all.len() == 0 && e@ == DiffFault::NoRepoPairs,
            }
        }),
{
    let ghost was = source::regions(prepared@);
    let ghost le = |a: (String, Vec<u8>), b: (String, Vec<u8>)| order::text_le(a.0@, b.0@);
    let ghost cs = compared_by_name(compared(diffs@));
    proof {
        order::stable_sort_map(
            diffs@,
            le,
            |d: (String, Vec<u8>)| Compared { name: d.0@, bytes: d.1@ },
            |a: Compared, b: Compared| order::text_le(a.name, b.name),
        );
    }
    let sorted = order::sort_by(diffs, compared_before, Ghost(le));
    assert(compared(sorted@) == cs);
    let ghost rs = cs.map_values(|c: Compared| compared_region(c));
    let ghost a = one_sided_regions(
        plan@.orig_only,
        types::fill_of_original(is_finetune),
        "[only in original] "@,
    );
    let ghost b = one_sided_regions(plan@.mod_only, DiffFill::Green, "[only in modified] "@);
    proof {
        source::lemma_total_concat(rs, a);
        source::lemma_total_concat(rs + a, b);
        source::lemma_total_concat(was, rs);
        source::lemma_total_concat(was + rs, a);
        assert(rs.len() == sorted@.len());
    }
    let mut out = prepared;
    let mut total: u64 = prepared_total;
    let mut i: usize = 0;
    assert(was + rs.take(0) =~= was);
    while i < sorted.len()
        invariant
            i <= sorted@.len(),
            compared(sorted@) == cs,
            rs == cs.map_values(|c: Compared| compared_region(c)),
            rs.len() == sorted@.len(),
            source::total_size(was) + source::total_size(rs) <= u64::MAX,
            source::indexed(out@),
            source::regions(out@) == was + rs.take(i as int),
            total == source::total_size(source::regions(out@)),
        decreases sorted@.len() - i,
    {
        proof {
            lemma_total_prefix(rs, i + 1);
            assert(rs.take(i + 1).drop_last() =~= rs.take(i as int));
            source::lemma_total_concat(was, rs.take(i as int));
            assert(cs[i as int] == (Compared {
                name: sorted@[i as int].0@,
                bytes: sorted@[i as int].1@,
            }));
        }
        let bytes = copy_bytes(&sorted[i].1);
        let size: u64 = bytes.len() as u64;
        let name = sorted[i].0.clone();
        push_source(&mut out, &mut total, SourceKind::Buffered(bytes), size, Some(name));
        assert(source::regions(out@) =~= was + rs.take(i + 1));
        i = i + 1;
    }
    assert(rs.take(i as int) =~= rs);
    push_one_sided(
        &mut out,
        &mut total,
        &plan.orig_only,
        DiffFill::of_original(is_finetune),
        "[only in original] ",
    );
    push_one_sided(&mut out, &mut total, &plan.mod_only, DiffFill::Green, "[only in modified] ");
    assert(source::regions(out@) =~= was + (rs + a + b));
    assert(source::regions(out@).len() == out@.len());
    if out.len() == 0 {
        return Err(DiffError::NoRepoPairs);
    }
    Ok((out, total))
}

fn copy_bytes(v: &Vec<u8>) -> (c: Vec<u8>)
    ensures
        c@ == v@,
{
    let mut c: Vec<u8> = Vec::new();
    c.extend_from_slice(v.as_slice());
    assert(c@ =~= v@);
    c
}

} // verus!
