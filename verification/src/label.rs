//! Where the name of a file is written on its part of the image.

use vstd::prelude::*;
use vstd::string::StringExecFns;
use crate::path;
use crate::path::file_name_or_empty;
use crate::text::{chars_of, text_of};

verus! {

/// The low 32 bits.
pub open spec fn low32(n: int) -> int {
    n % 0x1_0000_0000
}

/// The hash of a grid cell.
pub open spec fn cell_hash(i: u32, j: u32) -> int {
    low32(low32(i * 2654435761) + low32(j * 2246822519))
}

/// Deterministic per-cell jitter for label positions.
/// Returns (jx, jy, neg_x, neg_y) where jx,jy ∈ 0..=100.
pub fn jitter(i: u32, j: u32) -> (r: (u32, u32, bool, bool))
    ensures
        ({
            let h = cell_hash(i, j);
            &&& r.0 == h % 0x100 % 101
            &&& r.1 == h / 0x100 % 0x100 % 101
            &&& r.2 == (h / 0x1_0000 % 2 == 1)
            &&& r.3 == (h / 0x2_0000 % 2 == 1)
        }),
        r.0 <= 100,
        r.1 <= 100,
{
    let h: u32 = i.wrapping_mul(2654435761).wrapping_add(j.wrapping_mul(2246822519));
    assert(h == cell_hash(i, j));
    (h % 0x100 % 101, h / 0x100 % 0x100 % 101, h / 0x1_0000 % 2 == 1, h / 0x2_0000 % 2 == 1)
}

/// The name of a file, cut behind 40 characters.
pub open spec fn label_of(path: Seq<char>) -> Seq<char> {
    let raw = match path::file_name(path) {
        Some(n) => n,
        None => seq![],
    };
    if raw.len() > 40 {
        raw.take(40) + "…"@
    } else {
        raw
    }
}

/// The name of a file, cut behind 40 characters.
pub fn label_text(path: &str) -> (s: String)
    ensures
        s@ == label_of(path@),
{
    let raw = file_name_or_empty(path);
    let v = chars_of(raw.as_str());
    if v.len() > 40 {
        assert(v@.subrange(0, 40) =~= v@.take(40));
        text_of(&v, 0, 40).concat("…")
    } else {
        raw
    }
}

/// What a label is placed in: the box of the file, the size of the label's box,
/// and the owners of the pixels.
pub ghost struct Room {
    pub x0: int,
    pub y0: int,
    pub x1: int,
    pub y1: int,
    pub w: int,
    pub h: int,
    pub owner: Seq<Option<usize>>,
    pub side: int,
    pub file: usize,
}

/// Every pixel of the label's box at `(x, y)` belongs to the file.
pub open spec fn owned(r: Room, x: int, y: int) -> bool {
    forall|px: int, py: int|
        x <= px < x + r.w && y <= py < y + r.h ==> r.owner[#[trigger] at(r.side, px, py)] == Some(
            r.file,
        )
}

/// The index of a pixel.
pub open spec fn at(side: int, x: int, y: int) -> int {
    y * side + x
}

/// A label can be placed at `(x, y)`: its box lies within that of the file, and
/// on pixels of the file only.
pub open spec fn fits(r: Room, x: int, y: int) -> bool {
    &&& r.x0 <= x
    &&& r.y0 <= y
    &&& x + r.w - 1 <= r.x1
    &&& y + r.h - 1 <= r.y1
    &&& owned(r, x, y)
}

/// The place of the grid cell `(i, j)`, moved by its jitter.
pub open spec fn cell_place(r: Room, i: int, j: int) -> (int, int) {
    let h = cell_hash(i as u32, j as u32);
    let left = r.x0 + 20 + 512 * i;
    let top = r.y0 + 20 + 512 * j;
    let jx = h % 0x100 % 101;
    let jy = h / 0x100 % 0x100 % 101;
    (
        if h / 0x1_0000 % 2 == 1 {
            down(left, jx)
        } else {
            left + jx
        },
        if h / 0x2_0000 % 2 == 1 {
            down(top, jy)
        } else {
            top + jy
        },
    )
}

/// A difference that does not go below 0.
pub open spec fn down(a: int, b: int) -> int {
    if a > b {
        a - b
    } else {
        0
    }
}

/// How many grid cells start early enough for a label.
pub open spec fn cells(start: int, len: int, end: int) -> int {
    if start + 20 + len - 1 > end {
        0
    } else {
        (end - (start + 20 + len - 1)) / 512 + 1
    }
}

/// The labels on the first `n` cells of a row of the grid.
pub open spec fn row_labels(r: Room, j: int, n: int) -> Seq<(int, int)>
    decreases n,
{
    if n <= 0 {
        seq![]
    } else {
        let before = row_labels(r, j, n - 1);
        let (x, y) = cell_place(r, n - 1, j);
        if fits(r, x, y) {
            before.push((x, y))
        } else {
            before
        }
    }
}

/// The labels on the first `m` rows of the grid.
pub open spec fn grid_labels(r: Room, m: int) -> Seq<(int, int)>
    decreases m,
{
    if m <= 0 {
        seq![]
    } else {
        grid_labels(r, m - 1) + row_labels(r, m - 1, cells(r.x0, r.w, r.x1))
    }
}

/// The corner at which a label fits: upper right, lower left, lower right.
pub open spec fn corner(r: Room) -> Option<(int, int)> {
    let right = down(r.x1 + 1, r.w + 20);
    let low = down(r.y1 + 1, r.h + 20);
    if fits(r, right, r.y0 + 20) {
        Some((right, r.y0 + 20))
    } else if fits(r, r.x0 + 20, low) {
        Some((r.x0 + 20, low))
    } else if fits(r, right, low) {
        Some((right, low))
    } else {
        None
    }
}

/// The first place in a row, from `x` on in steps of 8, where a label fits.
pub open spec fn scan_row(r: Room, x: int, y: int) -> Option<(int, int)>
    decreases down(r.x1 + 1, r.w) + 8 - x,
{
    if x > down(r.x1 + 1, r.w) {
        None
    } else if fits(r, x, y) {
        Some((x, y))
    } else {
        scan_row(r, x + 8, y)
    }
}

/// The first place, row by row from `y` on in steps of 8, where a label fits.
pub open spec fn scan(r: Room, y: int) -> Option<(int, int)>
    decreases down(r.y1 + 1, r.h) + 8 - y,
{
    if y > down(r.y1 + 1, r.h) {
        None
    } else {
        match scan_row(r, r.x0, y) {
            Some(p) => Some(p),
            None => scan(r, y + 8),
        }
    }
}

/// Where the labels of a file are written: on a jittered grid, else in a corner,
/// else at the first place that a coarse scan finds.
pub open spec fn label_places(r: Room) -> Seq<(int, int)> {
    let grid = grid_labels(r, cells(r.y0, r.h, r.y1));
    if grid.len() > 0 {
        grid
    } else {
        match corner(r) {
            Some(p) => seq![p],
            None => match scan(r, r.y0) {
                Some(p) => seq![p],
                None => seq![],
            },
        }
    }
}

/// The pixels of one file and the size of its label.
#[derive(Debug, Clone, Copy)]
pub struct LabelBox {
    pub file_idx: usize,
    /// Box of the file: first and last column and row.
    pub x0: u32,
    pub y0: u32,
    pub x1: u32,
    pub y1: u32,
    /// Size of the label's box.
    pub width: u32,
    pub height: u32,
    /// Side of the image.
    pub side: u32,
}

/// The room of a label.
pub open spec fn room(b: LabelBox, owner: Seq<Option<usize>>) -> Room {
    Room {
        x0: b.x0 as int,
        y0: b.y0 as int,
        x1: b.x1 as int,
        y1: b.y1 as int,
        w: b.width as int,
        h: b.height as int,
        owner,
        side: b.side as int,
        file: b.file_idx,
    }
}

/// The box lies in the image, and positions in and round it fit 32 bits.
pub open spec fn valid(b: LabelBox, owner: Seq<Option<usize>>) -> bool {
    &&& b.x0 <= b.x1 < b.side
    &&& b.y0 <= b.y1 < b.side
    &&& b.side <= 0x1000_0000
    &&& 0 < b.width <= 0x1000_0000
    &&& 0 < b.height <= 0x1000_0000
    &&& owner.len() == b.side * b.side
}

proof fn lemma_at(side: int, x: int, y: int)
    requires
        0 <= x < side,
        0 <= y < side,
    ensures
        0 <= at(side, x, y) < side * side,
        0 <= y * side,
{
    assert(0 <= y * side + x < side * side && 0 <= y * side) by (nonlinear_arith)
        requires
            0 <= x < side,
            0 <= y < side,
    ;
}

/// Every pixel of the label's box at `(x, y)` belongs to the file.
fn all_owned(b: &LabelBox, owner: &Vec<Option<usize>>, x: u32, y: u32) -> (r: bool)
    requires
        valid(*b, owner@),
        x + b.width <= b.side,
        y + b.height <= b.side,
    ensures
        r == owned(room(*b, owner@), x as int, y as int),
{
    let ghost m = room(*b, owner@);
    let mut py: u32 = y;
    while py < y + b.height
        invariant
            valid(*b, owner@),
            m == room(*b, owner@),
            x + b.width <= b.side,
            y + b.height <= b.side,
            y <= py <= y + b.height,
            forall|px: int, qy: int|
                x <= px < x + m.w && y <= qy < py ==> m.owner[#[trigger] at(m.side, px, qy)]
                    == Some(m.file),
        decreases y + b.height - py,
    {
        let mut px: u32 = x;
        while px < x + b.width
            invariant
                valid(*b, owner@),
                m == room(*b, owner@),
                x + b.width <= b.side,
                y + b.height <= b.side,
                y <= py < y + b.height,
                x <= px <= x + b.width,
                forall|qx: int, qy: int|
                    x <= qx < x + m.w && y <= qy < py ==> m.owner[#[trigger] at(m.side, qx, qy)]
                        == Some(m.file),
                forall|qx: int|
                    x <= qx < px ==> m.owner[#[trigger] at(m.side, qx, py as int)] == Some(m.file),
            decreases x + b.width - px,
        {
            proof {
                lemma_at(b.side as int, px as int, py as int);
                assert(owner.len() == owner@.len());
            }
            let i: usize = py as usize * b.side as usize + px as usize;
            assert(i == at(m.side, px as int, py as int));
            let mine: bool = match owner[i] {
                Some(f) => f == b.file_idx,
                None => false,
            };
            if !mine {
                assert(m.owner[at(m.side, px as int, py as int)] != Some(m.file));
                return false;
            }
            px = px + 1;
        }
        py = py + 1;
    }
    true
}

fn can_place(b: &LabelBox, owner: &Vec<Option<usize>>, x: u32, y: u32) -> (r: bool)
    requires
        valid(*b, owner@),
        x <= 0x4000_0000,
        y <= 0x4000_0000,
    ensures
        r == fits(room(*b, owner@), x as int, y as int),
{
    if x < b.x0 || y < b.y0 {
        return false;
    }
    if x + b.width - 1 > b.x1 || y + b.height - 1 > b.y1 {
        return false;
    }
    all_owned(b, owner, x, y)
}

fn moved(base: u32, shift: u32, back: bool) -> (r: u32)
    requires
        base <= 0x2000_0000,
        shift <= 100,
    ensures
        r == (if back {
            down(base as int, shift as int)
        } else {
            base + shift
        }),
{
    if back {
        if base > shift {
            base - shift
        } else {
            0
        }
    } else {
        base + shift
    }
}

/// The places of a list.
pub open spec fn points(v: Seq<(u32, u32)>) -> Seq<(int, int)> {
    v.map_values(|p: (u32, u32)| (p.0 as int, p.1 as int))
}

fn push_point(out: &mut Vec<(u32, u32)>, x: u32, y: u32)
    ensures
        points(final(out)@) == points(old(out)@).push((x as int, y as int)),
{
    let ghost was = points(out@);
    out.push((x, y));
    assert(points(out@) =~= was.push((x as int, y as int)));
}

proof fn lemma_cells(start: int, len: int, end: int, i: int)
    requires
        i >= 0,
    ensures
        (start + 20 + 512 * i + len - 1 <= end) == (i < cells(start, len, end)),
{
    let d = end - (start + 20 + len - 1);
    if d >= 0 {
        assert((512 * i <= d) <==> (i < d / 512 + 1));
    }
}

/// Appends the labels on the jittered grid.
fn place_on_grid(b: &LabelBox, owner: &Vec<Option<usize>>) -> (out: Vec<(u32, u32)>)
    requires
        valid(*b, owner@),
    ensures
        points(out@) == grid_labels(
            room(*b, owner@),
            cells(b.y0 as int, b.height as int, b.y1 as int),
        ),
{
    let ghost r = room(*b, owner@);
    let ghost nx = cells(r.x0, r.w, r.x1);
    let ghost ny = cells(r.y0, r.h, r.y1);
    let mut out: Vec<(u32, u32)> = Vec::new();
    let mut j: u32 = 0;
    let mut base_y: u32 = b.y0 + 20;
    assert(points(out@) =~= seq![]);
    proof {
        lemma_cells(r.y0, r.h, r.y1, 0);
    }
    while base_y + b.height - 1 <= b.y1
        invariant
            valid(*b, owner@),
            r == room(*b, owner@),
            nx == cells(r.x0, r.w, r.x1),
            ny == cells(r.y0, r.h, r.y1),
            base_y == b.y0 + 20 + 512 * j,
            base_y <= 0x1000_0400,
            j <= ny,
            (base_y + b.height - 1 <= b.y1) == (j < ny),
            points(out@) == grid_labels(r, j as int),
        decreases ny - j,
    {
        let ghost before = points(out@);
        let mut i: u32 = 0;
        let mut base_x: u32 = b.x0 + 20;
        proof {
            lemma_cells(r.x0, r.w, r.x1, 0);
        }
        assert(before + seq![] =~= before);
        while base_x + b.width - 1 <= b.x1
            invariant
                valid(*b, owner@),
                r == room(*b, owner@),
                nx == cells(r.x0, r.w, r.x1),
                base_y == b.y0 + 20 + 512 * j,
                base_y <= 0x1000_0400,
                base_x == b.x0 + 20 + 512 * i,
                base_x <= 0x1000_0400,
                i <= nx,
                (base_x + b.width - 1 <= b.x1) == (i < nx),
                points(out@) == before + row_labels(r, j as int, i as int),
            decreases nx - i,
        {
            let (jx, jy, neg_x, neg_y): (u32, u32, bool, bool) = jitter(i, j);
            let x: u32 = moved(base_x, jx, neg_x);
            let y: u32 = moved(base_y, jy, neg_y);
            assert((x as int, y as int) == cell_place(r, i as int, j as int));
            let ghost here = points(out@);
            if can_place(b, owner, x, y) {
                push_point(&mut out, x, y);
            }
            assert(points(out@) =~= before + row_labels(r, j as int, i + 1));
            proof {
                lemma_cells(r.x0, r.w, r.x1, i + 1);
            }
            i = i + 1;
            base_x = base_x + 512;
        }
        proof {
            lemma_cells(r.y0, r.h, r.y1, j + 1);
        }
        j = j + 1;
        base_y = base_y + 512;
    }
    out
}

fn lower(a: u32, b: u32) -> (r: u32)
    ensures
        r == down(a as int, b as int),
{
    if a > b {
        a - b
    } else {
        0
    }
}

fn place_in_corner(b: &LabelBox, owner: &Vec<Option<usize>>) -> (p: Option<(u32, u32)>)
    requires
        valid(*b, owner@),
    ensures
        match p {
            Some((x, y)) => corner(room(*b, owner@)) == Some((x as int, y as int)),
            None => corner(room(*b, owner@)) is None,
        },
{
    let right: u32 = lower(b.x1 + 1, b.width + 20);
    let low: u32 = lower(b.y1 + 1, b.height + 20);
    if can_place(b, owner, right, b.y0 + 20) {
        Some((right, b.y0 + 20))
    } else if can_place(b, owner, b.x0 + 20, low) {
        Some((b.x0 + 20, low))
    } else if can_place(b, owner, right, low) {
        Some((right, low))
    } else {
        None
    }
}

fn scan_for_place(b: &LabelBox, owner: &Vec<Option<usize>>) -> (p: Option<(u32, u32)>)
    requires
        valid(*b, owner@),
    ensures
        match p {
            Some((x, y)) => scan(room(*b, owner@), b.y0 as int) == Some((x as int, y as int)),
            None => scan(room(*b, owner@), b.y0 as int) is None,
        },
{
    let ghost r = room(*b, owner@);
    let max_x: u32 = lower(b.x1 + 1, b.width);
    let max_y: u32 = lower(b.y1 + 1, b.height);
    let mut y: u32 = b.y0;
    while y <= max_y
        invariant
            valid(*b, owner@),
            r == room(*b, owner@),
            max_x == down(r.x1 + 1, r.w),
            max_y == down(r.y1 + 1, r.h),
            max_x <= 0x1000_0000,
            max_y <= 0x1000_0000,
            y <= 0x1000_0008,
            scan(r, y as int) == scan(r, r.y0),
        decreases max_y + 8 - y,
    {
        let mut x: u32 = b.x0;
        while x <= max_x
            invariant
                valid(*b, owner@),
                r == room(*b, owner@),
                max_x == down(r.x1 + 1, r.w),
                max_x <= 0x1000_0000,
                x <= 0x1000_0008,
                y <= 0x1000_0000,
                scan_row(r, x as int, y as int) == scan_row(r, r.x0, y as int),
                scan(r, y as int) == scan(r, r.y0),
                y <= down(r.y1 + 1, r.h),
            decreases max_x + 8 - x,
        {
            if can_place(b, owner, x, y) {
                return Some((x, y));
            }
            x = x + 8;
        }
        y = y + 8;
    }
    None
}

/// Where the labels of a file are drawn: all places on a jittered grid where
/// one fits, else the first of three corners, else the first place that a
/// coarse scan of the whole box finds.
pub fn place_labels(b: &LabelBox, pixel_file: &Vec<Option<usize>>) -> (r: Vec<(u32, u32)>)
    requires
        valid(*b, pixel_file@),
    ensures
        points(r@) == label_places(room(*b, pixel_file@)),
{
    let out = place_on_grid(b, pixel_file);
    assert(points(out@).len() == out@.len());
    if out.len() > 0 {
        return out;
    }
    let mut one: Vec<(u32, u32)> = Vec::new();
    let found = match place_in_corner(b, pixel_file) {
        Some(p) => Some(p),
        None => scan_for_place(b, pixel_file),
    };
    if let Some((x, y)) = found {
        one.push((x, y));
    }
    assert(points(one@) =~= label_places(room(*b, pixel_file@)));
    one
}

proof fn lemma_row_fits(r: Room, j: int, n: int, i: int)
    requires
        0 <= i < row_labels(r, j, n).len(),
    ensures
        fits(r, row_labels(r, j, n)[i].0, row_labels(r, j, n)[i].1),
    decreases n,
{
    if n > 0 && i < row_labels(r, j, n - 1).len() {
        lemma_row_fits(r, j, n - 1, i);
    }
}

proof fn lemma_grid_fits(r: Room, m: int, i: int)
    requires
        0 <= i < grid_labels(r, m).len(),
    ensures
        fits(r, grid_labels(r, m)[i].0, grid_labels(r, m)[i].1),
    decreases m,
{
    if m > 0 {
        let before = grid_labels(r, m - 1);
        let nx = cells(r.x0, r.w, r.x1);
        if i < before.len() {
            lemma_grid_fits(r, m - 1, i);
        } else {
            lemma_row_fits(r, m - 1, nx, i - before.len());
        }
    }
}

proof fn lemma_scan_row_fits(r: Room, x: int, y: int)
    ensures
        scan_row(r, x, y) matches Some(p) ==> fits(r, p.0, p.1),
    decreases down(r.x1 + 1, r.w) + 8 - x,
{
    if x <= down(r.x1 + 1, r.w) && !fits(r, x, y) {
        lemma_scan_row_fits(r, x + 8, y);
    }
}

proof fn lemma_scan_fits(r: Room, y: int)
    ensures
        scan(r, y) matches Some(p) ==> fits(r, p.0, p.1),
    decreases down(r.y1 + 1, r.h) + 8 - y,
{
    if y <= down(r.y1 + 1, r.h) {
        lemma_scan_row_fits(r, r.x0, y);
        lemma_scan_fits(r, y + 8);
    }
}

/// A label only ever covers pixels of its own file, inside the file's box.
pub proof fn labels_stay_on_their_file(r: Room, i: int)
    requires
        0 <= i < label_places(r).len(),
    ensures
        fits(r, label_places(r)[i].0, label_places(r)[i].1),
{
    let m = cells(r.y0, r.h, r.y1);
    if grid_labels(r, m).len() > 0 {
        lemma_grid_fits(r, m, i);
    } else {
        lemma_scan_fits(r, r.y0);
    }
}

} // verus!
