//! Shelf packing: rectangles side by side on shelves, shelves below each other.

use vstd::prelude::*;

verus! {

/// A rectangle to place.
#[derive(Debug, Clone, Copy, PartialEq, Eq, Structural)]
pub struct Slot {
    pub width: u32,
    pub height: u32,
}

/// Where a rectangle lies.
#[derive(Debug, Clone, Copy, PartialEq, Eq, Structural)]
pub struct Placement {
    pub x: u32,
    pub y: u32,
}

/// The sum, kept within 32 bits.
pub open spec fn sat_add(a: int, b: int) -> int {
    if a + b > u32::MAX {
        u32::MAX as int
    } else {
        a + b
    }
}

/// The product, kept within 32 bits.
pub open spec fn sat_mul(a: int, b: int) -> int {
    if a * b > u32::MAX {
        u32::MAX as int
    } else {
        a * b
    }
}

/// The smallest multiple of `a` that is not less than `v`, kept within 32 bits.
pub open spec fn aligned(v: int, a: int) -> int {
    if (v + a - 1) / a * a > u32::MAX {
        u32::MAX as int
    } else {
        (v + a - 1) / a * a
    }
}

/// Round `v` up to a multiple of `a`.
pub fn align_up(v: u32, a: u32) -> (r: u32)
    requires
        a > 0,
    ensures
        r == aligned(v as int, a as int),
        r >= v,
{
    let n: u64 = (v as u64 + (a as u64 - 1)) / a as u64;
    assert(n * a <= v + a - 1 && v <= n * a) by (nonlinear_arith)
        requires
            n == (v + a - 1) / (a as int),
            a > 0,
    ;
    let m: u64 = n * a as u64;
    if m > u32::MAX as u64 {
        u32::MAX
    } else {
        m as u32
    }
}

/// A packing in progress: where the next rectangle goes on the current shelf,
/// how tall that shelf is, how wide any shelf was, and what lies where.
pub ghost struct Shelves {
    pub at: Seq<Placement>,
    pub x: int,
    pub y: int,
    pub shelf: int,
    pub width: int,
}

/// The rectangles placed one after the other: behind the last one on its shelf
/// with a gutter between, on a new shelf where the width would be exceeded.
pub open spec fn shelves(slots: Seq<Slot>, max_width: int, pad: int) -> Shelves
    decreases slots.len(),
{
    if slots.len() == 0 {
        Shelves { at: seq![], x: 0, y: 0, shelf: 0, width: 0 }
    } else {
        let s = shelves(slots.drop_last(), max_width, pad);
        let r = slots.last();
        let (x, y, shelf) = if s.x > 0 && s.x + r.width > max_width {
            (0, sat_add(sat_add(s.y, s.shelf), pad), 0)
        } else {
            (s.x, s.y, s.shelf)
        };
        Shelves {
            at: s.at.push(Placement { x: x as u32, y: y as u32 }),
            x: sat_add(sat_add(x, r.width as int), pad),
            y,
            shelf: if r.height > shelf {
                r.height as int
            } else {
                shelf
            },
            width: if sat_add(x, r.width as int) > s.width {
                sat_add(x, r.width as int)
            } else {
                s.width
            },
        }
    }
}

/// The width and height that a packing takes.
pub open spec fn extent(s: Shelves) -> (int, int) {
    (s.width, sat_add(s.y, s.shelf))
}

fn plus(a: u32, b: u32) -> (r: u32)
    ensures
        r == sat_add(a as int, b as int),
{
    match a.checked_add(b) {
        Some(c) => c,
        None => u32::MAX,
    }
}

/// Place the slots on shelves no wider than `max_width`, with `pad` pixels
/// between them. Returns where each one lies and the width and height of the
/// whole.
pub fn pack(slots: &Vec<Slot>, max_width: u32, pad: u32) -> (r: (Vec<Placement>, u32, u32))
    ensures
        ({
            let s = shelves(slots@, max_width as int, pad as int);
            r.0@ == s.at && (r.1 as int, r.2 as int) == extent(s)
        }),
        r.0@.len() == slots@.len(),
{
    let mut at: Vec<Placement> = Vec::new();
    let mut x: u32 = 0;
    let mut y: u32 = 0;
    let mut shelf: u32 = 0;
    let mut width: u32 = 0;
    let mut i: usize = 0;
    assert(slots@.take(0) =~= seq![]);
    while i < slots.len()
        invariant
            i <= slots@.len(),
            at@.len() == i,
            (Shelves {
                at: at@,
                x: x as int,
                y: y as int,
                shelf: shelf as int,
                width: width as int,
            }) == shelves(slots@.take(i as int), max_width as int, pad as int),
        decreases slots@.len() - i,
    {
        assert(slots@.take(i + 1).drop_last() =~= slots@.take(i as int));
        let r = slots[i];
        if x > 0 && x as u64 + r.width as u64 > max_width as u64 {
            y = plus(plus(y, shelf), pad);
            x = 0;
            shelf = 0;
        }
        at.push(Placement { x, y });
        let end: u32 = plus(x, r.width);
        if end > width {
            width = end;
        }
        if r.height > shelf {
            shelf = r.height;
        }
        x = plus(end, pad);
        i = i + 1;
    }
    assert(slots@.take(i as int) =~= slots@);
    (at, width, plus(y, shelf))
}

/// Two rectangles have no pixel in common.
pub open spec fn apart(a: Placement, r: Slot, b: Placement, s: Slot) -> bool {
    ||| a.x + r.width <= b.x
    ||| b.x + s.width <= a.x
    ||| a.y + r.height <= b.y
    ||| b.y + s.height <= a.y
}

/// What holds of a packing that stays within 32 bits.
spec fn well_packed(s: Shelves, slots: Seq<Slot>) -> bool {
    &&& s.at.len() == slots.len()
    &&& 0 <= s.x && 0 <= s.y && 0 <= s.shelf && 0 <= s.width
    &&& forall|i: int|
        0 <= i < slots.len() ==> {
            &&& (#[trigger] s.at[i]).x + slots[i].width <= s.width
            &&& s.at[i].y + slots[i].height <= s.y + s.shelf
            &&& s.at[i].y + slots[i].height <= s.y || (s.at[i].y == s.y && s.at[i].x
                + slots[i].width <= s.x)
        }
    &&& forall|i: int, j: int|
        0 <= i < j < slots.len() ==> apart(
            #[trigger] s.at[i],
            slots[i],
            #[trigger] s.at[j],
            slots[j],
        )
}

proof fn lemma_packing_grows(slots: Seq<Slot>, max_width: int, pad: int)
    requires
        slots.len() > 0,
        0 <= pad,
    ensures
        ({
            let s = shelves(slots, max_width, pad);
            let t = shelves(slots.drop_last(), max_width, pad);
            0 <= t.y && 0 <= t.shelf && 0 <= t.x && 0 <= t.width && t.width <= s.width && extent(
                t,
            ).1 <= extent(s).1
        }),
    decreases slots.len(),
{
    let init = slots.drop_last();
    if init.len() > 0 {
        lemma_packing_grows(init, max_width, pad);
    }
}

proof fn lemma_well_packed(slots: Seq<Slot>, max_width: int, pad: int)
    requires
        0 <= pad,
        0 <= max_width,
        extent(shelves(slots, max_width, pad)).0 + pad < u32::MAX,
        extent(shelves(slots, max_width, pad)).1 < u32::MAX,
    ensures
        well_packed(shelves(slots, max_width, pad), slots),
    decreases slots.len(),
{
    if slots.len() > 0 {
        let init = slots.drop_last();
        let r = slots.last();
        let s = shelves(slots, max_width, pad);
        let t = shelves(init, max_width, pad);
        lemma_packing_grows(slots, max_width, pad);
        lemma_well_packed(init, max_width, pad);
        let n = init.len() as int;
        assert forall|i: int| 0 <= i < slots.len() implies {
            &&& (#[trigger] s.at[i]).x + slots[i].width <= s.width
            &&& s.at[i].y + slots[i].height <= s.y + s.shelf
            &&& s.at[i].y + slots[i].height <= s.y || (s.at[i].y == s.y && s.at[i].x
                + slots[i].width <= s.x)
        } by {
            if i < n {
                assert(s.at[i] == t.at[i]);
                assert(init[i] == slots[i]);
                assert(t.at[i].x + init[i].width <= t.width);
            }
        }
        assert forall|i: int, j: int| 0 <= i < j < slots.len() implies apart(
            #[trigger] s.at[i],
            slots[i],
            #[trigger] s.at[j],
            slots[j],
        ) by {
            assert(s.at[i] == t.at[i]);
            assert(init[i] == slots[i]);
            if j < n {
                assert(s.at[j] == t.at[j]);
                assert(init[j] == slots[j]);
                assert(apart(t.at[i], init[i], t.at[j], init[j]));
            } else {
                assert(t.at[i].x + init[i].width <= t.width);
            }
        }
    }
}

/// A packed rectangle lies within the extent of the packing, where that stays
/// below the 32-bit limit.
pub proof fn packing_stays_in_extent(slots: Seq<Slot>, max_width: int, pad: int, i: int)
    requires
        0 <= pad,
        0 <= max_width,
        extent(shelves(slots, max_width, pad)).0 + pad < u32::MAX,
        extent(shelves(slots, max_width, pad)).1 < u32::MAX,
        0 <= i < slots.len(),
    ensures
        ({
            let s = shelves(slots, max_width, pad);
            &&& s.at.len() == slots.len()
            &&& s.at[i].x + slots[i].width <= extent(s).0
            &&& s.at[i].y + slots[i].height <= extent(s).1
        }),
{
    lemma_well_packed(slots, max_width, pad);
    let s = shelves(slots, max_width, pad);
    assert(s.at[i].x + slots[i].width <= s.width);
}

/// Packed rectangles do not overlap, where the extent of the packing stays
/// below the 32-bit limit.
pub proof fn packing_does_not_overlap(slots: Seq<Slot>, max_width: int, pad: int, i: int, j: int)
    requires
        0 <= pad,
        0 <= max_width,
        extent(shelves(slots, max_width, pad)).0 + pad < u32::MAX,
        extent(shelves(slots, max_width, pad)).1 < u32::MAX,
        0 <= i < slots.len(),
        0 <= j < slots.len(),
        i != j,
    ensures
        ({
            let s = shelves(slots, max_width, pad);
            apart(s.at[i], slots[i], s.at[j], slots[j])
        }),
{
    lemma_well_packed(slots, max_width, pad);
    let s = shelves(slots, max_width, pad);
    if i < j {
        assert(apart(s.at[i], slots[i], s.at[j], slots[j]));
    } else {
        assert(apart(s.at[j], slots[j], s.at[i], slots[i]));
    }
}

} // verus!
