//! Frame buffers and placement replay.
//!
//! A frame is a row-major `size * size` buffer of `u32` cells. A cell
//! packs the placing user's id into the high bits and the palette slot
//! `color + 1` into the low byte; cell value 0 is reserved for
//! "unpainted" and renders as transparent, and a blank frame is filled
//! with cell value 1 (user 0, palette slot 1). Replaying placements
//! onto a frame is order-sensitive: a later placement overwrites an
//! earlier one at the same pixel.

use vstd::prelude::*;
use vstd::pervasive::VecAdditionalExecFns;

use crate::records::Placement;

verus! {

/// The palette slot stored in a cell's low byte: `color + 1`, wrapped
/// to a byte. Slot 0 is reserved for "unpainted".
pub open spec fn spec_slot(color: u8) -> u32 {
    if color == 255 {
        0
    } else {
        (color + 1) as u32
    }
}

/// The packed cell denoting one placement: `(uid << 8) | (color + 1)`.
pub open spec fn spec_cell(uid: u32, color: u8) -> u32 {
    (uid << 8) | spec_slot(color)
}

/// Row-major position of a placement's pixel inside its tile.
pub open spec fn spec_pixel_index(p: Placement, size: u16) -> int {
    p.x + p.y * size
}

/// One placement written onto a frame.
pub open spec fn spec_write(img: Seq<u32>, size: u16, p: Placement) -> Seq<u32> {
    img.update(spec_pixel_index(p, size), spec_cell(p.uid, p.color))
}

/// A slice of placements replayed onto a frame, in order; the last
/// placement wins at any given pixel.
pub open spec fn spec_apply(img: Seq<u32>, size: u16, ps: Seq<Placement>) -> Seq<u32>
    decreases ps.len(),
{
    if ps.len() == 0 {
        img
    } else {
        spec_write(spec_apply(img, size, ps.drop_last()), size, ps.last())
    }
}

/// A frame with every cell set to `v`.
pub open spec fn spec_filled(size: u16, v: u32) -> Seq<u32> {
    Seq::new((size * size) as nat, |i: int| v)
}

/// Whether every placement of `ps` lies inside a `size`-edged tile.
pub open spec fn placements_in_bounds(ps: Seq<Placement>, size: u16) -> bool {
    forall|i: int| 0 <= i < ps.len() ==> ps[i].x < size && ps[i].y < size
}

/// Whether placement timestamps are non-decreasing.
pub open spec fn ts_sorted(ps: Seq<Placement>) -> bool {
    forall|i: int, j: int| 0 <= i <= j < ps.len() ==> ps[i].ts <= ps[j].ts
}

/// The pixel-level difference of two frames: 0 where they agree, the
/// second frame's cell where they differ.
pub open spec fn spec_diff(a: Seq<u32>, b: Seq<u32>) -> Seq<u32>
    recommends
        a.len() == b.len(),
{
    Seq::new(a.len(), |i: int| if a[i] == b[i] { 0u32 } else { b[i] })
}

/// A placement inside the tile writes a valid row-major position.
pub proof fn lemma_pixel_index_bounds(p: Placement, size: u16)
    requires
        p.x < size,
        p.y < size,
    ensures
        0 <= spec_pixel_index(p, size) < size * size,
{
    assert(p.x + p.y * size < size * size) by (nonlinear_arith)
        requires
            p.x < size,
            p.y < size,
    ;
}

/// Replay of in-bounds placements keeps the frame's length.
pub proof fn lemma_apply_len(img: Seq<u32>, size: u16, ps: Seq<Placement>)
    requires
        img.len() == size * size,
        placements_in_bounds(ps, size),
    ensures
        spec_apply(img, size, ps).len() == img.len(),
    decreases ps.len(),
{
    if ps.len() > 0 {
        assert(placements_in_bounds(ps.drop_last(), size));
        lemma_apply_len(img, size, ps.drop_last());
        lemma_pixel_index_bounds(ps.last(), size);
    }
}

/// What replay leaves at a cell depends only on that cell of the base
/// frame: two bases that agree at a cell agree there after replaying
/// the same placements.
pub proof fn lemma_apply_cell(img1: Seq<u32>, img2: Seq<u32>, size: u16, ps: Seq<Placement>, c: int)
    requires
        img1.len() == size * size,
        img2.len() == size * size,
        placements_in_bounds(ps, size),
        0 <= c < img1.len(),
        img1[c] == img2[c],
    ensures
        spec_apply(img1, size, ps)[c] == spec_apply(img2, size, ps)[c],
    decreases ps.len(),
{
    if ps.len() > 0 {
        assert(placements_in_bounds(ps.drop_last(), size));
        lemma_apply_cell(img1, img2, size, ps.drop_last(), c);
        lemma_apply_len(img1, size, ps.drop_last());
        lemma_apply_len(img2, size, ps.drop_last());
        lemma_pixel_index_bounds(ps.last(), size);
    }
}

/// Replaying a concatenation is replaying the first part, then the
/// second.
pub proof fn lemma_apply_concat(img: Seq<u32>, size: u16, s1: Seq<Placement>, s2: Seq<Placement>)
    ensures
        spec_apply(img, size, s1 + s2) == spec_apply(spec_apply(img, size, s1), size, s2),
    decreases s2.len(),
{
    if s2.len() == 0 {
        assert(s1 + s2 =~= s1);
    } else {
        assert((s1 + s2).drop_last() =~= s1 + s2.drop_last());
        assert((s1 + s2).last() == s2.last());
        lemma_apply_concat(img, size, s1, s2.drop_last());
    }
}

/// Applying the same placement slice twice yields the same buffer as
/// applying it once.
pub proof fn lemma_apply_idempotent(img: Seq<u32>, size: u16, ps: Seq<Placement>)
    requires
        img.len() == size * size,
        placements_in_bounds(ps, size),
    ensures
        spec_apply(spec_apply(img, size, ps), size, ps) == spec_apply(img, size, ps),
    decreases ps.len(),
{
    if ps.len() > 0 {
        let t = ps.drop_last();
        let p = ps.last();
        let c = spec_pixel_index(p, size);
        let b = spec_apply(img, size, t);
        let a = spec_apply(img, size, ps);
        assert(placements_in_bounds(t, size));
        lemma_apply_len(img, size, t);
        lemma_apply_len(img, size, ps);
        lemma_apply_idempotent(img, size, t);
        lemma_pixel_index_bounds(p, size);
        // a is b with cell c overwritten; replaying t onto a leaves
        // every other cell as it stands in b.
        assert forall|d: int| 0 <= d < a.len() && d != c implies spec_apply(a, size, t)[d]
            == b[d] by {
            assert(a[d] == b[d]);
            lemma_apply_cell(a, b, size, t, d);
        }
        lemma_apply_len(a, size, t);
        lemma_apply_len(a, size, ps);
        assert(spec_apply(a, size, ps) =~= a);
    }
}

/// `diff(a, b)` and `diff(b, a)` have identical zero-masks, and where
/// they are non-zero each takes the other side's cell. This needs the
/// two frames to have zero cells at the same positions; frames whose
/// cells are all painted (never 0) satisfy that.
pub proof fn lemma_diff_symmetry(a: Seq<u32>, b: Seq<u32>)
    requires
        a.len() == b.len(),
        forall|i: int| 0 <= i < a.len() ==> (a[i] == 0 <==> b[i] == 0),
    ensures
        forall|i: int|
            0 <= i < a.len() ==> (spec_diff(a, b)[i] == 0 <==> spec_diff(b, a)[i] == 0),
        forall|i: int|
            0 <= i < a.len() && spec_diff(a, b)[i] != 0 ==> spec_diff(a, b)[i] == b[i]
                && spec_diff(b, a)[i] == a[i],
{
}

/// Build a frame with every cell set to `v`.
pub fn filled_frame(size: u16, v: u32) -> (r: Vec<u32>)
    ensures
        r@ == spec_filled(size, v),
{
    proof {
        assert(size * size <= 0xffff_ffff) by (nonlinear_arith)
            requires
                size <= 0xffff,
        ;
    }
    let n: usize = size as usize * size as usize;
    let mut r: Vec<u32> = Vec::new();
    let mut i: usize = 0;
    while i < n
        invariant
            i <= n,
            n == size * size,
            r@.len() == i,
            forall|j: int| 0 <= j < i ==> r@[j] == v,
        decreases n - i,
    {
        r.push(v);
        i = i + 1;
    }
    proof {
        assert(r@ =~= spec_filled(size, v));
    }
    r
}

/// The packed cell for one placement.
pub fn cell_value(uid: u32, color: u8) -> (r: u32)
    ensures
        r == spec_cell(uid, color),
{
    let slot: u8 = if color == 255 {
        0
    } else {
        color + 1
    };
    (uid << 8) | (slot as u32)
}

/// Replay a slice of placements onto a frame, in order.
pub fn apply_placements(img: &mut Vec<u32>, size: u16, ps: &[Placement])
    requires
        old(img)@.len() == size * size,
        placements_in_bounds(ps@, size),
    ensures
        final(img)@ == spec_apply(old(img)@, size, ps@),
{
    let n: usize = ps.len();
    let mut i: usize = 0;
    while i < n
        invariant
            i <= n,
            n == ps@.len(),
            placements_in_bounds(ps@, size),
            img@.len() == size * size,
            img@ == spec_apply(old(img)@, size, ps@.take(i as int)),
        decreases n - i,
    {
        let p = *vstd::slice::slice_index_get(ps, i);
        proof {
            assert(ps@[i as int].x < size && ps@[i as int].y < size);
            lemma_pixel_index_bounds(p, size);
            assert(size * size <= 0xffff_ffff) by (nonlinear_arith)
                requires
                    size <= 0xffff,
            ;
        }
        let idx: usize = p.x as usize + p.y as usize * size as usize;
        img.set(idx, cell_value(p.uid, p.color));
        proof {
            assert(ps@.take(i + 1).drop_last() =~= ps@.take(i as int));
            assert(ps@.take(i + 1).last() == ps@[i as int]);
        }
        i = i + 1;
    }
    proof {
        assert(ps@.take(n as int) =~= ps@);
    }
}

/// The pixel-level difference image of two frames of equal size.
pub fn diff_frames(a: &Vec<u32>, b: &Vec<u32>) -> (r: Vec<u32>)
    requires
        a@.len() == b@.len(),
    ensures
        r@ == spec_diff(a@, b@),
{
    let n: usize = a.len();
    let mut r: Vec<u32> = Vec::new();
    let mut i: usize = 0;
    while i < n
        invariant
            i <= n,
            n == a@.len(),
            a@.len() == b@.len(),
            r@.len() == i,
            forall|j: int| 0 <= j < i ==> r@[j] == spec_diff(a@, b@)[j],
        decreases n - i,
    {
        let av = *a.get(i).unwrap();
        let bv = *b.get(i).unwrap();
        r.push(if av == bv {
            0
        } else {
            bv
        });
        i = i + 1;
    }
    proof {
        assert(r@ =~= spec_diff(a@, b@));
    }
    r
}

/// Map each cell to its low byte, the palette slot, for encoding as an
/// indexed image.
pub fn to_palette_indices(img: &Vec<u32>) -> (r: Vec<u8>)
    ensures
        r@.len() == img@.len(),
        forall|i: int| 0 <= i < img@.len() ==> r@[i] == (img@[i] & 0xff) as u8,
{
    let n: usize = img.len();
    let mut r: Vec<u8> = Vec::new();
    let mut i: usize = 0;
    while i < n
        invariant
            i <= n,
            n == img@.len(),
            r@.len() == i,
            forall|j: int| 0 <= j < i ==> r@[j] == (img@[j] & 0xff) as u8,
        decreases n - i,
    {
        let v = *img.get(i).unwrap();
        r.push((v & 0xff) as u8);
        i = i + 1;
    }
    r
}

/// Keep only the cells placed by `uid`: those map to their palette
/// slot, every other cell maps to the transparent slot 0.
pub fn user_remainder_indices(img: &Vec<u32>, uid: u32) -> (r: Vec<u8>)
    ensures
        r@.len() == img@.len(),
        forall|i: int|
            0 <= i < img@.len() ==> r@[i] == (if img@[i] >> 8 == uid {
                (img@[i] & 0xff) as u8
            } else {
                0u8
            }),
{
    let n: usize = img.len();
    let mut r: Vec<u8> = Vec::new();
    let mut i: usize = 0;
    while i < n
        invariant
            i <= n,
            n == img@.len(),
            r@.len() == i,
            forall|j: int|
                0 <= j < i ==> r@[j] == (if img@[j] >> 8 == uid {
                    (img@[j] & 0xff) as u8
                } else {
                    0u8
                }),
        decreases n - i,
    {
        let v = *img.get(i).unwrap();
        r.push(
            if v >> 8 == uid {
                (v & 0xff) as u8
            } else {
                0
            },
        );
        i = i + 1;
    }
    r
}


/// Whether every cell of a frame is painted (never the reserved 0).
pub open spec fn cells_nonzero(s: Seq<u32>) -> bool {
    forall|i: int| 0 <= i < s.len() ==> s[i] != 0
}

/// Replaying placements whose packed cells are nonzero onto a frame
/// with no zero cells leaves no zero cells.
pub proof fn lemma_apply_nonzero(img: Seq<u32>, size: u16, ps: Seq<Placement>)
    requires
        img.len() == size * size,
        placements_in_bounds(ps, size),
        cells_nonzero(img),
        forall|i: int| 0 <= i < ps.len() ==> spec_cell((#[trigger] ps[i]).uid, ps[i].color) != 0,
    ensures
        cells_nonzero(spec_apply(img, size, ps)),
    decreases ps.len(),
{
    if ps.len() > 0 {
        let t = ps.drop_last();
        assert(placements_in_bounds(t, size));
        lemma_apply_nonzero(img, size, t);
        lemma_apply_len(img, size, t);
        lemma_pixel_index_bounds(ps.last(), size);
    }
}

} // verus!

