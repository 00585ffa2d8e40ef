//! Keyframe builder: for a loaded placement log, materialize the
//! periodic snapshots that make queries sublinear, and serialize them
//! into the on-disk keyframe format.
//!
//! Snapshot 0 is the blank state; snapshot `k` is the canvas after the
//! first `k * interval` placements. A file holds
//! `ceil(count / interval)` snapshots, so the last stored snapshot
//! covers every full interval and any tail is replayed at query time.

use vstd::prelude::*;
use vstd::arithmetic::mul::lemma_mul_inequality;
use vstd::bytes::{spec_u32_to_le_bytes, u32_to_le_bytes, lemma_auto_spec_u32_to_from_le_bytes};

use crate::frame::{
    filled_frame, lemma_apply_concat, lemma_apply_len, placements_in_bounds, spec_apply,
    spec_filled, apply_placements,
};
use crate::records::{
    Placement, TileKeyframeHeader, KEYFRAME_HEADER_BYTES, TILE_KEYFRAME_VERSION_ID,
    lemma_keyframe_header_roundtrip, spec_keyframe_header_bytes,
};
use crate::tile::{
    lemma_frame_coverage, spec_cells_of, spec_frame_count, spec_frames_header, Tile,
};

verus! {

/// The keyframe build command: the snapshot interval and the
/// placement-log files to process.
pub struct KeyframeCommand {
    /// Placements covered by each snapshot.
    pub interval: u32,
    /// Paths of the placement-log files to build keyframes for.
    pub inputs: Vec<String>,
}

/// The concatenated snapshots are consistent with a placement log:
/// snapshot `k` equals a blank frame with the first `k * interval`
/// placements applied.
pub open spec fn built_frames_consistent(
    cells: Seq<u32>,
    ps: Seq<Placement>,
    size: u16,
    interval: u32,
    fc: int,
) -> bool {
    forall|k: int|
        0 <= k < fc ==> #[trigger] cells.subrange(
            k * (size as int * size as int),
            (k + 1) * (size as int * size as int),
        ) == spec_apply(spec_filled(size, 1), size, ps.take(k * interval))
}

impl KeyframeCommand {
    /// Build the keyframe snapshots for one tile: the header to write
    /// and the concatenated `frame_count * size * size` cells, where
    /// snapshot `k` is the blank frame with the first `k * interval`
    /// placements applied.
    pub fn build_frames(&self, tile: &Tile) -> (r: (TileKeyframeHeader, Vec<u32>))
        requires
            tile.wf(),
            self.interval >= 1,
            spec_frame_count(tile.count, self.interval) * (tile.size as int * tile.size as int)
                <= usize::MAX,
        ensures
            r.0 == (TileKeyframeHeader {
                version: TILE_KEYFRAME_VERSION_ID,
                size: tile.size,
                start_x: tile.start_x,
                start_y: tile.start_y,
                interval: self.interval,
                count: spec_frame_count(tile.count, self.interval) as u32,
            }),
            r.1@.len() == spec_frame_count(tile.count, self.interval) * (tile.size as int
                * tile.size as int),
            built_frames_consistent(
                r.1@,
                tile.placements@,
                tile.size,
                self.interval,
                spec_frame_count(tile.count, self.interval),
            ),
    {
        let interval = self.interval;
        proof {
            lemma_frame_coverage(tile.count, interval);
        }
        let q: u32 = tile.count / interval;
        let fc: u32 = if tile.count % interval == 0 {
            q
        } else {
            q + 1
        };
        proof {
            assert(fc == spec_frame_count(tile.count, interval));
            assert(tile.size * tile.size <= 0xffff_ffff) by (nonlinear_arith)
                requires
                    tile.size <= 0xffff,
            ;
        }
        let ss: usize = tile.size as usize * tile.size as usize;
        let ghost gss = tile.size as int * tile.size as int;
        let mut cells: Vec<u32> = Vec::new();
        let mut img = filled_frame(tile.size, 1);
        let mut k: u32 = 0;
        while k < fc
            invariant
                k <= fc,
                fc == spec_frame_count(tile.count, interval),
                interval >= 1,
                tile.wf(),
                ss == gss,
                gss == tile.size as int * tile.size as int,
                fc as int * gss <= usize::MAX,
                cells@.len() == k as int * gss,
                built_frames_consistent(cells@, tile.placements@, tile.size, interval, k as int),
                img@.len() == gss,
                k < fc ==> img@ == spec_apply(
                    spec_filled(tile.size, 1),
                    tile.size,
                    tile.placements@.take(k as int * interval),
                ),
            decreases fc - k,
        {
            proof {
                lemma_frame_coverage(tile.count, interval);
                assert(tile.count > 0);
                lemma_mul_inequality(k as int, fc as int - 1, interval as int);
                assert((fc as int - 1) * interval <= tile.count - 1);
                lemma_mul_inequality(k as int + 1, fc as int, gss);
                assert((k as int + 1) * gss == k as int * gss + gss) by (nonlinear_arith);
            }
            // k <= fc - 1, so k * interval covers at most the whole log.
            let ghost cells0 = cells@;
            let mut j: usize = 0;
            while j < ss
                invariant
                    j <= ss,
                    img@.len() == ss,
                    cells@.len() == cells0.len() + j,
                    cells0.len() + ss <= usize::MAX,
                    forall|m: int| 0 <= m < cells0.len() ==> cells@[m] == cells0[m],
                    forall|m: int| 0 <= m < j ==> cells@[cells0.len() + m] == img@[m],
                decreases ss - j,
            {
                let c = *img.get(j).unwrap();
                cells.push(c);
                j = j + 1;
            }
            proof {
                assert(cells@.subrange(k as int * gss, (k as int + 1) * gss) =~= img@);
                assert forall|k2: int| 0 <= k2 < k as int + 1 implies #[trigger] cells@.subrange(
                    k2 * gss,
                    (k2 + 1) * gss,
                ) == spec_apply(
                    spec_filled(tile.size, 1),
                    tile.size,
                    tile.placements@.take(k2 * interval),
                ) by {
                    if k2 < k as int {
                        lemma_mul_inequality(k2 + 1, k as int, gss);
                        assert((k2 + 1) * gss == k2 * gss + gss) by (nonlinear_arith);
                        assert(cells@.subrange(k2 * gss, (k2 + 1) * gss) =~= cells0.subrange(
                            k2 * gss,
                            (k2 + 1) * gss,
                        ));
                    }
                }
            }
            if k + 1 < fc {
                proof {
                    lemma_mul_inequality(k as int + 1, fc as int - 1, interval as int);
                    assert((k as int + 1) * interval == k as int * interval + interval)
                        by (nonlinear_arith);
                }
                let lo: u32 = k * interval;
                let hi: u32 = lo + interval;
                let ghost img0 = img@;
                let chunk = vstd::slice::slice_subrange(
                    tile.placements.as_slice(),
                    lo as usize,
                    hi as usize,
                );
                proof {
                    assert(placements_in_bounds(chunk@, tile.size)) by {
                        assert forall|m: int|
                            0 <= m < chunk@.len() implies (#[trigger] chunk@[m]).x < tile.size
                            && chunk@[m].y < tile.size by {
                            assert(chunk@[m] == tile.placements@[lo + m]);
                        }
                    }
                }
                apply_placements(&mut img, tile.size, chunk);
                proof {
                    lemma_apply_len(img0, tile.size, chunk@);
                    lemma_apply_concat(
                        spec_filled(tile.size, 1),
                        tile.size,
                        tile.placements@.take(lo as int),
                        chunk@,
                    );
                    assert(tile.placements@.take(lo as int) + chunk@ =~= tile.placements@.take(
                        hi as int,
                    ));
                }
            }
            k = k + 1;
        }
        let header = TileKeyframeHeader {
            version: TILE_KEYFRAME_VERSION_ID,
            size: tile.size,
            start_x: tile.start_x,
            start_y: tile.start_y,
            interval,
            count: fc,
        };
        (header, cells)
    }
}

/// Serialize a keyframe header and its concatenated snapshot cells
/// into the on-disk keyframe file image. The result is exactly the
/// header followed by each cell in little-endian order, so its length
/// is `sizeof(header) + 4 * cells` and reading it back yields the same
/// header and cells.
pub fn keyframe_file_bytes(header: &TileKeyframeHeader, cells: &Vec<u32>) -> (r: Vec<u8>)
    ensures
        r@.len() == KEYFRAME_HEADER_BYTES + 4 * cells@.len(),
        spec_frames_header(r@) == *header,
        spec_cells_of(r@, cells@.len() as int) == cells@,
{
    let mut r = header.to_bytes();
    let n = cells.len();
    let mut i: usize = 0;
    while i < n
        invariant
            i <= n,
            n == cells@.len(),
            r@.len() == KEYFRAME_HEADER_BYTES + 4 * i,
            r@.subrange(0, KEYFRAME_HEADER_BYTES as int) == spec_keyframe_header_bytes(*header),
            forall|j: int|
                0 <= j < i ==> #[trigger] r@.subrange(
                    KEYFRAME_HEADER_BYTES + 4 * j,
                    KEYFRAME_HEADER_BYTES + 4 * j + 4,
                ) == spec_u32_to_le_bytes(cells@[j]),
        decreases n - i,
    {
        let ghost r0 = r@;
        let mut b = u32_to_le_bytes(*cells.get(i).unwrap());
        r.append(&mut b);
        proof {
            assert(r@.subrange(0, KEYFRAME_HEADER_BYTES as int) =~= r0.subrange(
                0,
                KEYFRAME_HEADER_BYTES as int,
            ));
            assert forall|j: int| 0 <= j < i + 1 implies #[trigger] r@.subrange(
                KEYFRAME_HEADER_BYTES + 4 * j,
                KEYFRAME_HEADER_BYTES + 4 * j + 4,
            ) == spec_u32_to_le_bytes(cells@[j]) by {
                if j < i {
                    assert(r@.subrange(
                        KEYFRAME_HEADER_BYTES + 4 * j,
                        KEYFRAME_HEADER_BYTES + 4 * j + 4,
                    ) =~= r0.subrange(
                        KEYFRAME_HEADER_BYTES + 4 * j,
                        KEYFRAME_HEADER_BYTES + 4 * j + 4,
                    ));
                } else {
                    assert(r@.subrange(
                        KEYFRAME_HEADER_BYTES + 4 * j,
                        KEYFRAME_HEADER_BYTES + 4 * j + 4,
                    ) =~= spec_u32_to_le_bytes(cells@[j]));
                }
            }
        }
        i = i + 1;
    }
    proof {
        lemma_keyframe_header_roundtrip(*header);
        assert(spec_frames_header(r@) == *header);
        lemma_auto_spec_u32_to_from_le_bytes();
        assert(spec_cells_of(r@, cells@.len() as int) =~= cells@);
    }
    r
}


/// A tile whose keyframe cells were built for its own placement log
/// satisfies the tile store's consistency notion, which in turn makes
/// its queries equal a full replay.
pub proof fn lemma_built_tile_consistent(t: &Tile, cells: Seq<u32>)
    requires
        t.wf(),
        t.frames is Some,
        t.frames->0@ == cells,
        built_frames_consistent(
            cells,
            t.placements@,
            t.size,
            t.frame_interval,
            t.frame_count as int,
        ),
    ensures
        t.keyframe_consistent(),
{
    assert forall|k: int| 0 <= k < t.frame_count implies #[trigger] t.spec_frame_cells(k)
        == spec_apply(
        spec_filled(t.size, 1),
        t.size,
        t.placements@.take(k * (t.frame_interval as int)),
    ) by {
        assert(cells.subrange(
            k * (t.size as int * t.size as int),
            (k + 1) * (t.size as int * t.size as int),
        ) == spec_apply(
            spec_filled(t.size, 1),
            t.size,
            t.placements@.take(k * (t.frame_interval as int)),
        ));
    }
}

} // verus!

