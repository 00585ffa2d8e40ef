//! Tile store: decoding and validating a placement log and its
//! optional keyframe companion, and the query engine on top of them.
//!
//! A tile is constructed once from the byte contents of its on-disk
//! artifacts and is immutable afterwards. Loading validates everything
//! the queries rely on: the header magic, the exact file length, the
//! tile-local bounds of every placement, the non-decreasing timestamp
//! order, and — when keyframes are present — the keyframe interval and
//! the snapshot count implied by the placement count.

use vstd::prelude::*;
use vstd::arithmetic::div_mod::lemma_fundamental_div_mod;
use vstd::arithmetic::mul::lemma_mul_inequality;
use vstd::bytes::spec_u32_from_le_bytes;
use vstd::slice::slice_subrange;

use crate::errors::StoreError;
use vstd::pervasive::VecAdditionalExecFns;

use crate::frame::{
    placements_in_bounds, spec_apply, spec_filled, ts_sorted, apply_placements,
    cell_value, diff_frames, filled_frame, lemma_apply_len, lemma_apply_concat,
    lemma_pixel_index_bounds, spec_cell, spec_diff, cells_nonzero, lemma_apply_nonzero,
    lemma_diff_symmetry,
};
use crate::records::{
    Placement, TileKeyframeHeader, TilePlacementHeader, KEYFRAME_HEADER_BYTES, PLACEMENT_BYTES,
    PLACEMENT_HEADER_BYTES, TILE_KEYFRAME_VERSION_ID, TILE_PLACEMENT_VERSION_ID,
    read_keyframe_header, read_placement_at, read_placement_header,
    spec_keyframe_header_from_bytes, spec_placement_from_bytes, spec_placement_header_from_bytes,
};

verus! {

/// A query result: a row-major `size * size` buffer of packed cells.
pub type FrameData = Vec<u32>;

/// One canvas tile: its header fields, its decoded placement log, and
/// optionally its decoded keyframe snapshots.
pub struct Tile {
    /// Absolute epoch-seconds anchor for the placement timestamps.
    pub start: u64,
    /// Number of placements in the log.
    pub count: u32,
    /// One past the largest user id the ingestor observed.
    pub uid_count: u32,
    /// Tile origin column in canvas coordinates.
    pub start_x: u16,
    /// Tile origin row in canvas coordinates.
    pub start_y: u16,
    /// Tile edge; images are `size * size` cells.
    pub size: u16,
    /// Number of keyframe snapshots; 0 without a keyframe file.
    pub frame_count: u32,
    /// Placements covered by each keyframe; 0 without a keyframe file.
    pub frame_interval: u32,
    /// The placement log, in file order. Set by `load`.
    pub placements: Vec<Placement>,
    /// All keyframe snapshots, concatenated. Set by `load_with_frames`.
    pub frames: Option<Vec<u32>>,
}

/// Number of snapshots a keyframe file holds for `count` placements at
/// a given interval: one per full interval, plus one for a tail, so
/// that snapshot `k` always covers the first `k * interval`
/// placements.
pub open spec fn spec_frame_count(count: u32, interval: u32) -> int
    recommends
        interval >= 1,
{
    count as int / interval as int + if count as int % interval as int == 0 {
        0int
    } else {
        1int
    }
}

/// The header a placement-log buffer starts with.
pub open spec fn spec_log_header(s: Seq<u8>) -> TilePlacementHeader {
    spec_placement_header_from_bytes(s.subrange(0, PLACEMENT_HEADER_BYTES as int))
}

/// The `count` placement records stored after the header.
pub open spec fn spec_placements_of(s: Seq<u8>, count: u32) -> Seq<Placement> {
    Seq::new(
        count as nat,
        |i: int|
            spec_placement_from_bytes(
                s.subrange(
                    PLACEMENT_HEADER_BYTES + PLACEMENT_BYTES * i,
                    PLACEMENT_HEADER_BYTES + PLACEMENT_BYTES * i + PLACEMENT_BYTES,
                ),
            ),
    )
}

/// The placement records a log buffer declares.
pub open spec fn spec_log_placements(s: Seq<u8>) -> Seq<Placement> {
    spec_placements_of(s, spec_log_header(s).count)
}

/// Whether a byte buffer is a placement log that `load` accepts: the
/// expected magic, exactly the declared length, every placement inside
/// the tile, and non-decreasing timestamps.
pub open spec fn spec_log_valid(s: Seq<u8>) -> bool {
    &&& s.len() >= PLACEMENT_HEADER_BYTES
    &&& spec_log_header(s).version == TILE_PLACEMENT_VERSION_ID
    &&& s.len() == PLACEMENT_HEADER_BYTES + PLACEMENT_BYTES * spec_log_header(s).count
    &&& placements_in_bounds(spec_log_placements(s), spec_log_header(s).size)
    &&& ts_sorted(spec_log_placements(s))
}

/// The error `load` reports for a buffer that is not a valid log.
pub open spec fn spec_log_error(s: Seq<u8>) -> StoreError
    recommends
        !spec_log_valid(s),
{
    if s.len() < PLACEMENT_HEADER_BYTES {
        StoreError::ShortRead
    } else if spec_log_header(s).version != TILE_PLACEMENT_VERSION_ID {
        StoreError::HeaderVersion
    } else if s.len() < PLACEMENT_HEADER_BYTES + PLACEMENT_BYTES * spec_log_header(s).count {
        StoreError::ShortRead
    } else {
        StoreError::Malformed
    }
}

/// The header a keyframe buffer starts with.
pub open spec fn spec_frames_header(s: Seq<u8>) -> TileKeyframeHeader {
    spec_keyframe_header_from_bytes(s.subrange(0, KEYFRAME_HEADER_BYTES as int))
}

/// The `n` packed cells stored after a keyframe header.
pub open spec fn spec_cells_of(s: Seq<u8>, n: int) -> Seq<u32> {
    Seq::new(
        n as nat,
        |i: int|
            spec_u32_from_le_bytes(
                s.subrange(KEYFRAME_HEADER_BYTES + 4 * i, KEYFRAME_HEADER_BYTES + 4 * i + 4),
            ),
    )
}

/// Whether a byte buffer is a keyframe file that `load_with_frames`
/// accepts as the companion of a log with header `ph`: the expected
/// magic, a positive interval, exactly the declared length, the same
/// tile origin and edge as the log, and the snapshot count implied by
/// the log's placement count.
pub open spec fn spec_frames_valid_for(s: Seq<u8>, ph: TilePlacementHeader) -> bool {
    let h = spec_frames_header(s);
    &&& s.len() >= KEYFRAME_HEADER_BYTES
    &&& h.version == TILE_KEYFRAME_VERSION_ID
    &&& h.interval >= 1
    &&& s.len() == KEYFRAME_HEADER_BYTES + 4 * (h.count * (h.size * h.size))
    &&& h.start_x == ph.start_x
    &&& h.start_y == ph.start_y
    &&& h.size == ph.size
    &&& h.count == spec_frame_count(ph.count, h.interval)
}

/// The error `load_with_frames` reports for a keyframe buffer that is
/// not a valid companion of a log with header `ph`.
pub open spec fn spec_frames_error_for(s: Seq<u8>, ph: TilePlacementHeader) -> StoreError
    recommends
        !spec_frames_valid_for(s, ph),
{
    let h = spec_frames_header(s);
    if s.len() < KEYFRAME_HEADER_BYTES {
        StoreError::ShortRead
    } else if h.version != TILE_KEYFRAME_VERSION_ID {
        StoreError::HeaderVersion
    } else if h.interval == 0 {
        StoreError::Malformed
    } else if s.len() < KEYFRAME_HEADER_BYTES + 4 * (h.count * (h.size * h.size)) {
        StoreError::ShortRead
    } else if s.len() > KEYFRAME_HEADER_BYTES + 4 * (h.count * (h.size * h.size)) {
        StoreError::Malformed
    } else if h.start_x != ph.start_x || h.start_y != ph.start_y || h.size != ph.size {
        StoreError::HeaderMismatch
    } else {
        StoreError::Malformed
    }
}

impl Tile {
    /// The keyframe fields are coherent: without a keyframe file both
    /// are zero; with one, the interval is positive, the snapshot
    /// count is the one implied by the placement count, and the cell
    /// buffer holds exactly that many frames.
    pub open spec fn frames_wf(&self) -> bool {
        match self.frames {
            Option::Some(cells) => {
                &&& self.frame_interval >= 1
                &&& self.frame_count == spec_frame_count(self.count, self.frame_interval)
                &&& cells@.len() == self.frame_count * (self.size as int * self.size as int)
            },
            Option::None => self.frame_count == 0 && self.frame_interval == 0,
        }
    }

    /// Tile validity: the log length matches `count`, every placement
    /// lies inside the tile, timestamps are non-decreasing, and the
    /// keyframe fields are coherent. `load` and `load_with_frames`
    /// establish this; queries rely on it.
    pub open spec fn wf(&self) -> bool {
        &&& self.placements@.len() == self.count
        &&& placements_in_bounds(self.placements@, self.size)
        &&& ts_sorted(self.placements@)
        &&& self.frames_wf()
    }

    /// The cells of keyframe snapshot `k`.
    pub open spec fn spec_frame_cells(&self, k: int) -> Seq<u32>
        recommends
            self.frames is Some,
            0 <= k < self.frame_count,
    {
        self.frames->0@.subrange(
            k * (self.size as int * self.size as int),
            (k + 1) * (self.size as int * self.size as int),
        )
    }

    /// Whether the tile's fields and log match what a log buffer
    /// declares.
    pub open spec fn matches_log(&self, s: Seq<u8>) -> bool {
        let h = spec_log_header(s);
        &&& self.start == h.start
        &&& self.count == h.count
        &&& self.uid_count == h.uid_count
        &&& self.start_x == h.start_x
        &&& self.start_y == h.start_y
        &&& self.size == h.size
        &&& self.placements@ == spec_log_placements(s)
    }
}

/// Keyframes cover the whole log: `frame_count * interval >= count`.
pub proof fn lemma_frame_coverage(count: u32, interval: u32)
    requires
        interval >= 1,
    ensures
        spec_frame_count(count, interval) * interval >= count,
        count > 0 ==> (spec_frame_count(count, interval) - 1) * interval <= count - 1,
        spec_frame_count(count, interval) == 0 <==> count == 0,
        spec_frame_count(count, interval) <= count,
{
    let c = count as int;
    let d = interval as int;
    let q = c / d;
    let r = c % d;
    let fc = spec_frame_count(count, interval);
    lemma_fundamental_div_mod(c, d);
    assert(0 <= r < d) by {
        vstd::arithmetic::div_mod::lemma_mod_bound(c, d);
    }
    assert(q >= 0) by {
        vstd::arithmetic::div_mod::lemma_div_pos_is_pos(c, d);
    }
    assert(c == d * q + r);
    assert(d * q >= q) by (nonlinear_arith)
        requires
            d >= 1,
            q >= 0,
    ;
    if r == 0 {
        assert(fc == q);
        assert(q * d == d * q) by (nonlinear_arith);
        assert(fc * d >= c);
        if count > 0 {
            assert(q >= 1) by {
                if q == 0 {
                    assert(d * q == 0) by (nonlinear_arith)
                        requires
                            q == 0,
                    ;
                }
            }
            assert((q - 1) * d == d * q - d) by (nonlinear_arith);
            assert((fc - 1) * d <= c - 1);
        }
        assert(fc <= c);
        assert(fc == 0 <==> c == 0) by {
            if q == 0 {
                assert(d * q == 0) by (nonlinear_arith)
                    requires
                        q == 0,
                ;
            }
        }
    } else {
        assert(fc == q + 1);
        assert((q + 1) * d == d * q + d) by (nonlinear_arith);
        assert(q * d == d * q) by (nonlinear_arith);
        assert(fc * d >= c);
        assert((fc - 1) * d == d * q) by (nonlinear_arith)
            requires
                fc == q + 1,
        ;
        assert((fc - 1) * d <= c - 1);
        assert(fc <= c) by {
            assert(c >= q + 1);
        }
        assert(c > 0);
    }
}

/// Check that consecutive timestamps never decrease over a whole
/// sequence, given it holds for each adjacent pair.
proof fn lemma_adjacent_sorted(ps: Seq<Placement>)
    requires
        forall|k: int| 0 <= k < ps.len() - 1 ==> #[trigger] ps[k].ts <= ps[k + 1].ts,
    ensures
        ts_sorted(ps),
{
    assert forall|i: int, j: int| 0 <= i <= j < ps.len() implies ps[i].ts <= ps[j].ts by {
        lemma_sorted_range(ps, i, j);
    }
}

proof fn lemma_sorted_range(ps: Seq<Placement>, i: int, j: int)
    requires
        forall|k: int| 0 <= k < ps.len() - 1 ==> #[trigger] ps[k].ts <= ps[k + 1].ts,
        0 <= i <= j < ps.len(),
    ensures
        ps[i].ts <= ps[j].ts,
    decreases j - i,
{
    if i < j {
        lemma_sorted_range(ps, i, j - 1);
        assert(ps[j - 1].ts <= ps[j].ts);
    }
}

/// Decode and validate the `count` placements stored after the header
/// of a log buffer.
fn parse_placements(bytes: &[u8], count: u32, size: u16) -> (r: Result<Vec<Placement>, StoreError>)
    requires
        bytes.len() == PLACEMENT_HEADER_BYTES + PLACEMENT_BYTES * count,
    ensures
        ({
            let ps = spec_placements_of(bytes@, count);
            if placements_in_bounds(ps, size) && ts_sorted(ps) {
                r is Ok && r->Ok_0@ == ps
            } else {
                r == Result::<Vec<Placement>, StoreError>::Err(StoreError::Malformed)
            }
        }),
{
    let ghost ps = spec_placements_of(bytes@, count);
    let mut v: Vec<Placement> = Vec::new();
    let n = count as usize;
    let mut i: usize = 0;
    while i < n
        invariant
            i <= n,
            n == count,
            bytes.len() == PLACEMENT_HEADER_BYTES + PLACEMENT_BYTES * count,
            ps == spec_placements_of(bytes@, count),
            v@ == ps.take(i as int),
            forall|j: int| 0 <= j < i ==> ps[j].x < size && ps[j].y < size,
            forall|k: int| 0 <= k < i - 1 ==> #[trigger] ps[k].ts <= ps[k + 1].ts,
        decreases n - i,
    {
        let off = PLACEMENT_HEADER_BYTES + PLACEMENT_BYTES * i;
        let p = read_placement_at(bytes, off);
        proof {
            assert(p == ps[i as int]);
        }
        if p.x >= size || p.y >= size {
            proof {
                assert(!placements_in_bounds(ps, size));
            }
            return Err(StoreError::Malformed);
        }
        if i > 0 {
            let prev = v[i - 1];
            proof {
                assert(prev == ps[i - 1]);
            }
            if prev.ts > p.ts {
                proof {
                    assert(!ts_sorted(ps));
                }
                return Err(StoreError::Malformed);
            }
        }
        v.push(p);
        proof {
            assert(v@ =~= ps.take(i + 1));
        }
        i = i + 1;
    }
    proof {
        assert(v@ =~= ps);
        lemma_adjacent_sorted(ps);
    }
    Ok(v)
}

/// Decode and validate a whole placement-log buffer into its header
/// and placements.
fn parse_log(bytes: &[u8]) -> (r: Result<(TilePlacementHeader, Vec<Placement>), StoreError>)
    ensures
        spec_log_valid(bytes@) ==> r is Ok && r->Ok_0.0 == spec_log_header(bytes@)
            && r->Ok_0.1@ == spec_log_placements(bytes@),
        !spec_log_valid(bytes@) ==> r == Result::<(TilePlacementHeader, Vec<Placement>), StoreError>::Err(
            spec_log_error(bytes@),
        ),
{
    let n = bytes.len();
    if n < PLACEMENT_HEADER_BYTES {
        return Err(StoreError::ShortRead);
    }
    let h = read_placement_header(bytes);
    if h.version != TILE_PLACEMENT_VERSION_ID {
        return Err(StoreError::HeaderVersion);
    }
    let need: u64 = PLACEMENT_HEADER_BYTES as u64 + PLACEMENT_BYTES as u64 * h.count as u64;
    if (n as u64) < need {
        return Err(StoreError::ShortRead);
    }
    if (n as u64) > need {
        return Err(StoreError::Malformed);
    }
    match parse_placements(bytes, h.count, h.size) {
        Ok(v) => Ok((h, v)),
        Err(e) => Err(e),
    }
}

impl Tile {
    /// Construct a tile from the bytes of a placement-log file, with
    /// no keyframes.
    pub fn load(bytes: &[u8]) -> (r: Result<Tile, StoreError>)
        ensures
            spec_log_valid(bytes@) ==> r is Ok && r->Ok_0.wf() && r->Ok_0.matches_log(bytes@)
                && r->Ok_0.frames is None && r->Ok_0.frame_count == 0
                && r->Ok_0.frame_interval == 0,
            !spec_log_valid(bytes@) ==> r == Result::<Tile, StoreError>::Err(
                spec_log_error(bytes@),
            ),
    {
        match parse_log(bytes) {
            Ok((h, v)) => Ok(
                Tile {
                    start: h.start,
                    count: h.count,
                    uid_count: h.uid_count,
                    start_x: h.start_x,
                    start_y: h.start_y,
                    size: h.size,
                    frame_count: 0,
                    frame_interval: 0,
                    placements: v,
                    frames: None,
                },
            ),
            Err(e) => Err(e),
        }
    }

    /// Construct a tile from the bytes of a placement-log file and its
    /// companion keyframe file.
    pub fn load_with_frames(log_bytes: &[u8], frame_bytes: &[u8]) -> (r: Result<
        Tile,
        StoreError,
    >)
        ensures
            spec_log_valid(log_bytes@) && spec_frames_valid_for(
                frame_bytes@,
                spec_log_header(log_bytes@),
            ) ==> r is Ok && r->Ok_0.wf() && r->Ok_0.matches_log(log_bytes@)
                && r->Ok_0.frames is Some && r->Ok_0.frame_count == spec_frames_header(
                frame_bytes@,
            ).count && r->Ok_0.frame_interval == spec_frames_header(frame_bytes@).interval
                && r->Ok_0.frames->0@ == spec_cells_of(
                frame_bytes@,
                spec_frames_header(frame_bytes@).count * (spec_frames_header(frame_bytes@).size
                    as int * spec_frames_header(frame_bytes@).size as int),
            ),
            !spec_log_valid(log_bytes@) ==> r == Result::<Tile, StoreError>::Err(
                spec_log_error(log_bytes@),
            ),
            spec_log_valid(log_bytes@) && !spec_frames_valid_for(
                frame_bytes@,
                spec_log_header(log_bytes@),
            ) ==> r == Result::<Tile, StoreError>::Err(
                spec_frames_error_for(frame_bytes@, spec_log_header(log_bytes@)),
            ),
    {
        let (h, v) = match parse_log(log_bytes) {
            Ok(hv) => hv,
            Err(e) => {
                return Err(e);
            },
        };
        let n = frame_bytes.len();
        if n < KEYFRAME_HEADER_BYTES {
            return Err(StoreError::ShortRead);
        }
        let fh = read_keyframe_header(frame_bytes);
        if fh.version != TILE_KEYFRAME_VERSION_ID {
            return Err(StoreError::HeaderVersion);
        }
        if fh.interval == 0 {
            return Err(StoreError::Malformed);
        }
        proof {
            assert(fh.size as int * fh.size as int <= 0xffff_ffff) by (nonlinear_arith)
                requires
                    fh.size <= 0xffff,
            ;
            assert(fh.count as int * (fh.size as int * fh.size as int) < 0x1_0000_0000
                * 0x1_0000_0000) by (nonlinear_arith)
                requires
                    fh.count < 0x1_0000_0000,
                    0 <= fh.size as int * fh.size as int <= 0xffff_ffff,
            ;
        }
        let ss: u64 = fh.size as u64 * fh.size as u64;
        let cells64: u64 = fh.count as u64 * ss;
        let need: u128 = KEYFRAME_HEADER_BYTES as u128 + 4u128 * cells64 as u128;
        if (n as u128) < need {
            return Err(StoreError::ShortRead);
        }
        if (n as u128) > need {
            return Err(StoreError::Malformed);
        }
        if fh.start_x != h.start_x || fh.start_y != h.start_y || fh.size != h.size {
            return Err(StoreError::HeaderMismatch);
        }
        let expected: u64 = h.count as u64 / fh.interval as u64 + if h.count as u64 % fh.interval
            as u64 == 0 {
            0
        } else {
            1
        };
        if fh.count as u64 != expected {
            return Err(StoreError::Malformed);
        }
        let cells = parse_cells(frame_bytes, cells64 as usize);
        proof {
            lemma_frame_coverage(h.count, fh.interval);
        }
        Ok(
            Tile {
                start: h.start,
                count: h.count,
                uid_count: h.uid_count,
                start_x: h.start_x,
                start_y: h.start_y,
                size: h.size,
                frame_count: fh.count,
                frame_interval: fh.interval,
                placements: v,
                frames: Some(cells),
            },
        )
    }
}

/// Decode the `n_cells` packed cells stored after a keyframe header.
fn parse_cells(bytes: &[u8], n_cells: usize) -> (r: Vec<u32>)
    requires
        bytes.len() == KEYFRAME_HEADER_BYTES + 4 * n_cells,
    ensures
        r@ == spec_cells_of(bytes@, n_cells as int),
{
    let mut v: Vec<u32> = Vec::new();
    let mut i: usize = 0;
    while i < n_cells
        invariant
            i <= n_cells,
            bytes.len() == KEYFRAME_HEADER_BYTES + 4 * n_cells,
            v@.len() == i,
            forall|j: int| 0 <= j < i ==> v@[j] == spec_cells_of(bytes@, n_cells as int)[j],
        decreases n_cells - i,
    {
        let off = KEYFRAME_HEADER_BYTES + 4 * i;
        let c = vstd::bytes::u32_from_le_bytes(slice_subrange(bytes, off, off + 4));
        v.push(c);
        i = i + 1;
    }
    proof {
        assert(v@ =~= spec_cells_of(bytes@, n_cells as int));
    }
    v
}


/// The smallest index whose placement timestamp is at least `ts`, or
/// the sequence length when every timestamp is smaller.
pub open spec fn spec_lower_bound(ps: Seq<Placement>, ts: u32) -> int
    decreases ps.len(),
{
    if ps.len() == 0 {
        0
    } else if ps.first().ts >= ts {
        0
    } else {
        1 + spec_lower_bound(ps.drop_first(), ts)
    }
}

/// The defining properties of `spec_lower_bound`.
pub proof fn lemma_lower_bound_props(ps: Seq<Placement>, ts: u32)
    ensures
        0 <= spec_lower_bound(ps, ts) <= ps.len(),
        forall|i: int| 0 <= i < spec_lower_bound(ps, ts) ==> (#[trigger] ps[i].ts) < ts,
        spec_lower_bound(ps, ts) < ps.len() ==> ps[spec_lower_bound(ps, ts)].ts >= ts,
    decreases ps.len(),
{
    if ps.len() > 0 && ps.first().ts < ts {
        lemma_lower_bound_props(ps.drop_first(), ts);
        let lb = spec_lower_bound(ps, ts);
        assert forall|i: int| 0 <= i < lb implies (#[trigger] ps[i].ts) < ts by {
            if i > 0 {
                assert(ps.drop_first()[i - 1] == ps[i]);
            }
        }
        if lb < ps.len() {
            assert(ps.drop_first()[lb - 1] == ps[lb]);
        }
    }
}

/// Binary search for the smallest index whose timestamp is at least
/// `ts`.
pub fn lower_bound_ts(ps: &Vec<Placement>, ts: u32) -> (r: usize)
    requires
        ts_sorted(ps@),
    ensures
        r == spec_lower_bound(ps@, ts),
{
    let mut lo: usize = 0;
    let mut hi: usize = ps.len();
    while lo < hi
        invariant
            lo <= hi <= ps@.len(),
            ts_sorted(ps@),
            forall|i: int| 0 <= i < lo ==> (#[trigger] ps@[i].ts) < ts,
            forall|i: int| hi <= i < ps@.len() ==> (#[trigger] ps@[i].ts) >= ts,
        decreases hi - lo,
    {
        let mid = lo + (hi - lo) / 2;
        if ps[mid].ts < ts {
            lo = mid + 1;
        } else {
            hi = mid;
        }
    }
    proof {
        lemma_lower_bound_props(ps@, ts);
        let lb = spec_lower_bound(ps@, ts);
        if (lo as int) < lb {
            assert(ps@[lo as int].ts < ts);
        }
        if lb < lo as int {
            assert(ps@[lb].ts < ts);
        }
    }
    lo
}

impl Tile {
    /// The snapshot index the query engine picks for placement index
    /// `idx`: its interval slot, clamped to the last snapshot.
    pub open spec fn spec_frame_index_for(&self, idx: int) -> int
        recommends
            self.frame_interval >= 1,
    {
        let k = idx / (self.frame_interval as int);
        if k < self.frame_count {
            k
        } else {
            self.frame_count - 1
        }
    }

    /// Where replay begins for placement index `idx`: the offset the
    /// chosen snapshot covers, or 0 without keyframes.
    pub open spec fn spec_replay_start(&self, idx: int) -> int {
        if self.frames is Some {
            self.spec_frame_index_for(idx) * (self.frame_interval as int)
        } else {
            0
        }
    }

    /// The buffer replay begins from for placement index `idx`: the
    /// chosen snapshot, or a blank frame without keyframes.
    pub open spec fn spec_replay_base(&self, idx: int) -> Seq<u32> {
        if self.frames is Some {
            self.spec_frame_cells(self.spec_frame_index_for(idx))
        } else {
            spec_filled(self.size, 1)
        }
    }

    /// The timestamp offset a query resolves an absolute timestamp to:
    /// the difference from the tile anchor, clamped to the last
    /// placement's timestamp when it does not fit a `u32`.
    pub open spec fn spec_query_ts(&self, timestamp: u64) -> u32
        recommends
            timestamp >= self.start,
            self.placements@.len() > 0,
    {
        if timestamp - self.start > u32::MAX {
            self.placements@.last().ts
        } else {
            (timestamp - self.start) as u32
        }
    }

    /// What `get_image_at_timestamp` returns: nothing for a timestamp
    /// before the tile anchor or beyond the whole log; otherwise the
    /// chosen replay base with the bounded placement suffix applied.
    pub open spec fn spec_image_at(&self, timestamp: u64) -> Option<Seq<u32>> {
        if timestamp < self.start {
            None
        } else if self.count == 0 {
            None
        } else {
            let idx = spec_lower_bound(self.placements@, self.spec_query_ts(timestamp));
            if idx >= self.count {
                None
            } else {
                Some(
                    spec_apply(
                        self.spec_replay_base(idx),
                        self.size,
                        self.placements@.subrange(self.spec_replay_start(idx), idx + 1),
                    ),
                )
            }
        }
    }

    /// The placements of one user, in log order.
    pub open spec fn spec_user_filter(ps: Seq<Placement>, uid: u32) -> Seq<Placement>
        decreases ps.len(),
    {
        if ps.len() == 0 {
            Seq::empty()
        } else if ps.last().uid == uid {
            Self::spec_user_filter(ps.drop_last(), uid) + seq![ps.last()]
        } else {
            Self::spec_user_filter(ps.drop_last(), uid)
        }
    }

    /// What `get_image_for_user` returns for a known user: the user's
    /// placements applied to an all-transparent buffer.
    pub open spec fn spec_user_image(&self, uid: u32) -> Seq<u32> {
        spec_apply(
            spec_filled(self.size, 0),
            self.size,
            Self::spec_user_filter(self.placements@, uid),
        )
    }
}

/// The replay start for a placement index never lies beyond it, and
/// the chosen snapshot index is a stored one.
pub proof fn lemma_replay_start_le(t: &Tile, idx: int)
    requires
        t.wf(),
        0 <= idx < t.count,
    ensures
        0 <= t.spec_replay_start(idx) <= idx,
        t.frames is Some ==> 0 <= t.spec_frame_index_for(idx) < t.frame_count,
{
    if t.frames is Some {
        let d = t.frame_interval as int;
        let k0 = idx / d;
        let k = t.spec_frame_index_for(idx);
        vstd::arithmetic::div_mod::lemma_div_pos_is_pos(idx, d);
        lemma_frame_coverage(t.count, t.frame_interval);
        lemma_fundamental_div_mod(idx, d);
        assert(0 <= idx % d) by {
            vstd::arithmetic::div_mod::lemma_mod_bound(idx, d);
        }
        assert(d * k0 <= idx);
        if k == k0 {
            assert(k * d == d * k0) by (nonlinear_arith)
                requires
                    k == k0,
            ;
        } else {
            assert(k == t.frame_count - 1 && k0 >= t.frame_count);
            lemma_mul_inequality(k, k0, d);
            assert(k0 * d == d * k0) by (nonlinear_arith);
        }
    }
}

impl Tile {
    /// A read-only view of the placement log.
    pub fn placements(&self) -> (r: &Vec<Placement>)
        ensures
            r@ == self.placements@,
    {
        &self.placements
    }

    /// The keyframe snapshot at index `idx` together with the
    /// placement offset it covers. An index past the last snapshot is
    /// clamped to the last one; without a keyframe file the result is
    /// `None`.
    pub fn frame(&self, idx: u32) -> (r: Option<(usize, FrameData)>)
        requires
            self.wf(),
        ensures
            self.frames is None || self.frame_count == 0 ==> r is None,
            self.frames is Some && self.frame_count > 0 ==> ({
                let k = if idx < self.frame_count {
                    idx as int
                } else {
                    self.frame_count - 1
                };
                &&& r is Some
                &&& (r->0).0 == k * self.frame_interval
                &&& (r->0).1@ == self.spec_frame_cells(k)
            }),
    {
        match &self.frames {
            None => None,
            Some(cells) => {
                if self.frame_count == 0 {
                    return None;
                }
                let k: u32 = if idx < self.frame_count {
                    idx
                } else {
                    self.frame_count - 1
                };
                proof {
                    lemma_frame_coverage(self.count, self.frame_interval);
                    lemma_mul_inequality(
                        k as int,
                        self.frame_count - 1,
                        self.frame_interval as int,
                    );
                    assert(self.size as int * self.size as int <= 0xffff_ffff) by (nonlinear_arith)
                        requires
                            self.size <= 0xffff,
                    ;
                    assert(cells@.len() <= usize::MAX) by {
                        assert(cells.len() == cells@.len());
                    }
                    lemma_mul_inequality(
                        k + 1,
                        self.frame_count as int,
                        self.size as int * self.size as int,
                    );
                    assert((k + 1) * (self.size as int * self.size as int) == k * (self.size
                        as int * self.size as int) + (self.size as int * self.size as int))
                        by (nonlinear_arith);
                    assert(self.frame_count * (self.size as int * self.size as int)
                        == cells@.len());
                }
                let off: u32 = k * self.frame_interval;
                let ss: usize = self.size as usize * self.size as usize;
                let base: usize = k as usize * ss;
                let mut f: Vec<u32> = Vec::new();
                let mut j: usize = 0;
                while j < ss
                    invariant
                        j <= ss,
                        base + ss <= cells@.len(),
                        cells@.len() <= usize::MAX,
                        f@.len() == j,
                        forall|m: int| 0 <= m < j ==> f@[m] == cells@[base + m],
                    decreases ss - j,
                {
                    f.push(cells[base + j]);
                    j = j + 1;
                }
                proof {
                    assert(f@ =~= self.spec_frame_cells(k as int));
                }
                Some((off as usize, f))
            },
        }
    }
}


impl Tile {
    /// The image of the tile at an absolute timestamp: `None` before
    /// the tile's anchor or past its whole log, otherwise the nearest
    /// preceding keyframe (or a blank frame) with the placement suffix
    /// through the resolved index replayed onto it.
    pub fn get_image_at_timestamp(&self, timestamp: u64) -> (r: Option<FrameData>)
        requires
            self.wf(),
        ensures
            r is Some <==> self.spec_image_at(timestamp) is Some,
            r is Some ==> r->0@ == self.spec_image_at(timestamp)->0,
    {
        if timestamp < self.start {
            return None;
        }
        if self.count == 0 {
            return None;
        }
        let dt: u64 = timestamp - self.start;
        let ts: u32 = if dt > 0xffff_ffffu64 {
            self.placements[self.placements.len() - 1].ts
        } else {
            dt as u32
        };
        proof {
            assert(ts == self.spec_query_ts(timestamp));
        }
        let idx = lower_bound_ts(&self.placements, ts);
        if idx >= self.placements.len() {
            return None;
        }
        let ghost gidx = idx as int;
        proof {
            lemma_replay_start_le(self, gidx);
        }
        let mut start_off: usize = 0;
        let mut output: FrameData;
        if self.frames.is_some() {
            proof {
                lemma_frame_coverage(self.count, self.frame_interval);
            }
            let fidx: u32 = (idx as u32) / self.frame_interval;
            match self.frame(fidx) {
                Some((s, f)) => {
                    start_off = s;
                    output = f;
                },
                None => {
                    proof {
                        assert(false);
                    }
                    return None;
                },
            }
            proof {
                assert(fidx as int == gidx / (self.frame_interval as int));
                assert(start_off == self.spec_replay_start(gidx));
                assert(output@ == self.spec_replay_base(gidx));
            }
        } else {
            output = filled_frame(self.size, 1);
        }
        proof {
            assert(output@.len() == self.size * self.size) by {
                if self.frames is Some {
                    let k = self.spec_frame_index_for(gidx);
                    let ss = self.size as int * self.size as int;
                    lemma_mul_inequality(k + 1, self.frame_count as int, ss);
                    assert((k + 1) * ss == k * ss + ss) by (nonlinear_arith);
                }
            }
        }
        let ps = slice_subrange(self.placements.as_slice(), start_off, idx + 1);
        proof {
            assert(placements_in_bounds(ps@, self.size)) by {
                assert forall|j: int| 0 <= j < ps@.len() implies (#[trigger] ps@[j]).x < self.size
                    && ps@[j].y < self.size by {
                    assert(ps@[j] == self.placements@[start_off + j]);
                }
            }
        }
        apply_placements(&mut output, self.size, ps);
        Some(output)
    }

    /// A query image always spans the whole tile.
    pub proof fn lemma_image_at_len(&self, timestamp: u64)
        requires
            self.wf(),
            self.spec_image_at(timestamp) is Some,
        ensures
            self.spec_image_at(timestamp)->0.len() == self.size * self.size,
    {
        let ts = self.spec_query_ts(timestamp);
        let idx = spec_lower_bound(self.placements@, ts);
        lemma_lower_bound_props(self.placements@, ts);
        lemma_replay_start_le(self, idx);
        let base = self.spec_replay_base(idx);
        let sub = self.placements@.subrange(self.spec_replay_start(idx), idx + 1);
        assert(base.len() == self.size * self.size) by {
            if self.frames is Some {
                let k = self.spec_frame_index_for(idx);
                let ss = self.size as int * self.size as int;
                lemma_mul_inequality(k + 1, self.frame_count as int, ss);
                assert((k + 1) * ss == k * ss + ss) by (nonlinear_arith);
            }
        }
        assert(placements_in_bounds(sub, self.size)) by {
            assert forall|j: int| 0 <= j < sub.len() implies (#[trigger] sub[j]).x < self.size
                && sub[j].y < self.size by {
                assert(sub[j] == self.placements@[self.spec_replay_start(idx) + j]);
            }
        }
        lemma_apply_len(base, self.size, sub);
    }

    /// The pixel-level difference between the images at two
    /// timestamps: 0 where they agree, the second image's cell where
    /// they differ. `None` when either timestamp has no image.
    pub fn get_diff_for_timestamps(&self, timestamp1: u64, timestamp2: u64) -> (r: Option<
        FrameData,
    >)
        requires
            self.wf(),
        ensures
            r is Some <==> self.spec_image_at(timestamp1) is Some && self.spec_image_at(timestamp2)
                is Some,
            r is Some ==> r->0@ == spec_diff(
                self.spec_image_at(timestamp1)->0,
                self.spec_image_at(timestamp2)->0,
            ),
    {
        let img1 = match self.get_image_at_timestamp(timestamp1) {
            Some(v) => v,
            None => {
                return None;
            },
        };
        let img2 = match self.get_image_at_timestamp(timestamp2) {
            Some(v) => v,
            None => {
                return None;
            },
        };
        proof {
            self.lemma_image_at_len(timestamp1);
            self.lemma_image_at_len(timestamp2);
        }
        Some(diff_frames(&img1, &img2))
    }

    /// The pixels placed by one user, against a transparent
    /// background; the user's last placement wins at any pixel. `None`
    /// for a user id at or above the tile's user count.
    pub fn get_image_for_user(&self, user_id: u32) -> (r: Option<FrameData>)
        requires
            self.wf(),
        ensures
            r is Some <==> user_id < self.uid_count,
            r is Some ==> r->0@ == self.spec_user_image(user_id),
    {
        if user_id >= self.uid_count {
            return None;
        }
        let mut img = filled_frame(self.size, 0);
        let n = self.placements.len();
        let mut i: usize = 0;
        while i < n
            invariant
                i <= n,
                n == self.placements@.len(),
                self.wf(),
                img@.len() == self.size * self.size,
                img@ == spec_apply(
                    spec_filled(self.size, 0),
                    self.size,
                    Self::spec_user_filter(self.placements@.take(i as int), user_id),
                ),
            decreases n - i,
        {
            let p = self.placements[i];
            let ghost f0 = Self::spec_user_filter(self.placements@.take(i as int), user_id);
            if p.uid == user_id {
                proof {
                    assert(self.placements@[i as int].x < self.size);
                    lemma_pixel_index_bounds(p, self.size);
                    assert(self.size * self.size <= 0xffff_ffff) by (nonlinear_arith)
                        requires
                            self.size <= 0xffff,
                    ;
                }
                let idx = p.x as usize + p.y as usize * self.size as usize;
                img.set(idx, cell_value(p.uid, p.color));
            }
            proof {
                assert(self.placements@.take(i + 1).drop_last() =~= self.placements@.take(
                    i as int,
                ));
                assert(self.placements@.take(i + 1).last() == p);
                if p.uid == user_id {
                    assert((f0 + seq![p]).drop_last() =~= f0);
                    assert((f0 + seq![p]).last() == p);
                    assert(Self::spec_user_filter(self.placements@.take(i + 1), user_id) == f0
                        + seq![p]);
                }
            }
            i = i + 1;
        }
        proof {
            assert(self.placements@.take(n as int) =~= self.placements@);
        }
        Some(img)
    }

    /// Replay a slice of placements onto an image of this tile, in
    /// order; a later placement overwrites an earlier one at the same
    /// pixel.
    pub fn apply(&self, img: &mut FrameData, placements: &[Placement])
        requires
            old(img)@.len() == self.size * self.size,
            placements_in_bounds(placements@, self.size),
        ensures
            final(img)@ == spec_apply(old(img)@, self.size, placements@),
    {
        apply_placements(img, self.size, placements)
    }

    /// Every stored snapshot equals a blank frame with the placements
    /// it covers applied. The keyframe builder writes files with this
    /// property; the tile store does not re-check it at load time.
    pub open spec fn keyframe_consistent(&self) -> bool {
        self.frames is Some ==> forall|k: int|
            0 <= k < self.frame_count ==> #[trigger] self.spec_frame_cells(k) == spec_apply(
                spec_filled(self.size, 1),
                self.size,
                self.placements@.take(k * (self.frame_interval as int)),
            )
    }

    /// The image obtained by replaying the entire resolved prefix of
    /// the log onto a blank frame.
    pub open spec fn spec_full_image(&self, timestamp: u64) -> Seq<u32> {
        let idx = spec_lower_bound(self.placements@, self.spec_query_ts(timestamp));
        spec_apply(spec_filled(self.size, 1), self.size, self.placements@.take(idx + 1))
    }
}

/// Keyframe consistency makes queries exact: on a tile whose snapshots
/// are consistent with its log, the image at a timestamp equals the
/// blank frame with the entire resolved prefix replayed — the keyframe
/// shortcut changes nothing.
pub proof fn lemma_image_at_full_replay(t: &Tile, timestamp: u64)
    requires
        t.wf(),
        t.keyframe_consistent(),
        t.spec_image_at(timestamp) is Some,
    ensures
        t.spec_image_at(timestamp)->0 == t.spec_full_image(timestamp),
{
    let ts = t.spec_query_ts(timestamp);
    let idx = spec_lower_bound(t.placements@, ts);
    lemma_lower_bound_props(t.placements@, ts);
    lemma_replay_start_le(t, idx);
    let blank = spec_filled(t.size, 1);
    let start = t.spec_replay_start(idx);
    if t.frames is Some {
        let k = t.spec_frame_index_for(idx);
        assert(t.spec_replay_base(idx) == spec_apply(blank, t.size, t.placements@.take(start)));
        lemma_apply_concat(
            blank,
            t.size,
            t.placements@.take(start),
            t.placements@.subrange(start, idx + 1),
        );
        assert(t.placements@.take(start) + t.placements@.subrange(start, idx + 1)
            =~= t.placements@.take(idx + 1));
    } else {
        assert(t.placements@.subrange(0, idx + 1) =~= t.placements@.take(idx + 1));
    }
}

/// Whenever keyframes exist they cover the whole log:
/// `frame_count * frame_interval >= count`.
pub proof fn lemma_tile_frame_coverage(t: &Tile)
    requires
        t.wf(),
        t.frames is Some,
    ensures
        t.frame_count * t.frame_interval >= t.count,
{
    lemma_frame_coverage(t.count, t.frame_interval);
}


/// A query image of a fully painted tile has no unpainted cell: every
/// placement's packed cell is nonzero and, when keyframes exist, so is
/// every stored snapshot cell.
pub proof fn lemma_image_at_nonzero(t: &Tile, timestamp: u64)
    requires
        t.wf(),
        t.spec_image_at(timestamp) is Some,
        forall|i: int|
            0 <= i < t.placements@.len() ==> spec_cell(
                (#[trigger] t.placements@[i]).uid,
                t.placements@[i].color,
            ) != 0,
        t.frames is Some ==> cells_nonzero(t.frames->0@),
    ensures
        cells_nonzero(t.spec_image_at(timestamp)->0),
{
    let ts = t.spec_query_ts(timestamp);
    let idx = spec_lower_bound(t.placements@, ts);
    lemma_lower_bound_props(t.placements@, ts);
    lemma_replay_start_le(t, idx);
    let base = t.spec_replay_base(idx);
    let sub = t.placements@.subrange(t.spec_replay_start(idx), idx + 1);
    assert(base.len() == t.size * t.size) by {
        if t.frames is Some {
            let k = t.spec_frame_index_for(idx);
            let ss = t.size as int * t.size as int;
            lemma_mul_inequality(k + 1, t.frame_count as int, ss);
            assert((k + 1) * ss == k * ss + ss) by (nonlinear_arith);
        }
    }
    assert(cells_nonzero(base)) by {
        if t.frames is Some {
            let k = t.spec_frame_index_for(idx);
            let ss = t.size as int * t.size as int;
            lemma_mul_inequality(k + 1, t.frame_count as int, ss);
            assert((k + 1) * ss == k * ss + ss) by (nonlinear_arith);
            assert(k * ss >= 0) by (nonlinear_arith)
                requires
                    k >= 0,
                    ss >= 0,
            ;
            assert forall|i: int| 0 <= i < base.len() implies base[i] != 0 by {
                assert(base[i] == t.frames->0@[k * ss + i]);
            }
        }
    }
    assert(placements_in_bounds(sub, t.size)) by {
        assert forall|j: int| 0 <= j < sub.len() implies (#[trigger] sub[j]).x < t.size
            && sub[j].y < t.size by {
            assert(sub[j] == t.placements@[t.spec_replay_start(idx) + j]);
        }
    }
    assert forall|j: int| 0 <= j < sub.len() implies spec_cell(
        (#[trigger] sub[j]).uid,
        sub[j].color,
    ) != 0 by {
        assert(sub[j] == t.placements@[t.spec_replay_start(idx) + j]);
    }
    lemma_apply_nonzero(base, t.size, sub);
}

/// Diff symmetry at the query level: on a fully painted tile, the
/// diff images for `(t1, t2)` and `(t2, t1)` are zero at exactly the
/// same cells, and where they are not, each carries the other
/// query's cell.
pub proof fn lemma_query_diff_symmetry(t: &Tile, t1: u64, t2: u64)
    requires
        t.wf(),
        t.spec_image_at(t1) is Some,
        t.spec_image_at(t2) is Some,
        forall|i: int|
            0 <= i < t.placements@.len() ==> spec_cell(
                (#[trigger] t.placements@[i]).uid,
                t.placements@[i].color,
            ) != 0,
        t.frames is Some ==> cells_nonzero(t.frames->0@),
    ensures
        ({
            let a = t.spec_image_at(t1)->0;
            let b = t.spec_image_at(t2)->0;
            &&& forall|i: int|
                0 <= i < a.len() ==> (spec_diff(a, b)[i] == 0 <==> spec_diff(b, a)[i] == 0)
            &&& forall|i: int|
                0 <= i < a.len() && spec_diff(a, b)[i] != 0 ==> spec_diff(a, b)[i] == b[i]
                    && spec_diff(b, a)[i] == a[i]
        }),
{
    t.lemma_image_at_len(t1);
    t.lemma_image_at_len(t2);
    lemma_image_at_nonzero(t, t1);
    lemma_image_at_nonzero(t, t2);
    lemma_diff_symmetry(t.spec_image_at(t1)->0, t.spec_image_at(t2)->0);
}

} // verus!



