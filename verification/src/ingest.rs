//! Ingestor: turns parsed CSV rows of placements into per-tile
//! placement logs.
//!
//! The caller streams rows in; each row paints one pixel, or — when
//! the optional second coordinate pair is present — an inclusive
//! rectangle expanded in row-major order. The first accepted row's
//! timestamp anchors every tile's `start`; later timestamps are stored
//! as truncated 32-bit offsets from it. Pixels outside the canvas are
//! skipped. Rows that would break the log invariants are rejected and
//! skipped: a timestamp offset that runs backwards, a user id with no
//! room for a user count, or more placements than the log format can
//! count.

use vstd::prelude::*;
use vstd::arithmetic::div_mod::{
    lemma_fundamental_div_mod, lemma_fundamental_div_mod_converse_div,
    lemma_fundamental_div_mod_converse_mod, lemma_mod_bound,
};
use vstd::arithmetic::mul::lemma_mul_inequality;

use crate::errors::StoreError;
use crate::frame::{placements_in_bounds, ts_sorted};
use crate::records::{
    lemma_placement_header_roundtrip, lemma_placement_roundtrip, spec_placement_bytes,
    spec_placement_header_bytes, Placement, TilePlacementHeader, PLACEMENT_BYTES,
    PLACEMENT_HEADER_BYTES, TILE_PLACEMENT_VERSION_ID,
};
use crate::tile::{spec_log_header, spec_log_placements, spec_placements_of};

verus! {

/// One parsed CSV input row: a timestamped paint action in canvas
/// coordinates, either a single pixel or an inclusive rectangle.
#[derive(Clone, Copy, Debug, PartialEq, Eq, Structural)]
pub struct CsvRecord {
    /// Absolute epoch-seconds timestamp.
    pub ts: u64,
    /// Stable user identifier.
    pub user_id: u32,
    /// Canvas column of the pixel, or of the rectangle corner.
    pub x_coordinate: u16,
    /// Canvas row of the pixel, or of the rectangle corner.
    pub y_coordinate: u16,
    /// Opposite rectangle corner column, when the row is a rectangle.
    pub x2_coordinate: Option<u16>,
    /// Opposite rectangle corner row, when the row is a rectangle.
    pub y2_coordinate: Option<u16>,
    /// Palette index.
    pub color: u8,
}

/// One finished per-tile placement log: the backpatched header and the
/// placements in input order.
pub struct TileLog {
    /// The header to write at offset 0 of the log file.
    pub header: TilePlacementHeader,
    /// The tile's placements, in input order.
    pub placements: Vec<Placement>,
}

/// The ingestor's abstract state: the time anchor, the running
/// watermarks, and the per-tile logs.
pub struct IngestState {
    /// Whether a row has been accepted yet.
    pub started: bool,
    /// Timestamp of the first accepted row; every tile's `start`.
    pub t0: u64,
    /// The last accepted row's timestamp offset.
    pub last_ts: u32,
    /// One past the largest user id among appended placements.
    pub uid_count: u32,
    /// How many placements have been appended over all tiles.
    pub total: u32,
    /// The per-tile placement logs, indexed `tx + ty * tiles_x`.
    pub logs: Seq<Seq<Placement>>,
}

/// The pixels of an inclusive rectangle, row-major; empty when a
/// second corner lies before the first.
pub open spec fn spec_rect_pixels(x1: u16, y1: u16, x2: u16, y2: u16) -> Seq<(u16, u16)> {
    if x2 < x1 || y2 < y1 {
        Seq::empty()
    } else {
        let w = x2 - x1 + 1;
        Seq::new(
            ((y2 - y1 + 1) * w) as nat,
            |i: int| (((x1 + i % w) as u16, (y1 + i / w) as u16)),
        )
    }
}

/// The pixels an input row paints, in the order they are appended.
pub open spec fn spec_row_pixels(row: CsvRecord) -> Seq<(u16, u16)> {
    if row.x2_coordinate is Some && row.y2_coordinate is Some {
        spec_rect_pixels(
            row.x_coordinate,
            row.y_coordinate,
            row.x2_coordinate->0,
            row.y2_coordinate->0,
        )
    } else {
        seq![(row.x_coordinate, row.y_coordinate)]
    }
}

/// Whether a row expands a rectangle; every placement it yields is
/// flagged so.
pub open spec fn spec_row_isblk(row: CsvRecord) -> bool {
    row.x2_coordinate is Some && row.y2_coordinate is Some
}

/// Whether a pixel belongs to some tile of the canvas.
pub open spec fn spec_in_canvas(p: (u16, u16), size_tile: u16, tiles_x: u16, tiles_y: u16) -> bool {
    &&& (p.0 as int) / (size_tile as int) < tiles_x
    &&& (p.1 as int) / (size_tile as int) < tiles_y
}

/// The row-major index of the tile a pixel belongs to.
pub open spec fn spec_tile_of(p: (u16, u16), size_tile: u16, tiles_x: u16) -> int {
    (p.1 as int / size_tile as int) * tiles_x + p.0 as int / size_tile as int
}

/// The tile-local placement an accepted pixel becomes.
pub open spec fn spec_local_placement(
    p: (u16, u16),
    ts_off: u32,
    uid: u32,
    color: u8,
    isblk: bool,
    size_tile: u16,
) -> Placement {
    Placement {
        ts: ts_off,
        uid,
        x: (p.0 as int % size_tile as int) as u16,
        y: (p.1 as int % size_tile as int) as u16,
        color,
        isblk,
    }
}

/// The placements that a prefix of a row's pixels appends to tile `t`,
/// in order.
pub open spec fn spec_additions(
    pixels: Seq<(u16, u16)>,
    ts_off: u32,
    uid: u32,
    color: u8,
    isblk: bool,
    size_tile: u16,
    tiles_x: u16,
    tiles_y: u16,
    t: int,
) -> Seq<Placement>
    decreases pixels.len(),
{
    if pixels.len() == 0 {
        Seq::empty()
    } else {
        let rest = spec_additions(
            pixels.drop_last(),
            ts_off,
            uid,
            color,
            isblk,
            size_tile,
            tiles_x,
            tiles_y,
            t,
        );
        let p = pixels.last();
        if spec_in_canvas(p, size_tile, tiles_x, tiles_y) && spec_tile_of(p, size_tile, tiles_x)
            == t {
            rest + seq![spec_local_placement(p, ts_off, uid, color, isblk, size_tile)]
        } else {
            rest
        }
    }
}

/// How many of a row's pixels land on the canvas.
pub open spec fn spec_canvas_count(
    pixels: Seq<(u16, u16)>,
    size_tile: u16,
    tiles_x: u16,
    tiles_y: u16,
) -> int
    decreases pixels.len(),
{
    if pixels.len() == 0 {
        0
    } else {
        spec_canvas_count(pixels.drop_last(), size_tile, tiles_x, tiles_y) + if spec_in_canvas(
            pixels.last(),
            size_tile,
            tiles_x,
            tiles_y,
        ) {
            1int
        } else {
            0int
        }
    }
}

/// The anchor a row is measured against: the running anchor, or the
/// row's own timestamp when it is the first.
pub open spec fn spec_t0_for(st: IngestState, row: CsvRecord) -> u64 {
    if st.started {
        st.t0
    } else {
        row.ts
    }
}

/// The 32-bit timestamp offset a row is stored with, truncated.
pub open spec fn spec_ts_off(st: IngestState, row: CsvRecord) -> u32 {
    ((row.ts - spec_t0_for(st, row)) as u32)
}

/// Whether the ingestor accepts a row: its timestamp must not precede
/// the anchor nor make the stored offset run backwards, its user id
/// must leave room for a user count, and the row's pixels must not
/// push the total placement count past what the log format can store.
pub open spec fn spec_row_ok(
    st: IngestState,
    row: CsvRecord,
    size_tile: u16,
    tiles_x: u16,
    tiles_y: u16,
) -> bool {
    &&& row.ts >= spec_t0_for(st, row)
    &&& spec_ts_off(st, row) >= st.last_ts
    &&& row.user_id < u32::MAX
    &&& st.total + spec_row_pixels(row).len() <= u32::MAX
}

/// The ingestor's state after one row: unchanged for a rejected row;
/// otherwise the anchor is fixed, the watermarks advance, and each
/// tile's log grows by the row's pixels that fall on it.
pub open spec fn spec_step(
    st: IngestState,
    row: CsvRecord,
    size_tile: u16,
    tiles_x: u16,
    tiles_y: u16,
) -> IngestState {
    if !spec_row_ok(st, row, size_tile, tiles_x, tiles_y) {
        st
    } else {
        let ts_off = spec_ts_off(st, row);
        let pixels = spec_row_pixels(row);
        let n = spec_canvas_count(pixels, size_tile, tiles_x, tiles_y);
        IngestState {
            started: true,
            t0: spec_t0_for(st, row),
            last_ts: ts_off,
            uid_count: if n > 0 && st.uid_count < row.user_id + 1 {
                (row.user_id + 1) as u32
            } else {
                st.uid_count
            },
            total: (st.total + n) as u32,
            logs: Seq::new(
                st.logs.len(),
                |t: int|
                    st.logs[t] + spec_additions(
                        pixels,
                        ts_off,
                        row.user_id,
                        row.color,
                        spec_row_isblk(row),
                        size_tile,
                        tiles_x,
                        tiles_y,
                        t,
                    ),
            ),
        }
    }
}

/// The ingestor's state after a whole sequence of rows.
pub open spec fn spec_ingest_all(
    st: IngestState,
    rows: Seq<CsvRecord>,
    size_tile: u16,
    tiles_x: u16,
    tiles_y: u16,
) -> IngestState
    decreases rows.len(),
{
    if rows.len() == 0 {
        st
    } else {
        spec_step(
            spec_ingest_all(st, rows.drop_last(), size_tile, tiles_x, tiles_y),
            rows.last(),
            size_tile,
            tiles_x,
            tiles_y,
        )
    }
}

/// The empty state every ingestion starts from.
pub open spec fn spec_init_state(tiles_x: u16, tiles_y: u16) -> IngestState {
    IngestState {
        started: false,
        t0: 0,
        last_ts: 0,
        uid_count: 0,
        total: 0,
        logs: Seq::new((tiles_x * tiles_y) as nat, |t: int| Seq::<Placement>::empty()),
    }
}

/// Validity of an abstract ingest state: the log grid matches the
/// geometry and every log keeps the placement invariants — tile-local
/// bounds, non-decreasing timestamps below the watermark, and a length
/// the format can count.
pub open spec fn st_wf(st: IngestState, size_tile: u16, tiles_x: u16, tiles_y: u16) -> bool {
    &&& st.logs.len() == tiles_x * tiles_y
    &&& forall|t: int|
        0 <= t < st.logs.len() ==> placements_in_bounds(#[trigger] st.logs[t], size_tile)
    &&& forall|t: int| 0 <= t < st.logs.len() ==> ts_sorted(#[trigger] st.logs[t])
    &&& forall|t: int, i: int|
        0 <= t < st.logs.len() && 0 <= i < st.logs[t].len() ==> (#[trigger] st.logs[t][i]).ts
            <= st.last_ts
    &&& forall|t: int| 0 <= t < st.logs.len() ==> (#[trigger] st.logs[t]).len() <= st.total
}

/// The ingestor: canvas geometry plus the running state.
pub struct Ingestor {
    /// Canvas width in pixels.
    pub size_x: u16,
    /// Canvas height in pixels.
    pub size_y: u16,
    /// Tile edge; tiles are square.
    pub size_tile: u16,
    /// Tiles per canvas row.
    pub tiles_x: u16,
    /// Tiles per canvas column.
    pub tiles_y: u16,
    /// Whether a row has been accepted yet.
    pub started: bool,
    /// Timestamp of the first accepted row.
    pub t0: u64,
    /// The last accepted row's timestamp offset.
    pub last_ts: u32,
    /// One past the largest user id among appended placements.
    pub uid_count: u32,
    /// How many placements have been appended over all tiles.
    pub total: u32,
    /// The per-tile placement logs, indexed `tx + ty * tiles_x`.
    pub logs: Vec<Vec<Placement>>,
}

impl View for Ingestor {
    type V = IngestState;

    open spec fn view(&self) -> IngestState {
        IngestState {
            started: self.started,
            t0: self.t0,
            last_ts: self.last_ts,
            uid_count: self.uid_count,
            total: self.total,
            logs: Seq::new(self.logs@.len(), |t: int| self.logs@[t]@),
        }
    }
}

impl Ingestor {
    /// The geometry fields are coherent and the state is valid.
    pub open spec fn wf(&self) -> bool {
        &&& self.size_tile >= 1
        &&& self.tiles_x == self.size_x as int / self.size_tile as int
        &&& self.tiles_y == self.size_y as int / self.size_tile as int
        &&& self.size_x == self.tiles_x * self.size_tile
        &&& self.size_y == self.tiles_y * self.size_tile
        &&& st_wf(self@, self.size_tile, self.tiles_x, self.tiles_y)
    }

    /// Set up an ingestion over a canvas: both canvas dimensions must
    /// be positive multiples of the tile edge.
    pub fn new(size_x: u16, size_y: u16, size_tile: u16) -> (r: Result<Ingestor, StoreError>)
        ensures
            (size_x == 0 || size_y == 0 || size_tile == 0 || size_x as int % size_tile as int != 0
                || size_y as int % size_tile as int != 0) ==> r == Result::<
                Ingestor,
                StoreError,
            >::Err(StoreError::ConfigInvalid),
            !(size_x == 0 || size_y == 0 || size_tile == 0 || size_x as int % size_tile as int != 0
                || size_y as int % size_tile as int != 0) ==> r is Ok && ({
                let ing = r->Ok_0;
                &&& ing.wf()
                &&& ing.size_x == size_x
                &&& ing.size_y == size_y
                &&& ing.size_tile == size_tile
                &&& ing.tiles_x == size_x as int / size_tile as int
                &&& ing.tiles_y == size_y as int / size_tile as int
                &&& ing@ == spec_init_state(ing.tiles_x, ing.tiles_y)
            }),
    {
        if size_x == 0 || size_y == 0 || size_tile == 0 {
            return Err(StoreError::ConfigInvalid);
        }
        if size_x % size_tile != 0 || size_y % size_tile != 0 {
            return Err(StoreError::ConfigInvalid);
        }
        let tiles_x = size_x / size_tile;
        let tiles_y = size_y / size_tile;
        proof {
            lemma_fundamental_div_mod(size_x as int, size_tile as int);
            lemma_fundamental_div_mod(size_y as int, size_tile as int);
            assert(tiles_x as int * size_tile as int == size_tile as int * tiles_x as int)
                by (nonlinear_arith);
            assert(tiles_y as int * size_tile as int == size_tile as int * tiles_y as int)
                by (nonlinear_arith);
        }
        proof {
            assert(tiles_x as int * tiles_y as int <= 0xffff_ffff) by (nonlinear_arith)
                requires
                    tiles_x <= 0xffff,
                    tiles_y <= 0xffff,
            ;
        }
        let n: usize = tiles_x as usize * tiles_y as usize;
        let mut logs: Vec<Vec<Placement>> = Vec::new();
        let mut i: usize = 0;
        while i < n
            invariant
                i <= n,
                logs@.len() == i,
                forall|t: int| 0 <= t < i ==> (#[trigger] logs@[t])@.len() == 0,
            decreases n - i,
        {
            logs.push(Vec::new());
            i = i + 1;
        }
        let ing = Ingestor {
            size_x,
            size_y,
            size_tile,
            tiles_x,
            tiles_y,
            started: false,
            t0: 0,
            last_ts: 0,
            uid_count: 0,
            total: 0,
            logs,
        };
        proof {
            assert(ing@.logs =~~= spec_init_state(tiles_x, tiles_y).logs);
            assert(ing@ == spec_init_state(tiles_x, tiles_y));
        }
        Ok(ing)
    }

    /// Close the ingestion: hand back one log per tile, each with its
    /// backpatched header carrying the anchor, the final count and the
    /// user count.
    pub fn finish(self) -> (r: Vec<TileLog>)
        requires
            self.wf(),
        ensures
            r@.len() == self.tiles_x as int * self.tiles_y as int,
            forall|t: int|
                0 <= t < r@.len() ==> {
                    let tl = #[trigger] r@[t];
                    &&& tl.placements@ == self@.logs[t]
                    &&& tl.header.version == TILE_PLACEMENT_VERSION_ID
                    &&& tl.header.size == self.size_tile
                    &&& tl.header.start_x == (t % (self.tiles_x as int)) * self.size_tile
                    &&& tl.header.start_y == (t / (self.tiles_x as int)) * self.size_tile
                    &&& tl.header.start == self.t0
                    &&& tl.header.count == self@.logs[t].len()
                    &&& tl.header.uid_count == self.uid_count
                },
    {
        let mut logs = self.logs;
        let n: usize = logs.len();
        let mut r: Vec<TileLog> = Vec::new();
        let mut t: usize = 0;
        let ghost orig = Seq::new(n as nat, |i: int| logs@[i]@);
        proof {
            assert(n == self.tiles_x as int * self.tiles_y as int);
        }
        while t < n
            invariant
                t <= n,
                n == self.tiles_x as int * self.tiles_y as int,
                self.wf(),
                logs@.len() == n - t,
                orig == self@.logs,
                forall|i: int| 0 <= i < n - t ==> (#[trigger] logs@[i])@ == orig[t + i],
                r@.len() == t,
                forall|i: int|
                    0 <= i < t ==> {
                        let tl = #[trigger] r@[i];
                        &&& tl.placements@ == orig[i]
                        &&& tl.header.version == TILE_PLACEMENT_VERSION_ID
                        &&& tl.header.size == self.size_tile
                        &&& tl.header.start_x == (i % (self.tiles_x as int)) * self.size_tile
                        &&& tl.header.start_y == (i / (self.tiles_x as int)) * self.size_tile
                        &&& tl.header.start == self.t0
                        &&& tl.header.count == orig[i].len()
                        &&& tl.header.uid_count == self.uid_count
                    },
            decreases n - t,
        {
            proof {
                assert(self.tiles_x >= 1) by {
                    assert(t < self.tiles_x as int * self.tiles_y as int);
                    if self.tiles_x == 0 {
                        assert(self.tiles_x as int * self.tiles_y as int == 0) by (nonlinear_arith)
                            requires
                                self.tiles_x as int == 0,
                        ;
                    }
                }
                lemma_mod_bound(t as int, self.tiles_x as int);
                assert((t as int / self.tiles_x as int) < self.tiles_y as int) by {
                    vstd::arithmetic::div_mod::lemma_div_pos_is_pos(t as int, self.tiles_x as int);
                    if t as int / self.tiles_x as int >= self.tiles_y as int {
                        lemma_fundamental_div_mod(t as int, self.tiles_x as int);
                        assert(self.tiles_x as int * (t as int / self.tiles_x as int)
                            >= self.tiles_x as int * self.tiles_y as int) by (nonlinear_arith)
                            requires
                                t as int / self.tiles_x as int >= self.tiles_y as int,
                                self.tiles_x as int >= 1,
                        ;
                        assert(self.tiles_x as int * self.tiles_y as int == self.tiles_y as int
                            * self.tiles_x as int) by (nonlinear_arith);
                    }
                }
            }
            let v = logs.remove(0);
            let tx: u16 = (t % self.tiles_x as usize) as u16;
            let ty: u16 = (t / self.tiles_x as usize) as u16;
            proof {
                assert(v@ == orig[t as int]);
                assert(self@.logs[t as int].len() <= self@.total);
                lemma_mul_inequality(tx as int + 1, self.tiles_x as int, self.size_tile as int);
                assert((tx as int + 1) * self.size_tile as int == tx as int * self.size_tile as int
                    + self.size_tile as int) by (nonlinear_arith);
                lemma_mul_inequality(ty as int + 1, self.tiles_y as int, self.size_tile as int);
                assert((ty as int + 1) * self.size_tile as int == ty as int * self.size_tile as int
                    + self.size_tile as int) by (nonlinear_arith);
            }
            let count: u32 = v.len() as u32;
            let header = TilePlacementHeader {
                version: TILE_PLACEMENT_VERSION_ID,
                size: self.size_tile,
                start_x: tx * self.size_tile,
                start_y: ty * self.size_tile,
                start: self.t0,
                count,
                uid_count: self.uid_count,
            };
            r.push(TileLog { header, placements: v });
            t = t + 1;
        }
        r
    }
}

/// Serialize a placement-log header and its placements into the
/// on-disk log file image. The result is exactly the header followed
/// by each 14-byte placement record, so its length is
/// `sizeof(header) + 14 * count` and reading it back yields the same
/// header and placements.
pub fn log_file_bytes(header: &TilePlacementHeader, placements: &Vec<Placement>) -> (r: Vec<u8>)
    requires
        header.count == placements@.len(),
    ensures
        r@.len() == PLACEMENT_HEADER_BYTES + PLACEMENT_BYTES * placements@.len(),
        spec_log_header(r@) == *header,
        spec_log_placements(r@) == placements@,
{
    let mut r = header.to_bytes();
    let n = placements.len();
    let mut i: usize = 0;
    while i < n
        invariant
            i <= n,
            n == placements@.len(),
            r@.len() == PLACEMENT_HEADER_BYTES + PLACEMENT_BYTES * i,
            r@.subrange(0, PLACEMENT_HEADER_BYTES as int) == spec_placement_header_bytes(*header),
            forall|j: int|
                0 <= j < i ==> #[trigger] r@.subrange(
                    PLACEMENT_HEADER_BYTES + PLACEMENT_BYTES * j,
                    PLACEMENT_HEADER_BYTES + PLACEMENT_BYTES * j + PLACEMENT_BYTES,
                ) == spec_placement_bytes(placements@[j]),
        decreases n - i,
    {
        let ghost r0 = r@;
        let p = *placements.get(i).unwrap();
        let mut b = p.to_bytes();
        r.append(&mut b);
        proof {
            assert(r@.subrange(0, PLACEMENT_HEADER_BYTES as int) =~= r0.subrange(
                0,
                PLACEMENT_HEADER_BYTES as int,
            ));
            assert forall|j: int| 0 <= j < i + 1 implies #[trigger] r@.subrange(
                PLACEMENT_HEADER_BYTES + PLACEMENT_BYTES * j,
                PLACEMENT_HEADER_BYTES + PLACEMENT_BYTES * j + PLACEMENT_BYTES,
            ) == spec_placement_bytes(placements@[j]) by {
                if j < i {
                    assert(r@.subrange(
                        PLACEMENT_HEADER_BYTES + PLACEMENT_BYTES * j,
                        PLACEMENT_HEADER_BYTES + PLACEMENT_BYTES * j + PLACEMENT_BYTES,
                    ) =~= r0.subrange(
                        PLACEMENT_HEADER_BYTES + PLACEMENT_BYTES * j,
                        PLACEMENT_HEADER_BYTES + PLACEMENT_BYTES * j + PLACEMENT_BYTES,
                    ));
                } else {
                    assert(r@.subrange(
                        PLACEMENT_HEADER_BYTES + PLACEMENT_BYTES * j,
                        PLACEMENT_HEADER_BYTES + PLACEMENT_BYTES * j + PLACEMENT_BYTES,
                    ) =~= spec_placement_bytes(placements@[j]));
                }
            }
        }
        i = i + 1;
    }
    proof {
        lemma_placement_header_roundtrip(*header);
        assert(spec_log_header(r@) == *header);
        assert forall|j: int| 0 <= j < placements@.len() implies spec_placements_of(
            r@,
            header.count,
        )[j] == placements@[j] by {
            lemma_placement_roundtrip(placements@[j]);
        }
        assert(spec_log_placements(r@) =~= placements@);
    }
    r
}


/// Placements appended for one row all carry its timestamp offset and
/// tile-local coordinates.
pub open spec fn row_placements_ok(a: Seq<Placement>, ts_off: u32, size_tile: u16) -> bool {
    forall|i: int|
        0 <= i < a.len() ==> ((#[trigger] a[i]).ts == ts_off && a[i].x < size_tile && a[i].y
            < size_tile)
}

/// Counting and shape facts about a row's additions: at most one
/// placement per on-canvas pixel, each with the row's offset and
/// tile-local coordinates.
pub proof fn lemma_additions_props(
    pixels: Seq<(u16, u16)>,
    ts_off: u32,
    uid: u32,
    color: u8,
    isblk: bool,
    size_tile: u16,
    tiles_x: u16,
    tiles_y: u16,
    t: int,
)
    requires
        size_tile >= 1,
    ensures
        0 <= spec_canvas_count(pixels, size_tile, tiles_x, tiles_y) <= pixels.len(),
        spec_additions(pixels, ts_off, uid, color, isblk, size_tile, tiles_x, tiles_y, t).len()
            <= spec_canvas_count(pixels, size_tile, tiles_x, tiles_y),
        row_placements_ok(
            spec_additions(pixels, ts_off, uid, color, isblk, size_tile, tiles_x, tiles_y, t),
            ts_off,
            size_tile,
        ),
    decreases pixels.len(),
{
    if pixels.len() > 0 {
        lemma_additions_props(
            pixels.drop_last(),
            ts_off,
            uid,
            color,
            isblk,
            size_tile,
            tiles_x,
            tiles_y,
            t,
        );
        let p = pixels.last();
        lemma_mod_bound(p.0 as int, size_tile as int);
        lemma_mod_bound(p.1 as int, size_tile as int);
    }
}

/// One ingest step keeps the state valid.
pub proof fn lemma_step_wf(
    st: IngestState,
    row: CsvRecord,
    size_tile: u16,
    tiles_x: u16,
    tiles_y: u16,
)
    requires
        st_wf(st, size_tile, tiles_x, tiles_y),
        size_tile >= 1,
    ensures
        st_wf(spec_step(st, row, size_tile, tiles_x, tiles_y), size_tile, tiles_x, tiles_y),
{
    if spec_row_ok(st, row, size_tile, tiles_x, tiles_y) {
        let st2 = spec_step(st, row, size_tile, tiles_x, tiles_y);
        let pixels = spec_row_pixels(row);
        let ts_off = spec_ts_off(st, row);
        let n = spec_canvas_count(pixels, size_tile, tiles_x, tiles_y);
        assert forall|t: int| 0 <= t < st2.logs.len() implies {
            &&& placements_in_bounds(#[trigger] st2.logs[t], size_tile)
            &&& ts_sorted(st2.logs[t])
            &&& forall|i: int| 0 <= i < st2.logs[t].len() ==> (#[trigger] st2.logs[t][i]).ts
                <= st2.last_ts
            &&& st2.logs[t].len() <= st2.total
        } by {
            lemma_additions_props(
                pixels,
                ts_off,
                row.user_id,
                row.color,
                spec_row_isblk(row),
                size_tile,
                tiles_x,
                tiles_y,
                t,
            );
            let a = spec_additions(
                pixels,
                ts_off,
                row.user_id,
                row.color,
                spec_row_isblk(row),
                size_tile,
                tiles_x,
                tiles_y,
                t,
            );
            let old_log = st.logs[t];
            assert(st2.logs[t] == old_log + a);
            assert forall|i: int| 0 <= i < st2.logs[t].len() implies (#[trigger] st2.logs[t][i]).x
                < size_tile && st2.logs[t][i].y < size_tile && st2.logs[t][i].ts <= st2.last_ts by {
                if i < old_log.len() {
                    assert(st2.logs[t][i] == old_log[i]);
                } else {
                    assert(st2.logs[t][i] == a[i - old_log.len()]);
                }
            }
            assert forall|i: int, j: int|
                0 <= i <= j < st2.logs[t].len() implies st2.logs[t][i].ts
                <= st2.logs[t][j].ts by {
                if j < old_log.len() {
                    assert(st2.logs[t][i] == old_log[i] && st2.logs[t][j] == old_log[j]);
                } else if i < old_log.len() {
                    assert(st2.logs[t][i] == old_log[i]);
                    assert(st2.logs[t][j] == a[j - old_log.len()]);
                } else {
                    assert(st2.logs[t][i] == a[i - old_log.len()]);
                    assert(st2.logs[t][j] == a[j - old_log.len()]);
                }
            }
        }
    }
}

impl Ingestor {
    /// Route one pixel of an accepted row to its tile, translating it
    /// to tile-local coordinates; a pixel outside the canvas is
    /// skipped. Reports whether a placement was appended.
    fn ingest_pixel(
        &mut self,
        px: u16,
        py: u16,
        ts_off: u32,
        uid: u32,
        color: u8,
        isblk: bool,
    ) -> (added: bool)
        requires
            old(self).size_tile >= 1,
            old(self).logs@.len() == old(self).tiles_x as int * old(self).tiles_y as int,
        ensures
            final(self).size_x == old(self).size_x,
            final(self).size_y == old(self).size_y,
            final(self).size_tile == old(self).size_tile,
            final(self).tiles_x == old(self).tiles_x,
            final(self).tiles_y == old(self).tiles_y,
            final(self).started == old(self).started,
            final(self).t0 == old(self).t0,
            final(self).last_ts == old(self).last_ts,
            final(self).uid_count == old(self).uid_count,
            final(self).total == old(self).total,
            final(self).logs@.len() == old(self).logs@.len(),
            added == spec_in_canvas(
                (px, py),
                old(self).size_tile,
                old(self).tiles_x,
                old(self).tiles_y,
            ),
            forall|t: int|
                0 <= t < old(self).logs@.len() ==> ((#[trigger] final(self).logs@[t])@)
                    == (old(self).logs@[t])@ + (if spec_in_canvas(
                    (px, py),
                    old(self).size_tile,
                    old(self).tiles_x,
                    old(self).tiles_y,
                ) && spec_tile_of((px, py), old(self).size_tile, old(self).tiles_x) == t {
                    seq![
                        spec_local_placement(
                            (px, py),
                            ts_off,
                            uid,
                            color,
                            isblk,
                            old(self).size_tile,
                        ),
                    ]
                } else {
                    Seq::empty()
                }),
    {
        let tile_x: u16 = px / self.size_tile;
        let tile_y: u16 = py / self.size_tile;
        if tile_x >= self.tiles_x || tile_y >= self.tiles_y {
            proof {
                assert forall|t: int| 0 <= t < old(self).logs@.len() implies ((#[trigger] final(self).logs@[t])@) == (old(self).logs@[t])@ + Seq::<Placement>::empty() by {
                    assert((final(self).logs@[t])@ =~= (old(self).logs@[t])@
                        + Seq::<Placement>::empty());
                }
            }
            return false;
        }
        proof {
            assert((tile_y as int * self.tiles_x as int + tile_x as int) < self.tiles_y as int
                * self.tiles_x as int) by (nonlinear_arith)
                requires
                    (tile_x as int) < self.tiles_x as int,
                    (tile_y as int) < self.tiles_y as int,
            ;
            assert(self.tiles_y as int * self.tiles_x as int == self.tiles_x as int
                * self.tiles_y as int) by (nonlinear_arith);
            assert(self.tiles_y as int * self.tiles_x as int <= 0xffff_ffff) by (nonlinear_arith)
                requires
                    self.tiles_x <= 0xffff,
                    self.tiles_y <= 0xffff,
            ;
        }
        let idx: usize = tile_y as usize * self.tiles_x as usize + tile_x as usize;
        let p = Placement {
            ts: ts_off,
            uid,
            x: px % self.size_tile,
            y: py % self.size_tile,
            color,
            isblk,
        };
        let ghost logs_before = self@.logs;
        self.logs[idx].push(p);
        proof {
            assert(p == spec_local_placement((px, py), ts_off, uid, color, isblk, self.size_tile));
            assert(idx as int == spec_tile_of((px, py), self.size_tile, self.tiles_x));
            assert forall|t: int| 0 <= t < old(self).logs@.len() implies ((#[trigger] final(self).logs@[t])@) == (old(self).logs@[t])@ + (if t == idx as int {
                seq![p]
            } else {
                Seq::<Placement>::empty()
            }) by {
                if t == idx as int {
                    assert((final(self).logs@[t])@ =~= (old(self).logs@[t])@ + seq![p]);
                } else {
                    assert((final(self).logs@[t])@ =~= (old(self).logs@[t])@
                        + Seq::<Placement>::empty());
                }
            }
        }
        true
    }
}


impl Ingestor {
    /// Feed one parsed row into the ingestion. An accepted row fixes
    /// the time anchor if it is the first, advances the timestamp
    /// watermark, and appends one tile-local placement per pixel that
    /// falls on the canvas, returning how many were appended. A
    /// rejected row leaves the state untouched and reports
    /// `BadRecord`: its timestamp precedes the anchor, its stored
    /// offset would run backwards, its user id leaves no room for a
    /// user count, or its pixels would overrun the format's placement
    /// counter.
    pub fn ingest_row(&mut self, row: &CsvRecord) -> (r: Result<usize, StoreError>)
        requires
            old(self).wf(),
        ensures
            final(self).wf(),
            final(self).size_x == old(self).size_x,
            final(self).size_y == old(self).size_y,
            final(self).size_tile == old(self).size_tile,
            final(self).tiles_x == old(self).tiles_x,
            final(self).tiles_y == old(self).tiles_y,
            final(self)@ == spec_step(
                old(self)@,
                *row,
                old(self).size_tile,
                old(self).tiles_x,
                old(self).tiles_y,
            ),
            r is Ok <==> spec_row_ok(
                old(self)@,
                *row,
                old(self).size_tile,
                old(self).tiles_x,
                old(self).tiles_y,
            ),
            r is Ok ==> r->Ok_0 == spec_canvas_count(
                spec_row_pixels(*row),
                old(self).size_tile,
                old(self).tiles_x,
                old(self).tiles_y,
            ),
            r is Err ==> r->Err_0 == StoreError::BadRecord,
    {
        let ghost st0 = old(self)@;
        let ghost stile = old(self).size_tile;
        let ghost gtx = old(self).tiles_x;
        let ghost gty = old(self).tiles_y;
        let ghost pixels = spec_row_pixels(*row);

        let t0: u64 = if self.started {
            self.t0
        } else {
            row.ts
        };
        if row.ts < t0 {
            return Err(StoreError::BadRecord);
        }
        let ts_off: u32 = #[verifier::truncate] ((row.ts - t0) as u32);
        proof {
            assert(ts_off == spec_ts_off(st0, *row));
        }
        if ts_off < self.last_ts {
            return Err(StoreError::BadRecord);
        }
        if row.user_id == 0xffff_ffffu32 {
            return Err(StoreError::BadRecord);
        }
        let isblk = row.x2_coordinate.is_some() && row.y2_coordinate.is_some();
        let npix: u64;
        if isblk {
            let x2 = row.x2_coordinate.unwrap();
            let y2 = row.y2_coordinate.unwrap();
            if x2 < row.x_coordinate || y2 < row.y_coordinate {
                npix = 0;
                proof {
                    assert(pixels =~= Seq::<(u16, u16)>::empty());
                }
            } else {
                let w64: u64 = (x2 - row.x_coordinate) as u64 + 1;
                let h64: u64 = (y2 - row.y_coordinate) as u64 + 1;
                proof {
                    assert(w64 * h64 <= 0x1_0000_0000) by (nonlinear_arith)
                        requires
                            w64 <= 0x1_0000,
                            h64 <= 0x1_0000,
                    ;
                }
                npix = w64 * h64;
                proof {
                    assert(h64 as int * w64 as int == w64 as int * h64 as int)
                        by (nonlinear_arith);
                    assert(pixels.len() == npix);
                }
            }
        } else {
            npix = 1;
        }
        proof {
            assert(npix == pixels.len());
        }
        if self.total as u64 + npix > 0xffff_ffffu64 {
            return Err(StoreError::BadRecord);
        }
        proof {
            assert(spec_row_ok(st0, *row, stile, gtx, gty));
        }

        self.started = true;
        self.t0 = t0;
        self.last_ts = ts_off;

        let uid = row.user_id;
        let color = row.color;
        let mut appended: usize = 0;

        if isblk {
            let x1 = row.x_coordinate;
            let y1 = row.y_coordinate;
            let x2 = row.x2_coordinate.unwrap();
            let y2 = row.y2_coordinate.unwrap();
            if x2 >= x1 && y2 >= y1 {
                let w: u32 = (x2 - x1) as u32 + 1;
                let ghost gw: int = w as int;
                let ghost mut m: int = 0int;
                let mut yi: u32 = y1 as u32;
                while yi <= y2 as u32
                    invariant
                        self.size_x == old(self).size_x,
                        self.size_y == old(self).size_y,
                        self.size_tile == stile,
                        self.tiles_x == gtx,
                        self.tiles_y == gty,
                        stile >= 1,
                        self.logs@.len() == gtx as int * gty as int,
                        st0.logs.len() == self.logs@.len(),
                        self.started == true,
                        self.t0 == t0,
                        self.last_ts == ts_off,
                        self.uid_count == old(self).uid_count,
                        self.total == old(self).total,
                        isblk,
                        spec_row_isblk(*row),
                        x1 == row.x_coordinate,
                        y1 == row.y_coordinate,
                        row.x2_coordinate == Some(x2),
                        row.y2_coordinate == Some(y2),
                        x2 >= x1,
                        y2 >= y1,
                        w == x2 - x1 + 1,
                        gw == w as int,
                        uid == row.user_id,
                        color == row.color,
                        ts_off == spec_ts_off(st0, *row),
                        pixels == spec_row_pixels(*row),
                        pixels.len() == (y2 - y1 + 1) * gw,
                        pixels.len() <= 0xffff_ffff,
                        y1 as u32 <= yi <= y2 as u32 + 1,
                        m == (yi - y1) * gw,
                        0 <= m <= pixels.len(),
                        appended <= m,
                        appended == spec_canvas_count(pixels.take(m), stile, gtx, gty),
                        forall|t: int|
                            0 <= t < self.logs@.len() ==> ((#[trigger] self.logs@[t])@)
                                == st0.logs[t] + spec_additions(
                                pixels.take(m),
                                ts_off,
                                uid,
                                color,
                                true,
                                stile,
                                gtx,
                                gty,
                                t,
                            ),
                    decreases y2 as u32 + 1 - yi,
                {
                    let mut xi: u32 = x1 as u32;
                    while xi <= x2 as u32
                        invariant
                            self.size_x == old(self).size_x,
                            self.size_y == old(self).size_y,
                            self.size_tile == stile,
                            self.tiles_x == gtx,
                            self.tiles_y == gty,
                            stile >= 1,
                            self.logs@.len() == gtx as int * gty as int,
                            st0.logs.len() == self.logs@.len(),
                            self.started == true,
                            self.t0 == t0,
                            self.last_ts == ts_off,
                            self.uid_count == old(self).uid_count,
                            self.total == old(self).total,
                            isblk,
                            spec_row_isblk(*row),
                            x1 == row.x_coordinate,
                            y1 == row.y_coordinate,
                            row.x2_coordinate == Some(x2),
                            row.y2_coordinate == Some(y2),
                            x2 >= x1,
                            y2 >= y1,
                            w == x2 - x1 + 1,
                            gw == w as int,
                            uid == row.user_id,
                            color == row.color,
                            ts_off == spec_ts_off(st0, *row),
                            pixels == spec_row_pixels(*row),
                            pixels.len() == (y2 - y1 + 1) * gw,
                            pixels.len() <= 0xffff_ffff,
                            y1 as u32 <= yi <= y2 as u32,
                            x1 as u32 <= xi <= x2 as u32 + 1,
                            m == (yi - y1) * gw + (xi - x1),
                            0 <= m <= pixels.len(),
                            appended <= m,
                            appended == spec_canvas_count(pixels.take(m), stile, gtx, gty),
                            forall|t: int|
                                0 <= t < self.logs@.len() ==> ((#[trigger] self.logs@[t])@)
                                    == st0.logs[t] + spec_additions(
                                    pixels.take(m),
                                    ts_off,
                                    uid,
                                    color,
                                    true,
                                    stile,
                                    gtx,
                                    gty,
                                    t,
                                ),
                        decreases x2 as u32 + 1 - xi,
                    {
                        proof {
                            assert(m < pixels.len()) by {
                                assert((yi - y1) * gw + gw <= (y2 - y1 + 1) * gw) by {
                                    lemma_mul_inequality(
                                        yi as int - y1 as int + 1,
                                        y2 as int - y1 as int + 1,
                                        gw,
                                    );
                                    assert((yi - y1 + 1) * gw == (yi - y1) * gw + gw)
                                        by (nonlinear_arith);
                                }
                            }
                            lemma_fundamental_div_mod_converse_mod(
                                m,
                                gw,
                                yi as int - y1 as int,
                                xi as int - x1 as int,
                            );
                            lemma_fundamental_div_mod_converse_div(
                                m,
                                gw,
                                yi as int - y1 as int,
                                xi as int - x1 as int,
                            );
                            assert(pixels[m] == ((xi as u16, yi as u16)));
                        }
                        let ghost logs_prev = self@.logs;
                        let ghost m0 = m;
                        let added = self.ingest_pixel(
                            xi as u16,
                            yi as u16,
                            ts_off,
                            uid,
                            color,
                            true,
                        );
                        if added {
                            appended = appended + 1;
                        }
                        proof {
                            m = m + 1;
                            assert(pixels.take(m).drop_last() =~= pixels.take(m0));
                            assert(pixels.take(m).last() == pixels[m0]);
                            assert forall|t: int| 0 <= t < self.logs@.len() implies (
                            #[trigger] self@.logs[t]) == st0.logs[t] + spec_additions(
                                pixels.take(m),
                                ts_off,
                                uid,
                                color,
                                true,
                                stile,
                                gtx,
                                gty,
                                t,
                            ) by {
                                let a0 = spec_additions(
                                    pixels.take(m0),
                                    ts_off,
                                    uid,
                                    color,
                                    true,
                                    stile,
                                    gtx,
                                    gty,
                                    t,
                                );
                                let extra = if spec_in_canvas((xi as u16, yi as u16), stile, gtx, gty)
                                    && spec_tile_of((xi as u16, yi as u16), stile, gtx) == t {
                                    seq![
                                        spec_local_placement(
                                            (xi as u16, yi as u16),
                                            ts_off,
                                            uid,
                                            color,
                                            true,
                                            stile,
                                        ),
                                    ]
                                } else {
                                    Seq::<Placement>::empty()
                                };
                                assert((self.logs@[t])@ == (st0.logs[t] + a0) + extra);
                                assert((st0.logs[t] + a0) + extra =~= st0.logs[t] + (a0
                                    + extra));
                                assert(spec_additions(
                                    pixels.take(m),
                                    ts_off,
                                    uid,
                                    color,
                                    true,
                                    stile,
                                    gtx,
                                    gty,
                                    t,
                                ) =~= a0 + extra);
                            }
                        }
                        xi = xi + 1;
                    }
                    proof {
                        assert((yi - y1) * gw + gw == (yi + 1 - y1) * gw) by (nonlinear_arith);
                    }
                    yi = yi + 1;
                }
                proof {
                    assert(m == pixels.len());
                    assert(pixels.take(m) =~= pixels);
                }
            } else {
                proof {
                    assert(pixels.take(0) =~= pixels);
                    assert forall|t: int| 0 <= t < self.logs@.len() implies (
                    #[trigger] self@.logs[t]) == st0.logs[t] + spec_additions(
                        pixels,
                        ts_off,
                        uid,
                        color,
                        true,
                        stile,
                        gtx,
                        gty,
                        t,
                    ) by {
                        assert((self.logs@[t])@ =~= st0.logs[t] + spec_additions(
                            pixels,
                            ts_off,
                            uid,
                            color,
                            true,
                            stile,
                            gtx,
                            gty,
                            t,
                        ));
                    }
                }
            }
        } else {
            let ghost logs_prev = self@.logs;
            let added = self.ingest_pixel(
                row.x_coordinate,
                row.y_coordinate,
                ts_off,
                uid,
                color,
                false,
            );
            if added {
                appended = 1;
            }
            proof {
                let px = (row.x_coordinate, row.y_coordinate);
                assert(pixels =~= seq![px]);
                assert(pixels.drop_last() =~= Seq::<(u16, u16)>::empty());
                assert(pixels.last() == px);
                assert(spec_canvas_count(pixels.drop_last(), stile, gtx, gty) == 0);
                assert(spec_canvas_count(pixels, stile, gtx, gty) == (if spec_in_canvas(
                    px,
                    stile,
                    gtx,
                    gty,
                ) {
                    1int
                } else {
                    0int
                }));
                assert forall|t: int| 0 <= t < self.logs@.len() implies ((#[trigger] self.logs@[t])@)
                    == st0.logs[t] + spec_additions(
                    pixels,
                    ts_off,
                    uid,
                    color,
                    false,
                    stile,
                    gtx,
                    gty,
                    t,
                ) by {
                    let extra = if spec_in_canvas(px, stile, gtx, gty) && spec_tile_of(
                        px,
                        stile,
                        gtx,
                    ) == t {
                        seq![spec_local_placement(px, ts_off, uid, color, false, stile)]
                    } else {
                        Seq::<Placement>::empty()
                    };
                    assert((self.logs@[t])@ == st0.logs[t] + extra);
                    assert(spec_additions(
                        pixels.drop_last(),
                        ts_off,
                        uid,
                        color,
                        false,
                        stile,
                        gtx,
                        gty,
                        t,
                    ) =~= Seq::<Placement>::empty());
                    assert(spec_additions(
                        pixels,
                        ts_off,
                        uid,
                        color,
                        false,
                        stile,
                        gtx,
                        gty,
                        t,
                    ) =~= Seq::<Placement>::empty() + extra);
                    assert(st0.logs[t] + (Seq::<Placement>::empty() + extra) =~= st0.logs[t]
                        + extra);
                }
            }
        }
        proof {
            assert(appended == spec_canvas_count(pixels, stile, gtx, gty));
            lemma_additions_props(pixels, ts_off, uid, color, isblk, stile, gtx, gty, 0);
        }
        if appended > 0 {
            if self.uid_count < uid + 1 {
                self.uid_count = uid + 1;
            }
        }
        self.total = self.total + appended as u32;
        proof {
            let st2 = spec_step(st0, *row, stile, gtx, gty);
            assert(self@.logs =~~= st2.logs) by {
                assert forall|t: int| 0 <= t < self.logs@.len() implies self@.logs[t]
                    =~= st2.logs[t] by {
                    assert(self@.logs[t] == (self.logs@[t])@);
                    assert(st0.logs[t] == (old(self).logs@[t])@);
                    if isblk {
                        assert(spec_additions(
                            pixels,
                            ts_off,
                            uid,
                            color,
                            spec_row_isblk(*row),
                            stile,
                            gtx,
                            gty,
                            t,
                        ) == spec_additions(pixels, ts_off, uid, color, true, stile, gtx, gty, t));
                    }
                }
            }
            assert(self@ == st2);
            lemma_step_wf(st0, *row, stile, gtx, gty);
        }
        Ok(appended)
    }
}


/// The ingest command: the input and output locations the command
/// line names, and the canvas geometry.
pub struct ParseCommand {
    /// Path of the input CSV.
    pub input: String,
    /// Prefix of the per-tile output files.
    pub output_prefix: String,
    /// Canvas width in pixels.
    pub size_x: u16,
    /// Canvas height in pixels.
    pub size_y: u16,
    /// Tile edge; tiles are square.
    pub size_tile: u16,
}

impl ParseCommand {
    /// Whether the configured geometry is rejected: a zero dimension,
    /// or a canvas dimension not divisible by the tile edge.
    pub open spec fn spec_config_bad(&self) -> bool {
        ||| self.size_x == 0
        ||| self.size_y == 0
        ||| self.size_tile == 0
        ||| self.size_x as int % self.size_tile as int != 0
        ||| self.size_y as int % self.size_tile as int != 0
    }

    /// Tiles per canvas row.
    pub open spec fn spec_tiles_x(&self) -> u16 {
        (self.size_x as int / self.size_tile as int) as u16
    }

    /// Tiles per canvas column.
    pub open spec fn spec_tiles_y(&self) -> u16 {
        (self.size_y as int / self.size_tile as int) as u16
    }

    /// The ingestor state after feeding all rows, in order, to a fresh
    /// ingestion over this command's geometry.
    pub open spec fn spec_final_state(&self, rows: Seq<CsvRecord>) -> IngestState {
        spec_ingest_all(
            spec_init_state(self.spec_tiles_x(), self.spec_tiles_y()),
            rows,
            self.size_tile,
            self.spec_tiles_x(),
            self.spec_tiles_y(),
        )
    }

    /// Run the whole ingestion over already-parsed rows: shard every
    /// row's pixels into per-tile logs and return them with their
    /// backpatched headers. Rows the ingestor rejects are skipped, as
    /// are pixels outside the canvas. Fails only when the geometry is
    /// invalid.
    pub fn execute(&self, rows: &Vec<CsvRecord>) -> (r: Result<Vec<TileLog>, StoreError>)
        ensures
            self.spec_config_bad() ==> r == Result::<Vec<TileLog>, StoreError>::Err(
                StoreError::ConfigInvalid,
            ),
            !self.spec_config_bad() ==> r is Ok && ({
                let fin = self.spec_final_state(rows@);
                let tx = self.spec_tiles_x();
                let ty = self.spec_tiles_y();
                &&& r->Ok_0@.len() == tx as int * ty as int
                &&& forall|t: int|
                    0 <= t < r->Ok_0@.len() ==> {
                        let tl = #[trigger] r->Ok_0@[t];
                        &&& tl.placements@ == fin.logs[t]
                        &&& tl.header.version == TILE_PLACEMENT_VERSION_ID
                        &&& tl.header.size == self.size_tile
                        &&& tl.header.start_x == (t % (tx as int)) * self.size_tile
                        &&& tl.header.start_y == (t / (tx as int)) * self.size_tile
                        &&& tl.header.start == fin.t0
                        &&& tl.header.count == fin.logs[t].len()
                        &&& tl.header.uid_count == fin.uid_count
                    }
            }),
    {
        let mut ing = match Ingestor::new(self.size_x, self.size_y, self.size_tile) {
            Ok(i) => i,
            Err(e) => {
                return Err(e);
            },
        };
        let ghost tx = self.spec_tiles_x();
        let ghost ty = self.spec_tiles_y();
        proof {
            assert(ing.tiles_x == tx && ing.tiles_y == ty);
        }
        let n = rows.len();
        let mut i: usize = 0;
        while i < n
            invariant
                i <= n,
                n == rows@.len(),
                ing.wf(),
                ing.size_tile == self.size_tile,
                ing.tiles_x == tx,
                ing.tiles_y == ty,
                ing@ == spec_ingest_all(
                    spec_init_state(tx, ty),
                    rows@.take(i as int),
                    self.size_tile,
                    tx,
                    ty,
                ),
            decreases n - i,
        {
            let row = rows.get(i).unwrap();
            let outcome = ing.ingest_row(row);
            proof {
                assert(rows@.take(i + 1).drop_last() =~= rows@.take(i as int));
                assert(rows@.take(i + 1).last() == rows@[i as int]);
            }
            i = i + 1;
        }
        proof {
            assert(rows@.take(n as int) =~= rows@);
        }
        Ok(ing.finish())
    }
}

} // verus!



