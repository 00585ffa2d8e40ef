//! Dataset registry: a named dataset bundles a palette, canvas and
//! tile geometry, and the loaded tiles, ordered row-major so that
//! `tiles[x + y * tiles_per_row]` addresses the tile at grid position
//! `(x, y)`.

use vstd::prelude::*;
use vstd::arithmetic::div_mod::{lemma_fundamental_div_mod, lemma_mod_bound};
use vstd::arithmetic::mul::lemma_mul_inequality;

use crate::errors::StoreError;
use crate::tile::Tile;

verus! {

/// The top level of a configuration document: the datasets to serve.
pub struct Root {
    /// One entry per dataset.
    pub datasets: Vec<SerializedDataset>,
}

/// One dataset as configured: where its files live and how its canvas
/// is shaped.
pub struct SerializedDataset {
    /// The name queries address the dataset by.
    pub name: String,
    /// Path prefix of the dataset's tile files.
    pub prefix: String,
    /// The palette as 24-bit `0xRRGGBB` integers.
    pub palette: Vec<u32>,
    /// Canvas width in pixels.
    pub size_x: u16,
    /// Canvas height in pixels.
    pub size_y: u16,
    /// Tile edge; tiles are square.
    pub size_tile: u16,
}

/// A loaded dataset: synthesized palettes and the tiles in row-major
/// grid order.
pub struct Dataset {
    /// The name queries address the dataset by.
    pub name: String,
    /// RGB bytes: a white slot, then three bytes per configured color.
    pub palette: Vec<u8>,
    /// Transparency bytes: 0 for slot 0, then 255 per configured
    /// color.
    pub trns_palette: Vec<u8>,
    /// Canvas width in pixels.
    pub size_x: u16,
    /// Canvas height in pixels.
    pub size_y: u16,
    /// Tile edge; tiles are square.
    pub size_tile: u16,
    /// The tiles, indexed `x + y * (size_x / size_tile)`.
    pub tiles: Vec<Tile>,
}

/// The three RGB bytes of one 24-bit color.
pub open spec fn spec_rgb(v: u32) -> Seq<u8> {
    seq![((v >> 16) & 0xff) as u8, ((v >> 8) & 0xff) as u8, (v & 0xff) as u8]
}

/// The synthesized RGB palette: white prepended, then each configured
/// color splayed into three bytes.
pub open spec fn spec_palette(ps: Seq<u32>) -> Seq<u8>
    decreases ps.len(),
{
    if ps.len() == 0 {
        spec_rgb(0xffffff)
    } else {
        spec_palette(ps.drop_last()) + spec_rgb(ps.last())
    }
}

/// The synthesized transparency palette: 0 for the reserved slot 0,
/// then 255 for each configured color.
pub open spec fn spec_trns(n: int) -> Seq<u8> {
    seq![0u8] + Seq::new(n as nat, |i: int| 255u8)
}

/// Tile ordering for the dataset grid: by row, then by column.
pub open spec fn origin_le(a: Tile, b: Tile) -> bool {
    ||| a.start_y < b.start_y
    ||| (a.start_y == b.start_y && a.start_x <= b.start_x)
}

/// Whether a tile sequence is sorted by origin, row-major.
pub open spec fn sorted_by_origin(s: Seq<Tile>) -> bool {
    forall|i: int, j: int| 0 <= i <= j < s.len() ==> origin_le(s[i], s[j])
}

/// A tile placed into an origin-sorted sequence, just after the last
/// tile that does not order above it.
pub open spec fn spec_insert_sorted(s: Seq<Tile>, x: Tile) -> Seq<Tile>
    decreases s.len(),
{
    if s.len() == 0 {
        seq![x]
    } else if origin_le(s.last(), x) {
        s + seq![x]
    } else {
        spec_insert_sorted(s.drop_last(), x) + seq![s.last()]
    }
}

/// A tile sequence sorted by origin, built by inserting each tile in
/// turn; tiles with equal origins keep their relative order.
pub open spec fn spec_sort_tiles(s: Seq<Tile>) -> Seq<Tile>
    decreases s.len(),
{
    if s.len() == 0 {
        Seq::empty()
    } else {
        spec_insert_sorted(spec_sort_tiles(s.drop_last()), s.last())
    }
}

/// Whether a tile sequence sits exactly on the row-major grid:
/// the tile at index `i` has origin
/// `((i % tiles_x) * size_tile, (i / tiles_x) * size_tile)`.
pub open spec fn grid_ok(s: Seq<Tile>, tiles_x: int, size_tile: u16) -> bool {
    forall|i: int|
        0 <= i < s.len() ==> (#[trigger] s[i]).start_x == (i % tiles_x) * size_tile && s[i].start_y
            == (i / tiles_x) * size_tile
}

/// Inserting keeps a tile sequence sorted and only adds the new tile.
pub proof fn lemma_insert_sorted_props(s: Seq<Tile>, x: Tile)
    requires
        sorted_by_origin(s),
    ensures
        spec_insert_sorted(s, x).len() == s.len() + 1,
        sorted_by_origin(spec_insert_sorted(s, x)),
        spec_insert_sorted(s, x).to_multiset() == s.to_multiset().insert(x),
    decreases s.len(),
{
    broadcast use vstd::seq_lib::group_to_multiset_ensures;
    broadcast use vstd::multiset::group_multiset_axioms;

    let r = spec_insert_sorted(s, x);
    if s.len() == 0 {
        assert(r =~= Seq::empty().push(x));
        assert(r.to_multiset() =~= s.to_multiset().insert(x));
    } else if origin_le(s.last(), x) {
        assert(r =~= s.push(x));
        assert forall|i: int, j: int| 0 <= i <= j < r.len() implies origin_le(r[i], r[j]) by {
            if j == r.len() - 1 && i < j {
                assert(origin_le(s[i], s.last()));
            }
        }
        assert(r.to_multiset() =~= s.to_multiset().insert(x));
    } else {
        let t = s.drop_last();
        assert(sorted_by_origin(t));
        lemma_insert_sorted_props(t, x);
        let rt = spec_insert_sorted(t, x);
        assert(r == rt + seq![s.last()]);
        assert(r =~= rt.push(s.last()));
        // every tile already placed orders at or below the last tile
        assert forall|i: int| 0 <= i < rt.len() implies origin_le(rt[i], s.last()) by {
            assert(rt.to_multiset().contains(rt[i]));
            if rt[i] == x {
                assert(!origin_le(s.last(), x));
                assert(origin_le(x, s.last()));
            } else {
                assert(t.to_multiset().contains(rt[i]) || rt[i] == x);
                let k = choose|k: int| 0 <= k < t.len() && t[k] == rt[i];
                assert(origin_le(s[k], s.last()));
            }
        }
        assert forall|i: int, j: int| 0 <= i <= j < r.len() implies origin_le(r[i], r[j]) by {
            if j == r.len() - 1 {
                if i < j {
                    assert(origin_le(rt[i], s.last()));
                }
            }
        }
        assert(s =~= t.push(s.last()));
        assert(r.to_multiset() =~= s.to_multiset().insert(x));
    }
}

/// The sorted tile sequence is a reordering of the input: same
/// length, same tiles with the same multiplicities, sorted by origin.
pub proof fn lemma_sort_tiles_props(s: Seq<Tile>)
    ensures
        spec_sort_tiles(s).len() == s.len(),
        sorted_by_origin(spec_sort_tiles(s)),
        spec_sort_tiles(s).to_multiset() == s.to_multiset(),
    decreases s.len(),
{
    broadcast use vstd::seq_lib::group_to_multiset_ensures;
    broadcast use vstd::multiset::group_multiset_axioms;

    if s.len() > 0 {
        lemma_sort_tiles_props(s.drop_last());
        lemma_insert_sorted_props(spec_sort_tiles(s.drop_last()), s.last());
        assert(s =~= s.drop_last().push(s.last()));
        assert(spec_sort_tiles(s).to_multiset() =~= s.to_multiset());
    }
}

/// Whether `a` orders at or before `b` in the dataset grid.
fn tile_before(a: &Tile, b: &Tile) -> (r: bool)
    ensures
        r == origin_le(*a, *b),
{
    a.start_y < b.start_y || (a.start_y == b.start_y && a.start_x <= b.start_x)
}

/// Place one tile into an origin-sorted vector.
fn insert_sorted(tiles: &mut Vec<Tile>, x: Tile)
    ensures
        final(tiles)@ == spec_insert_sorted(old(tiles)@, x),
{
    let mut pos: usize = tiles.len();
    while pos > 0 && !tile_before(&tiles[pos - 1], &x)
        invariant
            0 <= pos <= tiles@.len(),
            tiles@ == old(tiles)@,
            forall|j: int| pos <= j < tiles@.len() ==> !origin_le(#[trigger] tiles@[j], x),
        decreases pos,
    {
        pos = pos - 1;
    }
    proof {
        lemma_insert_split(tiles@, x, pos as int);
    }
    tiles.insert(pos, x);
    proof {
        assert(final(tiles)@ =~= old(tiles)@.take(pos as int) + seq![x] + old(tiles)@.skip(
            pos as int,
        ));
    }
}

/// Where the insertion scan stops is where the spec places the tile.
proof fn lemma_insert_split(s: Seq<Tile>, x: Tile, pos: int)
    requires
        0 <= pos <= s.len(),
        forall|j: int| pos <= j < s.len() ==> !origin_le(#[trigger] s[j], x),
        pos > 0 ==> origin_le(s[pos - 1], x),
    ensures
        spec_insert_sorted(s, x) == s.take(pos) + seq![x] + s.skip(pos),
    decreases s.len(),
{
    if s.len() == 0 {
        assert(spec_insert_sorted(s, x) =~= s.take(0) + seq![x] + s.skip(0));
    } else if origin_le(s.last(), x) {
        assert(pos == s.len());
        assert(spec_insert_sorted(s, x) =~= s.take(pos) + seq![x] + s.skip(pos));
    } else {
        assert(pos < s.len());
        let t = s.drop_last();
        lemma_insert_split(t, x, pos);
        assert(spec_insert_sorted(t, x) == t.take(pos) + seq![x] + t.skip(pos));
        assert(t.take(pos) =~= s.take(pos));
        assert(t.skip(pos) + seq![s.last()] =~= s.skip(pos));
        assert(spec_insert_sorted(s, x) =~= s.take(pos) + seq![x] + s.skip(pos));
    }
}

impl SerializedDataset {
    /// Whether the configured geometry is rejected: a zero tile edge,
    /// or a canvas dimension not divisible by the tile edge.
    pub open spec fn spec_config_bad(&self) -> bool {
        ||| self.size_tile == 0
        ||| self.size_x as int % self.size_tile as int != 0
        ||| self.size_y as int % self.size_tile as int != 0
    }

    /// Tiles per canvas row.
    pub open spec fn spec_tiles_x(&self) -> int {
        self.size_x as int / self.size_tile as int
    }

    /// Tiles per canvas column.
    pub open spec fn spec_tiles_y(&self) -> int {
        self.size_y as int / self.size_tile as int
    }

    /// Assemble the dataset from its loaded tiles: synthesize the two
    /// palettes, order the tiles by row and column, and check that
    /// they cover the canvas grid exactly — one tile per grid slot,
    /// each at its slot's origin. Rejects a zero or non-dividing tile
    /// edge, a tile count other than the grid's, and tiles that do not
    /// sit on the grid.
    pub fn load(&self, tiles: Vec<Tile>) -> (r: Result<Dataset, StoreError>)
        ensures
            r is Ok <==> (!self.spec_config_bad() && tiles@.len() == self.spec_tiles_x()
                * self.spec_tiles_y() && grid_ok(
                spec_sort_tiles(tiles@),
                self.spec_tiles_x(),
                self.size_tile,
            )),
            r is Err ==> r->Err_0 == StoreError::ConfigInvalid,
            r is Ok ==> ({
                let d = r->Ok_0;
                &&& d.wf()
                &&& d.name == self.name
                &&& d.palette@ == spec_palette(self.palette@)
                &&& d.trns_palette@ == spec_trns(self.palette@.len() as int)
                &&& d.size_x == self.size_x
                &&& d.size_y == self.size_y
                &&& d.size_tile == self.size_tile
                &&& d.tiles@ == spec_sort_tiles(tiles@)
            }),
    {
        if self.size_tile == 0 || self.size_x % self.size_tile != 0 || self.size_y
            % self.size_tile != 0 {
            return Err(StoreError::ConfigInvalid);
        }
        let tiles_x: u16 = self.size_x / self.size_tile;
        let tiles_y: u16 = self.size_y / self.size_tile;
        proof {
            assert(tiles_x as int * tiles_y as int <= 0xffff_ffff) by (nonlinear_arith)
                requires
                    tiles_x <= 0xffff,
                    tiles_y <= 0xffff,
            ;
        }
        let expect: usize = tiles_x as usize * tiles_y as usize;
        if tiles.len() != expect {
            return Err(StoreError::ConfigInvalid);
        }

        let mut sorted: Vec<Tile> = Vec::new();
        let mut input = tiles;
        let ghost input0 = input@;
        let mut i: usize = 0;
        let n = input.len();
        while i < n
            invariant
                i <= n,
                n == input0.len(),
                input@ =~= input0.skip(i as int),
                sorted@ == spec_sort_tiles(input0.take(i as int)),
            decreases n - i,
        {
            let x = input.remove(0);
            proof {
                assert(x == input0[i as int]);
                assert(input0.take(i + 1).drop_last() =~= input0.take(i as int));
                assert(input0.take(i + 1).last() == input0[i as int]);
            }
            insert_sorted(&mut sorted, x);
            proof {
                assert(input@ =~= input0.skip(i + 1));
            }
            i = i + 1;
        }
        proof {
            assert(input0.take(n as int) =~= input0);
            lemma_sort_tiles_props(input0);
            if tiles_x == 0 {
                assert(tiles_x as int * tiles_y as int == 0) by (nonlinear_arith)
                    requires
                        tiles_x as int == 0,
                ;
            }
        }

        // the sorted tiles must sit exactly on the row-major grid
        let mut t: usize = 0;
        while t < expect
            invariant
                t <= expect,
                expect == tiles_x as int * tiles_y as int,
                tiles_x == self.spec_tiles_x(),
                tiles_y == self.spec_tiles_y(),
                self.size_tile >= 1,
                tiles_x >= 1 || expect == 0,
                sorted@.len() == expect,
                input0 == tiles@,
                sorted@ == spec_sort_tiles(input0),
                forall|j: int|
                    0 <= j < t ==> (#[trigger] sorted@[j]).start_x == (j % (tiles_x as int))
                        * self.size_tile && sorted@[j].start_y == (j / (tiles_x as int))
                        * self.size_tile,
            decreases expect - t,
        {
            proof {
                assert(tiles_x >= 1) by {
                    if tiles_x == 0 {
                        assert(tiles_x as int * tiles_y as int == 0) by (nonlinear_arith)
                            requires
                                tiles_x as int == 0,
                        ;
                    }
                }
                lemma_mod_bound(t as int, tiles_x as int);
                assert((t as int / tiles_x as int) < tiles_y as int) by {
                    vstd::arithmetic::div_mod::lemma_div_pos_is_pos(t as int, tiles_x as int);
                    if t as int / tiles_x as int >= tiles_y as int {
                        lemma_fundamental_div_mod(t as int, tiles_x as int);
                        assert(tiles_x as int * (t as int / tiles_x as int) >= tiles_x as int
                            * tiles_y as int) by (nonlinear_arith)
                            requires
                                t as int / tiles_x as int >= tiles_y as int,
                                tiles_x as int >= 1,
                        ;
                        assert(tiles_x as int * tiles_y as int == tiles_y as int * tiles_x as int)
                            by (nonlinear_arith);
                    }
                }
                lemma_fundamental_div_mod(self.size_x as int, self.size_tile as int);
                lemma_fundamental_div_mod(self.size_y as int, self.size_tile as int);
                assert(tiles_x as int * self.size_tile as int == self.size_tile as int
                    * tiles_x as int) by (nonlinear_arith);
                assert(tiles_y as int * self.size_tile as int == self.size_tile as int
                    * tiles_y as int) by (nonlinear_arith);
                lemma_mul_inequality(
                    (t as int % tiles_x as int) + 1,
                    tiles_x as int,
                    self.size_tile as int,
                );
                assert(((t as int % tiles_x as int) + 1) * self.size_tile as int == (t as int
                    % tiles_x as int) * self.size_tile as int + self.size_tile as int)
                    by (nonlinear_arith);
                lemma_mul_inequality(
                    (t as int / tiles_x as int) + 1,
                    tiles_y as int,
                    self.size_tile as int,
                );
                assert(((t as int / tiles_x as int) + 1) * self.size_tile as int == (t as int
                    / tiles_x as int) * self.size_tile as int + self.size_tile as int)
                    by (nonlinear_arith);
            }
            let want_x: u16 = (t % tiles_x as usize) as u16 * self.size_tile;
            let want_y: u16 = (t / tiles_x as usize) as u16 * self.size_tile;
            let tile = &sorted[t];
            if tile.start_x != want_x || tile.start_y != want_y {
                proof {
                    let ss = spec_sort_tiles(input0);
                    assert(ss[t as int].start_x != (t as int % (tiles_x as int)) * self.size_tile
                        || ss[t as int].start_y != (t as int / (tiles_x as int))
                        * self.size_tile);
                }
                return Err(StoreError::ConfigInvalid);
            }
            t = t + 1;
        }

        let palette = build_palette(&self.palette);
        let trns_palette = build_trns(self.palette.len());
        Ok(
            Dataset {
                name: self.name.clone(),
                palette,
                trns_palette,
                size_x: self.size_x,
                size_y: self.size_y,
                size_tile: self.size_tile,
                tiles: sorted,
            },
        )
    }
}

/// Synthesize the RGB palette bytes: white, then each configured
/// color's three bytes.
fn build_palette(ps: &Vec<u32>) -> (r: Vec<u8>)
    ensures
        r@ == spec_palette(ps@),
{
    let mut r: Vec<u8> = Vec::new();
    r.push(0xff);
    r.push(0xff);
    r.push(0xff);
    proof {
        assert((0xffffffu32 >> 16) & 0xff == 0xffu32) by (bit_vector);
        assert((0xffffffu32 >> 8) & 0xff == 0xffu32) by (bit_vector);
        assert(0xffffffu32 & 0xff == 0xffu32) by (bit_vector);
        assert(ps@.take(0) =~= Seq::<u32>::empty());
        assert(r@ =~= spec_palette(ps@.take(0)));
    }
    let n = ps.len();
    let mut i: usize = 0;
    while i < n
        invariant
            i <= n,
            n == ps@.len(),
            r@ == spec_palette(ps@.take(i as int)),
        decreases n - i,
    {
        let v = *ps.get(i).unwrap();
        r.push(((v >> 16) & 0xff) as u8);
        r.push(((v >> 8) & 0xff) as u8);
        r.push((v & 0xff) as u8);
        proof {
            assert(ps@.take(i + 1).drop_last() =~= ps@.take(i as int));
            assert(ps@.take(i + 1).last() == ps@[i as int]);
            assert(r@ =~= spec_palette(ps@.take(i as int)) + spec_rgb(ps@[i as int]));
        }
        i = i + 1;
    }
    proof {
        assert(ps@.take(n as int) =~= ps@);
    }
    r
}

/// Synthesize the transparency palette bytes: 0, then 255 per color.
fn build_trns(n: usize) -> (r: Vec<u8>)
    ensures
        r@ == spec_trns(n as int),
{
    let mut r: Vec<u8> = Vec::new();
    r.push(0);
    let mut i: usize = 0;
    while i < n
        invariant
            i <= n,
            r@.len() == i + 1,
            r@[0] == 0u8,
            forall|j: int| 1 <= j < i + 1 ==> r@[j] == 255u8,
        decreases n - i,
    {
        r.push(255);
        i = i + 1;
    }
    proof {
        assert(r@ =~= spec_trns(n as int));
    }
    r
}

impl Dataset {
    /// Whether the dataset's grid bookkeeping is coherent; `load`
    /// establishes it.
    pub open spec fn wf(&self) -> bool {
        &&& self.size_tile >= 1
        &&& self.tiles@.len() == (self.size_x as int / self.size_tile as int) * (
        self.size_y as int / self.size_tile as int)
    }

    /// The tile at grid position `(x, y)`, or `None` when the
    /// position lies outside the grid.
    pub fn get_tile(&self, x: u16, y: u16) -> (r: Option<&Tile>)
        requires
            self.wf(),
        ensures
            r is Some <==> (x as int) < self.size_x as int / self.size_tile as int && (y as int)
                < self.size_y as int / self.size_tile as int,
            r is Some ==> *r->0 == self.tiles@[x as int + y as int * (self.size_x as int
                / self.size_tile as int)],
    {
        let sx: u16 = self.size_x / self.size_tile;
        let sy: u16 = self.size_y / self.size_tile;
        if x >= sx || y >= sy {
            return None;
        }
        proof {
            assert((y as int * sx as int + x as int) < sy as int * sx as int) by (nonlinear_arith)
                requires
                    (x as int) < sx as int,
                    (y as int) < sy as int,
            ;
            assert(sy as int * sx as int == sx as int * sy as int) by (nonlinear_arith);
            assert(sy as int * sx as int <= 0xffff_ffff) by (nonlinear_arith)
                requires
                    sx <= 0xffff,
                    sy <= 0xffff,
            ;
        }
        Some(&self.tiles[x as usize + y as usize * sx as usize])
    }
}


/// Pair the globbed placement-log files with the keyframe files in
/// matched order. The two lists must have equal sizes, else the
/// pairing fails with `PairingMismatch`.
pub fn pair_files(logs: &Vec<String>, frames: &Vec<String>) -> (r: Result<
    Vec<(String, String)>,
    StoreError,
>)
    ensures
        r is Ok <==> logs@.len() == frames@.len(),
        r is Err ==> r->Err_0 == StoreError::PairingMismatch,
        r is Ok ==> r->Ok_0@.len() == logs@.len() && forall|i: int|
            0 <= i < logs@.len() ==> #[trigger] r->Ok_0@[i] == (logs@[i], frames@[i]),
{
    if logs.len() != frames.len() {
        return Err(StoreError::PairingMismatch);
    }
    let n = logs.len();
    let mut pairs: Vec<(String, String)> = Vec::new();
    let mut i: usize = 0;
    while i < n
        invariant
            i <= n,
            n == logs@.len(),
            logs@.len() == frames@.len(),
            pairs@.len() == i,
            forall|j: int| 0 <= j < i ==> #[trigger] pairs@[j] == (logs@[j], frames@[j]),
        decreases n - i,
    {
        let log = logs.get(i).unwrap().clone();
        let frame = frames.get(i).unwrap().clone();
        pairs.push((log, frame));
        i = i + 1;
    }
    Ok(pairs)
}

} // verus!

