use vstd::prelude::*;
use vstd::arithmetic::div_mod::lemma_fundamental_div_mod_converse;
use crate::raster::{RgbImg, lanczos_of, resize_lanczos, flat_idx};
use crate::grid::{strictly_inc, seg_of, lemma_seg_of_contains, lemma_seg_unique};
use crate::index::{PicData, THUMB_DIM};
use crate::score::{beats_sentinel, score_le, score_lt, find_best_match};
use crate::compose::MatchData;
use crate::errors::MosaicError;

verus! {

/// One axis-aligned rectangle of the output grid.
#[derive(Clone, Copy, PartialEq, Eq, Structural, Debug)]
pub struct Tile {
    pub x: u32,
    pub y: u32,
    pub width: u32,
    pub height: u32,
}

impl Tile {
    /// The tile has positive extent and lies inside a `w` by `h` canvas.
    pub open spec fn fits(self, w: int, h: int) -> bool {
        &&& 0 < self.width
        &&& 0 < self.height
        &&& self.x + self.width <= w
        &&& self.y + self.height <= h
    }
}

/// The tile of grid cell `(i, j)`: column `i` of the x ruler crossed with
/// row `j` of the y ruler.
pub open spec fn tile_at(xr: Seq<u32>, yr: Seq<u32>, i: int, j: int) -> Tile {
    Tile {
        x: xr[i],
        y: yr[j],
        width: (xr[i + 1] - xr[i]) as u32,
        height: (yr[j + 1] - yr[j]) as u32,
    }
}

/// Every grid cell of two axis partitions fits inside the canvas the
/// partitions describe.
pub proof fn lemma_tile_at_fits(xr: Seq<u32>, yr: Seq<u32>, i: int, j: int)
    requires
        strictly_inc(xr),
        strictly_inc(yr),
        0 <= i < xr.len() - 1,
        0 <= j < yr.len() - 1,
    ensures
        tile_at(xr, yr, i, j).fits(xr.last() as int, yr.last() as int),
{
    assert(xr[i] < xr[i + 1]);
    assert(yr[j] < yr[j + 1]);
    if i + 1 < xr.len() - 1 {
        assert(xr[i + 1] < xr.last());
    }
    if j + 1 < yr.len() - 1 {
        assert(yr[j + 1] < yr.last());
    }
}

/// The pixel `(px, py)` lies inside the grid cell `(i, j)`.
pub open spec fn tile_contains(xr: Seq<u32>, yr: Seq<u32>, i: int, j: int, px: int, py: int) -> bool {
    xr[i] <= px < xr[i + 1] && yr[j] <= py < yr[j + 1]
}

/// The grid of two axis partitions covers the canvas exactly: every pixel
/// lies in the cell that the two segment indices name, and in no other.
/// No gap and no overlap, whatever the seeds.
pub proof fn lemma_grid_covers_exactly(xr: Seq<u32>, yr: Seq<u32>, px: int, py: int)
    requires
        xr.len() >= 2,
        yr.len() >= 2,
        strictly_inc(xr),
        strictly_inc(yr),
        xr[0] == 0,
        yr[0] == 0,
        0 <= px < xr.last(),
        0 <= py < yr.last(),
    ensures
        0 <= seg_of(xr, px) < xr.len() - 1,
        0 <= seg_of(yr, py) < yr.len() - 1,
        tile_contains(xr, yr, seg_of(xr, px), seg_of(yr, py), px, py),
        forall|i: int, j: int|
            0 <= i < xr.len() - 1 && 0 <= j < yr.len() - 1 && #[trigger] tile_contains(
                xr,
                yr,
                i,
                j,
                px,
                py,
            ) ==> i == seg_of(xr, px) && j == seg_of(yr, py),
{
    lemma_seg_of_contains(xr, px);
    lemma_seg_of_contains(yr, py);
    assert forall|i: int, j: int|
        0 <= i < xr.len() - 1 && 0 <= j < yr.len() - 1 && #[trigger] tile_contains(
            xr,
            yr,
            i,
            j,
            px,
            py,
        ) implies i == seg_of(xr, px) && j == seg_of(yr, py) by {
        lemma_seg_unique(xr, px, i, seg_of(xr, px));
        lemma_seg_unique(yr, py, j, seg_of(yr, py));
    }
}

/// Derives the full tile set of the two axis partitions: the Cartesian
/// product of adjacent ruler intervals, x-major, as the matcher walks it.
pub fn tiles_from(x_rulers: &Vec<u32>, y_rulers: &Vec<u32>) -> (r: Vec<Tile>)
    requires
        x_rulers@.len() >= 1,
        y_rulers@.len() >= 1,
        strictly_inc(x_rulers@),
        strictly_inc(y_rulers@),
    ensures
        r@.len() == (x_rulers@.len() - 1) * (y_rulers@.len() - 1),
        forall|i: int, j: int|
            0 <= i < x_rulers@.len() - 1 && 0 <= j < y_rulers@.len() - 1 ==> r@[i * (
            y_rulers@.len() - 1) + j] == #[trigger] tile_at(x_rulers@, y_rulers@, i, j),
{
    let nx: usize = x_rulers.len() - 1;
    let ny: usize = y_rulers.len() - 1;
    let mut r: Vec<Tile> = Vec::new();
    let mut i: usize = 0;
    while i < nx
        invariant
            nx == x_rulers@.len() - 1,
            ny == y_rulers@.len() - 1,
            strictly_inc(x_rulers@),
            strictly_inc(y_rulers@),
            i <= nx,
            r@.len() == i * ny,
            forall|i2: int, j2: int|
                0 <= i2 < i && 0 <= j2 < ny ==> r@[i2 * ny + j2] == #[trigger] tile_at(
                    x_rulers@,
                    y_rulers@,
                    i2,
                    j2,
                ),
        decreases nx - i,
    {
        let mut j: usize = 0;
        while j < ny
            invariant
                nx == x_rulers@.len() - 1,
                ny == y_rulers@.len() - 1,
                strictly_inc(x_rulers@),
                strictly_inc(y_rulers@),
                i < nx,
                j <= ny,
                r@.len() == i * ny + j,
                forall|i2: int, j2: int|
                    0 <= i2 < i && 0 <= j2 < ny ==> r@[i2 * ny + j2] == #[trigger] tile_at(
                        x_rulers@,
                        y_rulers@,
                        i2,
                        j2,
                    ),
                forall|j2: int|
                    0 <= j2 < j ==> r@[i * ny + j2] == #[trigger] tile_at(
                        x_rulers@,
                        y_rulers@,
                        i as int,
                        j2,
                    ),
            decreases ny - j,
        {
            let t = Tile {
                x: x_rulers[i],
                y: y_rulers[j],
                width: x_rulers[i + 1] - x_rulers[i],
                height: y_rulers[j + 1] - y_rulers[j],
            };
            r.push(t);
            proof {
                assert forall|i2: int, j2: int|
                    0 <= i2 < i && 0 <= j2 < ny implies r@[i2 * ny + j2] == #[trigger] tile_at(
                    x_rulers@,
                    y_rulers@,
                    i2,
                    j2,
                ) by {
                    assert(i2 * ny + j2 < i * ny) by (nonlinear_arith)
                        requires
                            0 <= i2 < i as int,
                            0 <= j2 < ny as int;
                }
            }
            j = j + 1;
        }
        proof {
            assert((i as int + 1) * (ny as int) == i * ny + ny) by (nonlinear_arith);
        }
        i = i + 1;
    }
    r
}

/// The bytes of the `w` by `h` region of `img` whose top-left corner is at
/// `(x, y)`, laid out as a raster buffer of its own.
pub open spec fn crop_seq(img: RgbImg, x: int, y: int, w: int, h: int) -> Seq<u8> {
    Seq::new(
        (3 * w * h) as nat,
        |n: int| img.byte_at(x + ((n / 3) % w), y + ((n / 3) / w), n % 3),
    )
}

/// A raster that matches `img` pointwise on a region holds exactly the
/// region's bytes.
proof fn lemma_crop_seq_eq(img: RgbImg, x: int, y: int, w: int, h: int, cropped: RgbImg)
    requires
        w > 0,
        h > 0,
        cropped.wf(),
        cropped.width == w,
        cropped.height == h,
        forall|i: int, j: int, c: int|
            0 <= i < w && 0 <= j < h && 0 <= c < 3 ==> #[trigger] cropped.byte_at(i, j, c)
                == img.byte_at(x + i, y + j, c),
    ensures
        cropped.data@ == crop_seq(img, x, y, w, h),
{
    let s = crop_seq(img, x, y, w, h);
    assert(cropped.data@.len() == 3 * w * h);
    assert forall|n: int| 0 <= n < 3 * w * h implies cropped.data@[n] == s[n] by {
        let n3 = n / 3;
        let c = n % 3;
        let i = n3 % w;
        let j = n3 / w;
        assert(n == 3 * n3 + c && 0 <= c < 3) by (nonlinear_arith)
            requires
                n >= 0,
                n3 == n / 3,
                c == n % 3;
        assert(0 <= n3 < w * h) by (nonlinear_arith)
            requires
                0 <= n < 3 * w * h,
                n == 3 * n3 + c,
                0 <= c < 3;
        assert(n3 == w * j + i && 0 <= i < w) by (nonlinear_arith)
            requires
                n3 >= 0,
                w > 0,
                i == n3 % w,
                j == n3 / w;
        assert(0 <= j < h) by (nonlinear_arith)
            requires
                n3 == w * j + i,
                0 <= i < w,
                0 <= n3 < w * h,
                w > 0;
        assert(n == flat_idx(w, i, j, c)) by (nonlinear_arith)
            requires
                n == 3 * n3 + c,
                n3 == w * j + i;
        assert(cropped.data@[n] == cropped.byte_at(i, j, c));
        assert(cropped.byte_at(i, j, c) == img.byte_at(x + i, y + j, c));
        assert(s[n] == img.byte_at(x + ((n / 3) % w), y + ((n / 3) / w), n % 3));
    }
    assert(cropped.data@ =~= s);
}

/// The thumbnail of one tile of the target: the tile region resampled to
/// the fixed thumbnail size with the shared filter.
pub open spec fn tile_thumb_spec(target: RgbImg, tile: Tile) -> Seq<u8> {
    lanczos_of(
        crop_seq(target, tile.x as int, tile.y as int, tile.width as int, tile.height as int),
        tile.width,
        tile.height,
        THUMB_DIM,
        THUMB_DIM,
    )
}

/// What the matcher decides for one tile: the tile itself and the index of
/// the winning descriptor.
pub struct TileChoice {
    pub tile: Tile,
    pub best: usize,
}

/// Crops the tile region out of the target, computes the tile's thumbnail
/// with the shared filter, and picks the descriptor with the smallest
/// combined score; ties keep the earliest descriptor. Fails with
/// NoCandidatesError exactly when no descriptor scores below the sentinel,
/// in particular when there is no descriptor at all.
pub fn match_tile(target: &RgbImg, tile: Tile, pics_data: &Vec<PicData>) -> (r: Result<
    TileChoice,
    MosaicError,
>)
    requires
        target.wf(),
        tile.fits(target.width as int, target.height as int),
        forall|k: int| 0 <= k < pics_data@.len() ==> (#[trigger] pics_data@[k]).wf(),
    ensures
        ({
            let t = tile_thumb_spec(*target, tile);
            match r {
                Ok(ch) => {
                    &&& ch.tile == tile
                    &&& ch.best < pics_data@.len()
                    &&& beats_sentinel(
                        tile.width as int,
                        tile.height as int,
                        t,
                        pics_data@[ch.best as int],
                    )
                    &&& forall|k: int|
                        0 <= k < pics_data@.len() ==> score_le(
                            tile.width as int,
                            tile.height as int,
                            t,
                            pics_data@[ch.best as int],
                            #[trigger] pics_data@[k],
                        )
                    &&& forall|k: int|
                        0 <= k < ch.best ==> score_lt(
                            tile.width as int,
                            tile.height as int,
                            t,
                            pics_data@[ch.best as int],
                            #[trigger] pics_data@[k],
                        )
                },
                Err(e) => {
                    &&& e is NoCandidatesError
                    &&& forall|k: int|
                        0 <= k < pics_data@.len() ==> !beats_sentinel(
                            tile.width as int,
                            tile.height as int,
                            t,
                            #[trigger] pics_data@[k],
                        )
                },
            }
        }),
{
    let cropped = target.crop(tile.x, tile.y, tile.width, tile.height);
    proof {
        lemma_crop_seq_eq(
            *target,
            tile.x as int,
            tile.y as int,
            tile.width as int,
            tile.height as int,
            cropped,
        );
    }
    let thumb = resize_lanczos(&cropped, THUMB_DIM, THUMB_DIM);
    match find_best_match(tile.width, tile.height, &thumb, pics_data) {
        Some(i) => Ok(TileChoice { tile, best: i }),
        None => Err(MosaicError::NoCandidatesError),
    }
}

/// Resizes the winning candidate's full-resolution image to the tile's
/// extent and stamps it with the tile's position, ready for compositing.
pub fn make_match_data(tile: Tile, img: &RgbImg) -> (m: MatchData)
    requires
        img.wf(),
        img.width > 0,
        img.height > 0,
        tile.width > 0,
        tile.height > 0,
        3 * (tile.width as int) * (tile.height as int) <= usize::MAX,
    ensures
        m.x == tile.x,
        m.y == tile.y,
        m.tile.wf(),
        m.tile.width == tile.width,
        m.tile.height == tile.height,
        m.tile.data@ == lanczos_of(img.data@, img.width, img.height, tile.width, tile.height),
{
    MatchData { x: tile.x, y: tile.y, tile: resize_lanczos(img, tile.width, tile.height) }
}

} // verus!
