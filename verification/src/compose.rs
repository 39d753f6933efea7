use vstd::prelude::*;
use crate::raster::RgbImg;

verus! {

/// One matched tile ready for compositing: the resized candidate image and
/// the tile's top-left corner in the canvas.
pub struct MatchData {
    pub x: u32,
    pub y: u32,
    pub tile: RgbImg,
}

impl MatchData {
    /// The match is a valid raster and lies inside a `w` by `h` canvas.
    pub open spec fn fits(self, w: int, h: int) -> bool {
        self.tile.wf() && self.x + self.tile.width <= w && self.y + self.tile.height <= h
    }
}

/// The byte at channel `c` of pixel `(px, py)` after writing every match,
/// in order, onto `base`: the last match covering the pixel wins, and an
/// uncovered pixel keeps the base value.
pub open spec fn composed_byte(
    results: Seq<MatchData>,
    base: RgbImg,
    px: int,
    py: int,
    c: int,
) -> u8
    decreases results.len(),
{
    if results.len() == 0 {
        base.byte_at(px, py, c)
    } else {
        let m = results.last();
        if m.x <= px < m.x + m.tile.width && m.y <= py < m.y + m.tile.height {
            m.tile.byte_at(px - m.x, py - m.y, c)
        } else {
            composed_byte(results.drop_last(), base, px, py, c)
        }
    }
}

/// Writes every matched tile into the canvas, in order. The canvas keeps
/// its dimensions exactly - the final image is sized as the target image it
/// was copied from - and every byte ends as `composed_byte` describes.
pub fn compose_all(canvas: &mut RgbImg, results: &Vec<MatchData>)
    requires
        old(canvas).wf(),
        forall|k: int|
            0 <= k < results@.len() ==> (#[trigger] results@[k]).fits(
                old(canvas).width as int,
                old(canvas).height as int,
            ),
    ensures
        final(canvas).wf(),
        final(canvas).width == old(canvas).width,
        final(canvas).height == old(canvas).height,
        forall|px: int, py: int, c: int|
            0 <= px < old(canvas).width && 0 <= py < old(canvas).height && 0 <= c < 3
                ==> #[trigger] final(canvas).byte_at(px, py, c) == composed_byte(
                results@,
                *old(canvas),
                px,
                py,
                c,
            ),
{
    let ghost orig = *canvas;
    let mut k: usize = 0;
    while k < results.len()
        invariant
            canvas.wf(),
            orig.wf(),
            canvas.width == orig.width,
            canvas.height == orig.height,
            forall|m: int|
                0 <= m < results@.len() ==> (#[trigger] results@[m]).fits(
                    orig.width as int,
                    orig.height as int,
                ),
            k <= results@.len(),
            forall|px: int, py: int, c: int|
                0 <= px < orig.width && 0 <= py < orig.height && 0 <= c < 3
                    ==> #[trigger] canvas.byte_at(px, py, c) == composed_byte(
                    results@.take(k as int),
                    orig,
                    px,
                    py,
                    c,
                ),
        decreases results@.len() - k,
    {
        let ghost prev = *canvas;
        let m = &results[k];
        canvas.replace_region(&m.tile, m.x, m.y);
        proof {
            assert(results@.take(k as int + 1).drop_last() =~= results@.take(k as int));
            assert(results@.take(k as int + 1).last() == results@[k as int]);
            assert forall|px: int, py: int, c: int|
                0 <= px < orig.width && 0 <= py < orig.height && 0 <= c < 3
                    implies #[trigger] canvas.byte_at(px, py, c) == composed_byte(
                results@.take(k as int + 1),
                orig,
                px,
                py,
                c,
            ) by {
                assert(prev.byte_at(px, py, c) == composed_byte(
                    results@.take(k as int),
                    orig,
                    px,
                    py,
                    c,
                ));
            }
        }
        k = k + 1;
    }
    proof {
        assert(results@.take(results@.len() as int) =~= results@);
    }
}

} // verus!
