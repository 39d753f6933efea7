use vstd::prelude::*;

verus! {

/// Flat index of channel `c` of the pixel at column `x`, row `y` in a
/// row-major RGB byte buffer that is `w` pixels wide.
pub open spec fn flat_idx(w: int, x: int, y: int, c: int) -> int {
    3 * (y * w + x) + c
}

/// The flat index of an in-range pixel lies inside the buffer.
pub proof fn lemma_flat_idx_bound(w: int, h: int, x: int, y: int, c: int)
    requires
        0 <= x < w,
        0 <= y < h,
        0 <= c < 3,
    ensures
        0 <= flat_idx(w, x, y, c) < 3 * w * h,
{
    assert(0 <= 3 * (y * w + x) + c && 3 * (y * w + x) + c < 3 * w * h) by (nonlinear_arith)
        requires
            0 <= x < w,
            0 <= y < h,
            0 <= c < 3;
}

/// Flat indices respect the row-major order of (y, x, c) triples.
pub proof fn lemma_flat_idx_mono(w: int, x1: int, y1: int, c1: int, x2: int, y2: int, c2: int)
    requires
        0 <= x1 < w,
        0 <= x2 < w,
        0 <= c1 < 3,
        0 <= c2 < 3,
        0 <= y1,
        0 <= y2,
        y1 < y2 || (y1 == y2 && x1 < x2) || (y1 == y2 && x1 == x2 && c1 < c2),
    ensures
        flat_idx(w, x1, y1, c1) < flat_idx(w, x2, y2, c2),
{
    assert(3 * (y1 * w + x1) + c1 < 3 * (y2 * w + x2) + c2) by (nonlinear_arith)
        requires
            0 <= x1 < w,
            0 <= x2 < w,
            0 <= c1 < 3,
            0 <= c2 < 3,
            0 <= y1,
            0 <= y2,
            y1 < y2 || (y1 == y2 && x1 < x2) || (y1 == y2 && x1 == x2 && c1 < c2);
}

/// The pixel bytes of the Lanczos3 resampling of a `w` by `h` raster to
/// `nw` by `nh`, as the image codec computes it: a pure function of the
/// source bytes and the four dimensions.
pub uninterp spec fn lanczos_of(pixels: Seq<u8>, w: u32, h: u32, nw: u32, nh: u32) -> Seq<u8>;

/// An 8-bit RGB raster: three bytes per pixel, rows stored top to bottom.
pub struct RgbImg {
    pub width: u32,
    pub height: u32,
    pub data: Vec<u8>,
}

impl RgbImg {
    /// A valid raster holds exactly three bytes for each of its `width * height` pixels.
    pub open spec fn wf(self) -> bool {
        self.data@.len() == 3 * (self.width as int) * (self.height as int)
    }

    /// Channel `c` (0 = red, 1 = green, 2 = blue) of the pixel at `(x, y)`.
    pub open spec fn byte_at(self, x: int, y: int, c: int) -> u8 {
        self.data@[flat_idx(self.width as int, x, y, c)]
    }

    /// Builds a raster from a byte buffer, checking that the buffer length
    /// matches the dimensions.
    pub fn try_new(width: u32, height: u32, data: Vec<u8>) -> (r: Option<RgbImg>)
        ensures
            match r {
                Some(img) => img.wf() && img.width == width && img.height == height && img.data@
                    == data@,
                None => data@.len() != 3 * (width as int) * (height as int),
            },
    {
        proof {
            assert(3 * (width as int) * (height as int) <= 3 * 0xffff_ffff * 0xffff_ffff)
                by (nonlinear_arith)
                requires
                    0 <= width as int <= 0xffff_ffff,
                    0 <= height as int <= 0xffff_ffff;
        }
        let need: u128 = 3u128 * (width as u128) * (height as u128);
        if (data.len() as u128) == need {
            Some(RgbImg { width, height, data })
        } else {
            None
        }
    }

    /// The three channels of the pixel at `(x, y)`.
    pub fn get_pixel(&self, x: u32, y: u32) -> (r: (u8, u8, u8))
        requires
            self.wf(),
            x < self.width,
            y < self.height,
        ensures
            r.0 == self.byte_at(x as int, y as int, 0),
            r.1 == self.byte_at(x as int, y as int, 1),
            r.2 == self.byte_at(x as int, y as int, 2),
    {
        proof {
            lemma_flat_idx_bound(
                self.width as int,
                self.height as int,
                x as int,
                y as int,
                2,
            );
        }
        let buf_len: usize = self.data.len();
        proof {
            assert(flat_idx(self.width as int, x as int, y as int, 2) < buf_len);
        }
        let base: usize = 3 * ((y as usize) * (self.width as usize) + (x as usize));
        (self.data[base], self.data[base + 1], self.data[base + 2])
    }

    /// The `w` by `h` sub-raster whose top-left corner is at `(x, y)`.
    pub fn crop(&self, x: u32, y: u32, w: u32, h: u32) -> (r: RgbImg)
        requires
            self.wf(),
            x + w <= self.width,
            y + h <= self.height,
        ensures
            r.wf(),
            r.width == w,
            r.height == h,
            forall|i: int, j: int, c: int|
                0 <= i < w && 0 <= j < h && 0 <= c < 3 ==> #[trigger] r.byte_at(i, j, c)
                    == self.byte_at(x + i, y + j, c),
    {
        let mut data: Vec<u8> = Vec::new();
        let mut j: u32 = 0;
        while j < h
            invariant
                self.wf(),
                x + w <= self.width,
                y + h <= self.height,
                j <= h,
                data@.len() == 3 * ((j as int) * (w as int)),
                forall|i2: int, j2: int, c: int|
                    0 <= i2 < w && 0 <= j2 < j && 0 <= c < 3 ==> data@[#[trigger] flat_idx(
                        w as int,
                        i2,
                        j2,
                        c,
                    )] == self.byte_at(x + i2, y + j2, c),
            decreases h - j,
        {
            let mut i: u32 = 0;
            while i < w
                invariant
                    self.wf(),
                    x + w <= self.width,
                    y + h <= self.height,
                    j < h,
                    i <= w,
                    data@.len() == 3 * ((j as int) * (w as int) + (i as int)),
                    forall|i2: int, j2: int, c: int|
                        0 <= i2 < w && 0 <= j2 <= j && 0 <= c < 3 && (j2 < j || i2 < i)
                            ==> data@[#[trigger] flat_idx(w as int, i2, j2, c)] == self.byte_at(
                            x + i2,
                            y + j2,
                            c,
                        ),
                decreases w - i,
            {
                let (pr, pg, pb) = self.get_pixel(x + i, y + j);
                data.push(pr);
                data.push(pg);
                data.push(pb);
                proof {
                    assert forall|i2: int, j2: int, c: int|
                        0 <= i2 < w && 0 <= j2 <= j && 0 <= c < 3 && (j2 < j || i2 < i + 1)
                            implies data@[#[trigger] flat_idx(w as int, i2, j2, c)]
                        == self.byte_at(x + i2, y + j2, c) by {
                        if j2 < j || i2 < i {
                            lemma_flat_idx_mono(w as int, i2, j2, c, i as int, j as int, 0);
                        }
                    }
                }
                i = i + 1;
            }
            proof {
                assert(((j as int) + 1) * (w as int) == (j as int) * (w as int) + (w as int))
                    by (nonlinear_arith);
            }
            j = j + 1;
        }
        proof {
            assert(3 * (w as int) * (h as int) == 3 * ((h as int) * (w as int)))
                by (nonlinear_arith);
        }
        let r = RgbImg { width: w, height: h, data };
        proof {
            assert forall|i: int, j2: int, c: int| 0 <= i < w && 0 <= j2 < h && 0 <= c < 3
                implies #[trigger] r.byte_at(i, j2, c) == self.byte_at(x + i, y + j2, c) by {
                assert(r.byte_at(i, j2, c) == r.data@[flat_idx(w as int, i, j2, c)]);
            }
        }
        r
    }

    /// Writes `tile` into this raster with its top-left corner at `(x, y)`.
    /// Pixels outside the written region keep their previous value.
    pub fn replace_region(&mut self, tile: &RgbImg, x: u32, y: u32)
        requires
            old(self).wf(),
            tile.wf(),
            x + tile.width <= old(self).width,
            y + tile.height <= old(self).height,
        ensures
            final(self).wf(),
            final(self).width == old(self).width,
            final(self).height == old(self).height,
            forall|px: int, py: int, c: int|
                0 <= px < old(self).width && 0 <= py < old(self).height && 0 <= c < 3
                    ==> #[trigger] final(self).byte_at(px, py, c) == (if x <= px < x
                    + tile.width && y <= py < y + tile.height {
                    tile.byte_at(px - x, py - y, c)
                } else {
                    old(self).byte_at(px, py, c)
                }),
    {
        let ghost orig = *self;
        let tw: u32 = tile.width;
        let th: u32 = tile.height;
        let mut j: u32 = 0;
        while j < th
            invariant
                self.wf(),
                tile.wf(),
                orig.wf(),
                self.width == orig.width,
                self.height == orig.height,
                tw == tile.width,
                th == tile.height,
                x + tw <= orig.width,
                y + th <= orig.height,
                j <= th,
                forall|px: int, py: int, c: int|
                    0 <= px < orig.width && 0 <= py < orig.height && 0 <= c < 3
                        ==> self.data@[#[trigger] flat_idx(orig.width as int, px, py, c)] == (if x
                        <= px < x + tw && y <= py < y + j {
                        tile.byte_at(px - x, py - y, c)
                    } else {
                        orig.byte_at(px, py, c)
                    }),
            decreases th - j,
        {
            let mut i: u32 = 0;
            while i < tw
                invariant
                    self.wf(),
                    tile.wf(),
                    orig.wf(),
                    self.width == orig.width,
                    self.height == orig.height,
                    tw == tile.width,
                    th == tile.height,
                    x + tw <= orig.width,
                    y + th <= orig.height,
                    j < th,
                    i <= tw,
                    forall|px: int, py: int, c: int|
                        0 <= px < orig.width && 0 <= py < orig.height && 0 <= c < 3
                            ==> self.data@[#[trigger] flat_idx(orig.width as int, px, py, c)] == (
                        if x <= px < x + tw && (y <= py < y + j || (py == y + j && px < x + i)) {
                            tile.byte_at(px - x, py - y, c)
                        } else {
                            orig.byte_at(px, py, c)
                        }),
                decreases tw - i,
            {
                let mut ci: u32 = 0;
                while ci < 3
                    invariant
                        self.wf(),
                        tile.wf(),
                        orig.wf(),
                        self.width == orig.width,
                        self.height == orig.height,
                        tw == tile.width,
                        th == tile.height,
                        x + tw <= orig.width,
                        y + th <= orig.height,
                        j < th,
                        i < tw,
                        ci <= 3,
                        forall|px: int, py: int, c: int|
                            0 <= px < orig.width && 0 <= py < orig.height && 0 <= c < 3
                                ==> self.data@[#[trigger] flat_idx(orig.width as int, px, py, c)]
                                == (if x <= px < x + tw && (y <= py < y + j || (py == y + j && (px
                                < x + i || (px == x + i && c < ci)))) {
                                tile.byte_at(px - x, py - y, c)
                            } else {
                                orig.byte_at(px, py, c)
                            }),
                    decreases 3 - ci,
                {
                    let (tr, tg, tb) = tile.get_pixel(i, j);
                    let v: u8 = if ci == 0 {
                        tr
                    } else if ci == 1 {
                        tg
                    } else {
                        tb
                    };
                    proof {
                        lemma_flat_idx_bound(
                            orig.width as int,
                            orig.height as int,
                            (x + i) as int,
                            (y + j) as int,
                            ci as int,
                        );
                    }
                    let buf_len: usize = self.data.len();
                    proof {
                        assert(flat_idx(
                            orig.width as int,
                            (x + i) as int,
                            (y + j) as int,
                            ci as int,
                        ) < buf_len);
                    }
                    let idx: usize = 3 * (((y + j) as usize) * (self.width as usize) + ((x
                        + i) as usize)) + (ci as usize);
                    self.data[idx] = v;
                    proof {
                        assert(idx == flat_idx(
                            orig.width as int,
                            x as int + i as int,
                            y as int + j as int,
                            ci as int,
                        ));
                        assert forall|px: int, py: int, c: int|
                            0 <= px < orig.width && 0 <= py < orig.height && 0 <= c < 3
                                implies self.data@[#[trigger] flat_idx(
                            orig.width as int,
                            px,
                            py,
                            c,
                        )] == (if x <= px < x + tw && (y <= py < y + j || (py == y + j && (px < x
                            + i || (px == x + i && c < ci + 1)))) {
                            tile.byte_at(px - x, py - y, c)
                        } else {
                            orig.byte_at(px, py, c)
                        }) by {
                            let wi = orig.width as int;
                            let xi = x as int + i as int;
                            let yj = y as int + j as int;
                            let cc = ci as int;
                            lemma_flat_idx_bound(wi, orig.height as int, px, py, c);
                            if !(px == xi && py == yj && c == cc) {
                                if py < yj || (py == yj && px < xi) || (py == yj && px == xi && c
                                    < cc) {
                                    lemma_flat_idx_mono(wi, px, py, c, xi, yj, cc);
                                } else {
                                    lemma_flat_idx_mono(wi, xi, yj, cc, px, py, c);
                                }
                            }
                        }
                    }
                    ci = ci + 1;
                }
                i = i + 1;
            }
            j = j + 1;
        }
        proof {
            assert forall|px: int, py: int, c: int|
                0 <= px < orig.width && 0 <= py < orig.height && 0 <= c < 3
                    implies #[trigger] self.byte_at(px, py, c) == (if x <= px < x + tile.width && y
                <= py < y + tile.height {
                tile.byte_at(px - x, py - y, c)
            } else {
                orig.byte_at(px, py, c)
            }) by {
                assert(self.byte_at(px, py, c) == self.data@[flat_idx(
                    orig.width as int,
                    px,
                    py,
                    c,
                )]);
            }
        }
    }
}

/// Relies on image::imageops::resize with the Lanczos3 filter: it returns
/// an `nw` by `nh` buffer (three bytes per pixel) computed from the source
/// raster and the requested dimensions alone.
#[verifier::external_body]
pub(crate) fn resize_lanczos(img: &RgbImg, nw: u32, nh: u32) -> (r: RgbImg)
    requires
        img.wf(),
        img.width > 0,
        img.height > 0,
        nw > 0,
        nh > 0,
        3 * (nw as int) * (nh as int) <= usize::MAX,
    ensures
        r.wf(),
        r.width == nw,
        r.height == nh,
        r.data@ == lanczos_of(img.data@, img.width, img.height, nw, nh),
{
    let buf: image::ImageBuffer<image::Rgb<u8>, Vec<u8>> = image::ImageBuffer::from_raw(
        img.width,
        img.height,
        img.data.clone(),
    ).unwrap();
    let out = image::imageops::resize(&buf, nw, nh, image::imageops::FilterType::Lanczos3);
    RgbImg { width: nw, height: nh, data: out.into_raw() }
}

} // verus!
