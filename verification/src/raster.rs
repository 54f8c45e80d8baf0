//! RGBA rasters.
//!
//! A raster is a rectangle of pixels stored row by row. A pixel takes four
//! bytes (red, green, blue, alpha), so a row of `w` pixels is `4 * w` bytes
//! long, and pixel `x` of a row occupies the offsets `4 * x .. 4 * x + 4`.

use vstd::prelude::*;

verus! {

/// An RGBA image with eight bits to a channel.
#[derive(Debug)]
pub struct Raster {
    width: u32,
    height: u32,
    data: Vec<u8>,
}

/// A byte of row `row` at offset `off` lies inside a buffer of `rows` rows.
pub proof fn lemma_offset_in_bounds(row: int, off: int, rows: int, stride: int)
    requires
        0 <= row < rows,
        0 <= off < stride,
    ensures
        0 <= row * stride,
        row * stride + stride <= rows * stride,
        0 <= row * stride + off < rows * stride,
{
    assert(0 <= row * stride) by (nonlinear_arith)
        requires
            0 <= row,
            0 < stride,
    ;
    assert(row * stride + stride <= rows * stride) by (nonlinear_arith)
        requires
            row + 1 <= rows,
            0 < stride,
    ;
}

/// Two bytes with the same position in the buffer share row and offset.
pub proof fn lemma_offset_unique(r1: int, o1: int, r2: int, o2: int, stride: int)
    requires
        0 <= o1 < stride,
        0 <= o2 < stride,
        r1 * stride + o1 == r2 * stride + o2,
    ensures
        r1 == r2,
        o1 == o2,
{
    if r1 < r2 {
        assert(r1 * stride + stride <= r2 * stride) by (nonlinear_arith)
            requires
                r1 + 1 <= r2,
                0 < stride,
        ;
    } else if r2 < r1 {
        assert(r2 * stride + stride <= r1 * stride) by (nonlinear_arith)
            requires
                r2 + 1 <= r1,
                0 < stride,
        ;
    }
}

/// The buffer of a raster of `width` by `height` pixels whose byte at offset
/// `off` of row `row` is `f(row, off)`.
pub open spec fn laid_out(width: u32, height: u32, f: spec_fn(int, int) -> u8) -> Seq<u8> {
    Seq::new(
        (height * (4 * width)) as nat,
        |i: int| f(i / (4 * width as int), i % (4 * width as int)),
    )
}

/// The number of bytes that a raster of the given size takes.
pub fn buffer_len(width: u32, height: u32) -> (len: u128)
    ensures
        len == 4 * width * height,
        len == height * (4 * width),
{
    assert(4 * width * height == height * (4 * width)) by (nonlinear_arith);
    assert(height * (4 * width) <= 0xffff_ffff * (4 * 0xffff_ffff)) by (nonlinear_arith)
        requires
            0 <= width <= 0xffff_ffff,
            0 <= height <= 0xffff_ffff,
    ;
    let row: u128 = 4 * (width as u128);
    (height as u128) * row
}

impl Raster {
    /// The buffer length of a well-formed raster, over its fields.
    proof fn lemma_len(&self)
        requires
            self.wf(),
        ensures
            self.data@.len() == (self.height as int) * (4 * self.width as int),
            (self.height as int) * (4 * self.width as int) <= usize::MAX,
            self.height > 0 ==> 4 * self.width <= usize::MAX,
    {
        assert(self.data@.len() == self.data.len());
        if self.height > 0 && self.width > 0 {
            lemma_offset_in_bounds(0, 0, self.height as int, 4 * self.width as int);
        }
    }

    /// Width in pixels.
    pub closed spec fn w(&self) -> u32 {
        self.width
    }

    /// Height in pixels.
    pub closed spec fn h(&self) -> u32 {
        self.height
    }

    /// The bytes of the raster, row after row.
    pub closed spec fn samples(&self) -> Seq<u8> {
        self.data@
    }

    /// Length of one row in bytes.
    pub open spec fn stride(&self) -> int {
        4 * self.w()
    }

    /// The buffer holds exactly `h` rows of `stride` bytes.
    pub open spec fn wf(&self) -> bool {
        self.samples().len() == self.h() * self.stride()
    }

    /// The byte at offset `off` of row `row`.
    pub open spec fn byte(&self, row: int, off: int) -> u8 {
        self.samples()[row * self.stride() + off]
    }

    /// Channel `c` of the pixel in column `x` of row `y`.
    pub open spec fn sample(&self, x: int, y: int, c: int) -> u8 {
        self.byte(y, 4 * x + c)
    }

    /// `tile`, put with its top-left corner at pixel `(x, y)`, lies inside this raster.
    pub open spec fn fits(&self, tile: &Raster, x: u32, y: u32) -> bool {
        x + tile.w() <= self.w() && y + tile.h() <= self.h()
    }

    /// The byte at (`row`, `off`) of this raster is covered by `tile` put at pixel `(x, y)`.
    pub open spec fn covered(tile: &Raster, x: u32, y: u32, row: int, off: int) -> bool {
        y <= row < y + tile.h() && 4 * x <= off < 4 * x + tile.stride()
    }

    /// The byte at (`row`, `off`) after `tile` was copied to pixel `(x, y)`.
    pub open spec fn blit_byte(&self, tile: &Raster, x: u32, y: u32, row: int, off: int) -> u8 {
        if Self::covered(tile, x, y, row, off) {
            tile.byte(row - y, off - 4 * x)
        } else {
            self.byte(row, off)
        }
    }

    /// A well-formed raster whose bytes are given by `f` holds the buffer
    /// that `laid_out` builds from `f`.
    pub proof fn lemma_laid_out(&self, f: spec_fn(int, int) -> u8)
        requires
            self.wf(),
            forall|row: int, off: int|
                0 <= row < self.h() && 0 <= off < self.stride() ==> #[trigger] self.byte(row, off)
                    == f(row, off),
        ensures
            self.samples() == laid_out(self.w(), self.h(), f),
    {
        let stride = self.stride();
        let target = laid_out(self.w(), self.h(), f);
        assert(target.len() == self.samples().len());
        assert forall|i: int| 0 <= i < self.samples().len() implies self.samples()[i]
            == target[i] by {
            if stride > 0 {
                let row = i / stride;
                let off = i % stride;
                vstd::arithmetic::div_mod::lemma_fundamental_div_mod(i, stride);
                vstd::arithmetic::div_mod::lemma_mod_bound(i, stride);
                assert(stride * row == row * stride) by (nonlinear_arith);
                assert(row < self.h()) by (nonlinear_arith)
                    requires
                        row * stride + off < self.h() * stride,
                        0 <= off,
                        0 < stride,
                ;
                assert(0 <= row) by (nonlinear_arith)
                    requires
                        row * stride + off >= 0,
                        off < stride,
                        0 < stride,
                ;
                assert(self.byte(row, off) == f(row, off));
            } else {
                assert(self.h() * stride == 0) by (nonlinear_arith)
                    requires
                        stride == 0,
                ;
            }
        }
        assert(self.samples() =~= target);
    }

    /// A raster of the given size with every byte zero: transparent black.
    /// `None` when the buffer would be longer than a `usize` can say.
    pub fn blank(width: u32, height: u32) -> (out: Option<Raster>)
        ensures
            out is Some <==> 4 * width * height <= usize::MAX,
            out matches Some(r) ==> r.wf() && r.w() == width && r.h() == height && forall|
                row: int,
                off: int,
            |
                0 <= row < height && 0 <= off < 4 * width ==> #[trigger] r.byte(row, off) == 0,
    {
        let wide: u128 = buffer_len(width, height);
        if wide > usize::MAX as u128 {
            return None;
        }
        let len: usize = wide as usize;
        let data: Vec<u8> = vec![0u8; len];
        let r = Raster { width, height, data };
        proof {
            assert forall|row: int, off: int| 0 <= row < height && 0 <= off < 4 * width implies #[trigger] r.byte(row, off) == 0 by {
                lemma_offset_in_bounds(row, off, height as int, 4 * width);
            }
        }
        Some(r)
    }

    /// A raster of the given size over `data`. `None` unless `data` holds
    /// exactly `4 * width * height` bytes.
    pub fn from_samples(width: u32, height: u32, data: Vec<u8>) -> (out: Option<Raster>)
        ensures
            out is Some <==> data@.len() == 4 * width * height,
            out matches Some(r) ==> r.wf() && r.w() == width && r.h() == height && r.samples()
                == data@,
    {
        let wide: u128 = buffer_len(width, height);
        if data.len() as u128 != wide {
            return None;
        }
        Some(Raster { width, height, data })
    }

    /// Width in pixels.
    pub fn width(&self) -> (w: u32)
        ensures
            w == self.w(),
    {
        self.width
    }

    /// Height in pixels.
    pub fn height(&self) -> (h: u32)
        ensures
            h == self.h(),
    {
        self.height
    }

    /// The bytes of the raster, row after row.
    pub fn as_bytes(&self) -> (bytes: &Vec<u8>)
        ensures
            bytes@ == self.samples(),
    {
        &self.data
    }

    /// The four channels of the pixel at `(x, y)`, or `None` outside the raster.
    pub fn pixel(&self, x: u32, y: u32) -> (out: Option<[u8; 4]>)
        requires
            self.wf(),
        ensures
            out is Some <==> x < self.w() && y < self.h(),
            out matches Some(p) ==> forall|c: int| 0 <= c < 4 ==> p[c] == self.sample(x as int, y as int, c),
    {
        if x >= self.width || y >= self.height {
            return None;
        }
        proof {
            self.lemma_len();
            lemma_offset_in_bounds(y as int, 4 * x, self.height as int, 4 * self.width);
            lemma_offset_in_bounds(y as int, 4 * x + 3, self.height as int, 4 * self.width);
        }
        let stride: usize = 4 * (self.width as usize);
        let at: usize = (y as usize) * stride + 4 * (x as usize);
        Some([self.data[at], self.data[at + 1], self.data[at + 2], self.data[at + 3]])
    }

    /// Copies `tile` into this raster with its top-left corner at pixel
    /// `(x, y)`. Where `tile` does not fit, nothing is copied and the answer
    /// is `false`.
    pub fn blit(&mut self, tile: &Raster, x: u32, y: u32) -> (done: bool)
        requires
            old(self).wf(),
            tile.wf(),
        ensures
            final(self).wf(),
            final(self).w() == old(self).w(),
            final(self).h() == old(self).h(),
            done == old(self).fits(tile, x, y),
            done ==> forall|row: int, off: int|
                0 <= row < old(self).h() && 0 <= off < old(self).stride() ==> #[trigger] final(self).byte(row, off)
                    == old(self).blit_byte(tile, x, y, row, off),
            !done ==> final(self).samples() == old(self).samples(),
    {
        if x as u64 + tile.width as u64 > self.width as u64 || y as u64 + tile.height as u64
            > self.height as u64 {
            return false;
        }
        if tile.width == 0 || tile.height == 0 {
            return true;
        }
        let ghost before = *self;
        let ghost stride_g: int = 4 * self.width;
        let ghost tstride_g: int = 4 * tile.width;
        proof {
            self.lemma_len();
            tile.lemma_len();
        }
        let stride: usize = 4 * (self.width as usize);
        let tstride: usize = 4 * (tile.width as usize);
        let x4: usize = 4 * (x as usize);
        let rows: usize = tile.height as usize;
        let mut r: usize = 0;
        while r < rows
            invariant
                r <= rows,
                rows == tile.height,
                stride == stride_g,
                tstride == tstride_g,
                stride_g == 4 * self.width,
                tstride_g == 4 * tile.width,
                0 < tstride_g,
                x4 == 4 * x,
                self.width == before.width,
                self.height == before.height,
                self.data@.len() == self.height * stride_g,
                tile.data@.len() == tile.height * tstride_g,
                self.height * stride_g <= usize::MAX,
                tile.height * tstride_g <= usize::MAX,
                before.wf(),
                tile.wf(),
                before.fits(tile, x, y),
                forall|row: int, off: int|
                    0 <= row < before.h() && 0 <= off < before.stride() ==> #[trigger] self.byte(
                        row,
                        off,
                    ) == (if Self::covered(tile, x, y, row, off) && row < y + r {
                        tile.byte(row - y, off - 4 * x)
                    } else {
                        before.byte(row, off)
                    }),
            decreases rows - r,
        {
            proof {
                lemma_offset_in_bounds(y + r, 4 * x, self.height as int, stride_g);
                lemma_offset_in_bounds(r as int, 0, tile.height as int, tstride_g);
            }
            let dst_row: usize = (y as usize + r) * stride + x4;
            let src_row: usize = r * tstride;
            let mut k: usize = 0;
            while k < tstride
                invariant
                    k <= tstride,
                    r < rows,
                    rows == tile.height,
                    stride == stride_g,
                    tstride == tstride_g,
                    stride_g == 4 * self.width,
                    tstride_g == 4 * tile.width,
                    x4 == 4 * x,
                    dst_row == (y + r) * stride_g + 4 * x,
                    src_row == r * tstride_g,
                    self.width == before.width,
                    self.height == before.height,
                    self.data@.len() == self.height * stride_g,
                    tile.data@.len() == tile.height * tstride_g,
                    self.height * stride_g <= usize::MAX,
                    tile.height * tstride_g <= usize::MAX,
                    before.wf(),
                    tile.wf(),
                    before.fits(tile, x, y),
                    forall|row: int, off: int|
                        0 <= row < before.h() && 0 <= off < before.stride() ==> #[trigger] self.byte(
                            row,
                            off,
                        ) == (if Self::covered(tile, x, y, row, off) && (row < y + r || (row == y
                            + r && off < 4 * x + k)) {
                            tile.byte(row - y, off - 4 * x)
                        } else {
                            before.byte(row, off)
                        }),
                decreases tstride - k,
            {
                proof {
                    lemma_offset_in_bounds(y + r, 4 * x + k, self.height as int, stride_g);
                    lemma_offset_in_bounds(r as int, k as int, tile.height as int, tstride_g);
                }
                let v = tile.data[src_row + k];
                let ghost prior = *self;
                self.data.set(dst_row + k, v);
                proof {
                    assert forall|row: int, off: int|
                        0 <= row < before.h() && 0 <= off < before.stride() implies #[trigger] self.byte(
                        row,
                        off,
                    ) == (if Self::covered(tile, x, y, row, off) && (row < y + r || (row == y + r
                        && off < 4 * x + k + 1)) {
                        tile.byte(row - y, off - 4 * x)
                    } else {
                        before.byte(row, off)
                    }) by {
                        lemma_offset_in_bounds(row, off, self.height as int, stride_g);
                        if row * stride_g + off == (y + r) * stride_g + (4 * x + k) {
                            lemma_offset_unique(row, off, y + r, 4 * x + k, stride_g);
                        } else {
                            assert(self.byte(row, off) == prior.byte(row, off));
                        }
                    }
                }
                k += 1;
            }
            r += 1;
        }
        true
    }

    /// The window of `width` by `height` pixels whose top-left corner is the
    /// pixel `(x, y)`. `None` unless the whole window lies inside the raster.
    pub fn crop(&self, x: u32, y: u32, width: u32, height: u32) -> (out: Option<Raster>)
        requires
            self.wf(),
        ensures
            out is Some <==> x + width <= self.w() && y + height <= self.h(),
            out matches Some(r) ==> r.wf() && r.w() == width && r.h() == height && forall|
                row: int,
                off: int,
            |
                0 <= row < height && 0 <= off < 4 * width ==> #[trigger] r.byte(row, off)
                    == self.byte(y + row, 4 * x + off),
    {
        if x as u64 + width as u64 > self.width as u64 || y as u64 + height as u64
            > self.height as u64 {
            return None;
        }
        if width == 0 || height == 0 {
            proof {
                assert(height * (4 * width) == 0) by (nonlinear_arith)
                    requires
                        width == 0 || height == 0,
                ;
            }
            return Some(Raster { width, height, data: Vec::new() });
        }
        let ghost stride_g: int = 4 * self.width;
        let ghost ostride_g: int = 4 * width;
        proof {
            self.lemma_len();
        }
        let stride: usize = 4 * (self.width as usize);
        let ostride: usize = 4 * (width as usize);
        let x4: usize = 4 * (x as usize);
        let rows: usize = height as usize;
        let mut data: Vec<u8> = Vec::new();
        let mut r: usize = 0;
        while r < rows
            invariant
                r <= rows,
                rows == height,
                stride == stride_g,
                ostride == ostride_g,
                stride_g == 4 * self.width,
                ostride_g == 4 * width,
                0 < ostride_g,
                x4 == 4 * x,
                self.wf(),
                self.data@.len() == self.height * stride_g,
                self.height * stride_g <= usize::MAX,
                x + width <= self.width,
                y + height <= self.height,
                data@.len() == r * ostride_g,
                forall|row: int, off: int|
                    0 <= row < r && 0 <= off < ostride_g ==> #[trigger] data@[row * ostride_g
                        + off] == self.byte(y + row, 4 * x + off),
            decreases rows - r,
        {
            proof {
                lemma_offset_in_bounds(y + r, 4 * x, self.height as int, stride_g);
            }
            let src_row: usize = (y as usize + r) * stride + x4;
            let mut k: usize = 0;
            while k < ostride
                invariant
                    k <= ostride,
                    r < rows,
                    rows == height,
                    stride == stride_g,
                    ostride == ostride_g,
                    stride_g == 4 * self.width,
                    ostride_g == 4 * width,
                    x4 == 4 * x,
                    src_row == (y + r) * stride_g + 4 * x,
                    self.wf(),
                    self.data@.len() == self.height * stride_g,
                    self.height * stride_g <= usize::MAX,
                    x + width <= self.width,
                    y + height <= self.height,
                    data@.len() == r * ostride_g + k,
                    forall|row: int, off: int|
                        (0 <= row < r && 0 <= off < ostride_g) || (row == r && 0 <= off < k)
                            ==> #[trigger] data@[row * ostride_g + off] == self.byte(
                            y + row,
                            4 * x + off,
                        ),
                decreases ostride - k,
            {
                proof {
                    lemma_offset_in_bounds(y + r, 4 * x + k, self.height as int, stride_g);
                }
                let ghost prior = data@;
                data.push(self.data[src_row + k]);
                proof {
                    assert forall|row: int, off: int|
                        (0 <= row < r && 0 <= off < ostride_g) || (row == r && 0 <= off < k + 1) implies #[trigger] data@[row
                        * ostride_g + off] == self.byte(y + row, 4 * x + off) by {
                        if row < r {
                            lemma_offset_in_bounds(row, off, r as int, ostride_g);
                            assert(data@[row * ostride_g + off] == prior[row * ostride_g + off]);
                        } else if off < k {
                            assert(data@[row * ostride_g + off] == prior[row * ostride_g + off]);
                        }
                    }
                }
                k += 1;
            }
            proof {
                assert((r + 1) * ostride_g == r * ostride_g + ostride_g) by (nonlinear_arith);
            }
            r += 1;
        }
        let out = Raster { width, height, data };
        proof {
            assert(out.wf());
        }
        Some(out)
    }
}

} // verus!
