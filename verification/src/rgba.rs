//! Decoded RGBA pixels: cropping to the `--crop` rectangle, and whether any pixel is
//! see-through.
use vstd::prelude::*;

verus! {

/// Alpha below this counts as transparent.
pub const OPAQUE_THRESHOLD: u8 = 250;

/// An RGBA image: four bytes per pixel (red, green, blue, alpha), row by row.
pub struct RgbaPixels {
    pub width: u32,
    pub height: u32,
    pub data: Vec<u8>,
}

impl RgbaPixels {
    /// `data` holds exactly `width * height` pixels.
    pub open spec fn wf(&self) -> bool {
        self.data.len() == 4 * (self.width as int) * (self.height as int)
    }

    /// Channel `c` of the pixel in column `x`, row `y`.
    pub open spec fn byte_at(&self, x: int, y: int, c: int) -> u8 {
        self.data@[(y * self.width + x) * 4 + c]
    }
}

/// The crop rectangle does not fit inside an image of this size.
#[derive(Debug, Clone, Copy, PartialEq, Eq, Structural)]
pub struct CropOutOfBounds {
    pub width: u32,
    pub height: u32,
}

/// Byte `j` of row `r` of an image whose rows are `row_len` bytes long.
pub open spec fn row_byte(s: Seq<u8>, row_len: int, r: int, j: int) -> u8 {
    s[r * row_len + j]
}

proof fn lemma_row_in_bounds(w: int, h: int, x1: int, y: int, cw: int)
    requires
        0 <= y < h,
        0 <= x1,
        0 <= cw,
        x1 + cw <= w,
    ensures
        (y * w + x1) * 4 + cw * 4 <= 4 * w * h,
        0 <= (y * w + x1) * 4,
{
    assert(y * w + w <= h * w) by (nonlinear_arith)
        requires
            y < h,
            0 <= w,
    ;
    assert(0 <= y * w) by (nonlinear_arith)
        requires
            0 <= y,
            0 <= w,
    ;
    assert(4 * w * h == 4 * (h * w)) by (nonlinear_arith);
}

proof fn lemma_row_index_below(rr: int, r: int, row_len: int, jj: int)
    requires
        0 <= rr < r,
        0 <= jj < row_len,
    ensures
        0 <= rr * row_len + jj < r * row_len,
{
    assert((r - rr) * row_len >= row_len) by (nonlinear_arith)
        requires
            rr < r,
            0 <= jj < row_len,
    ;
    assert(r * row_len - rr * row_len == (r - rr) * row_len) by (nonlinear_arith);
    assert(0 <= rr * row_len) by (nonlinear_arith)
        requires
            0 <= rr,
            0 <= row_len,
    ;
}

/// The pixels of `image` in columns `x1..x2` and rows `y1..y2`.
fn crop_rect(image: &RgbaPixels, x1: u32, y1: u32, x2: u32, y2: u32) -> (out: RgbaPixels)
    requires
        image.wf(),
        x1 <= x2 <= image.width,
        y1 <= y2 <= image.height,
    ensures
        out.wf(),
        out.width == x2 - x1,
        out.height == y2 - y1,
        forall|x: int, y: int, c: int|
            0 <= x < out.width && 0 <= y < out.height && 0 <= c < 4 ==> #[trigger] out.byte_at(
                x,
                y,
                c,
            ) == image.byte_at(x + x1, y + y1, c),
{
    let cw = x2 - x1;
    let ch = y2 - y1;
    if ch == 0 {
        let out = RgbaPixels { width: cw, height: 0, data: Vec::new() };
        assert(4 * (cw as int) * 0 == 0);
        return out;
    }
    let w = image.width as usize;
    proof {
        assert(4 * (w as int) <= 4 * (w as int) * (image.height as int)) by (nonlinear_arith)
            requires
                image.height >= 1,
                w >= 0,
        ;
    }
    let row_len = (cw as usize) * 4;
    let mut out: Vec<u8> = Vec::new();
    let mut r: u32 = 0;
    while r < ch
        invariant
            image.wf(),
            x1 <= x2 <= image.width,
            y1 <= y2 <= image.height,
            cw == x2 - x1,
            ch == y2 - y1,
            w == image.width,
            row_len == cw * 4,
            r <= ch,
            out.len() == r * row_len,
            forall|rr: int, j: int|
                0 <= rr < r && 0 <= j < row_len ==> #[trigger] row_byte(out@, row_len as int, rr, j)
                    == image.data@[((y1 + rr) * w + x1) * 4 + j],
        decreases ch - r,
    {
        let y = (y1 + r) as usize;
        proof {
            lemma_row_in_bounds(w as int, image.height as int, x1 as int, y as int, cw as int);
        }
        let start = (y * w + x1 as usize) * 4;
        let mut j: usize = 0;
        while j < row_len
            invariant
                image.wf(),
                start + row_len <= image.data.len(),
                start == ((y1 + r) * w + x1) * 4,
                r < ch,
                j <= row_len,
                out.len() == r * row_len + j,
                forall|rr: int, jj: int|
                    0 <= rr < r && 0 <= jj < row_len ==> #[trigger] row_byte(
                        out@,
                        row_len as int,
                        rr,
                        jj,
                    ) == image.data@[((y1 + rr) * w + x1) * 4 + jj],
                forall|jj: int|
                    0 <= jj < j ==> #[trigger] row_byte(out@, row_len as int, r as int, jj)
                        == image.data@[start + jj],
            decreases row_len - j,
        {
            let ghost before = out@;
            out.push(image.data[start + j]);
            assert forall|rr: int, jj: int|
                0 <= rr < r && 0 <= jj < row_len implies #[trigger] row_byte(
                    out@,
                    row_len as int,
                    rr,
                    jj,
                ) == row_byte(before, row_len as int, rr, jj) by {
                lemma_row_index_below(rr, r as int, row_len as int, jj);
            }
            assert forall|jj: int| 0 <= jj < j + 1 implies #[trigger] row_byte(
                out@,
                row_len as int,
                r as int,
                jj,
            ) == image.data@[start + jj] by {
                if jj < j {
                    assert(row_byte(out@, row_len as int, r as int, jj) == row_byte(
                        before,
                        row_len as int,
                        r as int,
                        jj,
                    ));
                }
            }
            j += 1;
        }
        proof {
            assert((r + 1) * row_len == r * row_len + row_len) by (nonlinear_arith);
        }
        r += 1;
    }
    let result = RgbaPixels { width: cw, height: ch, data: out };
    assert(result.data.len() == 4 * (cw as int) * (ch as int)) by (nonlinear_arith)
        requires
            result.data.len() == ch * row_len,
            row_len == cw * 4,
    ;
    assert forall|x: int, y: int, c: int|
        0 <= x < result.width && 0 <= y < result.height && 0 <= c < 4 implies #[trigger] result.byte_at(
        x,
        y,
        c,
    ) == image.byte_at(x + x1, y + y1, c) by {
        assert((y * cw + x) * 4 + c == y * (row_len as int) + (4 * x + c)) by (nonlinear_arith)
            requires
                row_len == cw * 4,
        ;
        assert(row_byte(out@, row_len as int, y, 4 * x + c) == image.data@[((y1 + y) * w + x1) * 4
            + (4 * x + c)]);
        assert(((y1 + y) * w + x1) * 4 + (4 * x + c) == ((y + y1) * w + (x + x1)) * 4 + c)
            by (nonlinear_arith);
    }
    result
}

/// The `x1,y1,x2,y2` part of `image`, or the error `--crop` reports when the rectangle
/// leaves the image.
pub fn apply_crop(image: RgbaPixels, rect: Option<(u32, u32, u32, u32)>) -> (r: Result<
    RgbaPixels,
    CropOutOfBounds,
>)
    requires
        image.wf(),
        rect matches Some((x1, y1, x2, y2)) ==> x1 <= x2 && y1 <= y2,
    ensures
        match rect {
            None => r == Ok::<RgbaPixels, CropOutOfBounds>(image),
            Some((x1, y1, x2, y2)) => if x2 > image.width || y2 > image.height {
                r == Err::<RgbaPixels, CropOutOfBounds>(
                    CropOutOfBounds { width: image.width, height: image.height },
                )
            } else {
                r matches Ok(out) && out.wf() && out.width == x2 - x1 && out.height == y2 - y1
                    && forall|x: int, y: int, c: int|
                    0 <= x < out.width && 0 <= y < out.height && 0 <= c < 4
                        ==> #[trigger] out.byte_at(x, y, c) == image.byte_at(x + x1, y + y1, c)
            },
        },
{
    match rect {
        None => Ok(image),
        Some((x1, y1, x2, y2)) => {
            if x2 > image.width || y2 > image.height {
                Err(CropOutOfBounds { width: image.width, height: image.height })
            } else {
                Ok(crop_rect(&image, x1, y1, x2, y2))
            }
        },
    }
}

} // verus!

verus! {

/// Some pixel of `image` has alpha below `OPAQUE_THRESHOLD`.
pub open spec fn has_transparent_pixel(image: RgbaPixels) -> bool {
    exists|x: int, y: int|
        0 <= x < image.width && 0 <= y < image.height && #[trigger] image.byte_at(x, y, 3)
            < OPAQUE_THRESHOLD
}

/// Whether any pixel of `image` is (partly) transparent, which selects the alpha mask.
pub fn has_transparency(image: &RgbaPixels) -> (r: bool)
    requires
        image.wf(),
    ensures
        r == has_transparent_pixel(*image),
{
    let w = image.width as usize;
    let h = image.height as usize;
    let mut y: usize = 0;
    while y < h
        invariant
            image.wf(),
            w == image.width,
            h == image.height,
            y <= h,
            forall|xx: int, yy: int|
                0 <= xx < w && 0 <= yy < y ==> #[trigger] image.byte_at(xx, yy, 3)
                    >= OPAQUE_THRESHOLD,
        decreases h - y,
    {
        let mut x: usize = 0;
        while x < w
            invariant
                image.wf(),
                w == image.width,
                h == image.height,
                y < h,
                x <= w,
                forall|xx: int, yy: int|
                    0 <= xx < w && 0 <= yy < y ==> #[trigger] image.byte_at(xx, yy, 3)
                        >= OPAQUE_THRESHOLD,
                forall|xx: int| 0 <= xx < x ==> #[trigger] image.byte_at(xx, y as int, 3)
                    >= OPAQUE_THRESHOLD,
            decreases w - x,
        {
            proof {
                lemma_row_in_bounds(w as int, h as int, x as int, y as int, 1);
            }
            let a = image.data[(y * w + x) * 4 + 3];
            if a < OPAQUE_THRESHOLD {
                assert(image.byte_at(x as int, y as int, 3) < OPAQUE_THRESHOLD);
                return true;
            }
            x += 1;
        }
        y += 1;
    }
    false
}

} // verus!
