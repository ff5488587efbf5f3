//! From tones to glyphs: the grid of characters that makes up the ASCII art.
use vstd::prelude::*;

use crate::text::push_char;
use image::imageops::FilterType;

verus! {

/// Tone range of a single pixel.
pub const TONE_RANGE: u32 = 255;

/// The glyph ramp `"@%#*+=-:. "`, dense to sparse.
pub open spec fn ramp_text() -> Seq<char> {
    seq!['@', '%', '#', '*', '+', '=', '-', ':', '.', ' ']
}

/// The ramp for a theme: as written on a light background, reversed on a dark one, so
/// that bright areas of the photo become dense glyphs there.
pub open spec fn ramp_for(light: bool) -> Seq<char> {
    if light {
        ramp_text()
    } else {
        ramp_text().reverse()
    }
}

/// The position on the ramp for a tone: the range `0..=255` scaled down to the ramp.
pub open spec fn ramp_index(tone: u8) -> int {
    tone * 9 / 255
}

/// The glyph that stands for `tone`.
pub open spec fn glyph_for(light: bool, tone: u8) -> char {
    ramp_for(light)[ramp_index(tone)]
}

/// The glyph ramp for the theme.
pub fn ramp(light: bool) -> (r: Vec<char>)
    ensures
        r@ == ramp_for(light),
{
    let chars = vec!['@', '%', '#', '*', '+', '=', '-', ':', '.', ' '];
    if light {
        chars
    } else {
        let mut reversed: Vec<char> = Vec::new();
        let mut i = chars.len();
        while i > 0
            invariant
                i <= chars.len(),
                chars@ == ramp_text(),
                reversed@ == chars@.subrange(i as int, chars.len() as int).reverse(),
            decreases i,
        {
            i -= 1;
            reversed.push(chars[i]);
            assert(reversed@ =~= chars@.subrange(i as int, chars.len() as int).reverse());
        }
        assert(chars@.subrange(0, chars.len() as int) =~= chars@);
        reversed
    }
}

/// The glyph for `tone` on the given ramp.
pub fn glyph(ramp: &Vec<char>, tone: u8) -> (c: char)
    requires
        ramp.len() == 10,
    ensures
        c == ramp@[ramp_index(tone)],
{
    let last = ramp.len() - 1;
    let index = (tone as usize) * last / (TONE_RANGE as usize);
    assert(index <= 9) by (nonlinear_arith)
        requires
            index == tone * 9 / 255,
            tone <= 255,
    ;
    ramp[index]
}

/// A brighter tone never sits earlier on the ramp.
pub proof fn lemma_ramp_index_monotonic(t1: u8, t2: u8)
    requires
        t1 <= t2,
    ensures
        0 <= ramp_index(t1) <= ramp_index(t2) <= 9,
{
    assert(t1 * 9 <= t2 * 9);
    vstd::arithmetic::div_mod::lemma_div_is_ordered(t1 * 9, t2 * 9, 255);
    assert(t2 * 9 / 255 <= 9) by (nonlinear_arith)
        requires
            t2 <= 255,
    ;
    assert(0 <= t1 * 9 / 255) by (nonlinear_arith)
        requires
            0 <= t1,
    ;
}

/// What the image crate's `imageops::resize` with the `Triangle` filter gives for a
/// grayscale image of `width` by `height` pixels resized to `new_width` by `new_height`.
/// The triangle kernel uses only exact arithmetic (`+ - * /`, `abs`, `floor`, `ceil`,
/// `round`), so the same input always gives the same output.
pub uninterp spec fn resized_triangle(
    pixels: Seq<u8>,
    width: u32,
    height: u32,
    new_width: u32,
    new_height: u32,
) -> Seq<u8>;

/// Resizes a grayscale buffer with `image::imageops::resize` and the `Triangle` filter,
/// the averaging filter (nearest-neighbour made the edges jagged). The result has
/// `new_width * new_height` pixels and is named by `resized_triangle`; where the size
/// does not change, the crate copies the image unchanged. Which tones a real resampling
/// gives is not stated.
#[verifier::external_body]
fn resize_triangle(pixels: &Vec<u8>, width: u32, height: u32, new_width: u32, new_height: u32) -> (r:
    Vec<u8>)
    requires
        pixels.len() == width * height,
        new_width >= 1,
        new_height >= 1,
        (width as int) * (new_height as int) * 16 <= isize::MAX,
        (new_width as int) * (new_height as int) * 16 <= isize::MAX,
    ensures
        r@ == resized_triangle(pixels@, width, height, new_width, new_height),
        r.len() == new_width * new_height,
        new_width == width && new_height == height ==> r@ == pixels@,
{
    let source = image::GrayImage::from_raw(width, height, pixels.clone()).unwrap();
    image::imageops::resize(&source, new_width, new_height, FilterType::Triangle).into_raw()
}

/// Finished ASCII art in the form of a glyph grid.
pub struct AsciiImage {
    pub lines: Vec<String>,
    pub cols: u32,
    pub rows: u32,
}

/// The glyphs of row `y` of the grid for resized tones `small` (`cols` per row).
pub open spec fn grid_line(small: Seq<u8>, cols: u32, y: int, light: bool) -> Seq<char> {
    Seq::new(cols as nat, |x: int| glyph_for(light, small[y * cols + x]))
}

proof fn lemma_cell_in_bounds(cols: int, rows: int, x: int, y: int)
    requires
        0 <= x < cols,
        0 <= y < rows,
    ensures
        0 <= y * cols + x < cols * rows,
{
    assert(y * cols + x < cols * rows) by (nonlinear_arith)
        requires
            0 <= x < cols,
            0 <= y < rows,
    ;
    assert(0 <= y * cols) by (nonlinear_arith)
        requires
            0 <= y,
            0 <= cols,
    ;
}

/// The glyph grid for tones already resized to `cols` by `rows` (row by row): each tone
/// becomes its glyph.
pub fn glyph_grid(small: &Vec<u8>, cols: u32, rows: u32, light: bool) -> (art: AsciiImage)
    requires
        small.len() == cols * rows,
    ensures
        art.cols == cols,
        art.rows == rows,
        art.lines.len() == rows,
        forall|y: int| 0 <= y < rows ==> #[trigger] art.lines@[y]@ == grid_line(small@, cols, y, light),
{
    let ghost s = small@;
    let ramp = ramp(light);
    let mut lines: Vec<String> = Vec::new();
    let mut y: u32 = 0;
    while y < rows
        invariant
            small@ == s,
            small.len() == cols * rows,
            ramp@ == ramp_for(light),
            y <= rows,
            lines.len() == y,
            forall|yy: int| 0 <= yy < y ==> #[trigger] lines@[yy]@ == grid_line(s, cols, yy, light),
        decreases rows - y,
    {
        let mut line = String::new();
        let mut x: u32 = 0;
        while x < cols
            invariant
                small@ == s,
                small.len() == cols * rows,
                ramp@ == ramp_for(light),
                y < rows,
                x <= cols,
                line@ == grid_line(s, cols, y as int, light).take(x as int),
            decreases cols - x,
        {
            proof {
                lemma_cell_in_bounds(cols as int, rows as int, x as int, y as int);
            }
            let tone = small[(y as usize) * (cols as usize) + (x as usize)];
            let c = glyph(&ramp, tone);
            push_char(&mut line, c);
            x += 1;
            assert(line@ =~= grid_line(s, cols, y as int, light).take(x as int));
        }
        assert(grid_line(s, cols, y as int, light).take(cols as int) =~= grid_line(s, cols, y as int, light));
        lines.push(line);
        y += 1;
    }
    AsciiImage { lines, cols, rows }
}

/// Converts a grayscale image (`tones`, row by row) into a glyph grid of `cols` by
/// `rows`: the image is resized to the grid with the `Triangle` filter, then each tone
/// becomes its glyph.
pub fn convert(tones: &Vec<u8>, width: u32, height: u32, cols: u32, rows: u32, light: bool) -> (art:
    AsciiImage)
    requires
        tones.len() == width * height,
        cols >= 1,
        rows >= 1,
        (width as int) * (rows as int) * 16 <= isize::MAX,
        (cols as int) * (rows as int) * 16 <= isize::MAX,
    ensures
        art.cols == cols,
        art.rows == rows,
        art.lines.len() == rows,
        forall|y: int|
            0 <= y < rows ==> #[trigger] art.lines@[y]@ == grid_line(
                resized_triangle(tones@, width, height, cols, rows),
                cols,
                y,
                light,
            ),
        cols == width && rows == height ==> forall|y: int|
            0 <= y < rows ==> #[trigger] art.lines@[y]@ == grid_line(tones@, cols, y, light),
{
    let small = resize_triangle(tones, width, height, cols, rows);
    glyph_grid(&small, cols, rows, light)
}

} // verus!

verus! {

/// The ramp's glyphs are all different, so a glyph gives back its position.
pub proof fn lemma_ramp_distinct()
    ensures
        forall|i: int, j: int|
            0 <= i < 10 && 0 <= j < 10 && #[trigger] ramp_text()[i] == #[trigger] ramp_text()[j]
                ==> i == j,
{
    let r = ramp_text();
    assert(r[0] == '@' && r[1] == '%' && r[2] == '#' && r[3] == '*' && r[4] == '+');
    assert(r[5] == '=' && r[6] == '-' && r[7] == ':' && r[8] == '.' && r[9] == ' ');
}

/// On a dark background the ramp is reversed: where a light grid shows the glyph at
/// ramp position `k`, the dark grid of the same tones shows the glyph at `9 - k`.
pub proof fn lemma_dark_grid_reverses_ramp(small: Seq<u8>, cols: u32, y: int, x: int, k: int)
    requires
        0 <= x < cols,
        0 <= k < 10,
        grid_line(small, cols, y, true)[x] == ramp_text()[k],
    ensures
        grid_line(small, cols, y, false)[x] == ramp_text()[9 - k],
{
    let t = small[y * cols + x];
    lemma_ramp_index_monotonic(t, t);
    lemma_ramp_distinct();
    assert(ramp_text()[ramp_index(t)] == ramp_text()[k]);
    assert(ramp_index(t) == k);
    assert(ramp_text().reverse()[k] == ramp_text()[9 - k]);
}

/// Every line of a glyph grid has `cols` glyphs, each taken from the ramp.
pub proof fn lemma_grid_line_shape(small: Seq<u8>, cols: u32, y: int, light: bool)
    ensures
        grid_line(small, cols, y, light).len() == cols,
        forall|x: int|
            0 <= x < cols ==> ramp_text().contains(#[trigger] grid_line(small, cols, y, light)[x]),
{
    assert forall|x: int| 0 <= x < cols implies ramp_text().contains(
        #[trigger] grid_line(small, cols, y, light)[x],
    ) by {
        let t = small[y * cols + x];
        let k = ramp_index(t);
        lemma_ramp_index_monotonic(t, t);
        if light {
            assert(ramp_text()[k] == grid_line(small, cols, y, light)[x]);
        } else {
            assert(ramp_text()[9 - k] == grid_line(small, cols, y, light)[x]);
        }
    }
}

} // verus!
