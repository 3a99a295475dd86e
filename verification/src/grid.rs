//! Tables drawn as grid images: column widths from the cell texts, a
//! shaded header row, and the grid lines.
use vstd::prelude::*;
use vstd::utf8::encode_utf8;
use crate::document::{image_big_enough, MIN_IMAGE_HEIGHT, MIN_IMAGE_WIDTH};
use crate::text::{rows_view, strings_view};
use image::{ImageBuffer, Rgb, RgbImage};

verus! {

/// An RGB image drawn by the library: an image crate `RgbImage`, kept
/// private and described by its pixels (`rgb_pixels`) and its size
/// (`rgb_size`).
#[verifier::external_body]
pub struct GridImage {
    img: RgbImage,
}

/// The pixels of an image: the color at each `(x, y)` inside it.
pub uninterp spec fn rgb_pixels(img: GridImage) -> Map<(u32, u32), (u8, u8, u8)>;

/// The width and height of an image.
pub uninterp spec fn rgb_size(img: GridImage) -> (u32, u32);

/// The PNG file that the image crate's encoder writes for an RGB image with
/// these pixels and this size (empty where encoding fails).
pub uninterp spec fn png_of_pixels(pixels: Map<(u32, u32), (u8, u8, u8)>, size: (u32, u32)) -> Seq<u8>;

/// The positions inside a `width` by `height` image.
pub open spec fn in_image(p: (u32, u32), width: u32, height: u32) -> bool {
    p.0 < width && p.1 < height
}

/// `ImageBuffer::from_pixel`: a `width` by `height` image whose pixels all
/// have `color`. It panics when `3 * width * height` overflows `usize`,
/// which `requires` rules out.
#[verifier::external_body]
fn rgb_from_pixel(width: u32, height: u32, color: (u8, u8, u8)) -> (img: GridImage)
    requires
        3 * (width as int) * (height as int) <= usize::MAX,
    ensures
        rgb_size(img) == (width, height),
        rgb_pixels(img) == Map::new(
            |p: (u32, u32)| in_image(p, width, height),
            |p: (u32, u32)| color,
        ),
{
    GridImage { img: ImageBuffer::from_pixel(width, height, Rgb([color.0, color.1, color.2])) }
}

/// `ImageBuffer::put_pixel`: sets the pixel at `(x, y)`, which must lie
/// inside the image (it panics otherwise).
#[verifier::external_body]
fn rgb_put_pixel(img: &mut GridImage, x: u32, y: u32, color: (u8, u8, u8))
    requires
        x < rgb_size(*old(img)).0,
        y < rgb_size(*old(img)).1,
    ensures
        rgb_size(*final(img)) == rgb_size(*old(img)),
        rgb_pixels(*final(img)) == rgb_pixels(*old(img)).insert((x, y), color),
{
    img.img.put_pixel(x, y, Rgb([color.0, color.1, color.2]));
}

pub open spec fn line_color() -> (u8, u8, u8) {
    (80, 80, 80)
}

pub open spec fn background_color() -> (u8, u8, u8) {
    (255, 255, 255)
}

pub open spec fn header_color() -> (u8, u8, u8) {
    (230, 230, 240)
}

/// Height of a row in pixels, without its grid line.
pub const ROW_HEIGHT: u32 = 24;

/// The pixel width that a cell's text asks for: 7 pixels per byte
/// (`str::len`, cast to `u32`) plus 8 pixels of padding on each side.
pub open spec fn cell_needed(cell: Seq<char>) -> int {
    (((encode_utf8(cell).len() as usize) as u32) as int) * 7 + 16
}

/// Width of column `j` after the first `r` rows: at least 60, the widest
/// need of its cells, each need capped at 300.
pub open spec fn col_width(rows: Seq<Seq<Seq<char>>>, j: int, r: nat) -> int
    decreases r,
{
    if r == 0 {
        60
    } else {
        let w = col_width(rows, j, (r - 1) as nat);
        if j < rows[r - 1].len() {
            let capped = if cell_needed(rows[r - 1][j]) < 300 {
                cell_needed(rows[r - 1][j])
            } else {
                300
            };
            if w < capped {
                capped
            } else {
                w
            }
        } else {
            w
        }
    }
}

/// The number of columns: the length of the longest row.
pub open spec fn num_cols(rows: Seq<Seq<Seq<char>>>, r: nat) -> nat
    decreases r,
{
    if r == 0 {
        0
    } else {
        let c = num_cols(rows, (r - 1) as nat);
        if rows[r - 1].len() > c {
            rows[r - 1].len()
        } else {
            c
        }
    }
}

/// The x position of the vertical line left of column `j`: each column
/// adds its width and one pixel of line.
pub open spec fn col_offset(rows: Seq<Seq<Seq<char>>>, j: nat) -> int
    decreases j,
{
    if j == 0 {
        0
    } else {
        col_offset(rows, (j - 1) as nat) + col_width(rows, j - 1, rows.len()) + 1
    }
}

/// The grid's full width before capping: all columns and their lines.
pub open spec fn total_width(rows: Seq<Seq<Seq<char>>>) -> int {
    col_offset(rows, num_cols(rows, rows.len())) + 1
}

/// The grid's full height before capping: rows of 24 pixels and their lines.
pub open spec fn total_height(rows: Seq<Seq<Seq<char>>>) -> int {
    (rows.len() * 25 + 1) as int
}

/// Image width: the grid's width, capped at 2000.
pub open spec fn grid_width(rows: Seq<Seq<Seq<char>>>) -> u32 {
    if total_width(rows) < 2000 {
        total_width(rows) as u32
    } else {
        2000
    }
}

/// Image height: the grid's height, capped at 2000.
pub open spec fn grid_height(rows: Seq<Seq<Seq<char>>>) -> u32 {
    if total_height(rows) < 2000 {
        total_height(rows) as u32
    } else {
        2000
    }
}

/// The `u32` arithmetic of the layout does not overflow (it panics where
/// it would).
pub open spec fn grid_fits(rows: Seq<Seq<Seq<char>>>) -> bool {
    &&& forall|r: int, j: int|
        0 <= r < rows.len() && 0 <= j < rows[r].len() ==> cell_needed(#[trigger] rows[r][j])
            <= u32::MAX
    &&& total_width(rows) <= u32::MAX
    &&& total_height(rows) <= u32::MAX
}

/// `y` lies on a horizontal grid line.
pub open spec fn on_hline(rows: Seq<Seq<Seq<char>>>, y: u32) -> bool {
    y % 25 == 0 && y / 25 <= rows.len()
}

/// `x` lies on a vertical grid line.
pub open spec fn on_vline(rows: Seq<Seq<Seq<char>>>, x: u32) -> bool {
    exists|j: nat| j <= num_cols(rows, rows.len()) && #[trigger] col_offset(rows, j) == x
}

/// The color of the grid image at `(x, y)`: lines, then the header row
/// (when there is a row), then background.
pub open spec fn grid_color(rows: Seq<Seq<Seq<char>>>, x: u32, y: u32) -> (u8, u8, u8) {
    if on_hline(rows, y) || on_vline(rows, x) {
        line_color()
    } else if rows.len() > 0 && y < ROW_HEIGHT {
        header_color()
    } else {
        background_color()
    }
}

/// The image shows the table grid of `rows`.
pub open spec fn is_grid_image(rows: Seq<Seq<Seq<char>>>, img: GridImage) -> bool {
    &&& rgb_size(img) == (grid_width(rows), grid_height(rows))
    &&& forall|p: (u32, u32)|
        #![trigger rgb_pixels(img).dom().contains(p)]
        rgb_pixels(img).dom().contains(p) <==> in_image(p, grid_width(rows), grid_height(rows))
    &&& forall|x: u32, y: u32|
        x < grid_width(rows) && y < grid_height(rows) ==> #[trigger] rgb_pixels(img)[(x, y)]
            == grid_color(rows, x, y)
}

/// The pixels of `img` inside `width` by `height`, and nothing else.
pub open spec fn has_domain(img: GridImage, width: u32, height: u32) -> bool {
    &&& rgb_size(img) == (width, height)
    &&& forall|p: (u32, u32)|
        #![trigger rgb_pixels(img).dom().contains(p)]
        rgb_pixels(img).dom().contains(p) <==> in_image(p, width, height)
}

/// Color after the header rows `x < x0`, and `y < y0` of row `x0`, are painted.
pub open spec fn header_stage(nrows: nat, hh: u32, x0: u32, y0: u32, x: u32, y: u32) -> (u8, u8, u8) {
    if nrows > 0 && y < hh && (x < x0 || (x == x0 && y < y0)) {
        header_color()
    } else {
        background_color()
    }
}

/// Color once the header is painted.
pub open spec fn header_done(nrows: nat, y: u32) -> (u8, u8, u8) {
    if nrows > 0 && y < ROW_HEIGHT {
        header_color()
    } else {
        background_color()
    }
}

/// Color after the horizontal lines `i < i0`, and `x < x0` of line `i0`, are drawn.
pub open spec fn hline_stage(nrows: nat, i0: int, x0: u32, x: u32, y: u32) -> (u8, u8, u8) {
    if (y % 25 == 0 && y / 25 < i0) || (y == i0 * 25 && x < x0) {
        line_color()
    } else {
        header_done(nrows, y)
    }
}

/// Color once the horizontal lines are drawn.
pub open spec fn hline_done(rows: Seq<Seq<Seq<char>>>, x: u32, y: u32) -> (u8, u8, u8) {
    if on_hline(rows, y) {
        line_color()
    } else {
        header_done(rows.len(), y)
    }
}

/// Color after the vertical lines `j < j0`, and `y < y0` of line `j0`, are drawn.
pub open spec fn vline_stage(rows: Seq<Seq<Seq<char>>>, j0: nat, y0: u32, x: u32, y: u32) -> (u8, u8, u8) {
    if (exists|j: nat| j < j0 && #[trigger] col_offset(rows, j) == x) || (col_offset(rows, j0) == x
        && y < y0) {
        line_color()
    } else {
        hline_done(rows, x, y)
    }
}

proof fn lemma_col_offset_mono(rows: Seq<Seq<Seq<char>>>, i: nat, j: nat)
    requires
        i <= j,
    ensures
        col_offset(rows, i) <= col_offset(rows, j),
        i < j ==> col_offset(rows, i) < col_offset(rows, j),
    decreases j - i,
{
    if i < j {
        lemma_col_offset_mono(rows, i, (j - 1) as nat);
        lemma_col_width_min(rows, j - 1, rows.len());
    }
}

proof fn lemma_col_offset_lower(rows: Seq<Seq<Seq<char>>>, j: nat)
    ensures
        col_offset(rows, j) >= j,
    decreases j,
{
    if j > 0 {
        lemma_col_offset_lower(rows, (j - 1) as nat);
        lemma_col_width_min(rows, j - 1, rows.len());
    }
}

/// A cell's need, capped at 300 pixels.
pub open spec fn capped_need(cell: Seq<char>) -> int {
    if cell_needed(cell) < 300 {
        cell_needed(cell)
    } else {
        300
    }
}

/// Each column is as wide as the widest capped need of its cells over all
/// the rows counted, and never under 60 pixels: at least every cell's
/// capped need, and equal to 60 or to one of those needs.
pub proof fn lemma_col_width_is_widest(rows: Seq<Seq<Seq<char>>>, j: int, n: nat)
    requires
        0 <= j,
        n <= rows.len(),
    ensures
        col_width(rows, j, n) >= 60,
        forall|r: int| 0 <= r < n && 0 <= j < rows[r].len() ==> col_width(rows, j, n) >= capped_need(
            #[trigger] rows[r][j],
        ),
        col_width(rows, j, n) == 60 || exists|r: int|
            0 <= r < n && 0 <= j < rows[r].len() && col_width(rows, j, n) == capped_need(#[trigger] rows[r][j]),
    decreases n,
{
    if n > 0 {
        lemma_col_width_is_widest(rows, j, (n - 1) as nat);
        let w = col_width(rows, j, (n - 1) as nat);
        assert forall|r: int| 0 <= r < n && 0 <= j < rows[r].len() implies col_width(rows, j, n)
            >= capped_need(#[trigger] rows[r][j]) by {
            if r < n - 1 {
                assert(w >= capped_need(rows[r][j]));
            }
        }
        if col_width(rows, j, n) != 60 && col_width(rows, j, n) != w {
            assert(0 <= j < rows[n - 1].len());
            assert(col_width(rows, j, n) == capped_need(rows[(n - 1) as int][j]));
        } else if col_width(rows, j, n) != 60 {
            let r = choose|r: int|
                0 <= r < n - 1 && 0 <= j < rows[r].len() && w == capped_need(#[trigger] rows[r][j]);
            assert(col_width(rows, j, n) == capped_need(rows[r][j]));
        }
    }
}

proof fn lemma_col_width_min(rows: Seq<Seq<Seq<char>>>, j: int, r: nat)
    ensures
        col_width(rows, j, r) >= 60,
    decreases r,
{
    if r > 0 {
        lemma_col_width_min(rows, j, (r - 1) as nat);
    }
}

proof fn lemma_col_width_max(rows: Seq<Seq<Seq<char>>>, j: int, r: nat)
    ensures
        col_width(rows, j, r) <= 300,
    decreases r,
{
    if r > 0 {
        lemma_col_width_max(rows, j, (r - 1) as nat);
    }
}

/// Draw a table as a grid image: columns as wide as their widest cell
/// text (7 pixels per byte plus padding, between 60 and 300), rows 24
/// pixels high, one-pixel lines, the first row shaded, at most 2000 by 2000.
pub fn render_table_grid(rows: &Vec<Vec<String>>) -> (img: GridImage)
    requires
        grid_fits(rows_view(rows@)),
    ensures
        is_grid_image(rows_view(rows@), img),
{
    let ghost rv = rows_view(rows@);
    // number of columns
    let mut ncols: usize = 0;
    let mut r: usize = 0;
    while r < rows.len()
        invariant
            0 <= r <= rows@.len(),
            rv == rows_view(rows@),
            ncols == num_cols(rv, r as nat),
        decreases rows@.len() - r,
    {
        assert(rv[r as int].len() == rows@[r as int]@.len());
        if rows[r].len() > ncols {
            ncols = rows[r].len();
        }
        r = r + 1;
    }
    // column widths
    let mut widths: Vec<u32> = Vec::new();
    while widths.len() < ncols
        invariant
            widths@.len() <= ncols,
            forall|j: int| 0 <= j < widths@.len() ==> widths@[j] == 60,
        decreases ncols - widths@.len(),
    {
        widths.push(60);
    }
    r = 0;
    while r < rows.len()
        invariant
            0 <= r <= rows@.len(),
            rv == rows_view(rows@),
            grid_fits(rv),
            widths@.len() == ncols,
            ncols == num_cols(rv, rv.len()),
            forall|j: int| 0 <= j < ncols ==> #[trigger] widths@[j] == col_width(rv, j, r as nat),
        decreases rows@.len() - r,
    {
        let row = &rows[r];
        assert(rv[r as int] == strings_view(row@));
        proof {
            lemma_num_cols_bound(rv, r as nat, rv.len());
        }
        let mut j: usize = 0;
        while j < row.len()
            invariant
                0 <= r < rows@.len(),
                row == &rows@[r as int],
                rv == rows_view(rows@),
                rv[r as int] == strings_view(row@),
                grid_fits(rv),
                widths@.len() == ncols,
                row@.len() <= ncols,
                0 <= j <= row@.len(),
                forall|k: int| 0 <= k < j ==> #[trigger] widths@[k] == col_width(rv, k, (r + 1) as nat),
                forall|k: int| j <= k < ncols ==> #[trigger] widths@[k] == col_width(rv, k, r as nat),
            decreases row@.len() - j,
        {
            if j < widths.len() {
                let len = row[j].as_str().len();
                assert(rv[r as int][j as int] == row@[j as int]@);
                assert(cell_needed(rv[r as int][j as int]) <= u32::MAX);
                let needed: u32 = (len as u32) * 7 + 8 * 2;
                let capped = if needed < 300 { needed } else { 300 };
                if widths[j] < capped {
                    widths.set(j, capped);
                }
            }
            j = j + 1;
        }
        r = r + 1;
    }
    // total size
    let mut total_w: u64 = 0;
    let mut j: usize = 0;
    proof {
        lemma_col_offset_mono(rv, 0, ncols as nat);
    }
    while j < ncols
        invariant
            0 <= j <= ncols,
            widths@.len() == ncols,
            ncols == num_cols(rv, rv.len()),
            forall|k: int| 0 <= k < ncols ==> #[trigger] widths@[k] == col_width(rv, k, rv.len()),
            total_w == col_offset(rv, j as nat),
            col_offset(rv, ncols as nat) + 1 <= u32::MAX,
        decreases ncols - j,
    {
        proof {
            lemma_col_offset_mono(rv, (j + 1) as nat, ncols as nat);
        }
        total_w = total_w + widths[j] as u64 + 1;
        j = j + 1;
    }
    total_w = total_w + 1;
    let total_h: u64 = (rows.len() as u64) * 25 + 1;
    let w: u32 = if total_w < 2000 { total_w as u32 } else { 2000 };
    let h: u32 = if total_h < 2000 { total_h as u32 } else { 2000 };
    assert(w == grid_width(rv) && h == grid_height(rv));
    assert(3 * (w as int) * (h as int) <= usize::MAX) by (nonlinear_arith)
        requires
            w <= 2000,
            h <= 2000,
            usize::MAX >= 0xffff_ffff,
    ;
    let mut img = rgb_from_pixel(w, h, (255, 255, 255));
    // header row
    let hh: u32 = if ROW_HEIGHT < h { ROW_HEIGHT } else { h };
    let nonempty = rows.len() > 0;
    let mut x: u32 = 0;
    while x < w
        invariant
            has_domain(img, w, h),
            hh <= h,
            hh == (if ROW_HEIGHT < h { ROW_HEIGHT } else { h }),
            nonempty == (rv.len() > 0),
            x <= w,
            forall|px: u32, py: u32| px < w && py < h ==> #[trigger] rgb_pixels(img)[(px, py)]
                == header_stage(rv.len(), hh, x, 0, px, py),
        decreases w - x,
    {
        let mut y: u32 = 0;
        while nonempty && y < hh
            invariant
                has_domain(img, w, h),
                hh <= h,
                nonempty == (rv.len() > 0),
                x < w,
                y <= hh,
                forall|px: u32, py: u32| px < w && py < h ==> #[trigger] rgb_pixels(img)[(px, py)]
                    == header_stage(rv.len(), hh, x, y, px, py),
            decreases hh - y,
        {
            rgb_put_pixel(&mut img, x, y, (230, 230, 240));
            y = y + 1;
        }
        x = x + 1;
    }
    assert forall|px: u32, py: u32| px < w && py < h implies #[trigger] rgb_pixels(img)[(px, py)]
        == hline_stage(rv.len(), 0, 0, px, py) by {}
    // horizontal lines
    let mut i: usize = 0;
    while i <= rows.len()
        invariant
            has_domain(img, w, h),
            rv.len() == rows@.len(),
            total_height(rv) <= u32::MAX,
            0 <= i <= rows@.len() + 1,
            forall|px: u32, py: u32| px < w && py < h ==> #[trigger] rgb_pixels(img)[(px, py)]
                == hline_stage(rv.len(), i as int, 0, px, py),
        decreases rows@.len() + 1 - i,
    {
        let yy: u32 = (i as u32) * 25;
        if yy < h {
            let mut x: u32 = 0;
            while x < w
                invariant
                    has_domain(img, w, h),
                    yy < h,
                    yy == i * 25,
                    x <= w,
                    forall|px: u32, py: u32| px < w && py < h ==> #[trigger] rgb_pixels(img)[(px, py)]
                        == hline_stage(rv.len(), i as int, x, px, py),
                decreases w - x,
            {
                rgb_put_pixel(&mut img, x, yy, (80, 80, 80));
                x = x + 1;
            }
        }
        assert forall|px: u32, py: u32| px < w && py < h implies #[trigger] rgb_pixels(img)[(px, py)]
            == hline_stage(rv.len(), i + 1, 0, px, py) by {}
        i = i + 1;
    }
    assert forall|px: u32, py: u32| px < w && py < h implies #[trigger] rgb_pixels(img)[(px, py)]
        == vline_stage(rv, 0, 0, px, py) by {
        assert(hline_stage(rv.len(), (rv.len() + 1) as int, 0, px, py) == hline_done(rv, px, py));
    }
    // vertical lines
    proof {
        lemma_col_offset_lower(rv, ncols as nat);
    }
    let mut x_off: u64 = 0;
    let mut j: usize = 0;
    while j <= ncols
        invariant
            has_domain(img, w, h),
            0 <= j <= ncols + 1,
            ncols < usize::MAX,
            widths@.len() == ncols,
            ncols == num_cols(rv, rv.len()),
            forall|k: int| 0 <= k < ncols ==> #[trigger] widths@[k] == col_width(rv, k, rv.len()),
            j <= ncols ==> x_off == col_offset(rv, j as nat),
            col_offset(rv, ncols as nat) + 1 <= u32::MAX,
            forall|px: u32, py: u32| px < w && py < h ==> #[trigger] rgb_pixels(img)[(px, py)]
                == vline_stage(rv, j as nat, 0, px, py),
        decreases ncols + 1 - j,
    {
        proof {
            lemma_col_offset_mono(rv, j as nat, ncols as nat);
        }
        if x_off < w as u64 {
            let xo = x_off as u32;
            let mut y: u32 = 0;
            while y < h
                invariant
                    has_domain(img, w, h),
                    xo < w,
                    xo == col_offset(rv, j as nat),
                    y <= h,
                    forall|px: u32, py: u32| px < w && py < h ==> #[trigger] rgb_pixels(img)[(px, py)]
                        == vline_stage(rv, j as nat, y, px, py),
                decreases h - y,
            {
                rgb_put_pixel(&mut img, xo, y, (80, 80, 80));
                y = y + 1;
            }
        }
        assert forall|px: u32, py: u32| px < w && py < h implies #[trigger] rgb_pixels(img)[(px, py)]
            == vline_stage(rv, (j + 1) as nat, 0, px, py) by {
            if col_offset(rv, j as nat) == px {
                assert(exists|k: nat| k < j + 1 && #[trigger] col_offset(rv, k) == px);
            }
            if exists|k: nat| k < j + 1 && #[trigger] col_offset(rv, k) == px {
                let k = choose|k: nat| k < j + 1 && #[trigger] col_offset(rv, k) == px;
                if k < j {
                    assert(exists|k2: nat| k2 < j && #[trigger] col_offset(rv, k2) == px);
                }
            }
        }
        if j < ncols {
            proof {
                lemma_col_offset_mono(rv, (j + 1) as nat, ncols as nat);
            }
            x_off = x_off + widths[j] as u64 + 1;
        }
        j = j + 1;
    }
    assert forall|px: u32, py: u32| px < w && py < h implies #[trigger] rgb_pixels(img)[(px, py)]
        == grid_color(rv, px, py) by {
        assert(vline_stage(rv, (ncols + 1) as nat, 0, px, py) == grid_color(rv, px, py)) by {
            if on_vline(rv, px) {
                let k = choose|k: nat| k <= num_cols(rv, rv.len()) && #[trigger] col_offset(rv, k) == px;
                assert(k < ncols + 1);
            }
        }
    }
    img
}

proof fn lemma_num_cols_bound(rows: Seq<Seq<Seq<char>>>, r: nat, n: nat)
    requires
        r < n <= rows.len(),
    ensures
        rows[r as int].len() <= num_cols(rows, n),
    decreases n,
{
    if n > r + 1 {
        lemma_num_cols_bound(rows, r, (n - 1) as nat);
    }
}

/// The grid image of a table when there are rows and the image is large
/// enough to keep.
pub fn table_image(rows: &Vec<Vec<String>>) -> (img: Option<GridImage>)
    requires
        grid_fits(rows_view(rows@)),
    ensures
        img is Some <==> rows@.len() > 0 && image_big_enough(
            grid_width(rows_view(rows@)),
            grid_height(rows_view(rows@)),
        ),
        img matches Some(i) ==> is_grid_image(rows_view(rows@), i),
{
    if rows.len() == 0 {
        return None;
    }
    let img = render_table_grid(rows);
    let (w, h) = rgb_dimensions(&img);
    if w < MIN_IMAGE_WIDTH || h < MIN_IMAGE_HEIGHT {
        return None;
    }
    Some(img)
}

/// `ImageBuffer::dimensions`: the width and height.
#[verifier::external_body]
fn rgb_dimensions(img: &GridImage) -> (d: (u32, u32))
    ensures
        d == rgb_size(*img),
{
    img.img.dimensions()
}

/// `DynamicImage::write_to` with the PNG format: the PNG file of the image,
/// as `save` writes it to a `.png` path; empty if the encoder fails. The
/// result is the name `png_of_pixels` of the image's pixels and size.
#[verifier::external_body]
pub fn grid_png(img: &GridImage) -> (png: Vec<u8>)
    ensures
        png@ == png_of_pixels(rgb_pixels(*img), rgb_size(*img)),
{
    let mut out = std::io::Cursor::new(Vec::new());
    match image::DynamicImage::ImageRgb8(img.img.clone()).write_to(&mut out, image::ImageFormat::Png) {
        Ok(()) => out.into_inner(),
        Err(_) => Vec::new(),
    }
}

/// Whether the layout arithmetic of a table's grid stays within `u32`
/// (drawing it would panic otherwise).
pub fn grid_layout_fits(rows: &Vec<Vec<String>>) -> (b: bool)
    ensures
        b == grid_fits(rows_view(rows@)),
{
    let ghost rv = rows_view(rows@);
    // every cell's need fits
    let mut r: usize = 0;
    while r < rows.len()
        invariant
            0 <= r <= rows@.len(),
            rv == rows_view(rows@),
            forall|r2: int, j: int|
                0 <= r2 < r && 0 <= j < rv[r2].len() ==> cell_needed(#[trigger] rv[r2][j]) <= u32::MAX,
        decreases rows@.len() - r,
    {
        let row = &rows[r];
        assert(rv[r as int] == strings_view(row@));
        let mut j: usize = 0;
        while j < row.len()
            invariant
                0 <= r < rows@.len(),
                row == &rows@[r as int],
                rv == rows_view(rows@),
                rv[r as int] == strings_view(row@),
                0 <= j <= row@.len(),
                forall|r2: int, j2: int|
                    0 <= r2 < r && 0 <= j2 < rv[r2].len() ==> cell_needed(#[trigger] rv[r2][j2]) <= u32::MAX,
                forall|j2: int| 0 <= j2 < j ==> cell_needed(#[trigger] rv[r as int][j2]) <= u32::MAX,
            decreases row@.len() - j,
        {
            assert(rv[r as int][j as int] == row@[j as int]@);
            let len = row[j].as_str().len();
            let needed: u64 = (len as u32) as u64 * 7 + 16;
            if needed > 0xFFFF_FFFF {
                return false;
            }
            j = j + 1;
        }
        r = r + 1;
    }
    // height
    if rows.len() > 171_798_691 {
        assert(total_height(rv) > u32::MAX);
        return false;
    }
    let total_h: u64 = rows.len() as u64 * 25 + 1;
    if total_h > 0xFFFF_FFFF {
        return false;
    }
    // number of columns and their widths
    let mut ncols: usize = 0;
    r = 0;
    while r < rows.len()
        invariant
            0 <= r <= rows@.len(),
            rv == rows_view(rows@),
            ncols == num_cols(rv, r as nat),
        decreases rows@.len() - r,
    {
        assert(rv[r as int].len() == rows@[r as int]@.len());
        if rows[r].len() > ncols {
            ncols = rows[r].len();
        }
        r = r + 1;
    }
    let mut total: u64 = 0;
    let mut j: usize = 0;
    while j < ncols
        invariant
            0 <= j <= ncols,
            ncols == num_cols(rv, rv.len()),
            rv == rows_view(rows@),
            total == col_offset(rv, j as nat),
            total <= 0xFFFF_FFFF,
        decreases ncols - j,
    {
        let w = column_width(rows, j);
        proof {
            lemma_col_width_max(rv, j as int, rv.len());
        }
        total = total + w as u64 + 1;
        if total > 0xFFFF_FFFF {
            proof {
                lemma_col_offset_mono(rv, (j + 1) as nat, ncols as nat);
            }
            return false;
        }
        j = j + 1;
    }
    total + 1 <= 0xFFFF_FFFF
}

/// The width of column `j`.
fn column_width(rows: &Vec<Vec<String>>, j: usize) -> (w: u32)
    ensures
        w == col_width(rows_view(rows@), j as int, rows@.len()),
{
    let ghost rv = rows_view(rows@);
    let mut w: u32 = 60;
    let mut r: usize = 0;
    while r < rows.len()
        invariant
            0 <= r <= rows@.len(),
            rv == rows_view(rows@),
            w == col_width(rv, j as int, r as nat),
        decreases rows@.len() - r,
    {
        let row = &rows[r];
        assert(rv[r as int] == strings_view(row@));
        if j < row.len() {
            assert(rv[r as int][j as int] == row@[j as int]@);
            let len = row[j].as_str().len();
            let needed: u64 = (len as u32) as u64 * 7 + 16;
            let capped: u32 = if needed < 300 { needed as u32 } else { 300 };
            if w < capped {
                w = capped;
            }
        }
        r = r + 1;
    }
    w
}

/// The pixels of the grid image of `rows`.
pub open spec fn grid_pixels(rows: Seq<Seq<Seq<char>>>) -> Map<(u32, u32), (u8, u8, u8)> {
    Map::new(
        |p: (u32, u32)| in_image(p, grid_width(rows), grid_height(rows)),
        |p: (u32, u32)| grid_color(rows, p.0, p.1),
    )
}

/// A grid image holds exactly the grid's pixels.
pub proof fn lemma_grid_image_pixels(rows: Seq<Seq<Seq<char>>>, img: GridImage)
    requires
        is_grid_image(rows, img),
    ensures
        rgb_pixels(img) == grid_pixels(rows),
        rgb_size(img) == (grid_width(rows), grid_height(rows)),
{
    assert forall|p: (u32, u32)| #[trigger] rgb_pixels(img).dom().contains(p) implies rgb_pixels(img)[p]
        == grid_pixels(rows)[p] by {
        assert(rgb_pixels(img)[(p.0, p.1)] == grid_color(rows, p.0, p.1));
    }
    assert(rgb_pixels(img).dom() =~= grid_pixels(rows).dom());
    assert(rgb_pixels(img) =~= grid_pixels(rows));
}

} // verus!
