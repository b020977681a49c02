//! Composites the displayed picture of a board from the solved picture: each
//! tile's square of the solved picture is copied to the cell that the tile
//! occupies, and the empty slot stays blank.
use vstd::prelude::*;
use crate::board::BoardModel;
use crate::board::PuzzleBoard;
use crate::board::lemma_index_split;
use crate::board::lemma_solved_wf;
use crate::board::solved_value;
use vstd::arithmetic::div_mod::lemma_fundamental_div_mod;
use vstd::arithmetic::div_mod::lemma_fundamental_div_mod_converse;

verus! {

/// An RGBA picture: rows of pixels from the top, each of four 8-bit
/// channels, red, green, blue and alpha.
#[verifier::external_body]
pub struct Picture {
    pub image: image::RgbaImage,
}

/// The pixels of an RGBA image, row by row from the top, each row from the
/// left, each pixel as its four channel values.
pub uninterp spec fn pixels_of(img: Picture) -> Seq<Seq<[u8; 4]>>;

/// The width of an RGBA image in pixels.
pub uninterp spec fn width_of(img: Picture) -> nat;

/// `img` has `pixels_of(img).len()` rows of `width_of(img)` pixels each.
pub open spec fn is_raster(img: Picture) -> bool {
    forall|y: int| 0 <= y < pixels_of(img).len() ==> #[trigger] pixels_of(img)[y].len() == width_of(img)
}

pub open spec fn blank_pixel() -> [u8; 4] {
    [0u8, 0u8, 0u8, 0u8]
}

/// Relies on image::ImageBuffer::from_pixel: an image of the given size
/// whose every pixel is `pixel`; it panics where the channel count of that
/// size overflows `usize`.
#[verifier::external_body]
fn filled_image(width: u32, height: u32, pixel: [u8; 4]) -> (r: Picture)
    requires
        (width as int) * (height as int) * 4 <= usize::MAX,
    ensures
        width_of(r) == width,
        pixels_of(r) == Seq::new(height as nat, |y: int| Seq::new(width as nat, |x: int| pixel)),
{
    Picture { image: image::ImageBuffer::from_pixel(width, height, image::Rgba(pixel)) }
}

/// Relies on image::ImageBuffer::dimensions: the width and height that the
/// buffer was made with; its constructors refuse a size whose channel count
/// overflows `usize`.
#[verifier::external_body]
fn image_dimensions(img: &Picture) -> (r: (u32, u32))
    ensures
        r.0 == width_of(*img),
        r.1 == pixels_of(*img).len(),
        forall|y: int| 0 <= y < r.1 ==> #[trigger] pixels_of(*img)[y].len() == r.0,
        (r.0 as int) * (r.1 as int) * 4 <= usize::MAX,
{
    img.image.dimensions()
}

/// Relies on image::imageops::crop_imm: the `width` by `height` block whose
/// top-left corner is `(x, y)`, copied out into an image of its own.
#[verifier::external_body]
fn crop_block(img: &Picture, x: u32, y: u32, width: u32, height: u32) -> (r: Picture)
    requires
        is_raster(*img),
        x + width <= width_of(*img),
        y + height <= pixels_of(*img).len(),
    ensures
        is_raster(r),
        width_of(r) == width,
        pixels_of(r) == Seq::new(height as nat, |dy: int| Seq::new(width as nat, |dx: int| pixels_of(*img)[y + dy][x + dx])),
{
    Picture { image: image::imageops::crop_imm(&img.image, x, y, width, height).to_image() }
}

/// Relies on image::GenericImage::copy_from: the pixels of `piece` are
/// written over `dst` with the top-left corner of `piece` at `(x, y)`; it
/// fails, changing nothing, only where `piece` would not fit.
#[verifier::external_body]
fn paste_block(dst: &mut Picture, piece: &Picture, x: u32, y: u32)
    requires
        is_raster(*old(dst)),
        is_raster(*piece),
        x + width_of(*piece) <= width_of(*old(dst)),
        y + pixels_of(*piece).len() <= pixels_of(*old(dst)).len(),
    ensures
        width_of(*final(dst)) == width_of(*old(dst)),
        pixels_of(*final(dst)) == Seq::new(pixels_of(*old(dst)).len(), |yy: int| Seq::new(width_of(*old(dst)), |xx: int|
            if x <= xx < x + width_of(*piece) && y <= yy < y + pixels_of(*piece).len() {
                pixels_of(*piece)[yy - y][xx - x]
            } else {
                pixels_of(*old(dst))[yy][xx]
            })),
{
    let _ = image::GenericImage::copy_from(&mut dst.image, &piece.image, x, y);
}


/// What image::DynamicImage::resize_to_fill with the nearest-neighbour
/// filter makes of a picture of the given pixels and width, for a square of
/// side `side`.
pub uninterp spec fn filled_square(pixels: Seq<Seq<[u8; 4]>>, width: nat, side: nat) -> Seq<
    Seq<[u8; 4]>,
>;

/// A `width` by `height` picture scaled, keeping its aspect ratio, so that
/// its shorter side becomes `side` has a longer side that fits in `u32`.
pub open spec fn fill_fits(width: int, height: int, side: int) -> bool {
    if width >= height {
        width * side / height <= u32::MAX
    } else {
        height * side / width <= u32::MAX
    }
}

/// Relies on image::DynamicImage::resize_to_fill with FilterType::Nearest:
/// the picture scaled, keeping its aspect ratio, to cover the square, then
/// cropped to it. The crop never yields more than the square, and yields
/// the whole square where the scaled longer side fits in `u32`. It divides
/// by the source's sides, which must not be zero.
#[verifier::external_body]
fn resize_to_fill(img: &Picture, side: u32) -> (r: Picture)
    requires
        width_of(*img) > 0,
        pixels_of(*img).len() > 0,
        side > 0,
    ensures
        pixels_of(r) == filled_square(pixels_of(*img), width_of(*img), side as nat),
        is_raster(r),
        width_of(r) <= side,
        pixels_of(r).len() <= side,
        fill_fits(width_of(*img) as int, pixels_of(*img).len() as int, side as int) ==> width_of(r)
            == side && pixels_of(r).len() == side,
{
    let dynamic = image::DynamicImage::ImageRgba8(img.image.clone());
    let filled = dynamic.resize_to_fill(side, side, image::imageops::FilterType::Nearest);
    Picture { image: filled.into_rgba8() }
}

/// A white `side` by `side` picture, shown where there is no picture to
/// cut the tiles from.
pub fn placeholder_picture(side: u32) -> (r: Picture)
    requires
        (side as int) * (side as int) * 4 <= usize::MAX,
    ensures
        is_raster(r),
        width_of(r) == side,
        pixels_of(r).len() == side,
        forall|y: int, x: int|
            0 <= y < side && 0 <= x < side ==> #[trigger] pixels_of(r)[y][x] == [
                255u8,
                255u8,
                255u8,
                255u8,
            ],
{
    filled_image(side, side, [255u8, 255u8, 255u8, 255u8])
}

/// The solved picture for a `side` by `side` display cut from `original`:
/// `None` where the original or the side is empty. It is the whole square
/// unless scaling the original up to it would overflow `u32`.
pub fn change_source(original: &Picture, side: u32) -> (r: Option<Picture>)
    ensures
        r is None <== (width_of(*original) == 0 || pixels_of(*original).len() == 0 || side == 0),
        r is Some ==> pixels_of(r->0) == filled_square(
            pixels_of(*original),
            width_of(*original),
            side as nat,
        ) && is_raster(r->0) && width_of(r->0) <= side && pixels_of(r->0).len() <= side,
        r is Some ==> (fill_fits(width_of(*original) as int, pixels_of(*original).len() as int, side as int)
            ==> width_of(r->0) == side && pixels_of(r->0).len() == side),
        r is Some <== (width_of(*original) > 0 && pixels_of(*original).len() > 0 && side > 0),
{
    let (w, h) = image_dimensions(original);
    if w == 0 || h == 0 || side == 0 {
        return None;
    }
    Some(resize_to_fill(original, side))
}

/// The index of the board cell whose square covers pixel `(x, y)` of a
/// `width` by `height` picture, or -1 for a pixel of the strip that is left
/// over where the size is not a multiple of the grid. Squares are
/// `width / cols` by `height / rows` pixels, and row 0 of the board is the
/// bottom row of squares.
pub open spec fn covering_cell(b: BoardModel, width: int, height: int, x: int, y: int) -> int {
    let cw = width / (b.cols as int);
    let ch = height / (b.rows as int);
    let up = height - 1 - y;
    if cw > 0 && ch > 0 && 0 <= x < b.cols * cw && 0 <= up < b.rows * ch {
        (up / ch) * b.cols + x / cw
    } else {
        -1
    }
}

/// Pixel `(x, y)` of the picture shown for board `b`, cut from the solved
/// picture `src`: the tile numbered `p` has its home square in column
/// `(p - 1) % cols` and row `(p - 1) / cols` of `src`, counted from the top.
pub open spec fn rendered_pixel(
    b: BoardModel,
    src: Seq<Seq<[u8; 4]>>,
    width: int,
    height: int,
    x: int,
    y: int,
) -> [u8; 4] {
    let cw = width / (b.cols as int);
    let ch = height / (b.rows as int);
    let i = covering_cell(b, width, height, x, y);
    if i < 0 || b.cells[i] == 0 {
        blank_pixel()
    } else {
        let col = x / cw;
        let row = (height - 1 - y) / ch;
        let p = b.cells[i] as int;
        let home_col = (p - 1) % (b.cols as int);
        let home_row = (p - 1) / (b.cols as int);
        src[home_row * ch + (y - (height - (row + 1) * ch))][home_col * cw + (x - col * cw)]
    }
}

/// The picture shown for board `b`, of the size of the solved picture `src`.
pub open spec fn rendered(b: BoardModel, src: Seq<Seq<[u8; 4]>>, width: nat, height: nat) -> Seq<
    Seq<[u8; 4]>,
> {
    Seq::new(
        height,
        |y: int| Seq::new(width, |x: int| rendered_pixel(b, src, width as int, height as int, x, y)),
    )
}

/// The pixels that cell `i` covers are those of its square.
proof fn lemma_square(b: BoardModel, width: int, height: int, i: int, x: int, y: int)
    requires
        b.wf(),
        width / (b.cols as int) > 0,
        height / (b.rows as int) > 0,
        0 <= i < b.rows * b.cols,
        0 <= x < width,
        0 <= y < height,
    ensures
        ({
            let cw = width / (b.cols as int);
            let ch = height / (b.rows as int);
            let col = i % (b.cols as int);
            let row = i / (b.cols as int);
            &&& (covering_cell(b, width, height, x, y) == i) == (col * cw <= x < col * cw + cw
                && height - (row + 1) * ch <= y < height - row * ch)
            &&& covering_cell(b, width, height, x, y) == i ==> x / cw == col && (height - 1 - y) / ch
                == row
        }),
{
    let cols = b.cols as int;
    let rows = b.rows as int;
    let cw = width / cols;
    let ch = height / rows;
    let col = i % cols;
    let row = i / cols;
    let up = height - 1 - y;
    lemma_index_split(rows, cols, i);
    lemma_fundamental_div_mod(x, cw);
    lemma_fundamental_div_mod(up, ch);
    assert((row + 1) * ch == row * ch + ch) by (nonlinear_arith);
    let in_square = col * cw <= x < col * cw + cw && height - (row + 1) * ch <= y < height - row * ch;
    if in_square {
        lemma_fundamental_div_mod_converse(x, cw, col, x - col * cw);
        lemma_fundamental_div_mod_converse(up, ch, row, up - row * ch);
        assert(col * cw + cw <= cols * cw) by (nonlinear_arith)
            requires
                0 <= col < cols,
                cw > 0,
        ;
        assert(row * ch + ch <= rows * ch) by (nonlinear_arith)
            requires
                0 <= row < rows,
                ch > 0,
        ;
        assert(covering_cell(b, width, height, x, y) == i);
    }
    if covering_cell(b, width, height, x, y) == i {
        assert(0 <= x < cols * cw && 0 <= up < rows * ch);
        let qx = x / cw;
        let qy = up / ch;
        assert(0 <= qx < cols) by (nonlinear_arith)
            requires
                x == cw * qx + x % cw,
                0 <= x % cw < cw,
                0 <= x < cols * cw,
        ;
        lemma_fundamental_div_mod_converse(i, cols, qy, qx);
        assert(qx == col && qy == row);
        assert(cw * qx == qx * cw) by (nonlinear_arith);
        assert(ch * qy == qy * ch) by (nonlinear_arith);
        assert(in_square);
    }
}


/// The picture shown for `board`: each tile's square of the `solved`
/// picture copied to the square of the cell that the tile occupies, the
/// empty slot and any leftover strip left blank.
pub fn render(board: &PuzzleBoard, solved: &Picture) -> (r: Picture)
    requires
        board@.wf(),
    ensures
        is_raster(r),
        width_of(r) == width_of(*solved),
        pixels_of(r) == rendered(board@, pixels_of(*solved), width_of(*solved), pixels_of(*solved).len()),
{
    let (w, h) = image_dimensions(solved);
    let ghost b = board@;
    let ghost src = pixels_of(*solved);
    let rows = board.rows();
    let cols = board.cols();
    let cw: usize = (w as usize) / cols;
    let ch: usize = (h as usize) / rows;
    proof {
        lemma_fundamental_div_mod(w as int, cols as int);
        lemma_fundamental_div_mod(h as int, rows as int);
        assert(cols * cw == cw * cols) by (nonlinear_arith);
        assert(rows * ch == ch * rows) by (nonlinear_arith);
    }
    let mut out = filled_image(w, h, [0u8, 0u8, 0u8, 0u8]);
    let n = rows * cols;
    let mut i: usize = 0;
    while i < n
        invariant
            b == board@,
            b.wf(),
            src == pixels_of(*solved),
            w == width_of(*solved),
            h == src.len(),
            forall|y: int| 0 <= y < h ==> #[trigger] src[y].len() == w,
            rows == b.rows,
            cols == b.cols,
            n == rows * cols,
            cw == (w as int) / (cols as int),
            ch == (h as int) / (rows as int),
            cols * cw <= w,
            rows * ch <= h,
            i <= n,
            width_of(out) == w,
            pixels_of(out).len() == h,
            is_raster(out),
            forall|y: int, x: int|
                0 <= y < h && 0 <= x < w ==> #[trigger] pixels_of(out)[y][x] == if covering_cell(
                    b,
                    w as int,
                    h as int,
                    x,
                    y,
                ) < i {
                    rendered_pixel(b, src, w as int, h as int, x, y)
                } else {
                    blank_pixel()
                },
        decreases n - i,
    {
        let col = i % cols;
        let row = i / cols;
        proof {
            lemma_index_split(rows as int, cols as int, i as int);
        }
        let piece = match board.get(col, row) {
            Ok(p) => p,
            Err(_) => 0,
        };
        let ghost before = pixels_of(out);
        if piece != 0 {
            proof {
                assert(b.cells[i as int] == piece);
                assert(1 <= piece <= rows * cols);
                let c = cols as int;
                let r = rows as int;
                let q = cw as int;
                let t = ch as int;
                let hc = (piece as int - 1) % c;
                let hr = (piece as int - 1) / c;
                lemma_index_split(r, c, piece as int - 1);
                assert((hc + 1) * q <= c * q && (hc + 1) * q == hc * q + q) by (nonlinear_arith)
                    requires
                        0 <= hc < c,
                        q >= 0,
                ;
                assert((hr + 1) * t <= r * t && (hr + 1) * t == hr * t + t) by (nonlinear_arith)
                    requires
                        0 <= hr < r,
                        t >= 0,
                ;
                assert((col + 1) * q <= c * q && (col + 1) * q == col * q + q) by (nonlinear_arith)
                    requires
                        0 <= col < c,
                        q >= 0,
                ;
                assert((row + 1) * t <= r * t && t <= (row + 1) * t && (row + 1) * t == row * t + t)
                    by (nonlinear_arith)
                    requires
                        0 <= row < r,
                        t >= 0,
                ;
            }
            let x0 = ((piece - 1) % cols) * cw;
            let y0 = ((piece - 1) / cols) * ch;
            let x = col * cw;
            let y = (h as usize) - (row + 1) * ch;
            assert(x0 + cw <= w && y0 + ch <= h && x + cw <= w && y + ch <= h);
            let tile = crop_block(solved, x0 as u32, y0 as u32, cw as u32, ch as u32);
            assert(width_of(tile) == cw && pixels_of(tile).len() == ch);
            paste_block(&mut out, &tile, x as u32, y as u32);
            proof {
                assert forall|yy: int, xx: int| 0 <= yy < h && 0 <= xx < w implies #[trigger] pixels_of(
                    out,
                )[yy][xx] == if covering_cell(b, w as int, h as int, xx, yy) < i + 1 {
                    rendered_pixel(b, src, w as int, h as int, xx, yy)
                } else {
                    blank_pixel()
                } by {
                    assert(before[yy][xx] == if covering_cell(b, w as int, h as int, xx, yy) < i {
                        rendered_pixel(b, src, w as int, h as int, xx, yy)
                    } else {
                        blank_pixel()
                    });
                    if cw > 0 && ch > 0 {
                        lemma_square(b, w as int, h as int, i as int, xx, yy);
                        if covering_cell(b, w as int, h as int, xx, yy) == i {
                            let dy = yy - y;
                            let dx = xx - x;
                            assert(0 <= dy < ch && 0 <= dx < cw);
                            assert(pixels_of(out)[yy][xx] == pixels_of(tile)[dy][dx]);
                            assert(pixels_of(tile)[dy][dx] == src[y0 + dy][x0 + dx]);
                            assert(xx / (cw as int) == col);
                            assert((h - 1 - yy) / (ch as int) == row);
                        } else {
                            assert(pixels_of(out)[yy][xx] == before[yy][xx]);
                        }
                    } else {
                        assert(pixels_of(out)[yy][xx] == before[yy][xx]);
                    }
                }
            }
        } else {
            proof {
                assert(b.cells[i as int] == 0);
                assert forall|yy: int, xx: int| 0 <= yy < h && 0 <= xx < w implies #[trigger] pixels_of(
                    out,
                )[yy][xx] == if covering_cell(b, w as int, h as int, xx, yy) < i + 1 {
                    rendered_pixel(b, src, w as int, h as int, xx, yy)
                } else {
                    blank_pixel()
                } by {
                    if cw > 0 && ch > 0 {
                        lemma_square(b, w as int, h as int, i as int, xx, yy);
                    }
                }
            }
        }
        i += 1;
    }
    proof {
        assert forall|y: int| 0 <= y < h implies #[trigger] pixels_of(out)[y] =~= rendered(
            b,
            src,
            w as nat,
            h as nat,
        )[y] by {
            assert forall|x: int| 0 <= x < w implies pixels_of(out)[y][x] == rendered(
                b,
                src,
                w as nat,
                h as nat,
            )[y][x] by {
                if cw > 0 && ch > 0 && covering_cell(b, w as int, h as int, x, y) >= 0 {
                    let c = cols as int;
                    let r = rows as int;
                    let q = cw as int;
                    let t = ch as int;
                    let up = h - 1 - y;
                    lemma_index_split(r, t, up);
                    lemma_index_split(c, q, x);
                    let qy = up / t;
                    let qx = x / q;
                    assert(qy * c + qx < r * c) by (nonlinear_arith)
                        requires
                            0 <= qy < r,
                            0 <= qx < c,
                    ;
                }
            }
        }
        assert(pixels_of(out) =~= rendered(b, src, w as nat, h as nat));
    }
    out
}


/// On the solved board, where the picture's sides are multiples of the
/// grid's, the picture shown is the solved picture itself, but for the
/// square of the empty bottom-right cell, which is blank.
pub proof fn lemma_render_solved(rows: nat, cols: nat, src: Seq<Seq<[u8; 4]>>, width: nat)
    requires
        rows >= 2,
        cols >= 2,
        rows * cols <= usize::MAX,
        width % cols == 0,
        src.len() % rows == 0,
        forall|y: int| 0 <= y < src.len() ==> #[trigger] src[y].len() == width,
    ensures
        forall|x: int, y: int|
            0 <= y < src.len() && 0 <= x < width ==> #[trigger] rendered(
                BoardModel::solved(rows, cols),
                src,
                width,
                src.len(),
            )[y][x] == if x >= width - width / cols && y >= src.len() - src.len() / rows {
                blank_pixel()
            } else {
                src[y][x]
            },
{
    let b = BoardModel::solved(rows, cols);
    lemma_solved_wf(rows, cols);
    let h = src.len() as int;
    let w = width as int;
    let c = cols as int;
    let r = rows as int;
    let cw = w / c;
    let ch = h / r;
    assert forall|x: int, y: int| 0 <= y < src.len() && 0 <= x < width implies #[trigger] rendered(
        b,
        src,
        width,
        src.len(),
    )[y][x] == if x >= width - width / cols && y >= src.len() - src.len() / rows {
        blank_pixel()
    } else {
        src[y][x]
    } by {
        lemma_fundamental_div_mod(w, c);
        lemma_fundamental_div_mod(h, r);
        assert(w == c * cw && h == r * ch);
        assert(cw > 0 && ch > 0 && c * cw == cw * c && r * ch == ch * r) by (nonlinear_arith)
            requires
                w == c * cw,
                h == r * ch,
                0 <= x < w,
                0 <= y < h,
                c > 0,
                r > 0,
        ;
        let up = h - 1 - y;
        lemma_index_split(c, cw, x);
        lemma_index_split(r, ch, up);
        let col = x / cw;
        let row = up / ch;
        let i = row * c + col;
        crate::board::lemma_index_join(r, c, col, row);
        assert(covering_cell(b, w, h, x, y) == i);
        assert((x >= w - cw) == (col == c - 1)) by (nonlinear_arith)
            requires
                x == col * cw + x % cw,
                0 <= x % cw < cw,
                0 <= col < c,
                w == c * cw,
        ;
        assert((y >= h - ch) == (row == 0)) by (nonlinear_arith)
            requires
                up == row * ch + up % ch,
                0 <= up % ch < ch,
                0 <= row < r,
                h == r * ch,
                up == h - 1 - y,
        ;
        assert((i == c - 1) == (col == c - 1 && row == 0)) by (nonlinear_arith)
            requires
                i == row * c + col,
                0 <= col < c,
                0 <= row < r,
        ;
        if !(col == c - 1 && row == 0) {
            let p = b.cells[i] as int;
            assert(p == solved_value(r, c, i));
            assert(p == (r - row - 1) * c + col + 1);
            assert(1 <= p <= r * c);
            lemma_fundamental_div_mod_converse(p - 1, c, r - row - 1, col);
            assert((r - row - 1) * ch + (y - (h - (row + 1) * ch)) == y) by (nonlinear_arith)
                requires
                    h == r * ch,
            ;
        }
    }
}


/// After a legal move the picture shown is the one before, but that the
/// square the tile left is blank and the square of the former empty slot
/// shows what the tile's old square showed.
pub proof fn lemma_render_move(
    b: BoardModel,
    col: int,
    row: int,
    src: Seq<Seq<[u8; 4]>>,
    width: nat,
    x: int,
    y: int,
)
    requires
        b.wf(),
        b.is_legal(col, row),
        0 <= x < width,
        0 <= y < src.len(),
    ensures
        ({
            let h = src.len() as int;
            let cw = width / b.cols;
            let ch = h / (b.rows as int);
            let after = rendered(b.moved(col, row), src, width, src.len());
            let before = rendered(b, src, width, src.len());
            let i = covering_cell(b, width as int, h, x, y);
            &&& i == b.index_of(col, row) ==> after[y][x] == blank_pixel()
            &&& i == b.empty_index() ==> after[y][x] == before[y - (row - b.empty_row()) * ch][x + (
            col - b.empty_col()) * cw]
            &&& i != b.index_of(col, row) && i != b.empty_index() ==> after[y][x] == before[y][x]
        }),
{
    let m = b.moved(col, row);
    let h = src.len() as int;
    let w = width as int;
    let c = b.cols as int;
    let r = b.rows as int;
    let cw = w / c;
    let ch = h / r;
    let e = b.empty_index();
    let t = b.index_of(col, row);
    let ec = b.empty_col();
    let er = b.empty_row();
    crate::board::lemma_moved_wf(b, col, row);
    crate::board::lemma_empty_position(b);
    crate::board::lemma_index_join(r, c, col, row);
    let i = covering_cell(b, w, h, x, y);
    assert(covering_cell(m, w, h, x, y) == i);
    if i == e && cw > 0 && ch > 0 {
        let x2 = x + (col - ec) * cw;
        let y2 = y - (row - er) * ch;
        lemma_square(b, w, h, e, x, y);
        assert(e % c == ec && e / c == er);
        assert(x2 - col * cw == x - ec * cw && (col + 1) * cw == col * cw + cw && (row + 1) * ch
            == row * ch + ch && (er + 1) * ch == er * ch + ch && y2 - (h - (row + 1) * ch) == y
            - (h - (er + 1) * ch)) by (nonlinear_arith)
            requires
                x2 == x + (col - ec) * cw,
                y2 == y - (row - er) * ch,
        ;
        assert(0 <= col * cw && col * cw + cw <= c * cw && c * cw <= w) by (nonlinear_arith)
            requires
                0 <= col < c,
                cw > 0,
                cw == w / c,
                c > 0,
                w >= 0,
        ;
        assert(0 <= row * ch && row * ch + ch <= r * ch && r * ch <= h) by (nonlinear_arith)
            requires
                0 <= row < r,
                ch > 0,
                ch == h / r,
                r > 0,
                h >= 0,
        ;
        lemma_square(b, w, h, t, x2, y2);
        assert(covering_cell(b, w, h, x2, y2) == t);
        assert(m.cells[e] == b.cells[t]);
        assert(rendered(m, src, width, src.len())[y][x] == rendered_pixel(m, src, w, h, x, y));
        assert(rendered(b, src, width, src.len())[y2][x2] == rendered_pixel(b, src, w, h, x2, y2));
    }
    if i >= 0 {
        let up = h - 1 - y;
        lemma_index_split(c, cw, x);
        lemma_index_split(r, ch, up);
        assert((up / ch) * c + x / cw < r * c) by (nonlinear_arith)
            requires
                0 <= up / ch < r,
                0 <= x / cw < c,
        ;
        if i != t && i != e {
            assert(m.cells[i] == b.cells[i]);
        }
        if i == t {
            assert(m.cells[t] == 0);
        }
    }
    assert(rendered(m, src, width, src.len())[y][x] == rendered_pixel(m, src, w, h, x, y));
    assert(rendered(b, src, width, src.len())[y][x] == rendered_pixel(b, src, w, h, x, y));
}

} // verus!
