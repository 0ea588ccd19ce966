//! An RGBA pixel buffer and the cell-by-cell painting of shaped text.
//!
//! A shaped glyph arrives as a cell: a filled rectangle with a colour.
//! Painting clips each cell to the buffer and lets a later cell paint
//! over an earlier one, exactly as the contracts here state.

use vstd::assert_seqs_equal;
use vstd::prelude::*;

use crate::color::Rgba;

verus! {

/// One filled rectangle to draw: a glyph cell as the text shaper reports
/// it.  The position may be negative; the size is in pixels.
#[derive(Clone, Copy, PartialEq, Eq, Structural, Debug)]
pub struct Cell {
    pub x: i32,
    pub y: i32,
    pub w: u32,
    pub h: u32,
    pub color: Rgba,
}

/// Whether the pixel at column `px`, row `py` lies inside the cell.
pub open spec fn covers(c: Cell, px: int, py: int) -> bool {
    c.x <= px < c.x + c.w && c.y <= py < c.y + c.h
}

/// The colour a pixel has once the cells have been painted in order over
/// a background: the last cell that covers the pixel wins, and a pixel
/// no cell covers keeps the background.
pub open spec fn painted(bg: Rgba, cells: Seq<Cell>, px: int, py: int) -> Rgba
    decreases cells.len(),
{
    if cells.len() == 0 {
        bg
    } else if covers(cells.last(), px, py) {
        cells.last().color
    } else {
        painted(bg, cells.drop_last(), px, py)
    }
}

/// Painting in two passes is painting once: laying the cells of `a` and
/// then those of `b` over a background leaves each pixel exactly as
/// laying the cells of `a` followed by `b` in one pass does.
pub proof fn lemma_painted_append(bg: Rgba, a: Seq<Cell>, b: Seq<Cell>, px: int, py: int)
    ensures
        painted(bg, a + b, px, py) == painted(painted(bg, a, px, py), b, px, py),
    decreases b.len(),
{
    if b.len() == 0 {
        assert(a + b =~= a);
    } else {
        assert((a + b).last() == b.last());
        assert((a + b).drop_last() =~= a + b.drop_last());
        lemma_painted_append(bg, a, b.drop_last(), px, py);
    }
}

/// An RGBA image: `width * height` pixels, row-major, top row first.
pub struct PixelBuffer {
    width: u32,
    height: u32,
    data: Vec<Rgba>,
}

/// A row-major index stays inside the buffer.
proof fn lemma_row_major_in_range(w: int, h: int, px: int, py: int)
    by (nonlinear_arith)
    requires
        0 <= px < w,
        0 <= py < h,
    ensures
        0 <= py * w + px < w * h,
{
}

/// Row-major indexing is injective on in-bounds coordinates.
proof fn lemma_row_major_injective(w: int, qx: int, qy: int, px: int, py: int)
    by (nonlinear_arith)
    requires
        0 <= qx < w,
        0 <= px < w,
        0 <= qy,
        0 <= py,
        qy * w + qx == py * w + px,
    ensures
        qx == px,
        qy == py,
{
}

impl PixelBuffer {
    /// The buffer holds exactly one pixel per coordinate pair.
    pub closed spec fn wf(self) -> bool {
        self.data@.len() == self.width * self.height
    }

    /// The width in pixels.
    pub closed spec fn spec_width(self) -> u32 {
        self.width
    }

    /// The height in pixels.
    pub closed spec fn spec_height(self) -> u32 {
        self.height
    }

    /// All pixels, row-major, top row first.
    pub closed spec fn pixels(self) -> Seq<Rgba> {
        self.data@
    }

    /// The pixel at column `x`, row `y`.
    pub open spec fn pixel(self, x: int, y: int) -> Rgba {
        self.pixels()[y * self.spec_width() + x]
    }

    /// A well-formed buffer holds one pixel per coordinate pair.
    pub proof fn lemma_wf_len(self)
        requires
            self.wf(),
        ensures
            self.pixels().len() == self.spec_width() * self.spec_height(),
    {
    }

    pub fn width(&self) -> (w: u32)
        ensures
            w == self.spec_width(),
    {
        self.width
    }

    pub fn height(&self) -> (h: u32)
        ensures
            h == self.spec_height(),
    {
        self.height
    }

    /// A buffer of the given size with every pixel set to `fill`.
    pub fn new(width: u32, height: u32, fill: Rgba) -> (buf: PixelBuffer)
        requires
            width * height <= usize::MAX,
        ensures
            buf.wf(),
            buf.spec_width() == width,
            buf.spec_height() == height,
            buf.pixels() == Seq::new((width * height) as nat, |i: int| fill),
    {
        proof {
            assert((width as usize) * (height as usize) == width * height) by (nonlinear_arith);
        }
        let n: usize = (width as usize) * (height as usize);
        let mut data: Vec<Rgba> = Vec::new();
        let mut i: usize = 0;
        while i < n
            invariant
                i <= n,
                data@.len() == i,
                forall|k: int| 0 <= k < i ==> data@[k] == fill,
            decreases n - i,
        {
            data.push(fill);
            i = i + 1;
        }
        let buf = PixelBuffer { width, height, data };
        proof {
            assert(buf.pixels() =~= Seq::new((width * height) as nat, |i: int| fill));
        }
        buf
    }

    /// Read the pixel at column `x`, row `y`.
    pub fn get(&self, x: u32, y: u32) -> (p: Rgba)
        requires
            self.wf(),
            x < self.spec_width(),
            y < self.spec_height(),
        ensures
            p == self.pixel(x as int, y as int),
    {
        let n: usize = self.data.len();
        proof {
            lemma_row_major_in_range(
                self.width as int,
                self.height as int,
                x as int,
                y as int,
            );
            assert(y * self.width + x < n);
        }
        let idx: usize = (y as usize) * (self.width as usize) + (x as usize);
        self.data[idx]
    }

    /// Paint the cell's rectangle, clipped to the buffer: every pixel the
    /// cell covers takes the cell's colour and every other pixel keeps
    /// its old colour.
    pub fn fill_rect(&mut self, cell: Cell)
        requires
            old(self).wf(),
        ensures
            final(self).wf(),
            final(self).spec_width() == old(self).spec_width(),
            final(self).spec_height() == old(self).spec_height(),
            forall|qx: int, qy: int|
                0 <= qx < old(self).spec_width() && 0 <= qy < old(self).spec_height()
                    ==> final(self).pixel(qx, qy) == (if covers(cell, qx, qy) {
                        cell.color
                    } else {
                        old(self).pixel(qx, qy)
                    }),
    {
        let ghost orig = *self;
        let w: u32 = self.width;
        let h: u32 = self.height;
        let x_lo64: i64 = if cell.x < 0 {
            0
        } else {
            cell.x as i64
        };
        let x_cell_end: i64 = cell.x as i64 + cell.w as i64;
        let x_hi64: i64 = if x_cell_end < w as i64 {
            x_cell_end
        } else {
            w as i64
        };
        let y_lo64: i64 = if cell.y < 0 {
            0
        } else {
            cell.y as i64
        };
        let y_cell_end: i64 = cell.y as i64 + cell.h as i64;
        let y_hi64: i64 = if y_cell_end < h as i64 {
            y_cell_end
        } else {
            h as i64
        };
        if x_hi64 <= x_lo64 || y_hi64 <= y_lo64 {
            return ;
        }
        let x_lo: u32 = x_lo64 as u32;
        let x_hi: u32 = x_hi64 as u32;
        let y_lo: u32 = y_lo64 as u32;
        let y_hi: u32 = y_hi64 as u32;
        assert(forall|qx: int, qy: int|
            0 <= qx < w && 0 <= qy < h
                ==> (covers(cell, qx, qy) <==> (x_lo <= qx < x_hi && y_lo <= qy < y_hi)));
        let mut py: u32 = y_lo;
        while py < y_hi
            invariant
                self.width == orig.width,
                self.height == orig.height,
                self.wf(),
                orig.wf(),
                w == orig.width,
                h == orig.height,
                x_lo < x_hi <= w,
                y_lo <= py <= y_hi <= h,
                forall|qx: int, qy: int|
                    0 <= qx < w && 0 <= qy < h
                        ==> self.pixel(qx, qy) == (if x_lo <= qx < x_hi && y_lo <= qy < py {
                            cell.color
                        } else {
                            orig.pixel(qx, qy)
                        }),
            decreases y_hi - py,
        {
            let mut px: u32 = x_lo;
            while px < x_hi
                invariant
                    self.width == orig.width,
                    self.height == orig.height,
                    self.wf(),
                    orig.wf(),
                    w == orig.width,
                    h == orig.height,
                    x_lo <= px <= x_hi <= w,
                    y_lo <= py < y_hi <= h,
                    forall|qx: int, qy: int|
                        0 <= qx < w && 0 <= qy < h
                            ==> self.pixel(qx, qy) == (if (x_lo <= qx < x_hi && y_lo <= qy < py)
                                || (qy == py && x_lo <= qx < px) {
                                cell.color
                            } else {
                                orig.pixel(qx, qy)
                            }),
                decreases x_hi - px,
            {
                proof {
                    lemma_row_major_in_range(w as int, h as int, px as int, py as int);
                    assert((py as usize) * (w as usize) + (px as usize) == py * w + px)
                        by (nonlinear_arith)
                        requires
                            py < h,
                            px < w,
                            w == orig.width,
                            h == orig.height,
                            orig.wf(),
                    ;
                }
                let ghost before = *self;
                let n: usize = self.data.len();
                proof {
                    assert(py * w + px < n);
                }
                let idx: usize = (py as usize) * (self.width as usize) + (px as usize);
                self.data[idx] = cell.color;
                proof {
                    assert(idx == py * w + px);
                    assert(self.pixel(px as int, py as int) == cell.color);
                    assert forall|qx: int, qy: int|
                        0 <= qx < w && 0 <= qy < h implies self.pixel(qx, qy) == (if (x_lo <= qx
                        < x_hi && y_lo <= qy < py) || (qy == py && x_lo <= qx < px + 1) {
                        cell.color
                    } else {
                        orig.pixel(qx, qy)
                    }) by {
                        lemma_row_major_in_range(w as int, h as int, qx, qy);
                        if qx == px as int && qy == py as int {
                            assert(self.pixel(qx, qy) == cell.color);
                        } else {
                            if qy * w + qx == py * w + px {
                                lemma_row_major_injective(w as int, qx, qy, px as int, py as int);
                            }
                            assert(self.pixel(qx, qy) == before.pixel(qx, qy));
                        }
                    }
                }
                px = px + 1;
            }
            py = py + 1;
        }
    }

    /// The pixels as raw bytes, row-major: red, green, blue and alpha of
    /// each pixel in turn.
    pub fn to_rgba_bytes(&self) -> (out: Vec<u8>)
        ensures
            out@ == bytes_of(self.pixels()),
    {
        let mut out: Vec<u8> = Vec::new();
        let n: usize = self.data.len();
        let mut i: usize = 0;
        while i < n
            invariant
                n == self.data@.len(),
                i <= n,
                out@ == bytes_of(self.data@.take(i as int)),
            decreases n - i,
        {
            let p = self.data[i];
            out.push(p.r);
            out.push(p.g);
            out.push(p.b);
            out.push(p.a);
            proof {
                assert(self.data@.take(i + 1).drop_last() =~= self.data@.take(i as int));
                assert(self.data@.take(i + 1).last() == self.data@[i as int]);
                assert(out@ =~= bytes_of(self.data@.take(i + 1)));
            }
            i = i + 1;
        }
        proof {
            assert(self.data@.take(n as int) =~= self.data@);
        }
        out
    }
}

/// The raw bytes of a pixel sequence: red, green, blue and alpha of
/// each pixel in turn, four bytes per pixel.
pub open spec fn bytes_of(pixels: Seq<Rgba>) -> Seq<u8>
    decreases pixels.len(),
{
    if pixels.len() == 0 {
        Seq::<u8>::empty()
    } else {
        bytes_of(pixels.drop_last()) + seq![
            pixels.last().r,
            pixels.last().g,
            pixels.last().b,
            pixels.last().a,
        ]
    }
}

/// Four bytes stand for each pixel.
pub proof fn lemma_bytes_of_len(pixels: Seq<Rgba>)
    ensures
        bytes_of(pixels).len() == 4 * pixels.len(),
    decreases pixels.len(),
{
    if pixels.len() > 0 {
        lemma_bytes_of_len(pixels.drop_last());
    }
}

/// The pixels of a `width` by `height` image whose cells have been
/// painted in order over the background: row-major, top row first.
pub open spec fn painted_grid(width: u32, height: u32, bg: Rgba, cells: Seq<Cell>) -> Seq<Rgba> {
    Seq::new(
        (width * height) as nat,
        |i: int| painted(bg, cells, i % (width as int), i / (width as int)),
    )
}

/// Paint the cells in order over a `width` by `height` background: the
/// result holds, at each in-bounds coordinate, the colour of the last
/// cell that covers it, or the background where none does.
pub fn render_cells(width: u32, height: u32, bg: Rgba, cells: &Vec<Cell>) -> (buf: PixelBuffer)
    requires
        width * height <= usize::MAX,
    ensures
        buf.wf(),
        buf.spec_width() == width,
        buf.spec_height() == height,
        forall|qx: int, qy: int|
            0 <= qx < width && 0 <= qy < height ==> buf.pixel(qx, qy) == painted(
                bg,
                cells@,
                qx,
                qy,
            ),
        buf.pixels() == painted_grid(width, height, bg, cells@),
{
    let mut buf = PixelBuffer::new(width, height, bg);
    proof {
        assert forall|qx: int, qy: int| 0 <= qx < width && 0 <= qy < height implies buf.pixel(
            qx,
            qy,
        ) == painted(bg, cells@.take(0), qx, qy) by {
            lemma_row_major_in_range(width as int, height as int, qx, qy);
        }
    }
    let n: usize = cells.len();
    let mut i: usize = 0;
    while i < n
        invariant
            n == cells@.len(),
            i <= n,
            buf.wf(),
            buf.spec_width() == width,
            buf.spec_height() == height,
            forall|qx: int, qy: int|
                0 <= qx < width && 0 <= qy < height ==> buf.pixel(qx, qy) == painted(
                    bg,
                    cells@.take(i as int),
                    qx,
                    qy,
                ),
        decreases n - i,
    {
        let c = cells[i];
        buf.fill_rect(c);
        proof {
            assert(cells@.take(i + 1).drop_last() =~= cells@.take(i as int));
            assert(cells@.take(i + 1).last() == cells@[i as int]);
        }
        i = i + 1;
    }
    proof {
        assert(cells@.take(n as int) =~= cells@);
        lemma_pixels_are_painted_grid(buf, bg, cells@);
    }
    buf
}

/// A buffer whose every pixel is painted as the cells dictate holds,
/// as a sequence, exactly the painted grid of its dimensions.
proof fn lemma_pixels_are_painted_grid(buf: PixelBuffer, bg: Rgba, cells: Seq<Cell>)
    requires
        buf.wf(),
        forall|qx: int, qy: int|
            0 <= qx < buf.spec_width() && 0 <= qy < buf.spec_height() ==> buf.pixel(qx, qy)
                == painted(bg, cells, qx, qy),
    ensures
        buf.pixels() == painted_grid(buf.spec_width(), buf.spec_height(), bg, cells),
{
    let w = buf.spec_width() as int;
    let h = buf.spec_height() as int;
    let grid = painted_grid(buf.spec_width(), buf.spec_height(), bg, cells);
    assert(buf.pixels().len() == grid.len());
    assert_seqs_equal!(buf.pixels() == grid, i => {
        let qx = i % w;
        let qy = i / w;
        assert(0 < w) by (nonlinear_arith)
            requires
                0 <= i,
                i < w * h,
                0 <= w,
                0 <= h,
        ;
        vstd::arithmetic::div_mod::lemma_mod_bound(i, w);
        vstd::arithmetic::div_mod::lemma_div_pos_is_pos(i, w);
        vstd::arithmetic::div_mod::lemma_multiply_divide_lt(i, w, h);
        vstd::arithmetic::div_mod::lemma_fundamental_div_mod(i, w);
        assert(qy * w + qx == i) by (nonlinear_arith)
            requires
                i == w * (i / w) + i % w,
                qx == i % w,
                qy == i / w,
        ;
        assert(buf.pixel(qx, qy) == painted(bg, cells, qx, qy));
        assert(grid[i] == painted(bg, cells, qx, qy));
        assert(buf.pixels()[i] == buf.pixel(qx, qy));
    });
}

} // verus!
