use crate::color::{channel, Color};
use vstd::arithmetic::div_mod::{
    lemma_fundamental_div_mod, lemma_fundamental_div_mod_converse, lemma_mod_pos_bound,
};
use vstd::prelude::*;

verus! {

/// Bytes per pixel in the frame buffer: red, green, blue, alpha.
pub const PIXEL_LEN: usize = 4;

/// The value of a byte that no pass has painted yet: opaque white.
pub const BACKGROUND: u8 = 255;

/// A pixel position: `x` is the column, `y` the row.
#[derive(Clone, Copy, Debug, PartialEq, Eq, Structural)]
pub struct PixelPoint {
    pub x: u32,
    pub y: u32,
}

/// Whether pixel number `p` of a frame `w` pixels wide lies in columns
/// `x0..=x1` and rows `y0..=y1`.
pub open spec fn in_rect(w: nat, p: int, x0: int, y0: int, x1: int, y1: int) -> bool {
    &&& x0 <= p % (w as int) <= x1
    &&& y0 <= p / (w as int) <= y1
}

/// `frame` with the color bytes of each pixel in the rectangle set to `c`; the
/// alpha bytes, and every pixel outside the rectangle, are kept.
pub open spec fn paint_rect(
    frame: Seq<u8>,
    w: nat,
    x0: int,
    y0: int,
    x1: int,
    y1: int,
    c: Color,
) -> Seq<u8> {
    Seq::new(
        frame.len(),
        |i: int|
            if i % 4 < 3 && in_rect(w, i / 4, x0, y0, x1, y1) {
                channel(c, i % 4)
            } else {
                frame[i]
            },
    )
}

/// An RGBA frame buffer of `width × height` pixels, stored row by row.
pub struct Canvas {
    frame: Vec<u8>,
    width: u32,
    height: u32,
}

/// One RGBA pixel of a frame.
pub struct Pixel<'a> {
    pub bytes: &'a [u8; PIXEL_LEN],
}

/// A read position in the pixels of a frame.
pub struct PixelsIter<'a> {
    data: &'a [u8],
    cur_pos: usize,
    len: usize,
}

impl Canvas {
    /// The bytes of the frame.
    pub closed spec fn bytes(&self) -> Seq<u8> {
        self.frame@
    }

    pub closed spec fn width(&self) -> nat {
        self.width as nat
    }

    pub closed spec fn height(&self) -> nat {
        self.height as nat
    }

    pub open spec fn wf(&self) -> bool {
        self.bytes().len() == self.width() * self.height() * 4
    }

    /// A `width × height` frame filled with the background.
    pub fn new(width: u32, height: u32) -> (c: Canvas)
        requires
            width * height * 4 <= usize::MAX,
        ensures
            c.wf(),
            c.width() == width,
            c.height() == height,
            c.bytes() == Seq::new((width * height * 4) as nat, |i: int| BACKGROUND),
    {
        let len = (width as usize) * (height as usize) * PIXEL_LEN;
        let mut frame: Vec<u8> = Vec::new();
        while frame.len() < len
            invariant
                frame.len() <= len,
                forall|i: int| 0 <= i < frame.len() ==> frame@[i] == BACKGROUND,
            decreases len - frame.len(),
        {
            frame.push(BACKGROUND);
        }
        let c = Canvas { frame, width, height };
        assert(c.bytes() =~= Seq::new((width * height * 4) as nat, |i: int| BACKGROUND));
        c
    }

    /// Gives the frame new dimensions. Bytes that still fit keep their value;
    /// the bytes that the frame grows by are background.
    pub fn resize(&mut self, width: u32, height: u32)
        requires
            old(self).wf(),
            width * height * 4 <= usize::MAX,
        ensures
            final(self).wf(),
            final(self).width() == width,
            final(self).height() == height,
            final(self).bytes() == Seq::new(
                (width * height * 4) as nat,
                |i: int|
                    if i < old(self).bytes().len() {
                        old(self).bytes()[i]
                    } else {
                        BACKGROUND
                    },
            ),
    {
        let len = (width as usize) * (height as usize) * PIXEL_LEN;
        let mut frame: Vec<u8> = Vec::new();
        while frame.len() < len
            invariant
                frame.len() <= len,
                self.frame@ == old(self).bytes(),
                forall|i: int|
                    0 <= i < frame.len() ==> frame@[i] == if i < self.frame@.len() {
                        self.frame@[i]
                    } else {
                        BACKGROUND
                    },
            decreases len - frame.len(),
        {
            let i = frame.len();
            if i < self.frame.len() {
                frame.push(self.frame[i]);
            } else {
                frame.push(BACKGROUND);
            }
        }
        self.frame = frame;
        self.width = width;
        self.height = height;
        assert(self.bytes() =~= Seq::new(
            (width * height * 4) as nat,
            |i: int|
                if i < old(self).bytes().len() {
                    old(self).bytes()[i]
                } else {
                    BACKGROUND
                },
        ));
    }

    /// The bytes of the frame, row by row, four per pixel.
    pub fn frame(&self) -> (r: &[u8])
        ensures
            r@ == self.bytes(),
    {
        self.frame.as_slice()
    }

    /// Writes the color bytes of the pixel in `row` and `column`; its alpha
    /// byte is kept.
    pub fn set_pixel(&mut self, color: Color, row: u32, column: u32)
        requires
            old(self).wf(),
            row < old(self).height(),
            column < old(self).width(),
        ensures
            final(self).wf(),
            final(self).width() == old(self).width(),
            final(self).height() == old(self).height(),
            final(self).bytes() == paint_rect(
                old(self).bytes(),
                old(self).width(),
                column as int,
                row as int,
                column as int,
                row as int,
                color,
            ),
    {
        let frame_len = self.frame.len();
        let ghost w = self.width as int;
        let ghost p = row * w + column;
        proof {
            lemma_fundamental_div_mod_converse(p, w, row as int, column as int);
            assert(p < w * self.height) by (nonlinear_arith)
                requires
                    p == row * w + column,
                    column < w,
                    row < self.height,
            ;
            assert(row * w <= p);
            assert(p * 4 + 3 < self.frame@.len());
        }
        let pixel_index: usize = ((row as usize) * (self.width as usize) + (column as usize))
            * PIXEL_LEN;
        self.frame.set(pixel_index, color.red());
        self.frame.set(pixel_index + 1, color.green());
        self.frame.set(pixel_index + 2, color.blue());
        assert forall|i: int| 0 <= i < self.frame@.len() implies #[trigger] self.frame@[i] == (
        if i % 4 < 3 && in_rect(w as nat, i / 4, column as int, row as int, column as int, row as int) {
            channel(color, i % 4)
        } else {
            old(self).frame@[i]
        }) by {
            let q = i / 4;
            lemma_fundamental_div_mod(q, w);
            if q % w == column && q / w == row {
                assert(q == p) by (nonlinear_arith)
                    requires
                        q == w * (q / w) + q % w,
                        q % w == column,
                        q / w == row,
                        p == row * w + column,
                ;
            }
        }
        assert(self.bytes() =~= paint_rect(
            old(self).bytes(),
            old(self).width(),
            column as int,
            row as int,
            column as int,
            row as int,
            color,
        ));
    }

    /// Fills with one color the pixels of columns `up_left.x..=down_right.x`
    /// and rows `up_left.y..=down_right.y` that lie in the frame; alpha bytes
    /// are kept.
    pub fn draw_rectangle(&mut self, up_left: PixelPoint, down_right: PixelPoint, color: Color)
        requires
            old(self).wf(),
        ensures
            final(self).wf(),
            final(self).width() == old(self).width(),
            final(self).height() == old(self).height(),
            final(self).bytes() == paint_rect(
                old(self).bytes(),
                old(self).width(),
                up_left.x as int,
                up_left.y as int,
                down_right.x as int,
                down_right.y as int,
                color,
            ),
    {
        let ghost w = self.width as nat;
        let ghost h = self.height as int;
        let ghost x0 = up_left.x as int;
        let ghost y0 = up_left.y as int;
        let ghost start = self.frame@;
        if self.width == 0 || self.height == 0 {
            assert(self.bytes().len() == 0) by (nonlinear_arith)
                requires
                    self.bytes().len() == w * h * 4,
                    w == 0 || h == 0,
            ;
            assert(self.bytes() =~= paint_rect(
                start,
                w,
                x0,
                y0,
                down_right.x as int,
                down_right.y as int,
                color,
            ));
            return ;
        }
        let max_x = if down_right.x < self.width - 1 {
            down_right.x
        } else {
            self.width - 1
        };
        let max_y = if down_right.y < self.height - 1 {
            down_right.y
        } else {
            self.height - 1
        };
        let mut y: u64 = up_left.y as u64;
        while y <= max_y as u64
            invariant
                self.wf(),
                self.width() == w,
                self.height() == h,
                x0 == up_left.x,
                y0 == up_left.y,
                y0 <= y,
                y <= max_y + 1 || y == y0,
                max_x < w,
                max_y < h,
                self.bytes() == paint_rect(start, w, x0, y0, max_x as int, y - 1, color),
            decreases max_y + 1 - y,
        {
            let mut x: u64 = up_left.x as u64;
            while x <= max_x as u64
                invariant
                    self.wf(),
                    self.width() == w,
                    self.height() == h,
                    x0 == up_left.x,
                    y0 == up_left.y,
                    y0 <= y <= max_y,
                    x0 <= x,
                    x <= max_x + 1 || x == x0,
                    max_x < w,
                    max_y < h,
                    self.bytes().len() == start.len(),
                    forall|i: int|
                        0 <= i < start.len() ==> #[trigger] self.bytes()[i] == if i % 4 < 3 && (
                        in_rect(w, i / 4, x0, y0, max_x as int, y - 1) || in_rect(
                            w,
                            i / 4,
                            x0,
                            y as int,
                            x - 1,
                            y as int,
                        )) {
                            channel(color, i % 4)
                        } else {
                            start[i]
                        },
                decreases max_x + 1 - x,
            {
                self.set_pixel(color, y as u32, x as u32);
                x = x + 1;
            }
            y = y + 1;
            assert(self.bytes() =~= paint_rect(start, w, x0, y0, max_x as int, y - 1, color));
        }
        assert forall|i: int| 0 <= i < start.len() implies #[trigger] self.bytes()[i]
            == paint_rect(
            start,
            w,
            x0,
            y0,
            down_right.x as int,
            down_right.y as int,
            color,
        )[i] by {
            let q = i / 4;
            lemma_fundamental_div_mod(q, w as int);
            lemma_mod_pos_bound(q, w as int);
            assert(q / (w as int) < h) by (nonlinear_arith)
                requires
                    q == w * (q / (w as int)) + q % (w as int),
                    0 <= q % (w as int),
                    0 <= i < w * h * 4,
                    q == i / 4,
            ;
        }
        assert(self.bytes() =~= paint_rect(
            start,
            w,
            x0,
            y0,
            down_right.x as int,
            down_right.y as int,
            color,
        ));
    }

    pub fn get_width(&self) -> (r: u32)
        ensures
            r == self.width(),
    {
        self.width
    }

    pub fn get_height(&self) -> (r: u32)
        ensures
            r == self.height(),
    {
        self.height
    }
}

impl<'a> PixelsIter<'a> {
    pub closed spec fn data(&self) -> Seq<u8> {
        self.data@
    }

    /// The pixel that is read next.
    pub closed spec fn pos(&self) -> nat {
        self.cur_pos as nat
    }

    /// The number of pixels.
    pub closed spec fn len(&self) -> nat {
        self.len as nat
    }

    /// A read position at the first pixel of the canvas.
    pub fn new(canvas: &'a Canvas) -> (it: PixelsIter<'a>)
        requires
            canvas.wf(),
        ensures
            it.data() == canvas.bytes(),
            it.pos() == 0,
            it.len() == canvas.width() * canvas.height(),
    {
        let frame = canvas.frame();
        let n = frame.len();
        proof {
            assert(canvas.width() * canvas.height() <= n) by (nonlinear_arith)
                requires
                    n == canvas.width() * canvas.height() * 4,
            ;
        }
        PixelsIter {
            data: frame,
            cur_pos: 0,
            len: (canvas.width as usize) * (canvas.height as usize),
        }
    }
}

} // verus!
