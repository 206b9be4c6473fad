//! A plain RGB pixel buffer and the rectangles, lines and dashed lines that
//! exported charts are drawn with.
use vstd::prelude::*;

verus! {

/// A colour as red, green and blue.
pub type Rgb = (u8, u8, u8);

/// An image of `width` by `height` pixels, held row by row: pixel `(x, y)`
/// is at index `y * width + x`.
pub struct Canvas {
    pub width: u32,
    pub height: u32,
    pub pixels: Vec<Rgb>,
}

/// The pixel at `(x, y)` of a buffer `width` pixels wide.
pub open spec fn pixel(px: Seq<Rgb>, width: int, x: int, y: int) -> Rgb {
    px[y * width + x]
}

impl Canvas {
    /// The buffer holds one pixel for every position.
    pub open spec fn wf(&self) -> bool {
        self.pixels@.len() == self.width * self.height
    }

    /// Every pixel of `self` is as in `old`, except in the rectangle
    /// `[x0, x1) × [y0, y1)`, which is `color`.
    pub open spec fn painted(&self, old: Canvas, x0: int, y0: int, x1: int, y1: int, color: Rgb) -> bool {
        &&& self.wf()
        &&& self.width == old.width
        &&& self.height == old.height
        &&& forall|x: int, y: int|
            0 <= x < self.width && 0 <= y < self.height ==> #[trigger] pixel(self.pixels@, self.width as int, x, y)
                == if x0 <= x < x1 && y0 <= y < y1 {
                color
            } else {
                pixel(old.pixels@, old.width as int, x, y)
            }
    }

    /// A canvas of `width` by `height` pixels, all of `color`.
    pub fn new(width: u32, height: u32, color: Rgb) -> (c: Canvas)
        requires
            width * height <= usize::MAX,
        ensures
            c.wf(),
            c.width == width,
            c.height == height,
            forall|x: int, y: int|
                0 <= x < width && 0 <= y < height ==> #[trigger] pixel(c.pixels@, width as int, x, y) == color,
    {
        let n = width as usize * height as usize;
        let mut pixels: Vec<Rgb> = Vec::new();
        while pixels.len() < n
            invariant
                pixels@.len() <= n,
                forall|i: int| 0 <= i < pixels@.len() ==> #[trigger] pixels@[i] == color,
            decreases n - pixels@.len(),
        {
            pixels.push(color);
        }
        let c = Canvas { width, height, pixels };
        assert forall|x: int, y: int| 0 <= x < width && 0 <= y < height implies #[trigger] pixel(
            c.pixels@,
            width as int,
            x,
            y,
        ) == color by {
            lemma_index_in_range(width as int, height as int, x, y);
        }
        c
    }

    /// The pixel at `(x, y)`.
    pub fn get_pixel(&self, x: u32, y: u32) -> (r: Rgb)
        requires
            self.wf(),
            x < self.width,
            y < self.height,
        ensures
            r == pixel(self.pixels@, self.width as int, x as int, y as int),
    {
        proof {
            lemma_index_in_range(self.width as int, self.height as int, x as int, y as int);
        }
        let n = self.pixels.len();
        assert(y * self.width + x < n);
        self.pixels[y as usize * self.width as usize + x as usize]
    }

    /// Sets the pixel at `(x, y)` to `color`.
    pub fn put_pixel(&mut self, x: u32, y: u32, color: Rgb)
        requires
            old(self).wf(),
            x < old(self).width,
            y < old(self).height,
        ensures
            final(self).painted(*old(self), x as int, y as int, x + 1, y + 1, color),
    {
        proof {
            lemma_index_in_range(self.width as int, self.height as int, x as int, y as int);
        }
        let ghost before = *self;
        let n = self.pixels.len();
        assert(y * self.width + x < n);
        let i = y as usize * self.width as usize + x as usize;
        self.pixels.set(i, color);
        proof {
            assert forall|a: int, b: int| 0 <= a < self.width && 0 <= b < self.height implies #[trigger] pixel(
                self.pixels@,
                self.width as int,
                a,
                b,
            ) == if x <= a < x + 1 && y <= b < y + 1 {
                color
            } else {
                pixel(before.pixels@, before.width as int, a, b)
            } by {
                lemma_index_in_range(self.width as int, self.height as int, a, b);
                lemma_index_distinct(self.width as int, a, b, x as int, y as int);
            }
        }
    }
}

/// Inside a `w` by `h` buffer, `(x, y)` has an index in range.
pub proof fn lemma_index_in_range(w: int, h: int, x: int, y: int)
    requires
        0 <= x < w,
        0 <= y < h,
    ensures
        0 <= y * w + x < w * h,
{
    assert(y * w + x < w * h) by (nonlinear_arith)
        requires
            0 <= x < w,
            0 <= y < h,
    ;
    assert(0 <= y * w) by (nonlinear_arith)
        requires
            0 <= y,
            0 <= w,
    ;
}

/// Two positions of one row width have the same index only if they are the
/// same position.
pub proof fn lemma_index_distinct(w: int, x: int, y: int, a: int, b: int)
    requires
        0 <= x < w,
        0 <= a < w,
        0 <= y,
        0 <= b,
    ensures
        (y * w + x == b * w + a) <==> (x == a && y == b),
{
    if y * w + x == b * w + a {
        if y < b {
            assert(y * w + x < b * w + a) by (nonlinear_arith)
                requires
                    0 <= x < w,
                    0 <= a,
                    y < b,
            ;
        } else if y > b {
            assert(y * w + x > b * w + a) by (nonlinear_arith)
                requires
                    0 <= a < w,
                    0 <= x,
                    y > b,
            ;
        }
    }
}

/// Paints `[x0, x1) × [y0, y1)`, clipped to the canvas, with `color`.
fn fill(c: &mut Canvas, x0: u32, y0: u32, x1: u32, y1: u32, color: Rgb)
    requires
        old(c).wf(),
    ensures
        final(c).painted(*old(c), x0 as int, y0 as int, x1 as int, y1 as int, color),
{
    let ghost start = *c;
    let x_min = if x0 < c.width { x0 } else { c.width };
    let x_max = if x1 < c.width { x1 } else { c.width };
    let y_min = if y0 < c.height { y0 } else { c.height };
    let y_max = if y1 < c.height { y1 } else { c.height };
    let mut y = y_min;
    while y < y_max
        invariant
            c.wf(),
            c.width == start.width,
            c.height == start.height,
            y_min <= y,
            y <= y_max || y == y_min,
            y_max <= c.height,
            x_max <= c.width,
            x_min == if x0 < c.width { x0 } else { c.width },
            x_max == if x1 < c.width { x1 } else { c.width },
            y_min == if y0 < c.height { y0 } else { c.height },
            forall|a: int, b: int|
                0 <= a < c.width && 0 <= b < c.height ==> #[trigger] pixel(c.pixels@, c.width as int, a, b)
                    == if x0 <= a < x1 && y0 <= b < y {
                    color
                } else {
                    pixel(start.pixels@, start.width as int, a, b)
                },
        decreases y_max - y,
    {
        let mut x = x_min;
        while x < x_max
            invariant
                c.wf(),
                c.width == start.width,
                c.height == start.height,
                y_min <= y < y_max,
                y_max <= c.height,
                x_max <= c.width,
                x_min <= x,
                x <= x_max || x == x_min,
                x_min == if x0 < c.width { x0 } else { c.width },
                x_max == if x1 < c.width { x1 } else { c.width },
                y_min == if y0 < c.height { y0 } else { c.height },
                forall|a: int, b: int|
                    0 <= a < c.width && 0 <= b < c.height ==> #[trigger] pixel(c.pixels@, c.width as int, a, b)
                        == if x0 <= a < x1 && (y0 <= b < y || (b == y && a < x)) {
                        color
                    } else {
                        pixel(start.pixels@, start.width as int, a, b)
                    },
            decreases x_max - x,
        {
            c.put_pixel(x, y, color);
            x = x + 1;
        }
        y = y + 1;
    }
}

/// Paints the rectangle `[x0, x1) × [y0, y1)`, clipped to the canvas.
pub fn draw_rect(c: &mut Canvas, x0: u32, y0: u32, x1: u32, y1: u32, color: Rgb)
    requires
        old(c).wf(),
    ensures
        final(c).painted(*old(c), x0 as int, y0 as int, x1 as int, y1 as int, color),
{
    fill(c, x0, y0, x1, y1, color);
}

/// Paints a horizontal line from `x0` to `x1`, `thickness` pixels thick
/// downwards from `y`.
pub fn draw_line_h(c: &mut Canvas, x0: u32, x1: u32, y: u32, thickness: u32, color: Rgb)
    requires
        old(c).wf(),
        y + thickness <= u32::MAX,
    ensures
        final(c).painted(*old(c), x0 as int, y as int, x1 as int, y + thickness, color),
{
    fill(c, x0, y, x1, y + thickness, color);
}

/// Paints a vertical line from `y0` to `y1`, `thickness` pixels thick
/// rightwards from `x`.
pub fn draw_line_v(c: &mut Canvas, x: u32, y0: u32, y1: u32, thickness: u32, color: Rgb)
    requires
        old(c).wf(),
        x + thickness <= u32::MAX,
    ensures
        final(c).painted(*old(c), x as int, y0 as int, x + thickness, y1 as int, color),
{
    fill(c, x, y0, x + thickness, y1, color);
}

/// `(x, y)` lies on the outline of `[x0, x1) × [y0, y1)` drawn
/// `thickness` pixels thick inside its edges.
pub open spec fn on_outline(x: int, y: int, x0: int, y0: int, x1: int, y1: int, thickness: int) -> bool {
    ||| (x0 <= x < x1 && y0 <= y < y0 + thickness)
    ||| (y1 >= thickness && x0 <= x < x1 && y1 - thickness <= y < y1)
    ||| (x0 <= x < x0 + thickness && y0 <= y < y1)
    ||| (x1 >= thickness && x1 - thickness <= x < x1 && y0 <= y < y1)
}

/// Paints the outline of `[x0, x1) × [y0, y1)`, `thickness` pixels thick
/// inside its edges, clipped to the canvas.
pub fn draw_rect_outline(c: &mut Canvas, x0: u32, y0: u32, x1: u32, y1: u32, thickness: u32, color: Rgb)
    requires
        old(c).wf(),
        x0 + thickness <= u32::MAX,
        y0 + thickness <= u32::MAX,
    ensures
        final(c).wf(),
        final(c).width == old(c).width,
        final(c).height == old(c).height,
        forall|x: int, y: int|
            0 <= x < final(c).width && 0 <= y < final(c).height ==> #[trigger] pixel(
                final(c).pixels@,
                final(c).width as int,
                x,
                y,
            ) == if on_outline(x, y, x0 as int, y0 as int, x1 as int, y1 as int, thickness as int) {
                color
            } else {
                pixel(old(c).pixels@, old(c).width as int, x, y)
            },
{
    let ghost start = *c;
    draw_line_h(c, x0, x1, y0, thickness, color);
    let ghost c1 = *c;
    if y1 >= thickness {
        draw_line_h(c, x0, x1, y1 - thickness, thickness, color);
    }
    let ghost c2 = *c;
    draw_line_v(c, x0, y0, y1, thickness, color);
    let ghost c3 = *c;
    if x1 >= thickness {
        draw_line_v(c, x1 - thickness, y0, y1, thickness, color);
    }
    proof {
        assert forall|x: int, y: int| 0 <= x < c.width && 0 <= y < c.height implies #[trigger] pixel(
            c.pixels@,
            c.width as int,
            x,
            y,
        ) == if on_outline(x, y, x0 as int, y0 as int, x1 as int, y1 as int, thickness as int) {
            color
        } else {
            pixel(start.pixels@, start.width as int, x, y)
        } by {
            let p1 = pixel(c1.pixels@, c1.width as int, x, y);
            let p2 = pixel(c2.pixels@, c2.width as int, x, y);
            let p3 = pixel(c3.pixels@, c3.width as int, x, y);
        }
    }
}

/// Whether the dash pattern paints step `i`, and how far into its current
/// dash or gap it is after step `i`: a dash of `dash` steps, then a gap of
/// `gap` steps, and so on, starting with a dash.
pub open spec fn dash_state(i: nat, dash: int, gap: int) -> (bool, int)
    decreases i,
{
    if i == 0 {
        (true, 0)
    } else {
        let (drawing, count) = dash_state((i - 1) as nat, dash, gap);
        let next = count + 1;
        if drawing && next >= dash {
            (false, 0)
        } else if !drawing && next >= gap {
            (true, 0)
        } else {
            (drawing, next)
        }
    }
}

/// Paints a dashed vertical line from `y0` to `y1`, `thickness` pixels thick
/// rightwards from `x`: pixel row `y` is painted when the pattern paints
/// step `y - y0`.
pub fn draw_dashed_line_v(c: &mut Canvas, x: u32, y0: u32, y1: u32, color: Rgb, dash_len: u32, gap_len: u32, thickness: u32)
    requires
        old(c).wf(),
        x + thickness <= u32::MAX,
    ensures
        final(c).wf(),
        final(c).width == old(c).width,
        final(c).height == old(c).height,
        forall|a: int, b: int|
            0 <= a < final(c).width && 0 <= b < final(c).height ==> #[trigger] pixel(
                final(c).pixels@,
                final(c).width as int,
                a,
                b,
            ) == if x <= a < x + thickness && y0 <= b < y1 && dash_state(
                (b - y0) as nat,
                dash_len as int,
                gap_len as int,
            ).0 {
                color
            } else {
                pixel(old(c).pixels@, old(c).width as int, a, b)
            },
{
    let ghost start = *c;
    let y_min = if y0 < c.height { y0 } else { c.height };
    let y_max = if y1 < c.height { y1 } else { c.height };
    let mut t: u32 = 0;
    while t < thickness
        invariant
            c.wf(),
            c.width == start.width,
            c.height == start.height,
            t <= thickness,
            x + thickness <= u32::MAX,
            y_min == if y0 < c.height { y0 } else { c.height },
            y_max == if y1 < c.height { y1 } else { c.height },
            forall|a: int, b: int|
                0 <= a < c.width && 0 <= b < c.height ==> #[trigger] pixel(c.pixels@, c.width as int, a, b)
                    == if x <= a < x + t && y0 <= b < y1 && dash_state((b - y0) as nat, dash_len as int, gap_len as int).0 {
                    color
                } else {
                    pixel(start.pixels@, start.width as int, a, b)
                },
        decreases thickness - t,
    {
        let cur_x = x + t;
        if cur_x < c.width && y0 < c.height {
            let mut drawing = true;
            let mut count: u32 = 0;
            let mut y = y_min;
            while y < y_max
                invariant
                    c.wf(),
                    c.width == start.width,
                    c.height == start.height,
                    t < thickness,
                    cur_x == x + t,
                    cur_x < c.width,
                    y_min <= y,
                    y <= y_max || y == y_min,
                    y_max <= c.height,
                    y_min == if y0 < c.height { y0 } else { c.height },
                    y_max == if y1 < c.height { y1 } else { c.height },
                    y_min == y0,
                    dash_state((y - y0) as nat, dash_len as int, gap_len as int) == (drawing, count as int),
                    count == 0 || count < if drawing { dash_len } else { gap_len },
                    forall|a: int, b: int|
                        0 <= a < c.width && 0 <= b < c.height ==> #[trigger] pixel(c.pixels@, c.width as int, a, b)
                            == if ((x <= a < x + t && y0 <= b < y1) || (a == cur_x && y0 <= b < y)) && dash_state(
                            (b - y0) as nat,
                            dash_len as int,
                            gap_len as int,
                        ).0 {
                            color
                        } else {
                            pixel(start.pixels@, start.width as int, a, b)
                        },
                decreases y_max - y,
            {
                let ghost before = *c;
                if drawing {
                    c.put_pixel(cur_x, y, color);
                }
                proof {
                    assert forall|a: int, b: int| 0 <= a < c.width && 0 <= b < c.height implies #[trigger] pixel(
                        c.pixels@,
                        c.width as int,
                        a,
                        b,
                    ) == if ((x <= a < x + t && y0 <= b < y1) || (a == cur_x && y0 <= b < y + 1)) && dash_state(
                        (b - y0) as nat,
                        dash_len as int,
                        gap_len as int,
                    ).0 {
                        color
                    } else {
                        pixel(start.pixels@, start.width as int, a, b)
                    } by {
                        let earlier = pixel(before.pixels@, before.width as int, a, b);
                    }
                    assert(dash_state((y + 1 - y0) as nat, dash_len as int, gap_len as int) == {
                        let next = count + 1;
                        if drawing && next >= dash_len {
                            (false, 0int)
                        } else if !drawing && next >= gap_len {
                            (true, 0int)
                        } else {
                            (drawing, next as int)
                        }
                    });
                }
                count = count + 1;
                if drawing && count >= dash_len {
                    drawing = false;
                    count = 0;
                } else if !drawing && count >= gap_len {
                    drawing = true;
                    count = 0;
                }
                y = y + 1;
            }
        }
        t = t + 1;
    }
}

} // verus!
