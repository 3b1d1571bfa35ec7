use vstd::prelude::*;
use crate::buffer::{Buffer2D, pixel_index, lemma_pixel_index_bounds, lemma_pixel_index_unique};
use crate::color::Color;

verus! {

/// The depth that a cleared depth buffer holds: farther than any fragment.
pub const FAR_DEPTH: u64 = 0xffff_ffff_ffff_ffff;

/// The largest screen side, in pixels.
pub const MAX_SIDE: usize = 0xffff;

/// `n / d` rounded to the nearest integer, halves away from zero (`d > 0`).
pub open spec fn div_round(n: int, d: int) -> int {
    if n >= 0 {
        (2 * n + d) / (2 * d)
    } else {
        -((-2 * n + d) / (2 * d))
    }
}

/// The column at which the edge from `p` to `q` crosses row `y`: `x` interpolated
/// linearly in `y` and rounded (`p` and `q` on different rows).
pub open spec fn edge_x(p: (i32, i32), q: (i32, i32), y: int) -> int {
    if q.1 > p.1 {
        p.0 + div_round((y - p.1) * (q.0 - p.0), q.1 - p.1)
    } else {
        p.0 + div_round((p.1 - y) * (q.0 - p.0), p.1 - q.1)
    }
}

/// The edge from `p` to `q` gives a column to row `y` of a screen `height` rows tall:
/// it is not horizontal, and the row lies between its ends and on the screen.
pub open spec fn edge_covers(p: (i32, i32), q: (i32, i32), y: int, height: int) -> bool {
    &&& p.1 != q.1
    &&& (p.1 <= y <= q.1 || q.1 <= y <= p.1)
    &&& 0 <= y < height
}

/// A span `(min_x, max_x)` widened to take in column `x`; an unset span becomes `(x, x)`.
pub open spec fn merge_span(s: Option<(i32, i32)>, x: i32) -> Option<(i32, i32)> {
    match s {
        None => Some((x, x)),
        Some((lo, hi)) => if x < lo {
            Some((x, hi))
        } else if x > hi {
            Some((lo, x))
        } else {
            Some((lo, hi))
        },
    }
}

/// Row `y`'s span after the edge from `p` to `q` has been traced.
pub open spec fn add_edge_span(
    s: Option<(i32, i32)>,
    p: (i32, i32),
    q: (i32, i32),
    y: int,
    height: int,
) -> Option<(i32, i32)> {
    if edge_covers(p, q, y, height) {
        merge_span(s, edge_x(p, q, y) as i32)
    } else {
        s
    }
}

/// Row `y`'s span after the three edges of the triangle `pts` have been traced.
pub open spec fn triangle_span(pts: [(i32, i32); 3], y: int, height: int) -> Option<(i32, i32)> {
    let s0 = add_edge_span(None, pts@[0], pts@[1], y, height);
    let s1 = add_edge_span(s0, pts@[1], pts@[2], y, height);
    add_edge_span(s1, pts@[2], pts@[0], y, height)
}

/// The columns of a span that are drawn on a screen `width` columns wide: none when the
/// span lies wholly left or wholly right of the screen, else the span clamped to it.
pub open spec fn visible_span(s: Option<(i32, i32)>, width: int) -> Option<(int, int)> {
    match s {
        None => None,
        Some((lo, hi)) => if (lo < 0 && hi < 0) || (lo >= width && hi >= width) {
            None
        } else {
            Some((clamp(lo as int, 0, width - 1), clamp(hi as int, 0, width - 1)))
        },
    }
}

pub open spec fn clamp(v: int, lo: int, hi: int) -> int {
    if v < lo {
        lo
    } else if v > hi {
        hi
    } else {
        v
    }
}

/// The pixel `(x, y)` of a `width` by `height` screen is filled by the triangle `pts`.
pub open spec fn covers(pts: [(i32, i32); 3], x: int, y: int, width: int, height: int) -> bool {
    &&& 0 <= x < width
    &&& 0 <= y < height
    &&& match visible_span(triangle_span(pts, y, height), width) {
        Some((lo, hi)) => lo <= x <= hi,
        None => false,
    }
}

/// Bounds of a rounded interpolation: `x` moves from `p.0` towards `q.0` and stays between them.
proof fn lemma_div_round_between(t: int, d: int, dx: int)
    requires
        0 < d,
        0 <= t <= d,
    ensures
        dx >= 0 ==> 0 <= div_round(t * dx, d) <= dx,
        dx < 0 ==> dx <= div_round(t * dx, d) <= 0,
{
    let n = t * dx;
    if dx >= 0 {
        assert(0 <= n <= d * dx) by (nonlinear_arith)
            requires
                n == t * dx,
                0 <= t <= d,
                dx >= 0,
        ;
        let a = 2 * n + d;
        let r = a / (2 * d);
        assert(0 <= r <= dx) by (nonlinear_arith)
            requires
                r == a / (2 * d),
                a == 2 * n + d,
                0 <= n <= d * dx,
                0 < d,
        ;
    } else if n >= 0 {
        assert(n == 0) by (nonlinear_arith)
            requires
                n == t * dx,
                0 <= t,
                dx < 0,
                n >= 0,
        ;
        assert(d / (2 * d) == 0) by (nonlinear_arith)
            requires
                0 < d,
        ;
    } else {
        assert(0 <= -n <= d * (-dx)) by (nonlinear_arith)
            requires
                n == t * dx,
                0 <= t <= d,
                dx < 0,
        ;
        let a = -2 * n + d;
        let r = a / (2 * d);
        assert(0 <= r <= -dx) by (nonlinear_arith)
            requires
                r == a / (2 * d),
                a == -2 * n + d,
                0 <= -n <= d * (-dx),
                0 < d,
        ;
    }
}

/// The column at which an edge crosses a row between its ends lies between the ends' columns.
pub proof fn lemma_edge_x_between(p: (i32, i32), q: (i32, i32), y: int)
    requires
        p.1 != q.1,
        p.1 <= y <= q.1 || q.1 <= y <= p.1,
    ensures
        p.0 <= edge_x(p, q, y) <= q.0 || q.0 <= edge_x(p, q, y) <= p.0,
{
    if q.1 > p.1 {
        lemma_div_round_between(y - p.1, q.1 - p.1, q.0 - p.0);
    } else {
        lemma_div_round_between(p.1 - y, p.1 - q.1, q.0 - p.0);
    }
}

/// Computes `edge_x(p, q, y)`.
fn edge_column(p: (i32, i32), q: (i32, i32), y: i32) -> (x: i32)
    requires
        p.1 != q.1,
        p.1 <= y <= q.1 || q.1 <= y <= p.1,
    ensures
        x == edge_x(p, q, y as int),
{
    proof {
        lemma_edge_x_between(p, q, y as int);
    }
    let (t, d): (i128, i128) = if q.1 > p.1 {
        (y as i128 - p.1 as i128, q.1 as i128 - p.1 as i128)
    } else {
        (p.1 as i128 - y as i128, p.1 as i128 - q.1 as i128)
    };
    let dx: i128 = q.0 as i128 - p.0 as i128;
    assert(-0x1_0000_0000_0000_0000 <= t * dx <= 0x1_0000_0000_0000_0000) by (nonlinear_arith)
        requires
            0 <= t <= 0x1_0000_0000,
            -0x1_0000_0000 <= dx <= 0x1_0000_0000,
    ;
    let n: i128 = t * dx;
    let r: i128 = if n >= 0 {
        (2 * n + d) / (2 * d)
    } else {
        -((-2 * n + d) / (2 * d))
    };
    (p.0 as i128 + r) as i32
}

/// The depth test: a fragment at depth `d` with color `c` replaces the stored depth `z` and
/// color `zc` unless it lies strictly farther, so of two fragments at one depth the later wins.
pub open spec fn resolve(z: u64, zc: Color, d: u64, c: Color) -> (u64, Color) {
    if d > z {
        (z, zc)
    } else {
        (d, c)
    }
}

/// The pixel `(x, y)` went from depth `z0` and color `c0` to `z1` and `c1` by the depth test
/// of a fragment of color `c` whose depth is one that `depth` gives for that pixel.
pub open spec fn drawn<F: Fn(usize, usize) -> u64>(
    depth: F,
    x: int,
    y: int,
    c: Color,
    z0: u64,
    c0: Color,
    z1: u64,
    c1: Color,
) -> bool {
    exists|d: u64| #[trigger] depth.ensures((x as usize, y as usize), d) && (z1, c1) == resolve(z0, c0, d, c)
}

/// A row with a span lies on the screen, between the triangle's highest and lowest corner.
pub proof fn lemma_span_rows(pts: [(i32, i32); 3], y: int, height: int)
    requires
        triangle_span(pts, y, height) is Some,
    ensures
        0 <= y < height,
        pts@[0].1 <= y || pts@[1].1 <= y || pts@[2].1 <= y,
        y <= pts@[0].1 || y <= pts@[1].1 || y <= pts@[2].1,
{
}

/// Two fragments at different depths give the same depth and color in either order; of two
/// fragments at one depth that passes the test, the later one's color is kept.
pub proof fn lemma_depth_test_order(z: u64, zc: Color, da: u64, ca: Color, db: u64, cb: Color)
    ensures
        da != db ==> resolve(resolve(z, zc, da, ca).0, resolve(z, zc, da, ca).1, db, cb)
            == resolve(resolve(z, zc, db, cb).0, resolve(z, zc, db, cb).1, da, ca),
        da == db && da <= z ==> resolve(resolve(z, zc, da, ca).0, resolve(z, zc, da, ca).1, db, cb)
            == (db, cb),
{
}

/// Two triangles drawn over one pixel in either order: where their depths there differ,
/// both orders leave the same depth and color; where they are equal, the later triangle's
/// color is kept. The pixel starts at `(z0, c0)`; drawing `a` then `b` takes it through
/// `(za, ca1)` to `(zab, cab)`, drawing `b` then `a` through `(zb, cb1)` to `(zba, cba)`.
pub proof fn lemma_draw_order<FA: Fn(usize, usize) -> u64, FB: Fn(usize, usize) -> u64>(
    depth_a: FA,
    color_a: Color,
    depth_b: FB,
    color_b: Color,
    x: int,
    y: int,
    z0: u64,
    c0: Color,
    za: u64,
    ca1: Color,
    zab: u64,
    cab: Color,
    zb: u64,
    cb1: Color,
    zba: u64,
    cba: Color,
)
    requires
        forall|d1: u64, d2: u64|
            #[trigger] depth_a.ensures((x as usize, y as usize), d1) && #[trigger] depth_a.ensures(
                (x as usize, y as usize),
                d2,
            ) ==> d1 == d2,
        forall|d1: u64, d2: u64|
            #[trigger] depth_b.ensures((x as usize, y as usize), d1) && #[trigger] depth_b.ensures(
                (x as usize, y as usize),
                d2,
            ) ==> d1 == d2,
        drawn(depth_a, x, y, color_a, z0, c0, za, ca1),
        drawn(depth_b, x, y, color_b, za, ca1, zab, cab),
        drawn(depth_b, x, y, color_b, z0, c0, zb, cb1),
        drawn(depth_a, x, y, color_a, zb, cb1, zba, cba),
    ensures
        forall|da: u64, db: u64|
            #[trigger] depth_a.ensures((x as usize, y as usize), da) && #[trigger] depth_b.ensures(
                (x as usize, y as usize),
                db,
            ) && da != db ==> (zab, cab) == (zba, cba),
        forall|d: u64|
            #[trigger] depth_a.ensures((x as usize, y as usize), d) && #[trigger] depth_b.ensures(
                (x as usize, y as usize),
                d,
            ) && d <= z0 ==> cab == color_b && cba == color_a,
{
    let p = (x as usize, y as usize);
    let da = choose|d: u64| #[trigger] depth_a.ensures(p, d) && (za, ca1) == resolve(z0, c0, d, color_a);
    let db = choose|d: u64| #[trigger] depth_b.ensures(p, d) && (zab, cab) == resolve(za, ca1, d, color_b);
    let db2 = choose|d: u64| #[trigger] depth_b.ensures(p, d) && (zb, cb1) == resolve(z0, c0, d, color_b);
    let da2 = choose|d: u64| #[trigger] depth_a.ensures(p, d) && (zba, cba) == resolve(zb, cb1, d, color_a);
    assert(da == da2 && db == db2);
    lemma_depth_test_order(z0, c0, da, color_a, db, color_b);
    lemma_depth_test_order(z0, c0, db, color_b, da, color_a);
}

/// All corners lie left of, right of, above or below a `width` by `height` screen.
pub open spec fn offscreen(pts: [(i32, i32); 3], width: int, height: int) -> bool {
    ||| (pts@[0].0 < 0 && pts@[1].0 < 0 && pts@[2].0 < 0)
    ||| (pts@[0].0 >= width && pts@[1].0 >= width && pts@[2].0 >= width)
    ||| (pts@[0].1 < 0 && pts@[1].1 < 0 && pts@[2].1 < 0)
    ||| (pts@[0].1 >= height && pts@[1].1 >= height && pts@[2].1 >= height)
}

/// Every column that an edge gives to a row, and so both ends of every span, lie between
/// the leftmost and the rightmost corner.
proof fn lemma_add_edge_span_columns(
    s: Option<(i32, i32)>,
    p: (i32, i32),
    q: (i32, i32),
    y: int,
    height: int,
    left: int,
    right: int,
)
    requires
        left <= p.0 <= right,
        left <= q.0 <= right,
        s matches Some((lo, hi)) ==> left <= lo <= right && left <= hi <= right,
    ensures
        add_edge_span(s, p, q, y, height) matches Some((lo, hi)) ==> left <= lo <= right && left
            <= hi <= right,
{
    if edge_covers(p, q, y, height) {
        lemma_edge_x_between(p, q, y);
    }
}

/// A triangle whose corners all lie off one side of the screen covers no pixel of it.
pub proof fn lemma_offscreen_covers_nothing(pts: [(i32, i32); 3], width: int, height: int)
    requires
        offscreen(pts, width, height),
    ensures
        forall|x: int, y: int| !#[trigger] covers(pts, x, y, width, height),
{
    assert forall|x: int, y: int| !#[trigger] covers(pts, x, y, width, height) by {
        if triangle_span(pts, y, height) is Some {
            lemma_span_rows(pts, y, height);
            let left = min3(pts@[0].0 as int, pts@[1].0 as int, pts@[2].0 as int);
            let right = max3(pts@[0].0 as int, pts@[1].0 as int, pts@[2].0 as int);
            let s0 = add_edge_span(None, pts@[0], pts@[1], y, height);
            let s1 = add_edge_span(s0, pts@[1], pts@[2], y, height);
            lemma_add_edge_span_columns(None, pts@[0], pts@[1], y, height, left, right);
            lemma_add_edge_span_columns(s0, pts@[1], pts@[2], y, height, left, right);
            lemma_add_edge_span_columns(s1, pts@[2], pts@[0], y, height, left, right);
        }
    }
}

pub open spec fn min3(a: int, b: int, c: int) -> int {
    if a <= b && a <= c {
        a
    } else if b <= c {
        b
    } else {
        c
    }
}

pub open spec fn max3(a: int, b: int, c: int) -> int {
    if a >= b && a >= c {
        a
    } else if b >= c {
        b
    } else {
        c
    }
}

/// The rasterizer's state across frames: its depth buffer and its table of per-row spans.
/// Depths are ordered keys: a smaller value is nearer.
#[derive(Debug, Default)]
pub struct Raster {
    pub z_buffer: Buffer2D<u64>,
    pub horizontal_line_buffer: Vec<Option<(i32, i32)>>,
}

impl Raster {
    /// Buffers sized for a `width` by `height` frame.
    pub open spec fn sized(&self, width: int, height: int) -> bool {
        &&& self.z_buffer.wf()
        &&& self.z_buffer.width == width
        &&& self.z_buffer.height == height
        &&& 1 <= width <= MAX_SIDE
        &&& 1 <= height <= MAX_SIDE
        &&& self.horizontal_line_buffer@.len() == height
    }

    /// Sized for a `width` by `height` frame, with every row's span unset.
    pub open spec fn ready(&self, width: int, height: int) -> bool {
        &&& self.sized(width, height)
        &&& forall|y: int| 0 <= y < height ==> #[trigger] self.horizontal_line_buffer@[y] is None
    }

    pub fn new() -> (r: Raster)
        ensures
            r.z_buffer.wf(),
            r.z_buffer.width == 0,
            r.z_buffer.height == 0,
            r.z_buffer.data@.len() == 0,
            r.horizontal_line_buffer@.len() == 0,
    {
        Raster {
            z_buffer: Buffer2D { width: 0, height: 0, data: Vec::new() },
            horizontal_line_buffer: Vec::new(),
        }
    }

    /// Starts a frame: the screen becomes `width` by `height` black pixels; for a frame that
    /// is not empty the depth buffer is resized with every depth `FAR_DEPTH` and every span unset.
    pub fn begin_frame(&mut self, screen: &mut Buffer2D<Color>, width: u16, height: u16)
        ensures
            final(screen).wf(),
            final(screen).width == width,
            final(screen).height == height,
            forall|x: int, y: int|
                0 <= x < width && 0 <= y < height ==> #[trigger] final(screen).at(x, y) == Color(
                    0,
                ),
            width > 0 && height > 0 ==> final(self).ready(width as int, height as int),
            width > 0 && height > 0 ==> forall|x: int, y: int|
                0 <= x < width && 0 <= y < height ==> #[trigger] final(self).z_buffer.at(x, y)
                    == FAR_DEPTH,
            width == 0 || height == 0 ==> *final(self) == *old(self),
    {
        assert(width as int * height as int <= 0xffff * 0xffff) by (nonlinear_arith)
            requires
                width <= 0xffff,
                height <= 0xffff,
        ;
        screen.clear_and_resize(width as usize, height as usize, Color::new(0));
        if width == 0 || height == 0 {
            return;
        }
        self.horizontal_line_buffer.clear();
        while self.horizontal_line_buffer.len() < height as usize
            invariant
                self.horizontal_line_buffer@.len() <= height,
                forall|y: int|
                    0 <= y < self.horizontal_line_buffer@.len()
                        ==> #[trigger] self.horizontal_line_buffer@[y] is None,
            decreases height - self.horizontal_line_buffer@.len(),
        {
            self.horizontal_line_buffer.push(None);
        }
        self.z_buffer.clear_and_resize(width as usize, height as usize, FAR_DEPTH);
    }

    /// Widens the span of every row that the edge from `p` to `q` crosses by the column at
    /// which it crosses.
    fn trace_edge(&mut self, p: (i32, i32), q: (i32, i32), height: usize)
        requires
            old(self).horizontal_line_buffer@.len() == height,
            1 <= height <= MAX_SIDE,
        ensures
            final(self).z_buffer == old(self).z_buffer,
            final(self).horizontal_line_buffer@.len() == height,
            forall|y: int|
                0 <= y < height ==> #[trigger] final(self).horizontal_line_buffer@[y]
                    == add_edge_span(old(self).horizontal_line_buffer@[y], p, q, y, height as int),
    {
        if p.1 == q.1 {
            return;
        }
        let top: i32 = if p.1 < q.1 {
            p.1
        } else {
            q.1
        };
        let bottom: i32 = if p.1 < q.1 {
            q.1
        } else {
            p.1
        };
        let lo: i64 = if top < 0 {
            0
        } else {
            top as i64
        };
        let hi: i64 = if bottom as i64 > height as i64 - 1 {
            height as i64 - 1
        } else {
            bottom as i64
        };
        let ghost spans0 = self.horizontal_line_buffer@;
        let mut y: i64 = lo;
        while y <= hi
            invariant
                self.z_buffer == old(self).z_buffer,
                spans0 == old(self).horizontal_line_buffer@,
                self.horizontal_line_buffer@.len() == height,
                1 <= height <= MAX_SIDE,
                p.1 != q.1,
                top == if p.1 < q.1 { p.1 } else { q.1 },
                bottom == if p.1 < q.1 { q.1 } else { p.1 },
                lo == if top < 0 { 0 } else { top as int },
                hi == if bottom > height - 1 { height - 1 } else { bottom as int },
                lo <= y,
                y <= hi + 1 || lo > hi,
                forall|yy: int|
                    0 <= yy < height ==> #[trigger] self.horizontal_line_buffer@[yy] == if lo <= yy
                        < y {
                        add_edge_span(spans0[yy], p, q, yy, height as int)
                    } else {
                        spans0[yy]
                    },
            decreases hi + 1 - y,
        {
            let x = edge_column(p, q, y as i32);
            let row: usize = y as usize;
            let next: Option<(i32, i32)> = match self.horizontal_line_buffer[row] {
                None => Some((x, x)),
                Some((min_x, max_x)) => if x < min_x {
                    Some((x, max_x))
                } else if x > max_x {
                    Some((min_x, x))
                } else {
                    Some((min_x, max_x))
                },
            };
            self.horizontal_line_buffer.set(row, next);
            y = y + 1;
        }
    }

    /// Runs the depth test at every pixel `x_min ..= x_max` of row `y`.
    fn fill_span<F: Fn(usize, usize) -> u64>(
        &mut self,
        screen: &mut Buffer2D<Color>,
        y: usize,
        x_min: usize,
        x_max: usize,
        color: Color,
        depth: &F,
    )
        requires
            old(self).sized(old(screen).width as int, old(screen).height as int),
            old(screen).wf(),
            y < old(screen).height,
            x_min <= x_max < old(screen).width,
            forall|x: usize, y: usize| depth.requires((x, y)),
        ensures
            final(self).horizontal_line_buffer == old(self).horizontal_line_buffer,
            final(self).sized(old(screen).width as int, old(screen).height as int),
            final(screen).wf(),
            final(screen).width == old(screen).width,
            final(screen).height == old(screen).height,
            forall|xx: int, yy: int|
                0 <= xx < old(screen).width && 0 <= yy < old(screen).height ==> if yy == y && x_min
                    <= xx <= x_max {
                    drawn(
                        *depth,
                        xx,
                        yy,
                        color,
                        old(self).z_buffer.at(xx, yy),
                        old(screen).at(xx, yy),
                        #[trigger] final(self).z_buffer.at(xx, yy),
                        final(screen).at(xx, yy),
                    )
                } else {
                    &&& final(self).z_buffer.at(xx, yy) == old(self).z_buffer.at(xx, yy)
                    &&& final(screen).at(xx, yy) == old(screen).at(xx, yy)
                },
    {
        let ghost z0 = self.z_buffer;
        let ghost c0 = *screen;
        let width = screen.width;
        let height = screen.height;
        let mut x: usize = x_min;
        while x <= x_max
            invariant
                self.horizontal_line_buffer == old(self).horizontal_line_buffer,
                self.sized(width as int, height as int),
                screen.wf(),
                screen.width == width,
                screen.height == height,
                z0 == old(self).z_buffer,
                c0 == *old(screen),
                c0.width == width,
                c0.height == height,
                y < height,
                x_min <= x <= x_max + 1,
                x_max < width,
                forall|x: usize, y: usize| depth.requires((x, y)),
                forall|xx: int, yy: int|
                    0 <= xx < width && 0 <= yy < height && yy == y && x_min <= xx < x ==> drawn(
                        *depth,
                        xx,
                        yy,
                        color,
                        z0.at(xx, yy),
                        c0.at(xx, yy),
                        #[trigger] self.z_buffer.at(xx, yy),
                        screen.at(xx, yy),
                    ),
                forall|xx: int, yy: int|
                    0 <= xx < width && 0 <= yy < height && !(yy == y && x_min <= xx < x) ==> {
                        &&& #[trigger] self.z_buffer.at(xx, yy) == z0.at(xx, yy)
                        &&& screen.at(xx, yy) == c0.at(xx, yy)
                    },
            decreases x_max + 1 - x,
        {
            let ghost zb = self.z_buffer;
            let ghost cb = *screen;
            proof {
                lemma_pixel_index_bounds(width as int, height as int, x as int, y as int);
            }
            assert(zb.at(x as int, y as int) == z0.at(x as int, y as int));
            assert(cb.at(x as int, y as int) == c0.at(x as int, y as int));
            let d = depth(x, y);
            let stored: u64 = *self.z_buffer.get(x, y);
            if d <= stored {
                *self.z_buffer.get_mut(x, y) = d;
                *screen.get_mut(x, y) = color;
            }
            assert((self.z_buffer.at(x as int, y as int), screen.at(x as int, y as int)) == resolve(
                z0.at(x as int, y as int),
                c0.at(x as int, y as int),
                d,
                color,
            ));
            assert forall|xx: int, yy: int|
                0 <= xx < width && 0 <= yy < height && !(xx == x && yy == y) implies
                #[trigger] self.z_buffer.at(xx, yy) == zb.at(xx, yy) && screen.at(xx, yy) == cb.at(
                    xx,
                    yy,
                ) by {
                lemma_pixel_index_bounds(width as int, height as int, xx, yy);
                if pixel_index(width as int, xx, yy) == pixel_index(width as int, x as int, y as int) {
                    lemma_pixel_index_unique(width as int, xx, yy, x as int, y as int);
                }
            }
            assert((*depth).ensures(((x as int) as usize, (y as int) as usize), d));
            assert(drawn(
                *depth,
                x as int,
                y as int,
                color,
                z0.at(x as int, y as int),
                c0.at(x as int, y as int),
                self.z_buffer.at(x as int, y as int),
                screen.at(x as int, y as int),
            ));
            assert forall|xx: int, yy: int|
                0 <= xx < width && 0 <= yy < height && yy == y && x_min <= xx < x + 1 implies drawn(
                *depth,
                xx,
                yy,
                color,
                z0.at(xx, yy),
                c0.at(xx, yy),
                #[trigger] self.z_buffer.at(xx, yy),
                screen.at(xx, yy),
            ) by {
                if xx != x {
                    assert(self.z_buffer.at(xx, yy) == zb.at(xx, yy));
                }
            }
            x = x + 1;
        }
    }

    /// Draws one triangle whose corners are the screen pixels `points`: traces its three
    /// edges into the span table, runs the depth test with color `color` over every pixel
    /// of each row's visible span, taking the pixel's depth from `depth(x, y)`, and unsets
    /// the spans again.
    pub fn draw_triangle<F: Fn(usize, usize) -> u64>(
        &mut self,
        screen: &mut Buffer2D<Color>,
        points: [(i32, i32); 3],
        color: Color,
        depth: F,
    )
        requires
            old(self).ready(old(screen).width as int, old(screen).height as int),
            old(screen).wf(),
            forall|x: usize, y: usize| depth.requires((x, y)),
        ensures
            final(self).ready(old(screen).width as int, old(screen).height as int),
            final(screen).wf(),
            final(screen).width == old(screen).width,
            final(screen).height == old(screen).height,
            forall|x: int, y: int|
                covers(points, x, y, old(screen).width as int, old(screen).height as int) ==> drawn(
                    depth,
                    x,
                    y,
                    color,
                    old(self).z_buffer.at(x, y),
                    old(screen).at(x, y),
                    #[trigger] final(self).z_buffer.at(x, y),
                    final(screen).at(x, y),
                ),
            forall|x: int, y: int|
                0 <= x < old(screen).width && 0 <= y < old(screen).height && !covers(
                    points,
                    x,
                    y,
                    old(screen).width as int,
                    old(screen).height as int,
                ) ==> #[trigger] final(self).z_buffer.at(x, y) == old(self).z_buffer.at(x, y),
            forall|x: int, y: int|
                0 <= x < old(screen).width && 0 <= y < old(screen).height && !covers(
                    points,
                    x,
                    y,
                    old(screen).width as int,
                    old(screen).height as int,
                ) ==> #[trigger] final(screen).at(x, y) == old(screen).at(x, y),
    {
        let ghost z0 = self.z_buffer;
        let ghost c0 = *screen;
        let width = screen.width;
        let height = screen.height;
        self.trace_edge(points[0], points[1], height);
        self.trace_edge(points[1], points[2], height);
        self.trace_edge(points[2], points[0], height);
        assert forall|yy: int| 0 <= yy < height implies #[trigger] self.horizontal_line_buffer@[yy]
            == triangle_span(points, yy, height as int) by {}
        let (a, b, c) = (points[0].1, points[1].1, points[2].1);
        let top: i32 = if a <= b && a <= c {
            a
        } else if b <= c {
            b
        } else {
            c
        };
        let bottom: i32 = if a >= b && a >= c {
            a
        } else if b >= c {
            b
        } else {
            c
        };
        let last_row: i32 = (height - 1) as i32;
        let y_min: usize = if top < 0 {
            0
        } else if top > last_row {
            last_row as usize
        } else {
            top as usize
        };
        let y_max: usize = if bottom < 0 {
            0
        } else if bottom > last_row {
            last_row as usize
        } else {
            bottom as usize
        };
        proof {
            assert forall|yy: int| 0 <= yy < height && #[trigger] triangle_span(points, yy, height as int) is Some
                implies y_min <= yy <= y_max by {
                lemma_span_rows(points, yy, height as int);
            }
        }
        let w: i32 = width as i32;
        let mut y: usize = y_min;
        while y <= y_max
            invariant
                self.sized(width as int, height as int),
                screen.wf(),
                screen.width == width,
                screen.height == height,
                z0 == old(self).z_buffer,
                c0 == *old(screen),
                c0.width == width,
                c0.height == height,
                w == width,
                y_min <= y <= y_max + 1,
                y_max < height,
                forall|x: usize, y: usize| depth.requires((x, y)),
                forall|yy: int|
                    0 <= yy < height ==> #[trigger] self.horizontal_line_buffer@[yy]
                        == triangle_span(points, yy, height as int),
                forall|xx: int, yy: int|
                    y_min <= yy < y && covers(points, xx, yy, width as int, height as int) ==> drawn(
                        depth,
                        xx,
                        yy,
                        color,
                        z0.at(xx, yy),
                        c0.at(xx, yy),
                        #[trigger] self.z_buffer.at(xx, yy),
                        screen.at(xx, yy),
                    ),
                forall|xx: int, yy: int|
                    0 <= xx < width && 0 <= yy < height && !(y_min <= yy < y && covers(
                        points,
                        xx,
                        yy,
                        width as int,
                        height as int,
                    )) ==> {
                        &&& #[trigger] self.z_buffer.at(xx, yy) == z0.at(xx, yy)
                        &&& screen.at(xx, yy) == c0.at(xx, yy)
                    },
            decreases y_max + 1 - y,
        {
            let ghost zb = self.z_buffer;
            let ghost cb = *screen;
            match self.horizontal_line_buffer[y] {
                Some((lo, hi)) => {
                    if !(lo < 0 && hi < 0 || lo >= w && hi >= w) {
                        let x_min: usize = if lo < 0 {
                            0
                        } else if lo > w - 1 {
                            (w - 1) as usize
                        } else {
                            lo as usize
                        };
                        let x_max: usize = if hi < 0 {
                            0
                        } else if hi > w - 1 {
                            (w - 1) as usize
                        } else {
                            hi as usize
                        };
                        self.fill_span(screen, y, x_min, x_max, color, &depth);
                        assert forall|xx: int, yy: int|
                            y_min <= yy < y + 1 && covers(points, xx, yy, width as int, height as int)
                                implies drawn(
                            depth,
                            xx,
                            yy,
                            color,
                            z0.at(xx, yy),
                            c0.at(xx, yy),
                            #[trigger] self.z_buffer.at(xx, yy),
                            screen.at(xx, yy),
                        ) by {
                            if yy != y {
                                assert(self.z_buffer.at(xx, yy) == zb.at(xx, yy));
                            }
                        }
                    }
                },
                None => {},
            }
            y = y + 1;
        }
        let ghost filled = self.z_buffer;
        let mut y: usize = y_min;
        while y <= y_max
            invariant
                self.sized(width as int, height as int),
                self.z_buffer == filled,
                y_min <= y <= y_max + 1,
                y_max < height,
                forall|yy: int|
                    0 <= yy < height ==> #[trigger] self.horizontal_line_buffer@[yy] == if y_min
                        <= yy < y {
                        None
                    } else {
                        triangle_span(points, yy, height as int)
                    },
            decreases y_max + 1 - y,
        {
            self.horizontal_line_buffer.set(y, None);
            y = y + 1;
        }
        assert forall|x: int, y: int|
            0 <= x < width && 0 <= y < height && !covers(points, x, y, width as int, height as int)
                implies #[trigger] self.z_buffer.at(x, y) == z0.at(x, y) by {
            assert(filled.at(x, y) == z0.at(x, y));
        }
        assert forall|x: int, y: int|
            0 <= x < width && 0 <= y < height && !covers(points, x, y, width as int, height as int)
                implies #[trigger] screen.at(x, y) == c0.at(x, y) by {
            assert(filled.at(x, y) == z0.at(x, y));
        }
    }
}

} // verus!
