use vstd::prelude::*;
use crate::buffer::{Buffer2D, pixel_index, lemma_row_span_bounds, lemma_cells_determine_store};
use crate::color::{Color, pack_rgb, lemma_repack};

verus! {

/// The sum of channel `ch` over the `n` pixels of `s` from position `start` on.
pub open spec fn run_sum(s: Seq<Color>, start: int, n: nat, ch: int) -> int
    decreases n,
{
    if n == 0 {
        0
    } else {
        run_sum(s, start, (n - 1) as nat, ch) + s[start + n - 1].channel(ch)
    }
}

/// The sum of channel `ch` over the first `rows` rows of the block `k` pixels wide whose top
/// left pixel is `(x0, y0)`, in a row-major store `stride` pixels wide.
pub open spec fn block_sum(
    s: Seq<Color>,
    stride: int,
    x0: int,
    y0: int,
    k: nat,
    rows: nat,
    ch: int,
) -> int
    decreases rows,
{
    if rows == 0 {
        0
    } else {
        block_sum(s, stride, x0, y0, k, (rows - 1) as nat, ch) + run_sum(
            s,
            pixel_index(stride, x0, y0 + rows - 1),
            k,
            ch,
        )
    }
}

/// The truncated mean of channel `ch` over the `k` by `k` block at `(x0, y0)`.
pub open spec fn block_mean(s: Seq<Color>, stride: int, x0: int, y0: int, k: nat, ch: int) -> int {
    block_sum(s, stride, x0, y0, k, k, ch) / (k * k) as int
}

/// The color whose channels are the truncated means of the `k` by `k` block at `(x0, y0)`.
pub open spec fn mean_color(s: Seq<Color>, stride: int, x0: int, y0: int, k: nat) -> Color {
    Color(
        pack_rgb(
            block_mean(s, stride, x0, y0, k, 0),
            block_mean(s, stride, x0, y0, k, 1),
            block_mean(s, stride, x0, y0, k, 2),
        ) as u32,
    )
}

proof fn lemma_channel_bounds(c: Color, ch: int)
    ensures
        0 <= c.channel(ch) <= 255,
{
}

proof fn lemma_run_sum_bounds(s: Seq<Color>, start: int, n: nat, ch: int)
    ensures
        0 <= run_sum(s, start, n, ch) <= 255 * n,
    decreases n,
{
    if n > 0 {
        lemma_run_sum_bounds(s, start, (n - 1) as nat, ch);
        lemma_channel_bounds(s[start + n - 1], ch);
    }
}

proof fn lemma_block_sum_bounds(
    s: Seq<Color>,
    stride: int,
    x0: int,
    y0: int,
    k: nat,
    rows: nat,
    ch: int,
)
    ensures
        0 <= block_sum(s, stride, x0, y0, k, rows, ch) <= 255 * k * rows,
    decreases rows,
{
    if rows > 0 {
        lemma_block_sum_bounds(s, stride, x0, y0, k, (rows - 1) as nat, ch);
        lemma_run_sum_bounds(s, pixel_index(stride, x0, y0 + rows - 1), k, ch);
        assert(255 * k * (rows - 1) + 255 * k == 255 * k * rows) by (nonlinear_arith);
    }
}

/// The mean of a block is a channel value.
proof fn lemma_block_mean_bounds(s: Seq<Color>, stride: int, x0: int, y0: int, k: nat, ch: int)
    requires
        k >= 1,
    ensures
        0 <= block_mean(s, stride, x0, y0, k, ch) <= 255,
{
    lemma_block_sum_bounds(s, stride, x0, y0, k, k, ch);
    let t = block_sum(s, stride, x0, y0, k, k, ch);
    let kk = (k * k) as int;
    assert(kk >= 1) by (nonlinear_arith)
        requires
            k >= 1,
            kk == k * k,
    ;
    assert(t <= 255 * kk) by (nonlinear_arith)
        requires
            t <= 255 * k * k,
            kk == k * k,
    ;
    assert(0 <= t / kk <= 255) by (nonlinear_arith)
        requires
            0 <= t <= 255 * kk,
            kk >= 1,
    ;
}

/// Averages each channel over the `k` by `k` block of `buf` whose top left pixel is
/// `(x0, y0)`, truncating.
pub fn block_average(buf: &Buffer2D<Color>, x0: usize, y0: usize, k: usize) -> (c: Color)
    requires
        buf.wf(),
        1 <= k <= 255,
        x0 + k <= buf.width,
        y0 + k <= buf.height,
    ensures
        c == mean_color(buf.data@, buf.width as int, x0 as int, y0 as int, k as nat),
        c.is_rgb(),
{
    let ghost s = buf.data@;
    let ghost stride = buf.width as int;
    let rows = buf.area(x0, y0, k, k);
    let mut sr: u32 = 0;
    let mut sg: u32 = 0;
    let mut sb: u32 = 0;
    let mut i: usize = 0;
    while i < k
        invariant
            buf.wf(),
            s == buf.data@,
            stride == buf.width,
            1 <= k <= 255,
            x0 + k <= buf.width,
            y0 + k <= buf.height,
            rows@.len() == k,
            forall|r: int|
                0 <= r < k ==> (#[trigger] rows@[r])@ == s.subrange(
                    pixel_index(stride, x0 as int, y0 + r),
                    pixel_index(stride, x0 as int, y0 + r) + k,
                ),
            i <= k,
            sr == block_sum(s, stride, x0 as int, y0 as int, k as nat, i as nat, 0),
            sg == block_sum(s, stride, x0 as int, y0 as int, k as nat, i as nat, 1),
            sb == block_sum(s, stride, x0 as int, y0 as int, k as nat, i as nat, 2),
        decreases k - i,
    {
        let row: &[Color] = rows[i];
        let ghost start = pixel_index(stride, x0 as int, y0 + i);
        proof {
            lemma_row_span_bounds(stride, buf.height as int, x0 as int, k as int, (y0 + i) as int);
            lemma_block_sum_bounds(s, stride, x0 as int, y0 as int, k as nat, i as nat, 0);
            lemma_block_sum_bounds(s, stride, x0 as int, y0 as int, k as nat, i as nat, 1);
            lemma_block_sum_bounds(s, stride, x0 as int, y0 as int, k as nat, i as nat, 2);
            assert(255 * k * i <= 255 * 255 * 255) by (nonlinear_arith)
                requires
                    k <= 255,
                    i < k,
            ;
        }
        let mut j: usize = 0;
        while j < k
            invariant
                1 <= k <= 255,
                i < k,
                row@ == s.subrange(start, start + k),
                0 <= start,
                start + k <= s.len(),
                j <= k,
                sr == block_sum(s, stride, x0 as int, y0 as int, k as nat, i as nat, 0) + run_sum(
                    s,
                    start,
                    j as nat,
                    0,
                ),
                sg == block_sum(s, stride, x0 as int, y0 as int, k as nat, i as nat, 1) + run_sum(
                    s,
                    start,
                    j as nat,
                    1,
                ),
                sb == block_sum(s, stride, x0 as int, y0 as int, k as nat, i as nat, 2) + run_sum(
                    s,
                    start,
                    j as nat,
                    2,
                ),
                block_sum(s, stride, x0 as int, y0 as int, k as nat, i as nat, 0) <= 255 * 255 * 255,
                block_sum(s, stride, x0 as int, y0 as int, k as nat, i as nat, 1) <= 255 * 255 * 255,
                block_sum(s, stride, x0 as int, y0 as int, k as nat, i as nat, 2) <= 255 * 255 * 255,
            decreases k - j,
        {
            proof {
                lemma_run_sum_bounds(s, start, j as nat, 0);
                lemma_run_sum_bounds(s, start, j as nat, 1);
                lemma_run_sum_bounds(s, start, j as nat, 2);
            }
            let (r, g, b) = row[j].rgb();
            assert(row@[j as int] == s[start + j]);
            sr = sr + r as u32;
            sg = sg + g as u32;
            sb = sb + b as u32;
            j = j + 1;
        }
        i = i + 1;
    }
    proof {
        lemma_block_mean_bounds(s, stride, x0 as int, y0 as int, k as nat, 0);
        lemma_block_mean_bounds(s, stride, x0 as int, y0 as int, k as nat, 1);
        lemma_block_mean_bounds(s, stride, x0 as int, y0 as int, k as nat, 2);
        assert(1 <= k * k <= 255 * 255) by (nonlinear_arith)
            requires
                1 <= k <= 255,
        ;
    }
    let area: u32 = (k * k) as u32;
    Color::from_rgb((sr / area) as u8, (sg / area) as u8, (sb / area) as u8)
}

proof fn lemma_run_sum_agree(s1: Seq<Color>, s2: Seq<Color>, start: int, n: nat, ch: int)
    requires
        forall|j: int| start <= j < start + n ==> s1[j] == s2[j],
    ensures
        run_sum(s1, start, n, ch) == run_sum(s2, start, n, ch),
    decreases n,
{
    if n > 0 {
        lemma_run_sum_agree(s1, s2, start, (n - 1) as nat, ch);
    }
}

/// A block sum reads only the block: two stores that agree from a position at or before the
/// block's first pixel on give the same sum.
proof fn lemma_block_sum_agree(
    s1: Seq<Color>,
    s2: Seq<Color>,
    stride: int,
    height: int,
    x0: int,
    y0: int,
    k: nat,
    rows: nat,
    ch: int,
    from: int,
)
    requires
        s1.len() == s2.len(),
        s1.len() == stride * height,
        0 <= x0,
        0 <= y0,
        x0 + k <= stride,
        y0 + rows <= height,
        from <= pixel_index(stride, x0, y0),
        forall|j: int| from <= j < s1.len() ==> s1[j] == s2[j],
    ensures
        block_sum(s1, stride, x0, y0, k, rows, ch) == block_sum(s2, stride, x0, y0, k, rows, ch),
    decreases rows,
{
    if rows > 0 {
        lemma_block_sum_agree(s1, s2, stride, height, x0, y0, k, (rows - 1) as nat, ch, from);
        let r = y0 + rows - 1;
        lemma_row_span_bounds(stride, height, x0, k as int, r);
        assert(pixel_index(stride, x0, y0) <= pixel_index(stride, x0, r)) by (nonlinear_arith)
            requires
                y0 <= r,
                0 <= stride,
        ;
        lemma_run_sum_agree(s1, s2, pixel_index(stride, x0, r), k, ch);
    }
}

/// A decorator that renders `aliasing` by `aliasing` samples per output pixel and
/// box-filters them down.
pub struct Antialias<R> {
    pub raster: R,
    pub aliasing: u8,
}

impl<R> Antialias<R> {
    pub fn new(raster: R, aliasing: u8) -> (a: Antialias<R>)
        ensures
            a.raster == raster,
            a.aliasing == aliasing,
    {
        Antialias { raster, aliasing }
    }

    /// The size at which to render the samples of a `width` by `height` frame: each side
    /// times `aliasing`, or `None` when a side would not fit in a `u16`.
    pub fn sample_size(&self, width: u16, height: u16) -> (r: Option<(u16, u16)>)
        ensures
            r == if self.aliasing * width <= 0xffff && self.aliasing * height <= 0xffff {
                Some(((self.aliasing * width) as u16, (self.aliasing * height) as u16))
            } else {
                None
            },
    {
        let k: u32 = self.aliasing as u32;
        assert(k * width <= 0xff * 0xffff && k * height <= 0xff * 0xffff) by (nonlinear_arith)
            requires
                k <= 0xff,
                width <= 0xffff,
                height <= 0xffff,
        ;
        let sample_width: u32 = k * width as u32;
        let sample_height: u32 = k * height as u32;
        if sample_width <= 0xffff && sample_height <= 0xffff {
            Some((sample_width as u16, sample_height as u16))
        } else {
            None
        }
    }

    /// Turns a frame rendered at `aliasing` times the size into a `width` by `height` frame:
    /// each output pixel is the truncated per-channel mean of its block of samples.
    pub fn condense_samples(&self, screen: &mut Buffer2D<Color>, width: u16, height: u16)
        requires
            self.aliasing >= 1,
            old(screen).wf(),
            old(screen).width == self.aliasing * width,
            old(screen).height == self.aliasing * height,
        ensures
            final(screen).wf(),
            final(screen).width == width,
            final(screen).height == height,
            forall|x: int, y: int|
                0 <= x < width && 0 <= y < height ==> #[trigger] final(screen).at(x, y)
                    == mean_color(
                    old(screen).data@,
                    old(screen).width as int,
                    self.aliasing * x,
                    self.aliasing * y,
                    self.aliasing as nat,
                ),
    {
        let ghost orig = *screen;
        let k: usize = self.aliasing as usize;
        let w: usize = width as usize;
        let h: usize = height as usize;
        let sample_width: usize = screen.width;
        let sample_height: usize = screen.height;
        proof {
            assert(w * h <= k * w * (k * h)) by (nonlinear_arith)
                requires
                    k >= 1,
            ;
            assert(k * w * (k * h) == sample_width * sample_height);
        }
        let average = |buf: &Buffer2D<Color>, x: usize, y: usize| -> (c: Color)
                requires
                    buf.wf(),
                    buf.width == sample_width,
                    buf.height == sample_height,
                    sample_width == k * w,
                    sample_height == k * h,
                    1 <= k <= 255,
                    x < w,
                    y < h,
                    w <= 0xffff,
                    h <= 0xffff,
                ensures
                    c == mean_color(
                        buf.data@,
                        buf.width as int,
                        (k * x) as int,
                        (k * y) as int,
                        k as nat,
                    ),
                {
                    proof {
                        assert(k * x + k <= k * w && k * x <= 255 * 0xffff) by (nonlinear_arith)
                            requires
                                x < w,
                                w <= 0xffff,
                                1 <= k <= 255,
                        ;
                        assert(k * y + k <= k * h && k * y <= 255 * 0xffff) by (nonlinear_arith)
                            requires
                                y < h,
                                h <= 0xffff,
                                1 <= k <= 255,
                        ;
                    }
                    block_average(buf, k * x, k * y, k)
                };
        screen.condense(w, h, average);
        assert forall|x: int, y: int| 0 <= x < width && 0 <= y < height implies #[trigger] screen.at(
            x,
            y,
        ) == mean_color(orig.data@, orig.width as int, k * x, k * y, k as nat) by {
            assert(orig.produces(average, w as int, x, y, screen.at(x, y)));
            let b = choose|b: Buffer2D<Color>|
                #[trigger] b.keeps_from(orig, pixel_index(w as int, x, y)) && average.ensures(
                    (&b, x as usize, y as usize),
                    screen.at(x, y),
                );
            assert(pixel_index(w as int, x, y) <= pixel_index(sample_width as int, k * x, k * y))
                by (nonlinear_arith)
                requires
                    sample_width == k * w,
                    1 <= k,
                    0 <= x,
                    0 <= y,
                    0 <= w,
            ;
            assert(0 <= k * x && k * x + k <= sample_width && 0 <= k * y && k * y + k <= sample_height)
                by (nonlinear_arith)
                requires
                    sample_width == k * w,
                    sample_height == k * h,
                    1 <= k,
                    0 <= x < w,
                    0 <= y < h,
            ;
            lemma_block_sum_agree(b.data@, orig.data@, sample_width as int, sample_height as int, k * x, k * y, k as nat, k as nat, 0, pixel_index(w as int, x, y));
            lemma_block_sum_agree(b.data@, orig.data@, sample_width as int, sample_height as int, k * x, k * y, k as nat, k as nat, 1, pixel_index(w as int, x, y));
            lemma_block_sum_agree(b.data@, orig.data@, sample_width as int, sample_height as int, k * x, k * y, k as nat, k as nat, 2, pixel_index(w as int, x, y));
        }
    }
}

proof fn lemma_uniform_run_sum(s: Seq<Color>, start: int, n: nat, ch: int, c: Color)
    requires
        forall|j: int| start <= j < start + n ==> s[j] == c,
    ensures
        run_sum(s, start, n, ch) == n * c.channel(ch),
    decreases n,
{
    if n > 0 {
        lemma_uniform_run_sum(s, start, (n - 1) as nat, ch, c);
        assert(s[start + n - 1] == c);
        let v = c.channel(ch);
        assert(((n - 1) as nat) * v + v == n * v) by (nonlinear_arith)
            requires
                n > 0,
        ;
    } else {
        assert(n * c.channel(ch) == 0) by (nonlinear_arith)
            requires
                n == 0,
        ;
    }
}

proof fn lemma_uniform_block_sum(
    s: Seq<Color>,
    stride: int,
    x0: int,
    y0: int,
    k: nat,
    rows: nat,
    ch: int,
    c: Color,
)
    requires
        forall|r: int, j: int|
            0 <= r < rows && 0 <= j < k ==> #[trigger] s[pixel_index(stride, x0, y0 + r) + j] == c,
    ensures
        block_sum(s, stride, x0, y0, k, rows, ch) == rows * k * c.channel(ch),
    decreases rows,
{
    if rows > 0 {
        lemma_uniform_block_sum(s, stride, x0, y0, k, (rows - 1) as nat, ch, c);
        let start = pixel_index(stride, x0, y0 + rows - 1);
        assert forall|j: int| start <= j < start + k implies s[j] == c by {
            assert(s[pixel_index(stride, x0, y0 + (rows - 1)) + (j - start)] == c);
        }
        lemma_uniform_run_sum(s, start, k, ch, c);
        let v = c.channel(ch);
        assert(((rows - 1) as nat) * k * v + k * v == rows * k * v) by (nonlinear_arith)
            requires
                rows > 0,
        ;
    } else {
        assert(rows * k * c.channel(ch) == 0) by (nonlinear_arith)
            requires
                rows == 0,
        ;
    }
}

/// The mean of a block whose pixels all have one color is that color.
pub proof fn lemma_uniform_block_mean(s: Seq<Color>, stride: int, x0: int, y0: int, k: nat, c: Color)
    requires
        k >= 1,
        c.is_rgb(),
        forall|r: int, j: int|
            0 <= r < k && 0 <= j < k ==> #[trigger] s[pixel_index(stride, x0, y0 + r) + j] == c,
    ensures
        mean_color(s, stride, x0, y0, k) == c,
{
    assert forall|ch: int| block_mean(s, stride, x0, y0, k, ch) == c.channel(ch) by {
        lemma_uniform_block_sum(s, stride, x0, y0, k, k, ch, c);
        let v = c.channel(ch);
        assert((k * k * v) / ((k * k) as int) == v) by (nonlinear_arith)
            requires
                k >= 1,
        ;
    }
    assert(block_mean(s, stride, x0, y0, k, 0) == c.channel(0));
    assert(block_mean(s, stride, x0, y0, k, 1) == c.channel(1));
    assert(block_mean(s, stride, x0, y0, k, 2) == c.channel(2));
    lemma_repack(c);
}

/// Box-filtering a frame whose samples all have one color gives that color at every output
/// pixel, whatever the number of samples per side.
pub proof fn lemma_uniform_frame_condenses_to_its_color(
    frame: Buffer2D<Color>,
    k: nat,
    width: int,
    height: int,
    c: Color,
)
    requires
        frame.wf(),
        k >= 1,
        0 <= width,
        0 <= height,
        frame.width == k * width,
        frame.height == k * height,
        c.is_rgb(),
        forall|x: int, y: int|
            0 <= x < frame.width && 0 <= y < frame.height ==> #[trigger] frame.at(x, y) == c,
    ensures
        forall|x: int, y: int|
            0 <= x < width && 0 <= y < height ==> #[trigger] mean_color(
                frame.data@,
                frame.width as int,
                k * x,
                k * y,
                k,
            ) == c,
{
    assert forall|x: int, y: int| 0 <= x < width && 0 <= y < height implies #[trigger] mean_color(
        frame.data@,
        frame.width as int,
        k * x,
        k * y,
        k,
    ) == c by {
        assert forall|r: int, j: int| 0 <= r < k && 0 <= j < k implies #[trigger] frame.data@[pixel_index(
            frame.width as int,
            k * x,
            k * y + r,
        ) + j] == c by {
            assert(0 <= k * x + j < k * width && 0 <= k * y + r < k * height) by (nonlinear_arith)
                requires
                    0 <= x < width,
                    0 <= y < height,
                    0 <= r < k,
                    0 <= j < k,
            ;
            assert(pixel_index(frame.width as int, k * x, k * y + r) + j == pixel_index(
                frame.width as int,
                k * x + j,
                k * y + r,
            ));
            assert(frame.at(k * x + j, k * y + r) == c);
        }
        lemma_uniform_block_mean(frame.data@, frame.width as int, k * x, k * y, k, c);
    }
}

/// With one sample per pixel, box-filtering leaves a frame of plain RGB colors exactly as it was.
pub proof fn lemma_single_sample_keeps_frame(frame: Buffer2D<Color>, out: Buffer2D<Color>)
    requires
        frame.wf(),
        out.wf(),
        out.width == frame.width,
        out.height == frame.height,
        forall|x: int, y: int|
            0 <= x < frame.width && 0 <= y < frame.height ==> (#[trigger] frame.at(x, y)).is_rgb(),
        forall|x: int, y: int|
            0 <= x < frame.width && 0 <= y < frame.height ==> #[trigger] out.at(x, y) == mean_color(
                frame.data@,
                frame.width as int,
                1 * x,
                1 * y,
                1,
            ),
    ensures
        out.data@ == frame.data@,
{
    assert forall|x: int, y: int| 0 <= x < frame.width && 0 <= y < frame.height implies #[trigger] out.at(
        x,
        y,
    ) == frame.at(x, y) by {
        let c = frame.at(x, y);
        assert(frame.data@[pixel_index(frame.width as int, 1 * x, 1 * y + 0) + 0] == c);
        lemma_uniform_block_mean(frame.data@, frame.width as int, 1 * x, 1 * y, 1, c);
        assert(out.at(x, y) == mean_color(frame.data@, frame.width as int, 1 * x, 1 * y, 1));
    }
    lemma_cells_determine_store(out, frame);
}

} // verus!
