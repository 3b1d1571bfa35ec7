use vstd::prelude::*;
use core::ops::RangeInclusive;

verus! {

/// Relies on `RangeInclusive::start`: it returns the lower bound that the range was made with.
pub assume_specification<Idx>[ RangeInclusive::<Idx>::start ](r: &RangeInclusive<Idx>) -> (ret:
    &Idx)
    ensures
        !r@.exhausted ==> *ret == r@.start,
;

/// Relies on `RangeInclusive::end`: it returns the upper bound that the range was made with.
pub assume_specification<Idx>[ RangeInclusive::<Idx>::end ](r: &RangeInclusive<Idx>) -> (ret:
    &Idx)
    ensures
        !r@.exhausted ==> *ret == r@.end,
;

/// Position of the cell `(x, y)` in a row-major store whose rows are `width` long.
pub open spec fn pixel_index(width: int, x: int, y: int) -> int {
    y * width + x
}

/// A cell of a row-major grid lies inside the store.
pub proof fn lemma_pixel_index_bounds(width: int, height: int, x: int, y: int)
    requires
        0 <= x < width,
        0 <= y < height,
    ensures
        0 <= y * width <= pixel_index(width, x, y) < width * height,
        pixel_index(width, x, y) + (width - x) <= width * height,
{
    assert(y * width + width <= width * height) by (nonlinear_arith)
        requires
            0 <= y < height,
            0 <= width,
    ;
    assert(0 <= y * width) by (nonlinear_arith)
        requires
            0 <= y,
            0 <= width,
    ;
}

/// A run of `n` cells of row `y` starting at column `x` lies inside the store.
pub proof fn lemma_row_span_bounds(width: int, height: int, x: int, n: int, y: int)
    requires
        0 <= x,
        0 <= n,
        x + n <= width,
        0 <= y < height,
    ensures
        0 <= y * width <= pixel_index(width, x, y),
        pixel_index(width, x, y) + n <= width * height,
{
    assert(y * width + width <= width * height) by (nonlinear_arith)
        requires
            0 <= y < height,
            0 <= width,
    ;
    assert(0 <= y * width) by (nonlinear_arith)
        requires
            0 <= y,
            0 <= width,
    ;
}

/// Two cells of one row-major grid with the same position are the same cell.
pub proof fn lemma_pixel_index_unique(width: int, x1: int, y1: int, x2: int, y2: int)
    requires
        0 <= x1 < width,
        0 <= x2 < width,
        0 <= y1,
        0 <= y2,
        pixel_index(width, x1, y1) == pixel_index(width, x2, y2),
    ensures
        x1 == x2,
        y1 == y2,
{
    if y1 < y2 {
        assert(y1 * width + width <= y2 * width) by (nonlinear_arith)
            requires
                y1 < y2,
                0 <= width,
        ;
    } else if y2 < y1 {
        assert(y2 * width + width <= y1 * width) by (nonlinear_arith)
            requires
                y2 < y1,
                0 <= width,
        ;
    }
}

/// A flat row-major 2D array: the cell `(x, y)` is `data[y * width + x]`.
#[derive(Debug, Default)]
pub struct Buffer2D<T> {
    pub width: usize,
    pub height: usize,
    pub data: Vec<T>,
}

impl<T> Buffer2D<T> {
    /// The store holds exactly one value per cell.
    pub open spec fn wf(&self) -> bool {
        &&& self.data@.len() == self.width * self.height
        &&& self.width * self.height <= usize::MAX
    }

    /// The value of the cell `(x, y)`.
    pub open spec fn at(&self, x: int, y: int) -> T {
        self.data@[pixel_index(self.width as int, x, y)]
    }

    /// Resizes to `width` by `height` and sets every cell to `default`.
    pub fn clear_and_resize(&mut self, width: usize, height: usize, default: T)
        where
            T: Copy,
        requires
            width * height <= usize::MAX,
        ensures
            final(self).wf(),
            final(self).width == width,
            final(self).height == height,
            final(self).data@ == Seq::new((width * height) as nat, |i: int| default),
            forall|x: int, y: int|
                0 <= x < width && 0 <= y < height ==> #[trigger] final(self).at(x, y) == default,
    {
        let desired_len: usize = width * height;
        self.data.truncate(desired_len);
        let mut i: usize = 0;
        while i < self.data.len()
            invariant
                self.data@.len() <= desired_len,
                i <= self.data@.len(),
                forall|j: int| 0 <= j < i ==> self.data@[j] == default,
            decreases self.data@.len() - i,
        {
            self.data.set(i, default);
            i = i + 1;
        }
        while self.data.len() < desired_len
            invariant
                self.data@.len() <= desired_len,
                forall|j: int| 0 <= j < self.data@.len() ==> self.data@[j] == default,
            decreases desired_len - self.data@.len(),
        {
            self.data.push(default);
        }
        self.width = width;
        self.height = height;
        assert(self.data@ =~= Seq::new((width * height) as nat, |i: int| default));
        assert forall|x: int, y: int| 0 <= x < width && 0 <= y < height implies #[trigger] self.at(
            x,
            y,
        ) == default by {
            lemma_pixel_index_bounds(width as int, height as int, x, y);
        }
    }

    pub fn get(&self, x: usize, y: usize) -> (r: &T)
        requires
            self.wf(),
            x < self.width,
            y < self.height,
        ensures
            *r == self.at(x as int, y as int),
    {
        proof {
            lemma_pixel_index_bounds(self.width as int, self.height as int, x as int, y as int);
        }
        &self.data[y * self.width + x]
    }

    pub fn get_mut(&mut self, x: usize, y: usize) -> (r: &mut T)
        requires
            old(self).wf(),
            x < old(self).width,
            y < old(self).height,
        ensures
            *r == old(self).at(x as int, y as int),
            final(self).width == old(self).width,
            final(self).height == old(self).height,
            final(self).data@ == old(self).data@.update(
                pixel_index(old(self).width as int, x as int, y as int),
                *final(r),
            ),
    {
        proof {
            lemma_pixel_index_bounds(self.width as int, self.height as int, x as int, y as int);
        }
        let i: usize = y * self.width + x;
        &mut self.data[i]
    }

    /// The cells `r.start() ..= r.end()` of row `y`.
    pub fn get_range(&self, y: usize, r: RangeInclusive<usize>) -> (s: &[T])
        requires
            self.wf(),
            y < self.height,
            !r@.exhausted,
            r@.start <= r@.end < self.width,
        ensures
            s@ == self.data@.subrange(
                pixel_index(self.width as int, r@.start as int, y as int),
                pixel_index(self.width as int, r@.end as int, y as int) + 1,
            ),
    {
        proof {
            lemma_pixel_index_bounds(self.width as int, self.height as int, r@.end as int, y as int);
        }
        let lo: usize = y * self.width + *r.start();
        let hi: usize = y * self.width + *r.end() + 1;
        let all = self.data.as_slice();
        &all[lo..hi]
    }

    /// The cells `r.start() ..= r.end()` of row `y`, for writing.
    pub fn get_range_mut(&mut self, y: usize, r: RangeInclusive<usize>) -> (s: &mut [T])
        requires
            old(self).wf(),
            y < old(self).height,
            !r@.exhausted,
            r@.start <= r@.end < old(self).width,
        ensures
            s@ == old(self).data@.subrange(
                pixel_index(old(self).width as int, r@.start as int, y as int),
                pixel_index(old(self).width as int, r@.end as int, y as int) + 1,
            ),
            final(self).width == old(self).width,
            final(self).height == old(self).height,
            final(self).data@ == old(self).data@.subrange(
                0,
                pixel_index(old(self).width as int, r@.start as int, y as int),
            ) + final(s)@ + old(self).data@.subrange(
                pixel_index(old(self).width as int, r@.end as int, y as int) + 1,
                old(self).data@.len() as int,
            ),
    {
        proof {
            lemma_pixel_index_bounds(self.width as int, self.height as int, r@.end as int, y as int);
        }
        let lo: usize = y * self.width + *r.start();
        let hi: usize = y * self.width + *r.end() + 1;
        let all = self.data.as_mut_slice();
        let (_, tail) = all.split_at_mut(lo);
        let (mid, _) = tail.split_at_mut(hi - lo);
        mid
    }

    /// The rows `y .. y + height` of the block of `width` columns starting at column `x`.
    pub fn area(&self, x: usize, y: usize, width: usize, height: usize) -> (rows: Vec<&[T]>)
        requires
            self.wf(),
            x + width <= self.width,
            y + height <= self.height,
        ensures
            rows@.len() == height,
            forall|i: int|
                0 <= i < height ==> (#[trigger] rows@[i])@ == self.data@.subrange(
                    pixel_index(self.width as int, x as int, y + i),
                    pixel_index(self.width as int, x as int, y + i) + width,
                ),
    {
        let all = self.data.as_slice();
        let mut rows: Vec<&[T]> = Vec::new();
        let mut i: usize = 0;
        while i < height
            invariant
                self.wf(),
                x + width <= self.width,
                y + height <= self.height,
                all@ == self.data@,
                i <= height,
                rows@.len() == i,
                forall|j: int|
                    0 <= j < i ==> (#[trigger] rows@[j])@ == self.data@.subrange(
                        pixel_index(self.width as int, x as int, y + j),
                        pixel_index(self.width as int, x as int, y + j) + width,
                    ),
            decreases height - i,
        {
            proof {
                lemma_row_span_bounds(
                    self.width as int,
                    self.height as int,
                    x as int,
                    width as int,
                    (y + i) as int,
                );
            }
            let lo: usize = (y + i) * self.width + x;
            rows.push(&all[lo..lo + width]);
            i = i + 1;
        }
        rows
    }

    /// Rebuilds the buffer as `width` by `height` cells, cell `(x, y)` becoming `f(self, x, y)`.
    /// The cells are produced in row-major order and written in place, so `f` sees the
    /// values held before the call from the cell it produces onwards.
    pub fn condense<F>(&mut self, width: usize, height: usize, f: F)
        where
            F: Fn(&Buffer2D<T>, usize, usize) -> T,
        requires
            old(self).wf(),
            width * height <= old(self).data@.len(),
            forall|b: &Buffer2D<T>, x: usize, y: usize|
                x < width && y < height && b.wf() && b.width == old(self).width && b.height
                    == old(self).height ==> #[trigger] f.requires((b, x, y)),
        ensures
            final(self).wf(),
            final(self).width == width,
            final(self).height == height,
            forall|x: int, y: int|
                0 <= x < width && 0 <= y < height ==> #[trigger] old(self).produces(
                    f,
                    width as int,
                    x,
                    y,
                    final(self).at(x, y),
                ),
    {
        let ghost orig = *self;
        let mut i: usize = 0;
        let mut y: usize = 0;
        while y < height
            invariant
                self.wf(),
                self.width == orig.width,
                self.height == orig.height,
                self.data@.len() == orig.data@.len(),
                width * height <= orig.data@.len(),
                y <= height,
                i == y * width,
                forall|b: &Buffer2D<T>, x: usize, y: usize|
                    x < width && y < height && b.wf() && b.width == orig.width && b.height
                        == orig.height ==> #[trigger] f.requires((b, x, y)),
                forall|j: int| i <= j < self.data@.len() ==> self.data@[j] == orig.data@[j],
                forall|xx: int, yy: int|
                    0 <= xx < width && 0 <= yy < height && pixel_index(width as int, xx, yy) < i
                        ==> #[trigger] orig.produces(
                        f,
                        width as int,
                        xx,
                        yy,
                        self.data@[pixel_index(width as int, xx, yy)],
                    ),
            decreases height - y,
        {
            let mut x: usize = 0;
            while x < width
                invariant
                    self.wf(),
                    self.width == orig.width,
                    self.height == orig.height,
                    self.data@.len() == orig.data@.len(),
                    width * height <= orig.data@.len(),
                    y < height,
                    x <= width,
                    i == y * width + x,
                    forall|b: &Buffer2D<T>, x: usize, y: usize|
                        x < width && y < height && b.wf() && b.width == orig.width && b.height
                            == orig.height ==> #[trigger] f.requires((b, x, y)),
                    forall|j: int| i <= j < self.data@.len() ==> self.data@[j] == orig.data@[j],
                    forall|xx: int, yy: int|
                        0 <= xx < width && 0 <= yy < height && pixel_index(width as int, xx, yy)
                            < i ==> #[trigger] orig.produces(
                            f,
                            width as int,
                            xx,
                            yy,
                            self.data@[pixel_index(width as int, xx, yy)],
                        ),
                decreases width - x,
            {
                proof {
                    lemma_pixel_index_bounds(width as int, height as int, x as int, y as int);
                }
                let ghost before = *self;
                let ghost prev = self.data@;
                let v = f(&*self, x, y);
                assert(before.keeps_from(orig, pixel_index(width as int, x as int, y as int)));
                assert(orig.produces(f, width as int, x as int, y as int, v));
                self.data.set(i, v);
                assert forall|xx: int, yy: int|
                    0 <= xx < width && 0 <= yy < height && pixel_index(width as int, xx, yy) < i
                        + 1 implies #[trigger] orig.produces(
                    f,
                    width as int,
                    xx,
                    yy,
                    self.data@[pixel_index(width as int, xx, yy)],
                ) by {
                    if pixel_index(width as int, xx, yy) == i {
                        lemma_pixel_index_unique(width as int, xx, yy, x as int, y as int);
                    } else {
                        assert(orig.produces(
                            f,
                            width as int,
                            xx,
                            yy,
                            prev[pixel_index(width as int, xx, yy)],
                        ));
                    }
                }
                x = x + 1;
                i = i + 1;
            }
            assert((y + 1) * width == y * width + width) by (nonlinear_arith);
            y = y + 1;
        }
        let ghost full = self.data@;
        assert(i == width * height) by (nonlinear_arith)
            requires
                i == y * width,
                y == height,
        ;
        self.width = width;
        self.height = height;
        self.data.truncate(width * height);
        assert forall|x: int, y: int| 0 <= x < width && 0 <= y < height implies #[trigger] orig.produces(
            f,
            width as int,
            x,
            y,
            self.at(x, y),
        ) by {
            lemma_pixel_index_bounds(width as int, height as int, x, y);
            assert(orig.produces(f, width as int, x, y, full[pixel_index(width as int, x, y)]));
        }
    }

    /// `v` is what `f` gives for cell `(x, y)` of a `width`-wide result, when handed a buffer
    /// of the shape of `self` that still holds the values of `self` from that cell on.
    pub open spec fn produces<F>(self, f: F, width: int, x: int, y: int, v: T) -> bool
        where
            F: Fn(&Buffer2D<T>, usize, usize) -> T,
    {
        exists|b: Buffer2D<T>|
            #[trigger] b.keeps_from(self, pixel_index(width, x, y)) && f.ensures(
                (&b, x as usize, y as usize),
                v,
            )
    }

    /// `self` has the shape of `orig` and still holds its values from position `start` on.
    pub open spec fn keeps_from(self, orig: Buffer2D<T>, start: int) -> bool {
        &&& self.wf()
        &&& self.width == orig.width
        &&& self.height == orig.height
        &&& self.data@.len() == orig.data@.len()
        &&& forall|j: int| start <= j < self.data@.len() ==> self.data@[j] == orig.data@[j]
    }
}

/// After `clear_and_resize(width, height, default)` every cell that `get` can read holds
/// `default`.
pub proof fn lemma_cleared_cells_read_default<T>(
    b: Buffer2D<T>,
    width: usize,
    height: usize,
    default: T,
    x: int,
    y: int,
)
    requires
        b.wf(),
        b.width == width,
        b.height == height,
        b.data@ == Seq::new((width * height) as nat, |i: int| default),
        0 <= x < width,
        0 <= y < height,
    ensures
        b.at(x, y) == default,
{
    lemma_pixel_index_bounds(width as int, height as int, x, y);
}

/// Two buffers of one shape that agree at every cell hold the same store.
pub proof fn lemma_cells_determine_store<T>(a: Buffer2D<T>, b: Buffer2D<T>)
    requires
        a.wf(),
        b.wf(),
        a.width == b.width,
        a.height == b.height,
        forall|x: int, y: int| 0 <= x < a.width && 0 <= y < a.height ==> #[trigger] a.at(x, y) == b.at(x, y),
    ensures
        a.data@ == b.data@,
{
    let w = a.width as int;
    let h = a.height as int;
    assert forall|i: int| 0 <= i < a.data@.len() implies a.data@[i] == b.data@[i] by {
        let x = i % w;
        let y = i / w;
        assert(w > 0) by (nonlinear_arith)
            requires
                0 <= i < w * h,
                0 <= h,
        ;
        assert(0 <= x < w && 0 <= y && i == y * w + x) by (nonlinear_arith)
            requires
                w > 0,
                0 <= i,
                x == i % w,
                y == i / w,
        ;
        assert(y < h) by (nonlinear_arith)
            requires
                i == y * w + x,
                0 <= x,
                i < w * h,
                w > 0,
        ;
        assert(a.at(x, y) == b.at(x, y));
    }
    assert(a.data@ =~= b.data@);
}

} // verus!
