use vstd::prelude::*;

verus! {

/// Every pixel has three accumulators: red, green and blue.
pub const COMPONENTS_PER_PIXEL: usize = 3;

/// Where the accumulators of the pixel in column `x` of row `y` begin, in an
/// image `width` pixels wide.
pub open spec fn pixel_offset(width: int, x: int, y: int) -> int {
    y * width * 3 + x * 3
}

/// Where the accumulators of row `y` begin, in an image `width` pixels wide.
pub open spec fn row_offset(width: int, y: int) -> int {
    y * width * 3
}

/// The accumulators of every pixel of an image lie within its buffer.
pub proof fn lemma_pixel_in_bounds(width: int, height: int, x: int, y: int)
    requires
        0 <= x < width,
        0 <= y < height,
    ensures
        0 <= pixel_offset(width, x, y),
        pixel_offset(width, x, y) + 3 <= width * height * 3,
        row_offset(width, y) <= pixel_offset(width, x, y),
        pixel_offset(width, x, y) + 3 <= row_offset(width, y + 1),
{
    assert(0 <= y * width && y * width + width <= height * width && (y + 1) * width == y * width
        + width && height * width == width * height) by (nonlinear_arith)
        requires
            0 <= x < width,
            0 <= y < height,
    ;
}

/// Two different pixels share no accumulator.
pub proof fn lemma_pixels_apart(width: int, x1: int, y1: int, x2: int, y2: int)
    requires
        0 <= x1 < width,
        0 <= x2 < width,
        0 <= y1,
        0 <= y2,
        x1 != x2 || y1 != y2,
    ensures
        pixel_offset(width, x1, y1) + 3 <= pixel_offset(width, x2, y2) || pixel_offset(
            width,
            x2,
            y2,
        ) + 3 <= pixel_offset(width, x1, y1),
{
    if y1 < y2 {
        assert(y1 * width + width <= y2 * width) by (nonlinear_arith)
            requires
                0 <= y1 < y2,
                0 < width,
        ;
    } else if y2 < y1 {
        assert(y2 * width + width <= y1 * width) by (nonlinear_arith)
            requires
                0 <= y2 < y1,
                0 < width,
        ;
    }
}

/// Two different rows share no accumulator.
pub proof fn lemma_rows_apart(width: int, y1: int, y2: int)
    requires
        0 <= width,
        0 <= y1 < y2,
    ensures
        row_offset(width, y1 + 1) <= row_offset(width, y2),
{
    assert((y1 + 1) * width <= y2 * width) by (nonlinear_arith)
        requires
            0 <= width,
            0 <= y1 < y2,
    ;
}

/// The red, green or blue part of a colour, by number.
pub open spec fn channel<T>(color: (T, T, T), c: int) -> T {
    if c == 0 {
        color.0
    } else if c == 1 {
        color.1
    } else {
        color.2
    }
}

/// The accumulators of an image `width` pixels wide after a rendered row
/// has been added to its row `y`; `blend` says what an accumulator becomes
/// when a channel of a sample is added to it.
pub open spec fn with_row<T>(
    before: Seq<T>,
    width: int,
    y: int,
    colors: Seq<(T, T, T)>,
    blend: spec_fn(T, T) -> T,
) -> Seq<T> {
    Seq::new(
        before.len(),
        |i: int|
            if row_offset(width, y) <= i < row_offset(width, y + 1) {
                let k = i - row_offset(width, y);
                blend(before[i], channel(colors[k / 3], k % 3))
            } else {
                before[i]
            },
    )
}

/// The way of adding `blend` computes the function `g`: whatever it makes
/// of an accumulator and a channel is what `g` gives for them.
pub open spec fn blends<T, F: Fn(T, T) -> T>(blend: F, g: spec_fn(T, T) -> T) -> bool {
    forall|a: T, c: T, r: T| blend.ensures((a, c), r) ==> r == g(a, c)
}

/// Rows may be added in any order: adding two different rows one way round
/// leaves the image as adding them the other way round does.
pub proof fn lemma_rows_in_any_order<T>(
    before: Seq<T>,
    width: int,
    y1: int,
    colors1: Seq<(T, T, T)>,
    y2: int,
    colors2: Seq<(T, T, T)>,
    blend: spec_fn(T, T) -> T,
)
    requires
        0 <= width,
        0 <= y1,
        0 <= y2,
        y1 != y2,
    ensures
        with_row(with_row(before, width, y1, colors1, blend), width, y2, colors2, blend)
            == with_row(with_row(before, width, y2, colors2, blend), width, y1, colors1, blend),
{
    if y1 < y2 {
        lemma_rows_apart(width, y1, y2);
    } else {
        lemma_rows_apart(width, y2, y1);
    }
    assert(with_row(with_row(before, width, y1, colors1, blend), width, y2, colors2, blend)
        =~= with_row(with_row(before, width, y2, colors2, blend), width, y1, colors1, blend));
}

/// The store that a render adds its samples to: three accumulators for each
/// pixel, row after row from the top.
///
/// The buffer does not say what an accumulator is; the caller brings the
/// value to start from, the way to add a sample, and the way to turn an
/// accumulator into a byte.
pub struct ImageBuffer<T> {
    pixels: Vec<T>,
    width: usize,
    height: usize,
}

impl<T> ImageBuffer<T> {
    #[verifier::type_invariant]
    spec fn sized(&self) -> bool {
        self.pixels@.len() == self.width * self.height * 3
    }

    /// The accumulators, in the order of the buffer.
    pub closed spec fn view(&self) -> Seq<T> {
        self.pixels@
    }

    pub closed spec fn spec_width(&self) -> usize {
        self.width
    }

    pub closed spec fn spec_height(&self) -> usize {
        self.height
    }
}

impl<T: Copy> ImageBuffer<T> {

    /// An image of the given size with every accumulator at `zero`.
    pub fn new(width: usize, height: usize, zero: T) -> (image: Self)
        requires
            width * height * 3 <= usize::MAX,
        ensures
            image.spec_width() == width,
            image.spec_height() == height,
            image@.len() == width * height * 3,
            forall|i: int| 0 <= i < image@.len() ==> image@[i] == zero,
    {
        assert(width * height <= width * height * 3 && 0 <= width * height) by (nonlinear_arith)
            requires
                0 <= width,
                0 <= height,
        ;
        let count: usize = width * height * COMPONENTS_PER_PIXEL;
        let mut pixels: Vec<T> = Vec::new();
        let mut i: usize = 0;
        while i < count
            invariant
                i <= count,
                pixels@.len() == i,
                forall|j: int| 0 <= j < i ==> pixels@[j] == zero,
            decreases count - i,
        {
            pixels.push(zero);
            i += 1;
        }
        ImageBuffer { pixels, width, height }
    }

    pub fn width(&self) -> (w: usize)
        ensures
            w == self.spec_width(),
    {
        self.width
    }

    pub fn height(&self) -> (h: usize)
        ensures
            h == self.spec_height(),
    {
        self.height
    }

    /// The accumulators as they stand.
    pub fn pixels(&self) -> (all: &Vec<T>)
        ensures
            all@ == self@,
            all@.len() == self.spec_width() * self.spec_height() * 3,
    {
        proof {
            use_type_invariant(self);
        }
        &self.pixels
    }

    /// The image as bytes, one for each accumulator, as `to_byte` makes them.
    pub fn pixels_u8<F: Fn(T) -> u8>(&self, to_byte: F) -> (bytes: Vec<u8>)
        requires
            forall|i: int| 0 <= i < self@.len() ==> to_byte.requires((#[trigger] self@[i],)),
        ensures
            bytes@.len() == self@.len(),
            forall|i: int|
                0 <= i < self@.len() ==> to_byte.ensures((self@[i],), #[trigger] bytes@[i]),
    {
        let mut result: Vec<u8> = Vec::new();
        let mut offset: usize = 0;
        while offset < self.pixels.len()
            invariant
                offset <= self.pixels@.len(),
                result@.len() == offset,
                self@ == self.pixels@,
                forall|i: int| 0 <= i < self@.len() ==> to_byte.requires((#[trigger] self@[i],)),
                forall|i: int|
                    0 <= i < offset ==> to_byte.ensures((self@[i],), #[trigger] result@[i]),
            decreases self.pixels@.len() - offset,
        {
            let byte = to_byte(self.pixels[offset]);
            result.push(byte);
            offset += 1;
        }
        result
    }

    /// Adds a sample to the pixel in column `x` of row `y`; `blend` says what
    /// an accumulator becomes when a sample's channel is added to it.
    pub fn add_pixel<F: Fn(T, T) -> T>(&mut self, x: usize, y: usize, color: (T, T, T), blend: &F)
        requires
            x < old(self).spec_width(),
            y < old(self).spec_height(),
            forall|a: T, c: T| blend.requires((a, c)),
        ensures
            final(self).spec_width() == old(self).spec_width(),
            final(self).spec_height() == old(self).spec_height(),
            final(self)@.len() == old(self)@.len(),
            ({
                let at = pixel_offset(old(self).spec_width() as int, x as int, y as int);
                &&& 0 <= at && at + 3 <= old(self)@.len()
                &&& blend.ensures((old(self)@[at], color.0), final(self)@[at])
                &&& blend.ensures((old(self)@[at + 1], color.1), final(self)@[at + 1])
                &&& blend.ensures((old(self)@[at + 2], color.2), final(self)@[at + 2])
                &&& forall|i: int|
                    0 <= i < old(self)@.len() && !(at <= i < at + 3) ==> final(self)@[i] == old(
                        self,
                    )@[i]
            }),
    {
        proof {
            use_type_invariant(&*self);
            lemma_pixel_in_bounds(self.width as int, self.height as int, x as int, y as int);
        }
        let size: usize = self.pixels.len();
        assert(0 <= y * self.width <= y * self.width * 3) by (nonlinear_arith)
            requires
                0 <= y,
                0 <= self.width,
        ;
        let pixel_offset: usize = y * self.width * COMPONENTS_PER_PIXEL + (x
            * COMPONENTS_PER_PIXEL);
        let red = blend(self.pixels[pixel_offset], color.0);
        let green = blend(self.pixels[pixel_offset + 1], color.1);
        let blue = blend(self.pixels[pixel_offset + 2], color.2);
        self.pixels[pixel_offset] = red;
        self.pixels[pixel_offset + 1] = green;
        self.pixels[pixel_offset + 2] = blue;
    }

    /// The three accumulators of the pixel in column `x` of row `y`.
    pub fn pixel(&self, x: usize, y: usize) -> (color: (T, T, T))
        requires
            x < self.spec_width(),
            y < self.spec_height(),
        ensures
            ({
                let at = pixel_offset(self.spec_width() as int, x as int, y as int);
                &&& 0 <= at && at + 3 <= self@.len()
                &&& color.0 == self@[at]
                &&& color.1 == self@[at + 1]
                &&& color.2 == self@[at + 2]
            }),
    {
        proof {
            use_type_invariant(self);
            lemma_pixel_in_bounds(self.width as int, self.height as int, x as int, y as int);
        }
        let size: usize = self.pixels.len();
        assert(0 <= y * self.width <= y * self.width * 3) by (nonlinear_arith)
            requires
                0 <= y,
                0 <= self.width,
        ;
        let pixel_offset: usize = y * self.width * COMPONENTS_PER_PIXEL + (x
            * COMPONENTS_PER_PIXEL);
        (self.pixels[pixel_offset], self.pixels[pixel_offset + 1], self.pixels[pixel_offset + 2])
    }

    /// Adds a rendered row to row `y` of the image, pixel by pixel.
    pub fn add_row<F: Fn(T, T) -> T>(&mut self, y: usize, colors: &Vec<(T, T, T)>, blend: &F)
        requires
            y < old(self).spec_height(),
            colors@.len() == old(self).spec_width(),
            forall|a: T, c: T| blend.requires((a, c)),
        ensures
            final(self).spec_width() == old(self).spec_width(),
            final(self).spec_height() == old(self).spec_height(),
            final(self)@.len() == old(self)@.len(),
            forall|i: int|
                0 <= i < old(self)@.len() && !(row_offset(old(self).spec_width() as int, y as int)
                    <= i < row_offset(old(self).spec_width() as int, y + 1)) ==> final(self)@[i]
                    == old(self)@[i],
            forall|x: int|
                0 <= x < old(self).spec_width() ==> {
                    let at = #[trigger] pixel_offset(old(self).spec_width() as int, x, y as int);
                    &&& 0 <= at && at + 3 <= old(self)@.len()
                    &&& blend.ensures((old(self)@[at], colors@[x].0), final(self)@[at])
                    &&& blend.ensures((old(self)@[at + 1], colors@[x].1), final(self)@[at + 1])
                    &&& blend.ensures((old(self)@[at + 2], colors@[x].2), final(self)@[at + 2])
                },
            forall|blended: spec_fn(T, T) -> T| #[trigger]
                blends(*blend, blended) ==> final(self)@ == with_row(
                    old(self)@,
                    old(self).spec_width() as int,
                    y as int,
                    colors@,
                    blended,
                ),
    {
        let ghost before = self@;
        let ghost w = self.width as int;
        let width = self.width;
        let mut x: usize = 0;
        while x < width
            invariant
                x <= width,
                w == width,
                self.spec_width() == width,
                self.spec_height() == old(self).spec_height(),
                y < self.spec_height(),
                colors@.len() == width,
                self@.len() == before.len(),
                before == old(self)@,
                forall|a: T, c: T| blend.requires((a, c)),
                forall|i: int|
                    0 <= i < before.len() && !(row_offset(w, y as int) <= i < pixel_offset(
                        w,
                        x as int,
                        y as int,
                    )) ==> self@[i] == before[i],
                forall|done: int|
                    0 <= done < x ==> {
                        let at = #[trigger] pixel_offset(w, done, y as int);
                        &&& 0 <= at && at + 3 <= before.len()
                        &&& blend.ensures((before[at], colors@[done].0), self@[at])
                        &&& blend.ensures((before[at + 1], colors@[done].1), self@[at + 1])
                        &&& blend.ensures((before[at + 2], colors@[done].2), self@[at + 2])
                    },
            decreases width - x,
        {
            let ghost so_far = self@;
            self.add_pixel(x, y, colors[x], blend);
            proof {
                let here = pixel_offset(w, x as int, y as int);
                lemma_pixel_in_bounds(w, self.spec_height() as int, x as int, y as int);
                assert(pixel_offset(w, x + 1, y as int) == here + 3);
                assert forall|done: int| 0 <= done < x + 1 implies {
                    let at = #[trigger] pixel_offset(w, done, y as int);
                    &&& 0 <= at && at + 3 <= before.len()
                    &&& blend.ensures((before[at], colors@[done].0), self@[at])
                    &&& blend.ensures((before[at + 1], colors@[done].1), self@[at + 1])
                    &&& blend.ensures((before[at + 2], colors@[done].2), self@[at + 2])
                } by {
                    let at = pixel_offset(w, done, y as int);
                    if done < x {
                        assert(at + 3 <= here);
                        assert(self@[at] == so_far[at]);
                        assert(self@[at + 1] == so_far[at + 1]);
                        assert(self@[at + 2] == so_far[at + 2]);
                    } else {
                        assert(so_far[at] == before[at]);
                        assert(so_far[at + 1] == before[at + 1]);
                        assert(so_far[at + 2] == before[at + 2]);
                    }
                }
            }
            x += 1;
        }
        proof {
            assert(pixel_offset(w, width as int, y as int) == row_offset(w, y + 1))
                by (nonlinear_arith)
                requires
                    w == width,
            ;
            assert forall|blended: spec_fn(T, T) -> T| #[trigger]
                blends(*blend, blended) implies self@ == with_row(
                before,
                w,
                y as int,
                colors@,
                blended,
            ) by {
                let expected = with_row(before, w, y as int, colors@, blended);
                assert forall|i: int| 0 <= i < before.len() implies self@[i] == expected[i] by {
                    let start = row_offset(w, y as int);
                    if start <= i < row_offset(w, y + 1) {
                        let k = i - start;
                        let px = k / 3;
                        let c = k % 3;
                        assert(0 <= px < w) by (nonlinear_arith)
                            requires
                                0 <= k < (y + 1) * w * 3 - y * w * 3,
                                px == k / 3,
                        ;
                        let at = pixel_offset(w, px, y as int);
                        assert(i == at + c);
                        assert(blend.ensures((before[at], colors@[px].0), self@[at]));
                        assert(blend.ensures((before[at + 1], colors@[px].1), self@[at + 1]));
                        assert(blend.ensures((before[at + 2], colors@[px].2), self@[at + 2]));
                    }
                }
                assert(self@ =~= expected);
            }
        }
    }
}

} // verus!
