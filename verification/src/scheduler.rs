use crate::image::blends;
use crate::image::channel;
use crate::image::lemma_pixel_in_bounds;
use crate::image::lemma_rows_apart;
use crate::image::pixel_offset;
use crate::image::row_offset;
use crate::image::with_row;
use crate::image::ImageBuffer;
use std::sync::atomic::AtomicUsize;
use std::sync::atomic::Ordering;
use std::sync::Arc;
use vstd::prelude::*;

verus! {

/// Hands out the rows of an image, one at a time, to any number of workers.
///
/// Every clone shares one counter. A worker draws a ticket from it, which no
/// other worker gets, and the ticket stands for a row while rows are left.
#[derive(Clone)]
pub struct ScanlineProducer {
    scanline: Arc<AtomicUsize>,
    total_scanlines: usize,
}

/// A rendered row: its index in the image and the colour of each pixel.
pub struct WorkerResult<C> {
    pub scanline_number: usize,
    pub pixels: Vec<C>,
}

/// The row that a ticket stands for: the ticket itself while it names a row
/// of the image, nothing once the rows are used up.
pub open spec fn row_of_ticket(ticket: usize, total: usize) -> Option<usize> {
    if ticket < total {
        Some(ticket)
    } else {
        None
    }
}

/// Turns a ticket into the row it claims.
pub fn claim_row(ticket: usize, total: usize) -> (row: Option<usize>)
    ensures
        row == row_of_ticket(ticket, total),
{
    if ticket < total {
        Some(ticket)
    } else {
        None
    }
}

/// How many of the first `draws` tickets of the counter claim the row `row`.
/// The counter starts at zero and goes up by one with each draw, so its
/// tickets are 0, 1, 2 and so on, whoever draws them.
pub open spec fn claims_of_row(row: usize, total: usize, draws: nat) -> nat
    decreases draws,
{
    if draws == 0 {
        0
    } else {
        let earlier = claims_of_row(row, total, (draws - 1) as nat);
        if row_of_ticket((draws - 1) as usize, total) == Some(row) {
            earlier + 1
        } else {
            earlier
        }
    }
}

/// Every row is claimed exactly once. However many workers share the
/// counter and in whatever order they draw, once they have drawn at least as
/// many tickets as the image has rows, each row has been claimed by exactly
/// one draw; and before that, by one draw at most.
pub proof fn lemma_rows_claimed_once(row: usize, total: usize, draws: nat)
    requires
        row < total,
        draws <= usize::MAX,
    ensures
        claims_of_row(row, total, draws) == if row < draws {
            1nat
        } else {
            0nat
        },
    decreases draws,
{
    if draws > 0 {
        lemma_rows_claimed_once(row, total, (draws - 1) as nat);
    }
}

/// No draw claims a row that the image does not have.
pub proof fn lemma_only_rows_claimed(row: usize, total: usize, draws: nat)
    requires
        row >= total,
        draws <= usize::MAX,
    ensures
        claims_of_row(row, total, draws) == 0,
    decreases draws,
{
    if draws > 0 {
        lemma_only_rows_claimed(row, total, (draws - 1) as nat);
    }
}

impl ScanlineProducer {
    /// The number of rows this producer hands out.
    pub closed spec fn total(&self) -> usize {
        self.total_scanlines
    }

    /// A producer for an image of `total_scanlines` rows, none claimed yet.
    pub fn new(total_scanlines: usize) -> (producer: Self)
        ensures
            producer.total() == total_scanlines,
    {
        ScanlineProducer { scanline: Arc::new(AtomicUsize::new(0)), total_scanlines }
    }

    /// Claims the next unclaimed row, or reports that none is left. Which
    /// row comes back depends on what the other workers have drawn; it is
    /// the row of the ticket drawn, as `claim_row` gives it.
    pub fn next(&self) -> (row: Option<usize>)
        ensures
            row matches Some(claimed) ==> claimed < self.total(),
    {
        let ticket = self.scanline.fetch_add(1, Ordering::SeqCst);
        claim_row(ticket, self.total_scanlines)
    }

    pub fn total_scanlines(&self) -> (total: usize)
        ensures
            total == self.total(),
    {
        self.total_scanlines
    }
}

/// The colours of one row: `shade_pixel` is asked for every column in turn.
pub fn render_row<C, S: Fn(usize, usize) -> C>(
    scanline_number: usize,
    render_width: usize,
    shade_pixel: &S,
) -> (pixels: Vec<C>)
    requires
        forall|x: usize| x < render_width ==> shade_pixel.requires((x, scanline_number)),
    ensures
        pixels@.len() == render_width,
        forall|x: int|
            0 <= x < render_width ==> shade_pixel.ensures(
                (x as usize, scanline_number),
                #[trigger] pixels@[x],
            ),
{
    let mut pixels: Vec<C> = Vec::new();
    let mut x: usize = 0;
    while x < render_width
        invariant
            x <= render_width,
            pixels@.len() == x,
            forall|x: usize| x < render_width ==> shade_pixel.requires((x, scanline_number)),
            forall|done: int|
                0 <= done < x ==> shade_pixel.ensures(
                    (done as usize, scanline_number),
                    #[trigger] pixels@[done],
                ),
        decreases render_width - x,
    {
        let color = shade_pixel(x, scanline_number);
        pixels.push(color);
        x += 1;
    }
    pixels
}

/// What one worker does: it claims rows until the producer has none left,
/// renders each row it claimed, and returns them in the order claimed.
///
/// A worker stops by itself after as many rows as the image has; by then
/// the counter has none left for anyone.
pub fn render_rows<C, S: Fn(usize, usize) -> C>(
    scanline_producer: &ScanlineProducer,
    render_width: usize,
    shade_pixel: &S,
) -> (results: Vec<WorkerResult<C>>)
    requires
        forall|x: usize, y: usize|
            x < render_width && y < scanline_producer.total() ==> shade_pixel.requires((x, y)),
    ensures
        results@.len() <= scanline_producer.total(),
        forall|i: int|
            0 <= i < results@.len() ==> {
                let row = #[trigger] results@[i];
                &&& row.scanline_number < scanline_producer.total()
                &&& row.pixels@.len() == render_width
                &&& forall|x: int|
                    0 <= x < render_width ==> shade_pixel.ensures(
                        (x as usize, row.scanline_number),
                        #[trigger] row.pixels@[x],
                    )
            },
{
    let total = scanline_producer.total_scanlines();
    let mut results: Vec<WorkerResult<C>> = Vec::new();
    let mut rows_left: usize = total;
    while rows_left > 0
        invariant
            rows_left <= total,
            total == scanline_producer.total(),
            results@.len() == total - rows_left,
            forall|x: usize, y: usize|
                x < render_width && y < scanline_producer.total() ==> shade_pixel.requires((x, y)),
            forall|i: int|
                0 <= i < results@.len() ==> {
                    let row = #[trigger] results@[i];
                    &&& row.scanline_number < scanline_producer.total()
                    &&& row.pixels@.len() == render_width
                    &&& forall|x: int|
                        0 <= x < render_width ==> shade_pixel.ensures(
                            (x as usize, row.scanline_number),
                            #[trigger] row.pixels@[x],
                        )
                },
        decreases rows_left,
    {
        let claimed = scanline_producer.next();
        let ghost before = results@;
        let more = render_claimed(claimed, render_width, shade_pixel, &mut results);
        if !more {
            break ;
        }
        proof {
            assert forall|i: int| 0 <= i < results@.len() implies {
                let row = #[trigger] results@[i];
                &&& row.scanline_number < scanline_producer.total()
                &&& row.pixels@.len() == render_width
                &&& forall|x: int|
                    0 <= x < render_width ==> shade_pixel.ensures(
                        (x as usize, row.scanline_number),
                        #[trigger] row.pixels@[x],
                    )
            } by {
                if i < before.len() {
                    assert(results@[i] == before[i]);
                }
            }
        }
        rows_left -= 1;
    }
    results
}

/// What a worker does with one answer of the producer. Where a row was
/// claimed, the worker renders it, adds it to the end of its results and
/// goes on; where none is left, it leaves its results as they are and stops.
pub fn render_claimed<C, S: Fn(usize, usize) -> C>(
    claimed: Option<usize>,
    render_width: usize,
    shade_pixel: &S,
    results: &mut Vec<WorkerResult<C>>,
) -> (more: bool)
    requires
        claimed matches Some(row) ==> forall|x: usize|
            x < render_width ==> shade_pixel.requires((x, row)),
    ensures
        more == claimed is Some,
        claimed is None ==> final(results)@ == old(results)@,
        claimed matches Some(row) ==> {
            &&& final(results)@.len() == old(results)@.len() + 1
            &&& forall|i: int|
                0 <= i < old(results)@.len() ==> #[trigger] final(results)@[i] == old(results)@[i]
            &&& final(results)@[old(results)@.len() as int].scanline_number == row
            &&& final(results)@[old(results)@.len() as int].pixels@.len() == render_width
            &&& forall|x: int|
                0 <= x < render_width ==> shade_pixel.ensures(
                    (x as usize, row),
                    #[trigger] final(results)@[old(results)@.len() as int].pixels@[x],
                )
        },
{
    match claimed {
        None => false,
        Some(scanline_number) => {
            let pixels = render_row(scanline_number, render_width, shade_pixel);
            results.push(WorkerResult { scanline_number, pixels });
            true
        },
    }
}

/// Every result names a row of an image of the given size and has a colour
/// for each of its pixels.
pub open spec fn rows_fit<T>(results: Seq<WorkerResult<(T, T, T)>>, width: int, height: int) -> bool {
    forall|i: int|
        0 <= i < results.len() ==> (#[trigger] results[i]).scanline_number < height
            && results[i].pixels@.len() == width
}

/// No two results are for the same row.
pub open spec fn rows_distinct<T>(results: Seq<WorkerResult<(T, T, T)>>) -> bool {
    forall|i: int, j: int|
        0 <= i < results.len() && 0 <= j < results.len() && i != j ==> (
        #[trigger] results[i]).scanline_number != (#[trigger] results[j]).scanline_number
}

/// The accumulators of an image after the first `n` of the given rows have
/// been added to it, one after the other.
pub open spec fn with_rows<T>(
    before: Seq<T>,
    width: int,
    results: Seq<WorkerResult<(T, T, T)>>,
    blend: spec_fn(T, T) -> T,
    n: nat,
) -> Seq<T>
    decreases n,
{
    if n == 0 {
        before
    } else {
        with_row(
            with_rows(before, width, results, blend, (n - 1) as nat),
            width,
            results[n - 1].scanline_number as int,
            results[n - 1].pixels@,
            blend,
        )
    }
}

/// An accumulator that lies in none of the first `n` rows handed in is as
/// it was after they have been added.
pub proof fn lemma_other_rows_untouched<T>(
    before: Seq<T>,
    width: int,
    results: Seq<WorkerResult<(T, T, T)>>,
    blend: spec_fn(T, T) -> T,
    n: nat,
    at: int,
)
    requires
        n <= results.len(),
        0 <= at < before.len(),
        forall|i: int|
            0 <= i < n ==> !(row_offset(width, (#[trigger] results[i]).scanline_number as int) <= at
                < row_offset(width, results[i].scanline_number + 1)),
    ensures
        with_rows(before, width, results, blend, n).len() == before.len(),
        with_rows(before, width, results, blend, n)[at] == before[at],
    decreases n,
{
    if n > 0 {
        let m = (n - 1) as nat;
        assert forall|i: int| 0 <= i < m implies !(row_offset(
            width,
            (#[trigger] results[i]).scanline_number as int,
        ) <= at < row_offset(width, results[i].scanline_number + 1)) by {
            assert(0 <= i < n);
        }
        lemma_other_rows_untouched(before, width, results, blend, m, at);
        assert(!(row_offset(width, results[n - 1].scanline_number as int) <= at < row_offset(
            width,
            results[n - 1].scanline_number + 1,
        )));
    }
}

/// Adding rows keeps the size of the image.
pub proof fn lemma_with_rows_len<T>(
    before: Seq<T>,
    width: int,
    results: Seq<WorkerResult<(T, T, T)>>,
    blend: spec_fn(T, T) -> T,
    n: nat,
)
    ensures
        with_rows(before, width, results, blend, n).len() == before.len(),
    decreases n,
{
    if n > 0 {
        lemma_with_rows_len(before, width, results, blend, (n - 1) as nat);
    }
}

/// Each rendered row is written into the image exactly once, at its own
/// place. When no two of the rows handed in are for the same row of the
/// image, then after the first `n` are added, in whatever order they came,
/// channel `c` of pixel `x` of the `i`-th of them has been added once to its
/// own accumulator, which held what it held before any row was added.
pub proof fn lemma_each_row_written_once<T>(
    before: Seq<T>,
    width: int,
    height: int,
    results: Seq<WorkerResult<(T, T, T)>>,
    blend: spec_fn(T, T) -> T,
    n: nat,
    i: int,
    x: int,
    c: int,
)
    requires
        0 <= width,
        0 <= height,
        before.len() == width * height * 3,
        n <= results.len(),
        rows_fit(results, width, height),
        rows_distinct(results),
        0 <= i < n,
        0 <= x < width,
        0 <= c < 3,
    ensures
        ({
            let at = pixel_offset(width, x, results[i].scanline_number as int) + c;
            &&& 0 <= at < before.len()
            &&& with_rows(before, width, results, blend, n)[at] == blend(
                before[at],
                channel(results[i].pixels@[x], c),
            )
        }),
    decreases n,
{
    let m = (n - 1) as nat;
    let earlier = with_rows(before, width, results, blend, m);
    let y = results[n - 1].scanline_number as int;
    let row = results[i].scanline_number as int;
    let at = pixel_offset(width, x, row) + c;
    lemma_pixel_in_bounds(width, height, x, row);
    lemma_with_rows_len(before, width, results, blend, m);
    if i < m {
        lemma_each_row_written_once(before, width, height, results, blend, m, i, x, c);
        assert(results[i].scanline_number != results[n - 1].scanline_number);
        if row < y {
            lemma_rows_apart(width, row, y);
        } else {
            lemma_rows_apart(width, y, row);
        }
    } else {
        let k = at - row_offset(width, y);
        assert(k == x * 3 + c);
        assert(k / 3 == x && k % 3 == c);
        assert forall|j: int| 0 <= j < m implies !(row_offset(
            width,
            (#[trigger] results[j]).scanline_number as int,
        ) <= at < row_offset(width, results[j].scanline_number + 1)) by {
            let other = results[j].scanline_number as int;
            assert(results[j].scanline_number != results[n - 1].scanline_number);
            if other < y {
                lemma_rows_apart(width, other, y);
            } else {
                lemma_rows_apart(width, y, other);
            }
        }
        lemma_other_rows_untouched(before, width, results, blend, m, at);
    }
}

/// Adds the rows that a worker has rendered to the image, each at its own
/// row, in the order given.
pub fn write_rows<T: Copy, F: Fn(T, T) -> T>(
    image: &mut ImageBuffer<T>,
    results: &Vec<WorkerResult<(T, T, T)>>,
    blend: &F,
)
    requires
        rows_fit(results@, old(image).spec_width() as int, old(image).spec_height() as int),
        forall|a: T, c: T| blend.requires((a, c)),
    ensures
        final(image).spec_width() == old(image).spec_width(),
        final(image).spec_height() == old(image).spec_height(),
        final(image)@.len() == old(image)@.len(),
        forall|blended: spec_fn(T, T) -> T| #[trigger]
            blends(*blend, blended) ==> final(image)@ == with_rows(
                old(image)@,
                old(image).spec_width() as int,
                results@,
                blended,
                results@.len(),
            ),
{
    let ghost before = image@;
    let ghost width = image.spec_width() as int;
    let mut i: usize = 0;
    while i < results.len()
        invariant
            i <= results@.len(),
            image.spec_width() == old(image).spec_width(),
            image.spec_height() == old(image).spec_height(),
            width == image.spec_width(),
            image@.len() == before.len(),
            rows_fit(results@, image.spec_width() as int, image.spec_height() as int),
            forall|a: T, c: T| blend.requires((a, c)),
            forall|blended: spec_fn(T, T) -> T| #[trigger]
                blends(*blend, blended) ==> image@ == with_rows(
                    before,
                    width,
                    results@,
                    blended,
                    i as nat,
                ),
        decreases results@.len() - i,
    {
        let row = &results[i];
        image.add_row(row.scanline_number, &row.pixels, blend);
        i += 1;
    }
}

} // verus!
