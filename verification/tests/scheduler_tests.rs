use rust_rt::image::ImageBuffer;
use rust_rt::scheduler::{claim_row, render_claimed, render_row, render_rows, write_rows, ScanlineProducer, WorkerResult};

#[test]
fn tickets_below_the_total_claim_their_row() {
    assert_eq!(claim_row(0, 3), Some(0));
    assert_eq!(claim_row(2, 3), Some(2));
    assert_eq!(claim_row(3, 3), None);
    assert_eq!(claim_row(usize::MAX, 3), None);
    assert_eq!(claim_row(0, 0), None);
}

#[test]
fn producer_hands_out_each_row_once_and_then_nothing() {
    let producer = ScanlineProducer::new(5);
    assert_eq!(producer.total_scanlines(), 5);
    let mut claimed = Vec::new();
    for _ in 0..8 {
        claimed.push(producer.next());
    }
    assert_eq!(claimed, vec![Some(0), Some(1), Some(2), Some(3), Some(4), None, None, None]);
}

#[test]
fn clones_share_the_counter() {
    let first = ScanlineProducer::new(4);
    let second = first.clone();
    let third = second.clone();
    let mut claimed = vec![first.next(), second.next(), third.next(), second.next(), first.next(), third.next()];
    assert_eq!(claimed.split_off(4), vec![None, None]);
    claimed.sort();
    assert_eq!(claimed, vec![Some(0), Some(1), Some(2), Some(3)]);
}

#[test]
fn producer_without_rows_hands_out_nothing() {
    let producer = ScanlineProducer::new(0);
    assert_eq!(producer.next(), None);
}

#[test]
fn a_row_asks_for_every_column_in_turn() {
    let row = render_row(7, 4, &|x: usize, y: usize| (x, y));
    assert_eq!(row, vec![(0, 7), (1, 7), (2, 7), (3, 7)]);
    assert!(render_row(7, 0, &|x: usize, y: usize| (x, y)).is_empty());
}

#[test]
fn one_worker_renders_every_row() {
    let producer = ScanlineProducer::new(3);
    let results = render_rows(&producer, 2, &|x: usize, y: usize| 10 * y + x);
    assert_eq!(results.len(), 3);
    for (i, result) in results.iter().enumerate() {
        assert_eq!(result.scanline_number, i);
        assert_eq!(result.pixels, vec![10 * i, 10 * i + 1]);
    }
    assert_eq!(producer.next(), None);
}

#[test]
fn workers_in_turn_claim_every_row_exactly_once() {
    let total = 37;
    let producer = ScanlineProducer::new(total);
    let workers: Vec<ScanlineProducer> = (0..5).map(|_| producer.clone()).collect();
    let mut claimed_by = vec![Vec::new(); workers.len()];
    let mut done = vec![false; workers.len()];
    let mut turn = 0usize;
    while done.iter().any(|d| !d) {
        let w = (turn * 7 + turn / 3) % workers.len();
        turn += 1;
        if done[w] {
            continue;
        }
        match workers[w].next() {
            Some(row) => claimed_by[w].push(row),
            None => done[w] = true,
        }
    }
    let mut times_claimed = vec![0usize; total];
    for rows in &claimed_by {
        for &row in rows {
            times_claimed[row] += 1;
        }
    }
    assert!(times_claimed.iter().all(|&n| n == 1));
}

#[test]
fn rendered_rows_land_at_their_own_offset_whatever_the_order() {
    let width = 3;
    let height = 4;
    let producer = ScanlineProducer::new(height);
    let mut results = render_rows(&producer, width, &|x: usize, y: usize| {
        let v = (10 * y + x) as f32;
        (v, v + 0.25, v + 0.5)
    });
    results.reverse();
    let mut image = ImageBuffer::new(width, height, 0.0f32);
    for row in &results {
        image.add_row(row.scanline_number, &row.pixels, &|a: f32, c: f32| a + c);
    }
    for y in 0..height {
        for x in 0..width {
            let v = (10 * y + x) as f32;
            assert_eq!(image.pixel(x, y), (v, v + 0.25, v + 0.5));
            assert_eq!(image.pixels()[y * width * 3 + x * 3], v);
        }
    }
}

#[test]
fn new_image_is_all_zero() {
    let image = ImageBuffer::new(4, 2, 0.0f32);
    assert_eq!(image.width(), 4);
    assert_eq!(image.height(), 2);
    assert_eq!(image.pixels().len(), 24);
    assert!(image.pixels().iter().all(|&p| p == 0.0));
    assert!(ImageBuffer::new(0, 9, 1u8).pixels().is_empty());
}

#[test]
fn add_pixel_touches_only_its_three_accumulators() {
    let mut image = ImageBuffer::new(3, 2, 0u32);
    image.add_pixel(1, 1, (1, 2, 3), &|a: u32, c: u32| a + c);
    image.add_pixel(1, 1, (10, 20, 30), &|a: u32, c: u32| a + c);
    let mut expected = vec![0u32; 18];
    expected[12] = 11;
    expected[13] = 22;
    expected[14] = 33;
    assert_eq!(image.pixels(), &expected);
    assert_eq!(image.pixel(1, 1), (11, 22, 33));
    assert_eq!(image.pixel(2, 1), (0, 0, 0));
}

#[test]
fn samples_add_up_with_their_weight() {
    let mut image = ImageBuffer::new(1, 1, 0.0f32);
    let samples = 4;
    let weight = 1.0 / samples as f32;
    for _ in 0..samples {
        image.add_pixel(0, 0, (1.0, 0.5, 0.0), &|a: f32, c: f32| a + c * weight);
    }
    assert_eq!(image.pixel(0, 0), (1.0, 0.5, 0.0));
}

#[test]
fn bytes_come_from_the_given_conversion() {
    let mut image = ImageBuffer::new(2, 1, 0.0f32);
    image.add_pixel(0, 0, (1.0, 0.5, 0.0), &|a: f32, c: f32| a + c);
    image.add_pixel(1, 0, (2.0, -1.0, 0.25), &|a: f32, c: f32| a + c);
    let bytes = image.pixels_u8(|p: f32| (p * 255.0) as u8);
    assert_eq!(bytes, vec![255, 127, 0, 255, 0, 63]);
}

fn rendered(width: usize, rows: &[usize]) -> Vec<WorkerResult<(u32, u32, u32)>> {
    rows.iter()
        .map(|&y| WorkerResult {
            scanline_number: y,
            pixels: (0..width).map(|x| ((100 * y + x) as u32, 1, 2)).collect(),
        })
        .collect()
}

#[test]
fn rows_written_in_any_order_give_the_same_image() {
    let plus = |a: u32, c: u32| a + c;
    let mut in_order = ImageBuffer::new(3, 4, 0u32);
    write_rows(&mut in_order, &rendered(3, &[0, 1, 2, 3]), &plus);
    let mut shuffled = ImageBuffer::new(3, 4, 0u32);
    write_rows(&mut shuffled, &rendered(3, &[2, 0]), &plus);
    write_rows(&mut shuffled, &rendered(3, &[3, 1]), &plus);
    assert_eq!(in_order.pixels(), shuffled.pixels());
    for y in 0..4 {
        for x in 0..3 {
            assert_eq!(in_order.pixel(x, y), ((100 * y + x) as u32, 1, 2));
        }
    }
}

#[test]
fn a_row_written_twice_is_added_twice() {
    let plus = |a: u32, c: u32| a + c;
    let mut image = ImageBuffer::new(2, 2, 0u32);
    write_rows(&mut image, &rendered(2, &[1, 1]), &plus);
    assert_eq!(image.pixels(), &vec![0, 0, 0, 0, 0, 0, 200, 2, 4, 202, 2, 4]);
    write_rows(&mut image, &Vec::new(), &plus);
    assert_eq!(image.pixel(1, 1), (202, 2, 4));
}

#[test]
fn several_workers_fill_the_image_once() {
    let width = 5;
    let height = 9;
    let producer = ScanlineProducer::new(height);
    let shade_pixel = |x: usize, y: usize| ((10 * y + x) as u32, y as u32, x as u32);
    let mut batches = Vec::new();
    let first = producer.clone();
    batches.push(vec![WorkerResult { scanline_number: first.next().unwrap(), pixels: render_row(0, width, &shade_pixel) }]);
    batches.push(render_rows(&producer.clone(), width, &shade_pixel));
    batches.push(render_rows(&producer.clone(), width, &shade_pixel));
    assert_eq!(batches[1].len(), height - 1);
    assert!(batches[2].is_empty());
    let mut image = ImageBuffer::new(width, height, 0u32);
    for batch in batches.iter().rev() {
        write_rows(&mut image, batch, &|a: u32, c: u32| a + c);
    }
    for y in 0..height {
        for x in 0..width {
            assert_eq!(image.pixel(x, y), ((10 * y + x) as u32, y as u32, x as u32));
        }
    }
}

#[test]
fn a_claimed_row_is_rendered_and_kept_and_no_claim_ends_the_work() {
    let shade_pixel = |x: usize, y: usize| 10 * y + x;
    let mut results = Vec::new();
    assert!(render_claimed(Some(4), 3, &shade_pixel, &mut results));
    assert!(render_claimed(Some(1), 3, &shade_pixel, &mut results));
    assert_eq!(results.len(), 2);
    assert_eq!((results[0].scanline_number, results[0].pixels.clone()), (4, vec![40, 41, 42]));
    assert_eq!((results[1].scanline_number, results[1].pixels.clone()), (1, vec![10, 11, 12]));
    assert!(!render_claimed(None, 3, &shade_pixel, &mut results));
    assert_eq!(results.len(), 2);
    assert_eq!(results[1].scanline_number, 1);
}
