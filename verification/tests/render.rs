use raytracer::color::Rgb;
use raytracer::render::{row_pixels, Aggregator, Receipt};

fn shade(x: u32, y: u32) -> Rgb {
    Rgb::new(x as u8, y as u8, (x + 10 * y) as u8)
}

#[test]
fn row_is_listed_from_left_to_right() {
    assert_eq!(row_pixels(3, 2), vec![(0, 2), (1, 2), (2, 2)]);
    assert_eq!(row_pixels(1, 0), vec![(0, 0)]);
    assert_eq!(row_pixels(0, 5), Vec::<(u32, u32)>::new());
}

#[test]
fn rows_cover_the_frame_once() {
    let (width, height) = (7u32, 5u32);
    let mut received: Vec<(u32, u32)> = Vec::new();
    for y in [3u32, 0, 4, 1, 2] {
        received.extend(row_pixels(width, y));
    }
    assert_eq!(received.len(), 35);
    for i in 0..received.len() {
        assert!(received[i].0 < width && received[i].1 < height);
        for j in 0..i {
            assert_ne!(received[i], received[j]);
        }
    }
    for y in 0..height {
        for x in 0..width {
            assert!(received.contains(&(x, y)));
        }
    }
}

#[test]
fn full_render_completes_the_frame() {
    let (width, height) = (7u32, 5u32);
    let mut agg = Aggregator::new(width, height);
    assert!(!agg.is_complete());
    let mut count = 0;
    for y in [3u32, 0, 4, 1, 2] {
        let mut row = row_pixels(width, y);
        row.reverse();
        for (x, y) in row {
            assert!(!agg.is_complete());
            assert_eq!(agg.receive(x, y, shade(x, y)), Receipt::Stored { progress: false });
            count += 1;
            assert_eq!(agg.received(), count);
        }
    }
    assert!(agg.is_complete());
    assert_eq!(agg.received(), 35);
    let img = agg.into_image();
    for y in 0..height {
        for x in 0..width {
            assert_eq!(img.get_pixel(x, y), shade(x, y));
        }
    }
}

#[test]
fn second_pixel_for_a_place_is_dropped() {
    let mut agg = Aggregator::new(2, 2);
    assert_eq!(agg.receive(1, 0, Rgb::new(1, 2, 3)), Receipt::Stored { progress: false });
    assert_eq!(agg.receive(1, 0, Rgb::new(9, 9, 9)), Receipt::Duplicate);
    assert_eq!(agg.received(), 1);
    assert_eq!(agg.receive(0, 0, Rgb::white()), Receipt::Stored { progress: false });
    assert_eq!(agg.receive(0, 1, Rgb::white()), Receipt::Stored { progress: false });
    assert_eq!(agg.receive(0, 1, Rgb::black()), Receipt::Duplicate);
    assert!(!agg.is_complete());
    assert_eq!(agg.receive(1, 1, Rgb::white()), Receipt::Stored { progress: false });
    assert!(agg.is_complete());
    let img = agg.into_image();
    assert_eq!(img.get_pixel(1, 0), Rgb::new(1, 2, 3));
    assert_eq!(img.get_pixel(0, 1), Rgb::white());
}

#[test]
fn unfilled_places_stay_black() {
    let mut agg = Aggregator::new(3, 1);
    agg.receive(2, 0, Rgb::white());
    let img = agg.into_image();
    assert_eq!(img.get_pixel(0, 0), Rgb::black());
    assert_eq!(img.get_pixel(1, 0), Rgb::black());
    assert_eq!(img.get_pixel(2, 0), Rgb::white());
}

#[test]
fn progress_is_marked_every_fiftieth_of_the_frame() {
    let mut agg = Aggregator::new(10, 15);
    let mut marks = 0;
    let mut count = 0;
    for y in 0..15 {
        for x in 0..10 {
            count += 1;
            let receipt = agg.receive(x, y, Rgb::black());
            assert_eq!(receipt, Receipt::Stored { progress: count % 3 == 0 });
            if receipt == (Receipt::Stored { progress: true }) {
                marks += 1;
            }
        }
    }
    assert_eq!(marks, 50);
}

#[test]
fn small_frame_marks_no_progress() {
    let mut agg = Aggregator::new(7, 7);
    for y in 0..7 {
        for x in 0..7 {
            assert_eq!(agg.receive(x, y, Rgb::black()), Receipt::Stored { progress: false });
        }
    }
    assert!(agg.is_complete());
}

#[test]
fn empty_frame_is_complete_at_once() {
    assert!(Aggregator::new(0, 0).is_complete());
    assert!(Aggregator::new(0, 9).is_complete());
    assert_eq!(Aggregator::new(9, 0).received(), 0);
}

#[test]
fn order_of_arrival_does_not_show_in_the_output() {
    let (width, height) = (4u32, 3u32);
    let mut forward = Aggregator::new(width, height);
    let mut backward = Aggregator::new(width, height);
    for y in 0..height {
        for x in 0..width {
            forward.receive(x, y, shade(x, y));
        }
    }
    for y in (0..height).rev() {
        for x in (0..width).rev() {
            backward.receive(x, y, shade(x, y));
        }
    }
    assert_eq!(forward.into_image().encode(), backward.into_image().encode());
}
