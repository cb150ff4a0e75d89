use rand::rngs::SmallRng;
use rand::{Rng, SeedableRng};
use raytracer_core::raytracer::Flat;
use raytracer_core::{
    PixelColor, PixelPosition, PixelRenderer, PixelSampler, Raytracer, ViewportError, World,
};
use std::cell::RefCell;
use std::rc::Rc;

const BLACK: PixelColor = PixelColor { r: 0, g: 0, b: 0 };
const GREY: PixelColor = PixelColor { r: 127, g: 127, b: 127 };

#[derive(Default)]
struct Seen {
    pixels: Vec<(usize, usize, PixelColor)>,
    cleared: usize,
}

struct Recorder {
    seen: Rc<RefCell<Seen>>,
}

impl PixelRenderer for Recorder {
    fn set_pixel(&mut self, pos: PixelPosition, color: PixelColor) {
        self.seen.borrow_mut().pixels.push((pos.x, pos.y, color));
    }

    fn invalidate_pixels(&mut self) {
        self.seen.borrow_mut().cleared += 1;
    }
}

/// Paints every pixel as `paint` says and notes what it was asked for.
struct Painter<F: Fn(PixelPosition) -> PixelColor> {
    paint: F,
    asked: Vec<(usize, usize, i64)>,
}

impl<F: Fn(PixelPosition) -> PixelColor> Painter<F> {
    fn new(paint: F) -> Self {
        Painter { paint, asked: Vec::new() }
    }
}

impl<F: Fn(PixelPosition) -> PixelColor> PixelSampler for Painter<F> {
    fn sample(
        &mut self,
        pos: PixelPosition,
        samples_per_pixel: i64,
        _random: &mut SmallRng,
    ) -> PixelColor {
        self.asked.push((pos.x, pos.y, samples_per_pixel));
        (self.paint)(pos)
    }
}

/// Paints every pixel in a colour drawn from the session's random source.
struct Dice;

impl PixelSampler for Dice {
    fn sample(&mut self, _: PixelPosition, _: i64, random: &mut SmallRng) -> PixelColor {
        PixelColor { r: random.gen(), g: random.gen(), b: random.gen() }
    }
}

fn session(width: usize, height: usize, seed: u64) -> (Raytracer<Recorder>, Rc<RefCell<Seen>>) {
    let seen = Rc::new(RefCell::new(Seen::default()));
    let made = Raytracer::new(
        width,
        height,
        SmallRng::seed_from_u64(seed),
        Recorder { seen: Rc::clone(&seen) },
    );
    match made {
        Ok(tracer) => (tracer, seen),
        Err(e) => panic!("viewport refused: {:?}", e),
    }
}

fn refusal(width: usize, height: usize) -> Option<ViewportError> {
    let seen = Rc::new(RefCell::new(Seen::default()));
    Raytracer::new(width, height, SmallRng::seed_from_u64(0), Recorder { seen }).err()
}

fn cache_order(tracer: &Raytracer<Recorder>) -> Vec<(usize, usize)> {
    (0..tracer.pixel_count()).map(|i| (tracer.entry(i).pos.x, tracer.entry(i).pos.y)).collect()
}

#[test]
fn cache_of_four_by_three_has_twelve_distinct_entries() {
    let (tracer, _) = session(4, 3, 9);
    assert_eq!(tracer.pixel_count(), 12);
    assert_eq!(tracer.width(), 4);
    assert_eq!(tracer.height(), 3);
    let mut seen = [[0usize; 4]; 3];
    for index in 0..tracer.pixel_count() {
        let entry = tracer.entry(index);
        assert!(entry.pos.x < 4 && entry.pos.y < 3);
        seen[entry.pos.y][entry.pos.x] += 1;
    }
    for row in seen.iter() {
        for &count in row.iter() {
            assert_eq!(count, 1);
        }
    }
}

#[test]
fn viewport_with_a_side_of_one_is_refused() {
    assert_eq!(refusal(1, 10), Some(ViewportError::TooSmall));
    assert_eq!(refusal(10, 1), Some(ViewportError::TooSmall));
    assert_eq!(refusal(0, 0), Some(ViewportError::TooSmall));
    assert_eq!(refusal(0, 7), Some(ViewportError::TooSmall));
    assert_eq!(refusal(1, usize::MAX), Some(ViewportError::TooSmall));
}

#[test]
fn viewport_beyond_counting_is_refused() {
    assert_eq!(refusal(usize::MAX, 2), Some(ViewportError::TooLarge));
    assert_eq!(refusal(2, usize::MAX), Some(ViewportError::TooLarge));
    assert_eq!(refusal(usize::MAX / 2 + 1, 2), Some(ViewportError::TooLarge));
}

#[test]
fn smallest_viewport_is_accepted() {
    assert_eq!(refusal(2, 2), None);
    let (tracer, _) = session(2, 2, 0);
    assert_eq!(tracer.pixel_count(), 4);
}

#[test]
fn first_pass_samples_every_pixel_in_cache_order() {
    let (mut tracer, seen) = session(5, 4, 21);
    let order = cache_order(&tracer);
    let mut painter = Painter::new(|_| GREY);
    tracer.generate(&mut painter, 3);
    let asked: Vec<(usize, usize)> = painter.asked.iter().map(|a| (a.0, a.1)).collect();
    assert_eq!(asked, order);
    assert!(painter.asked.iter().all(|a| a.2 == 3));
    let shown: Vec<(usize, usize)> = seen.borrow().pixels.iter().map(|p| (p.0, p.1)).collect();
    assert_eq!(shown, order);
    assert!(seen.borrow().pixels.iter().all(|p| p.2 == GREY));
    assert_eq!(cache_order(&tracer), order);
}

#[test]
fn pass_notes_each_color_in_its_record() {
    let (mut tracer, seen) = session(3, 3, 5);
    let paint = |pos: PixelPosition| PixelColor { r: pos.x as u8, g: pos.y as u8, b: 200 };
    tracer.generate(&mut Painter::new(paint), 1);
    for index in 0..9 {
        let entry = *tracer.entry(index);
        assert!(entry.last_color == paint(entry.pos));
        assert_eq!(entry.same_color_count, 0);
    }
    for shown in seen.borrow().pixels.iter() {
        assert!(shown.2 == paint(PixelPosition { x: shown.0, y: shown.1 }));
    }
    tracer.generate(&mut Painter::new(paint), 1);
    for index in 0..9 {
        assert_eq!(tracer.entry(index).same_color_count, 1);
    }
}

#[test]
fn stable_pixel_is_skipped_on_the_fifth_pass() {
    let (mut tracer, seen) = session(4, 3, 2);
    let mut painter = Painter::new(|_| BLACK);
    for pass in 1..=4 {
        tracer.generate(&mut painter, 1);
        assert_eq!(painter.asked.len(), 12 * pass);
        assert_eq!(seen.borrow().pixels.len(), 12 * pass);
    }
    tracer.generate(&mut painter, 1);
    assert_eq!(painter.asked.len(), 48);
    assert_eq!(seen.borrow().pixels.len(), 48);
    assert_eq!(tracer.next_pending(0), None);
}

#[test]
fn invalidation_brings_every_pixel_back() {
    let (mut tracer, seen) = session(4, 3, 2);
    let mut painter = Painter::new(|_| BLACK);
    for _ in 0..5 {
        tracer.generate(&mut painter, 1);
    }
    assert_eq!(painter.asked.len(), 48);
    tracer.invalidate_pixels();
    assert_eq!(seen.borrow().cleared, 1);
    assert_eq!(tracer.pixel_count(), 12);
    assert_eq!(tracer.width(), 4);
    assert_eq!(tracer.height(), 3);
    for index in 0..12 {
        let entry = tracer.entry(index);
        assert!(entry.last_color == BLACK);
        assert_eq!(entry.same_color_count, 0);
    }
    assert_eq!(tracer.next_pending(0), Some(0));
    tracer.generate(&mut painter, 1);
    assert_eq!(painter.asked.len(), 60);
    assert_eq!(seen.borrow().pixels.len(), 60);
}

#[test]
fn color_first_seen_needs_a_fifth_pass() {
    let (mut tracer, _) = session(3, 3, 4);
    let mut painter = Painter::new(|_| GREY);
    for pass in 1..=5 {
        tracer.generate(&mut painter, 1);
        assert_eq!(painter.asked.len(), 9 * pass);
    }
    tracer.generate(&mut painter, 1);
    assert_eq!(painter.asked.len(), 45);
}

#[test]
fn only_stable_pixels_are_skipped() {
    let (mut tracer, seen) = session(4, 2, 8);
    for round in 0..6u8 {
        let mut painter = Painter::new(|pos: PixelPosition| {
            if pos.x == 0 {
                PixelColor { r: round, g: 0, b: 0 }
            } else {
                BLACK
            }
        });
        tracer.generate(&mut painter, 1);
        if round < 4 {
            assert_eq!(painter.asked.len(), 8);
        } else {
            assert_eq!(painter.asked.len(), 2);
            assert!(painter.asked.iter().all(|a| a.0 == 0));
        }
    }
    let late: Vec<(usize, usize)> =
        seen.borrow().pixels.iter().skip(32).map(|p| (p.0, p.1)).collect();
    assert_eq!(late.len(), 4);
    assert!(late.iter().all(|p| p.0 == 0));
}

#[test]
fn no_samples_asked_is_passed_on_as_it_is() {
    let (mut tracer, _) = session(2, 2, 1);
    let mut painter = Painter::new(|_| GREY);
    tracer.generate(&mut painter, 0);
    tracer.generate(&mut painter, -5);
    let counts: Vec<i64> = painter.asked.iter().map(|a| a.2).collect();
    assert_eq!(counts, vec![0, 0, 0, 0, -5, -5, -5, -5]);
}

#[test]
fn same_seed_gives_the_same_picture() {
    let (mut first, first_seen) = session(6, 5, 99);
    let (mut second, second_seen) = session(6, 5, 99);
    for _ in 0..3 {
        first.generate(&mut Dice, 1);
        second.generate(&mut Dice, 1);
    }
    let a = first_seen.borrow();
    let b = second_seen.borrow();
    assert_eq!(a.pixels.len(), 90);
    assert_eq!(a.pixels.len(), b.pixels.len());
    for (p, q) in a.pixels.iter().zip(b.pixels.iter()) {
        assert_eq!((p.0, p.1), (q.0, q.1));
        assert!(p.2 == q.2);
    }
    assert!(a.pixels.iter().any(|p| p.2 != a.pixels[0].2));
}

#[test]
fn next_pending_walks_past_converged_entries() {
    let (mut tracer, _) = session(2, 2, 6);
    for _ in 0..4 {
        tracer.record(1, BLACK);
    }
    assert!(tracer.entry(1).is_converged());
    assert_eq!(tracer.next_pending(0), Some(0));
    assert_eq!(tracer.next_pending(1), Some(2));
    assert_eq!(tracer.next_pending(3), Some(3));
    assert_eq!(tracer.next_pending(4), None);
    assert_eq!(tracer.next_pending(400), None);
}

#[test]
fn record_on_converged_entry_reaches_no_sink() {
    let (mut tracer, seen) = session(2, 2, 6);
    for _ in 0..4 {
        tracer.record(2, BLACK);
    }
    assert_eq!(seen.borrow().pixels.len(), 4);
    tracer.record(2, GREY);
    assert_eq!(seen.borrow().pixels.len(), 4);
    assert!(tracer.entry(2).last_color == BLACK);
    assert_eq!(tracer.entry(2).same_color_count, 4);
}

#[test]
fn record_leaves_other_entries_alone() {
    let (mut tracer, _) = session(3, 2, 13);
    let before = cache_order(&tracer);
    tracer.record(4, GREY);
    for index in 0..6 {
        let entry = tracer.entry(index);
        assert_eq!((entry.pos.x, entry.pos.y), before[index]);
        if index == 4 {
            assert!(entry.last_color == GREY);
        } else {
            assert!(entry.last_color == BLACK);
        }
        assert_eq!(entry.same_color_count, 0);
    }
}

#[test]
fn invalidation_draws_a_new_order() {
    let (mut tracer, _) = session(16, 16, 77);
    let before = cache_order(&tracer);
    tracer.invalidate_pixels();
    let after = cache_order(&tracer);
    assert_ne!(before, after);
    let mut sorted_before = before.clone();
    let mut sorted_after = after.clone();
    sorted_before.sort();
    sorted_after.sort();
    assert_eq!(sorted_before, sorted_after);
}

#[test]
fn world_sink_holds_what_a_pass_recorded() {
    let made = Raytracer::new(4, 3, SmallRng::seed_from_u64(31), World::new(3, 4));
    let mut tracer = match made {
        Ok(tracer) => tracer,
        Err(e) => panic!("viewport refused: {:?}", e),
    };
    let shade = |pos: PixelPosition| PixelColor { r: pos.x as u8, g: pos.y as u8, b: 9 };
    tracer.generate(&mut Painter::new(shade), 1);
    for y in 0..3 {
        for x in 0..4 {
            assert!(tracer.renderer().pixel(x, y) == shade(PixelPosition { x, y }));
        }
    }
    tracer.invalidate_pixels();
    for y in 0..3 {
        for x in 0..4 {
            assert!(tracer.renderer().pixel(x, y) == BLACK);
        }
    }
}

#[test]
fn flat_sampler_paints_every_pixel_alike() {
    let made = Raytracer::new(5, 4, SmallRng::seed_from_u64(3), World::new(4, 5));
    let mut tracer = match made {
        Ok(tracer) => tracer,
        Err(e) => panic!("viewport refused: {:?}", e),
    };
    let mut grey = Flat::new(GREY);
    tracer.generate(&mut grey, 1);
    for y in 0..4 {
        for x in 0..5 {
            assert!(tracer.renderer().pixel(x, y) == GREY);
        }
    }
    for index in 0..20 {
        assert!(tracer.entry(index).last_color == GREY);
        assert_eq!(tracer.entry(index).same_color_count, 0);
    }
}

#[test]
fn flat_sampler_converges_after_five_passes() {
    let (mut tracer, seen) = session(3, 2, 12);
    let mut grey = Flat::new(GREY);
    for pass in 1..=5 {
        tracer.generate(&mut grey, 1);
        assert_eq!(seen.borrow().pixels.len(), 6 * pass);
    }
    tracer.generate(&mut grey, 1);
    assert_eq!(seen.borrow().pixels.len(), 30);
    assert_eq!(tracer.next_pending(0), None);
}

#[test]
fn new_session_leaves_the_sink_alone() {
    let (tracer, seen) = session(4, 3, 1);
    assert_eq!(tracer.pixel_count(), 12);
    assert_eq!(seen.borrow().pixels.len(), 0);
    assert_eq!(seen.borrow().cleared, 0);
}
