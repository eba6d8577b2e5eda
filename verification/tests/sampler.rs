use buddhabrot::config::Config;
use buddhabrot::fixed::{from_int, ONE};
use buddhabrot::grid::SamplingRegion;
use buddhabrot::histogram::Histogram;
use buddhabrot::palette::Palette;
use buddhabrot::point::Point;
use buddhabrot::sampler::{run_worker, trace_candidate};
use rand::rngs::SmallRng;
use rand::SeedableRng;

fn fx(x: f64) -> i64 {
    (x * ONE as f64).round() as i64
}

fn pt(re: f64, im: f64) -> Point {
    Point { re: fx(re), im: fx(im) }
}

// [0, 4) x [-1, 1) at 4 pixels per unit: 16 x 8 cells.
fn strip(trace_length: usize, escape_threshold: usize, radius_sq: u32, mirror: bool) -> Config {
    let region = SamplingRegion::new(0, from_int(4), from_int(-1), from_int(1)).unwrap();
    let palette = Palette { first: 2, second: 4 };
    Config::new(region, 4, 100, 1, escape_threshold, radius_sq, trace_length, palette, mirror)
        .unwrap()
}

fn hits(h: &Histogram) -> Vec<(u32, u32, usize, u64)> {
    let g = h.grid();
    let mut out = Vec::new();
    for y in 0..g.height {
        for x in 0..g.width {
            for ch in 0..3 {
                let c = h.count(x, y, ch).unwrap();
                if c > 0 {
                    out.push((x, y, ch, c));
                }
            }
        }
    }
    out
}

#[test]
fn trajectory_of_one_half_is_recorded_point_by_point() {
    // 1/2 -> 3/4 -> 17/16 -> 1.62890625 -> 3.1533... -> 10.44...: five points
    // within radius 4, in columns 2, 3, 4, 6 and 12 of row 4.
    let cfg = strip(1000, 2000, 16, false);
    let mut h = Histogram::new(cfg.grid);
    trace_candidate(&mut h, &cfg, pt(0.5, 0.0));
    assert_eq!(
        hits(&h),
        vec![(2, 4, 0, 1), (3, 4, 0, 1), (4, 4, 1, 1), (6, 4, 1, 1), (12, 4, 2, 1)]
    );
    assert_eq!(h.total(), 5);
}

#[test]
fn mirrored_trajectory_is_recorded_in_both_rows() {
    let cfg = strip(1000, 2000, 16, true);
    let mut h = Histogram::new(cfg.grid);
    trace_candidate(&mut h, &cfg, pt(0.5, 0.0));
    assert_eq!(
        hits(&h),
        vec![
            (2, 3, 0, 1),
            (3, 3, 0, 1),
            (4, 3, 1, 1),
            (6, 3, 1, 1),
            (12, 3, 2, 1),
            (2, 4, 0, 1),
            (3, 4, 0, 1),
            (4, 4, 1, 1),
            (6, 4, 1, 1),
            (12, 4, 2, 1),
        ]
    );
    assert_eq!(h.total(), 10);
}

#[test]
fn trajectory_stops_at_the_trace_length() {
    let cfg = strip(3, 2000, 16, false);
    let mut h = Histogram::new(cfg.grid);
    trace_candidate(&mut h, &cfg, pt(0.5, 0.0));
    assert_eq!(hits(&h), vec![(2, 4, 0, 1), (3, 4, 0, 1), (4, 4, 1, 1)]);
    let one = strip(1, 2000, 16, false);
    let mut g = Histogram::new(one.grid);
    trace_candidate(&mut g, &one, pt(0.5, 0.0));
    assert_eq!(hits(&g), vec![(2, 4, 0, 1)]);
}

#[test]
fn trajectory_stops_at_the_escape_radius() {
    // With squared radius 4 the point 3.1533... is already outside; with 2 so
    // is 1.62890625 (its square is 2.65...).
    let cfg = strip(1000, 2000, 4, false);
    let mut h = Histogram::new(cfg.grid);
    trace_candidate(&mut h, &cfg, pt(0.5, 0.0));
    assert_eq!(hits(&h), vec![(2, 4, 0, 1), (3, 4, 0, 1), (4, 4, 1, 1), (6, 4, 1, 1)]);
    let tight = strip(1000, 2000, 2, false);
    let mut g = Histogram::new(tight.grid);
    trace_candidate(&mut g, &tight, pt(0.5, 0.0));
    assert_eq!(hits(&g), vec![(2, 4, 0, 1), (3, 4, 0, 1), (4, 4, 1, 1)]);
}

#[test]
fn escaping_point_itself_is_not_recorded() {
    // 3 + 0i is within the window and within squared radius 16, its successor
    // 12 is not; 5 + 0i is outside the radius at once.
    let cfg = strip(1000, 2000, 16, false);
    let mut h = Histogram::new(cfg.grid);
    trace_candidate(&mut h, &cfg, pt(3.0, 0.0));
    assert_eq!(hits(&h), vec![(12, 4, 0, 1)]);
    let mut g = Histogram::new(cfg.grid);
    trace_candidate(&mut g, &cfg, pt(5.0, 0.0));
    assert_eq!(hits(&g), vec![]);
}

#[test]
fn candidates_in_the_set_leave_nothing() {
    let cfg = strip(1000, 2000, 16, true);
    let mut h = Histogram::new(cfg.grid);
    for c in [pt(0.0, 0.0), pt(-1.0, 0.0), pt(0.2, 0.1), pt(0.0, 1.0), pt(-2.0, 0.0)] {
        trace_candidate(&mut h, &cfg, c);
    }
    assert_eq!(h, Histogram::new(cfg.grid));
}

#[test]
fn candidates_not_seen_to_escape_leave_nothing() {
    // 1/2 needs five steps to leave the disc of radius 2.
    let cfg = strip(1000, 4, 16, true);
    let mut h = Histogram::new(cfg.grid);
    trace_candidate(&mut h, &cfg, pt(0.5, 0.0));
    assert_eq!(h.total(), 0);
    let enough = strip(1000, 5, 16, true);
    trace_candidate(&mut h, &enough, pt(0.5, 0.0));
    assert_eq!(h.total(), 10);
}

#[test]
fn trajectory_off_the_real_axis() {
    // 1 + i -> 1 + 3i -> -7 + 7i: two points within squared radius 16.
    let region = SamplingRegion::new(0, from_int(4), 0, from_int(4)).unwrap();
    let cfg = Config::new(region, 1, 1, 1, 50, 16, 50, Palette::standard(), false).unwrap();
    let mut h = Histogram::new(cfg.grid);
    trace_candidate(&mut h, &cfg, pt(1.0, 1.0));
    assert_eq!(hits(&h), vec![(1, 1, 0, 1), (1, 3, 0, 1)]);
}

#[test]
fn traces_add_up() {
    let cfg = strip(1000, 2000, 16, false);
    let mut h = Histogram::new(cfg.grid);
    for _ in 0..3 {
        trace_candidate(&mut h, &cfg, pt(0.5, 0.0));
    }
    trace_candidate(&mut h, &cfg, pt(3.0, 0.0));
    assert_eq!(
        hits(&h),
        vec![(2, 4, 0, 3), (3, 4, 0, 3), (4, 4, 1, 3), (6, 4, 1, 3), (12, 4, 0, 1), (12, 4, 2, 3)]
    );
    assert_eq!(h.total(), 16);
}

fn classic(n_traces: u64) -> Config {
    let region =
        SamplingRegion::new(from_int(-2), from_int(1), from_int(-1), from_int(1)).unwrap();
    Config::new(region, 20, n_traces, 1, 200, 16, 100, Palette { first: 10, second: 30 }, true)
        .unwrap()
}

#[test]
fn worker_without_candidates_leaves_an_empty_histogram() {
    let cfg = classic(0);
    let mut rng = SmallRng::seed_from_u64(1);
    let h = run_worker(&mut rng, &cfg, 0);
    assert_eq!(h, Histogram::new(cfg.grid));
    assert_eq!(h.total(), 0);
}

#[test]
fn worker_is_reproducible_for_a_seed() {
    let cfg = classic(3000);
    let mut first = SmallRng::seed_from_u64(42);
    let mut second = SmallRng::seed_from_u64(42);
    let a = run_worker(&mut first, &cfg, 3000);
    let b = run_worker(&mut second, &cfg, 3000);
    assert_eq!(a, b);
    assert_eq!(hits(&a), hits(&b));
    assert!(a.total() > 0);
}

#[test]
fn worker_depends_on_the_random_source() {
    let cfg = classic(3000);
    let mut first = SmallRng::seed_from_u64(42);
    let mut second = SmallRng::seed_from_u64(43);
    let a = run_worker(&mut first, &cfg, 3000);
    let b = run_worker(&mut second, &cfg, 3000);
    assert_ne!(a, b);
}

#[test]
fn worker_records_within_its_budget_and_keeps_count() {
    let cfg = classic(500);
    let mut rng = SmallRng::seed_from_u64(7);
    let h = run_worker(&mut rng, &cfg, 500);
    assert_eq!(h.grid(), cfg.grid);
    let sum: u64 = hits(&h).iter().map(|&(_, _, _, c)| c).sum();
    assert_eq!(h.total(), sum);
    assert!(h.total() <= 2 * 100 * 500);
    // every hit is mirrored, and the window is symmetric about the real axis
    for &(x, y, ch, c) in &hits(&h) {
        assert_eq!(h.count(x, cfg.grid.height - 1 - y, ch), Some(c));
    }
}

#[test]
fn worker_draws_from_the_whole_window() {
    // With a single recorded step and no oracle worth the name, what is
    // recorded is the candidate itself: every cell outside the set is hit.
    let region = SamplingRegion::new(from_int(2), from_int(3), from_int(2), from_int(3)).unwrap();
    let cfg = Config::new(region, 4, 4000, 1, 1, 100, 1, Palette::standard(), false).unwrap();
    let mut rng = SmallRng::seed_from_u64(5);
    let h = run_worker(&mut rng, &cfg, 4000);
    assert_eq!(h.total(), 4000);
    assert_eq!(hits(&h).len(), 16);
    for &(_, _, ch, c) in &hits(&h) {
        assert_eq!(ch, 0);
        assert!(c > 150 && c < 350);
    }
}

#[test]
fn worker_traces_as_many_candidates_as_it_is_given() {
    // One recorded step per candidate, no mirroring, and a window far from
    // the set: every candidate leaves exactly one hit.
    let region = SamplingRegion::new(from_int(2), from_int(3), from_int(2), from_int(3)).unwrap();
    let cfg = Config::new(region, 4, 1000, 3, 1, 100, 1, Palette::standard(), false).unwrap();
    for n in [0u64, 1, 333, 1000] {
        let mut rng = SmallRng::seed_from_u64(n);
        assert_eq!(run_worker(&mut rng, &cfg, n).total(), n);
    }
}

#[test]
fn a_longer_run_starts_like_a_shorter_one() {
    let cfg = classic(3000);
    let mut first = SmallRng::seed_from_u64(9);
    let mut second = SmallRng::seed_from_u64(9);
    let mut whole = run_worker(&mut first, &cfg, 1000);
    let tail = run_worker(&mut first, &cfg, 2000);
    whole.merge(&tail).unwrap();
    assert_eq!(whole, run_worker(&mut second, &cfg, 3000));
}
