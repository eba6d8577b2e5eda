use buddhabrot::config::Config;
use buddhabrot::error::MergeError;
use buddhabrot::fixed::{from_int, ONE};
use buddhabrot::grid::{PixelGrid, SamplingRegion};
use buddhabrot::histogram::Histogram;
use buddhabrot::palette::Palette;
use buddhabrot::point::Point;
use buddhabrot::reduction::merge_all;

fn fx(x: f64) -> i64 {
    (x * ONE as f64).round() as i64
}

fn pt(re: f64, im: f64) -> Point {
    Point { re: fx(re), im: fx(im) }
}

// A 4 x 2 grid over [0, 4) x [0, 2), and channels that change at steps 2 and 4.
fn small(mirror: bool) -> Config {
    let region = SamplingRegion::new(0, from_int(4), 0, from_int(2)).unwrap();
    Config::new(region, 1, 10, 2, 50, 16, 20, Palette { first: 2, second: 4 }, mirror).unwrap()
}

fn counters(h: &Histogram) -> Vec<u64> {
    let g = h.grid();
    let mut out = Vec::new();
    for y in 0..g.height {
        for x in 0..g.width {
            for ch in 0..3 {
                out.push(h.count(x, y, ch).unwrap());
            }
        }
    }
    out
}

#[test]
fn new_histogram_is_empty() {
    let h = Histogram::new(PixelGrid { width: 4, height: 2 });
    assert_eq!(h.grid(), PixelGrid { width: 4, height: 2 });
    assert_eq!(h.total(), 0);
    assert_eq!(counters(&h), vec![0; 24]);
}

#[test]
fn count_outside_the_grid_is_none() {
    let h = Histogram::new(PixelGrid { width: 4, height: 2 });
    assert_eq!(h.count(3, 1, 2), Some(0));
    assert_eq!(h.count(4, 0, 0), None);
    assert_eq!(h.count(0, 2, 0), None);
    assert_eq!(h.count(0, 0, 3), None);
}

#[test]
fn deposit_counts_the_cell_of_the_point() {
    let cfg = small(false);
    let mut h = Histogram::new(cfg.grid);
    h.deposit(&cfg, pt(2.5, 1.25), 0);
    assert_eq!(h.count(2, 1, 0), Some(1));
    assert_eq!(h.total(), 1);
    h.deposit(&cfg, pt(2.0, 1.0), 1);
    h.deposit(&cfg, pt(2.999, 1.999), 3);
    h.deposit(&cfg, pt(0.0, 0.0), 4);
    assert_eq!(h.count(2, 1, 0), Some(2));
    assert_eq!(h.count(2, 1, 1), Some(1));
    assert_eq!(h.count(0, 0, 2), Some(1));
    assert_eq!(h.total(), 4);
    let mut expected = vec![0u64; 24];
    expected[(2 + 4 * 1) * 3] = 2;
    expected[(2 + 4 * 1) * 3 + 1] = 1;
    expected[2] = 1;
    assert_eq!(counters(&h), expected);
}

#[test]
fn deposit_discards_points_off_the_grid() {
    let cfg = small(true);
    let mut h = Histogram::new(cfg.grid);
    for z in [pt(4.0, 1.0), pt(-0.001, 1.0), pt(1.0, 2.0), pt(1.0, -0.001), pt(100.0, -100.0)] {
        h.deposit(&cfg, z, 0);
    }
    assert_eq!(h.total(), 0);
    assert_eq!(counters(&h), vec![0; 24]);
}

#[test]
fn mirror_also_counts_the_mirrored_row() {
    let cfg = small(true);
    let mut h = Histogram::new(cfg.grid);
    h.deposit(&cfg, pt(3.5, 0.5), 2);
    assert_eq!(h.count(3, 0, 1), Some(1));
    assert_eq!(h.count(3, 1, 1), Some(1));
    assert_eq!(h.total(), 2);
    h.deposit(&cfg, pt(3.5, 1.5), 2);
    assert_eq!(h.count(3, 0, 1), Some(2));
    assert_eq!(h.count(3, 1, 1), Some(2));
    assert_eq!(h.total(), 4);
}

#[test]
fn mirror_of_the_middle_row_counts_twice() {
    let region = SamplingRegion::new(0, from_int(2), 0, from_int(3)).unwrap();
    let cfg = Config::new(region, 1, 1, 1, 5, 16, 5, Palette::standard(), true).unwrap();
    let mut h = Histogram::new(cfg.grid);
    h.deposit(&cfg, pt(1.5, 1.5), 0);
    assert_eq!(h.count(1, 1, 0), Some(2));
    assert_eq!(h.total(), 2);
}

#[test]
fn merge_adds_counter_by_counter() {
    let cfg = small(false);
    let mut a = Histogram::new(cfg.grid);
    let mut b = Histogram::new(cfg.grid);
    a.deposit(&cfg, pt(0.5, 0.5), 0);
    a.deposit(&cfg, pt(1.5, 0.5), 0);
    b.deposit(&cfg, pt(1.5, 0.5), 0);
    b.deposit(&cfg, pt(1.5, 0.5), 2);
    b.deposit(&cfg, pt(3.5, 1.5), 5);
    let before_b = counters(&b);
    let sum: Vec<u64> = counters(&a).iter().zip(&before_b).map(|(x, y)| x + y).collect();
    assert_eq!(a.merge(&b), Ok(()));
    assert_eq!(counters(&a), sum);
    assert_eq!(a.count(0, 0, 0), Some(1));
    assert_eq!(a.count(1, 0, 0), Some(2));
    assert_eq!(a.count(1, 0, 1), Some(1));
    assert_eq!(a.count(3, 1, 2), Some(1));
    assert_eq!(a.total(), 5);
    assert_eq!(counters(&b), before_b);
}

#[test]
fn merge_is_commutative_and_associative() {
    let cfg = small(true);
    let fill = |points: &[(f64, f64, usize)]| {
        let mut h = Histogram::new(cfg.grid);
        for &(x, y, i) in points {
            h.deposit(&cfg, pt(x, y), i);
        }
        h
    };
    let pa = [(0.5, 0.5, 0), (1.5, 1.5, 3)];
    let pb = [(0.5, 0.5, 0), (3.5, 0.5, 9), (2.5, 1.5, 1)];
    let pc = [(2.5, 0.5, 2)];
    let mut ab = fill(&pa);
    ab.merge(&fill(&pb)).unwrap();
    let mut ba = fill(&pb);
    ba.merge(&fill(&pa)).unwrap();
    assert_eq!(ab, ba);
    let mut left = fill(&pa);
    left.merge(&fill(&pb)).unwrap();
    left.merge(&fill(&pc)).unwrap();
    let mut bc = fill(&pb);
    bc.merge(&fill(&pc)).unwrap();
    let mut right = fill(&pa);
    right.merge(&bc).unwrap();
    assert_eq!(left, right);
}

#[test]
fn merge_refuses_another_grid() {
    let mut a = Histogram::new(PixelGrid { width: 4, height: 2 });
    let b = Histogram::new(PixelGrid { width: 2, height: 4 });
    assert_eq!(a.merge(&b), Err(MergeError::DimensionMismatch));
    assert_eq!(a, Histogram::new(PixelGrid { width: 4, height: 2 }));
}

#[test]
fn merge_all_sums_every_part() {
    let cfg = small(false);
    let mut parts = Vec::new();
    for k in 0..5u32 {
        let mut h = Histogram::new(cfg.grid);
        for _ in 0..=k {
            h.deposit(&cfg, pt(k as f64 % 4.0 + 0.5, 0.5), k as usize);
        }
        parts.push(h);
    }
    let all = merge_all(cfg.grid, &parts).unwrap();
    assert_eq!(all.total(), 1 + 2 + 3 + 4 + 5);
    for y in 0..2 {
        for x in 0..4 {
            for ch in 0..3 {
                let sum: u64 = parts.iter().map(|h| h.count(x, y, ch).unwrap()).sum();
                assert_eq!(all.count(x, y, ch), Some(sum));
            }
        }
    }
    // parts 0 and 4 hit cell (0, 0): one hit in channel 0, five in channel 2.
    assert_eq!(all.count(0, 0, 0), Some(1));
    assert_eq!(all.count(0, 0, 2), Some(5));
    assert_eq!(all.count(1, 0, 0), Some(2));
    assert_eq!(all.count(2, 0, 1), Some(3));
    assert_eq!(all.count(3, 0, 1), Some(4));
}

#[test]
fn merge_all_of_nothing_is_empty() {
    let grid = PixelGrid { width: 3, height: 5 };
    let all = merge_all(grid, &Vec::new()).unwrap();
    assert_eq!(all, Histogram::new(grid));
}

#[test]
fn merge_all_refuses_another_grid() {
    let grid = PixelGrid { width: 3, height: 5 };
    let parts = vec![Histogram::new(grid), Histogram::new(PixelGrid { width: 5, height: 3 })];
    assert_eq!(merge_all(grid, &parts).err(), Some(MergeError::DimensionMismatch));
    let same = vec![Histogram::new(grid)];
    assert_eq!(
        merge_all(PixelGrid { width: 3, height: 4 }, &same).err(),
        Some(MergeError::DimensionMismatch)
    );
}

#[test]
fn max_lum_is_the_greatest_counter_of_the_channel() {
    let cfg = small(false);
    let mut h = Histogram::new(cfg.grid);
    assert_eq!((h.max_lum(0), h.max_lum(1), h.max_lum(2)), (0, 0, 0));
    for _ in 0..3 {
        h.deposit(&cfg, pt(3.5, 1.5), 0);
    }
    h.deposit(&cfg, pt(0.5, 0.5), 0);
    for _ in 0..7 {
        h.deposit(&cfg, pt(1.5, 0.5), 9);
    }
    assert_eq!((h.max_lum(0), h.max_lum(1), h.max_lum(2)), (3, 0, 7));
}

#[test]
fn merge_refuses_more_hits_than_a_counter_holds() {
    // Two histograms that take turns absorbing each other grow like the
    // Fibonacci numbers, and the 93rd no longer fits 64 bits.
    let cfg = small(false);
    let mut a = Histogram::new(cfg.grid);
    let mut b = Histogram::new(cfg.grid);
    a.deposit(&cfg, pt(0.5, 0.5), 0);
    b.deposit(&cfg, pt(0.5, 0.5), 0);
    let mut merges = 0;
    loop {
        let (grown, other) = if merges % 2 == 0 { (&mut a, &b) } else { (&mut b, &a) };
        let before = (grown.total(), other.total());
        match grown.merge(other) {
            Ok(()) => {
                assert_eq!(grown.total(), before.0 + before.1);
                assert_eq!(grown.count(0, 0, 0), Some(before.0 + before.1));
            }
            Err(e) => {
                assert_eq!(e, MergeError::CounterOverflow);
                assert!(before.0.checked_add(before.1).is_none());
                assert_eq!(grown.total(), before.0);
                assert_eq!(grown.count(0, 0, 0), Some(before.0));
                break;
            }
        }
        merges += 1;
    }
    assert_eq!(merges, 91);
    assert_eq!(a.total().max(b.total()), 12200160415121876738);
    let parts = vec![a, b];
    assert_eq!(merge_all(cfg.grid, &parts).err(), Some(MergeError::CounterOverflow));
}

#[test]
fn counters_never_decrease() {
    let cfg = small(true);
    let mut h = Histogram::new(cfg.grid);
    let mut last = counters(&h);
    for k in 0..40 {
        let z = pt((k * 7 % 50) as f64 / 10.0 - 0.5, (k * 3 % 30) as f64 / 10.0 - 0.5);
        h.deposit(&cfg, z, k % 6);
        let now = counters(&h);
        assert!(now.iter().zip(&last).all(|(n, l)| n >= l));
        last = now;
    }
    assert_eq!(h.total(), last.iter().sum::<u64>());
}
