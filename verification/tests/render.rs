use buddhabrot::config::Config;
use buddhabrot::fixed::{from_int, ONE};
use buddhabrot::grid::{PixelGrid, SamplingRegion};
use buddhabrot::histogram::Histogram;
use buddhabrot::palette::Palette;
use buddhabrot::point::Point;
use buddhabrot::raster::Raster;
use buddhabrot::reduction::merge_all;
use buddhabrot::sampler::{run_worker, trace_candidate};
use buddhabrot::tone::render;
use rand::rngs::SmallRng;
use rand::SeedableRng;

fn fx(x: f64) -> i64 {
    (x * ONE as f64).round() as i64
}

fn pt(re: f64, im: f64) -> Point {
    Point { re: fx(re), im: fx(im) }
}

fn classic(n_traces: u64, mirror: bool) -> Config {
    let region =
        SamplingRegion::new(from_int(-2), from_int(1), from_int(-1), from_int(1)).unwrap();
    Config::new(region, 500, n_traces, 1, 2000, 16, 1000, Palette::standard(), mirror).unwrap()
}

fn lit(img: &Raster) -> Vec<(u32, u32, (u8, u8, u8))> {
    let mut out = Vec::new();
    for row in 0..img.height() {
        for col in 0..img.width() {
            let p = img.pixel(col, row).unwrap();
            if p != (0, 0, 0) {
                out.push((col, row, p));
            }
        }
    }
    out
}

#[test]
fn empty_run_gives_a_black_image() {
    let cfg = classic(0, true);
    assert_eq!(cfg.grid, PixelGrid { width: 1500, height: 1000 });
    let mut rng = SmallRng::seed_from_u64(3);
    let parts = vec![run_worker(&mut rng, &cfg, cfg.share_of(0))];
    let merged = merge_all(cfg.grid, &parts).unwrap();
    assert_eq!(merged.total(), 0);
    assert_eq!((merged.max_lum(0), merged.max_lum(1), merged.max_lum(2)), (0, 0, 0));
    let img = render(&merged);
    assert_eq!((img.width(), img.height()), (1000, 1500));
    assert_eq!(lit(&img), vec![]);
    assert_eq!(img.to_bytes(), vec![0u8; 3 * 1500 * 1000]);
}

#[test]
fn single_trajectory_lights_exactly_its_cells() {
    // 1/2 -> 3/4 -> 17/16 ...: only the first two points are in the window,
    // in columns 1250 and 1375 of row 500.
    let cfg = classic(1, false);
    let mut h = Histogram::new(cfg.grid);
    trace_candidate(&mut h, &cfg, pt(0.5, 0.0));
    assert_eq!(h.total(), 2);
    for y in 0..1000 {
        for x in 0..1500 {
            let here = y == 500 && (x == 1250 || x == 1375);
            assert_eq!(h.count(x, y, 0), Some(here as u64));
            assert_eq!(h.count(x, y, 1), Some(0));
            assert_eq!(h.count(x, y, 2), Some(0));
        }
    }
    assert_eq!((h.max_lum(0), h.max_lum(1), h.max_lum(2)), (1, 0, 0));
    let img = render(&h);
    // cell (x, y) is the pixel at column y and row x
    assert_eq!(lit(&img), vec![(500, 1250, (255, 0, 0)), (500, 1375, (255, 0, 0))]);
}

#[test]
fn single_mirrored_trajectory_lights_both_rows() {
    let cfg = classic(1, true);
    let mut h = Histogram::new(cfg.grid);
    trace_candidate(&mut h, &cfg, pt(0.5, 0.0));
    assert_eq!(h.total(), 4);
    let img = render(&h);
    assert_eq!(
        lit(&img),
        vec![
            (499, 1250, (255, 0, 0)),
            (500, 1250, (255, 0, 0)),
            (499, 1375, (255, 0, 0)),
            (500, 1375, (255, 0, 0)),
        ]
    );
}

fn small() -> Config {
    let region = SamplingRegion::new(0, from_int(3), 0, from_int(2)).unwrap();
    Config::new(region, 1, 1, 1, 5, 16, 5, Palette { first: 1, second: 2 }, false).unwrap()
}

#[test]
fn image_is_the_transposed_grid() {
    let cfg = small();
    let mut h = Histogram::new(cfg.grid);
    // four hits in the red channel of cell (2, 0), one in that of cell (0, 1)
    for _ in 0..4 {
        h.deposit(&cfg, pt(2.5, 0.5), 0);
    }
    h.deposit(&cfg, pt(0.5, 1.5), 0);
    // a single hit in the green channel of cell (1, 1), none in the blue one
    h.deposit(&cfg, pt(1.5, 1.5), 1);
    let img = render(&h);
    assert_eq!((img.width(), img.height()), (2, 3));
    assert_eq!(img.pixel(0, 0), Some((0, 0, 0)));
    assert_eq!(img.pixel(1, 0), Some((128, 0, 0)));
    assert_eq!(img.pixel(0, 1), Some((0, 0, 0)));
    assert_eq!(img.pixel(1, 1), Some((0, 255, 0)));
    assert_eq!(img.pixel(0, 2), Some((255, 0, 0)));
    assert_eq!(img.pixel(1, 2), Some((0, 0, 0)));
    assert_eq!(img.pixel(2, 0), None);
    assert_eq!(img.pixel(0, 3), None);
    assert_eq!(
        img.to_bytes(),
        vec![0, 0, 0, 128, 0, 0, 0, 0, 0, 0, 255, 0, 255, 0, 0, 0, 0, 0]
    );
}

#[test]
fn channel_without_hits_stays_black() {
    let cfg = small();
    let mut h = Histogram::new(cfg.grid);
    for x in 0..3 {
        for y in 0..2 {
            for _ in 0..=(x + y) {
                h.deposit(&cfg, pt(x as f64 + 0.5, y as f64 + 0.5), 5);
            }
        }
    }
    assert_eq!((h.max_lum(0), h.max_lum(1), h.max_lum(2)), (0, 0, 4));
    let img = render(&h);
    for row in 0..3 {
        for col in 0..2 {
            let (r, g, b) = img.pixel(col, row).unwrap();
            assert_eq!((r, g), (0, 0));
            assert!(b > 0);
        }
    }
    // cell (2, 1) holds the maximum, cell (0, 0) a quarter of it
    assert_eq!(img.pixel(1, 2), Some((0, 0, 255)));
    assert_eq!(img.pixel(0, 0), Some((0, 0, 128)));
}

#[test]
fn run_of_several_workers_renders() {
    let region =
        SamplingRegion::new(from_int(-2), from_int(1), from_int(-1), from_int(1)).unwrap();
    let cfg = Config::new(region, 30, 6000, 3, 200, 16, 100, Palette { first: 5, second: 20 }, true)
        .unwrap();
    let mut parts = Vec::new();
    for worker in 0..cfg.n_threads {
        let mut rng = SmallRng::seed_from_u64(worker as u64);
        parts.push(run_worker(&mut rng, &cfg, cfg.share_of(worker)));
    }
    let merged = merge_all(cfg.grid, &parts).unwrap();
    assert_eq!(merged.total(), parts.iter().map(|h| h.total()).sum::<u64>());
    let img = render(&merged);
    assert_eq!((img.width(), img.height()), (60, 90));
    let bytes = img.to_bytes();
    assert_eq!(bytes.len(), 3 * 60 * 90);
    for ch in 0..3 {
        assert!(merged.max_lum(ch) > 0);
        assert_eq!(bytes.iter().skip(ch).step_by(3).max(), Some(&255));
    }
}
