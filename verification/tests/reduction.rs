use buddhabrot::config::Config;
use buddhabrot::fixed::{from_int, ONE};
use buddhabrot::grid::SamplingRegion;
use buddhabrot::histogram::Histogram;
use buddhabrot::palette::Palette;
use buddhabrot::point::Point;
use buddhabrot::reduction::merge_all;
use buddhabrot::sampler::trace_candidate;

fn candidates() -> Vec<Point> {
    // A coarse lattice over [-2, 1) x [-1, 1).
    let mut out = Vec::new();
    let step = ONE / 8 + 12345;
    let mut re = -2 * ONE;
    while re < ONE {
        let mut im = -ONE;
        while im < ONE {
            out.push(Point { re, im });
            im += step;
        }
        re += step;
    }
    out
}

fn setup() -> Config {
    let region =
        SamplingRegion::new(from_int(-2), from_int(1), from_int(-1), from_int(1)).unwrap();
    Config::new(region, 16, 1000, 4, 100, 16, 60, Palette { first: 3, second: 9 }, true).unwrap()
}

fn traced(cfg: &Config, cs: &[Point]) -> Histogram {
    let mut h = Histogram::new(cfg.grid);
    for &c in cs {
        trace_candidate(&mut h, cfg, c);
    }
    h
}

#[test]
fn shares_of_the_candidates_merge_to_the_whole() {
    let cfg = setup();
    let cs = candidates();
    let whole = traced(&cfg, &cs);
    assert!(whole.total() > 100);
    for cuts in [vec![0, cs.len()], vec![0, 1, cs.len()], vec![0, 100, 100, 250, cs.len()]] {
        let parts: Vec<Histogram> =
            cuts.windows(2).map(|w| traced(&cfg, &cs[w[0]..w[1]])).collect();
        assert_eq!(merge_all(cfg.grid, &parts).unwrap(), whole);
    }
}

#[test]
fn order_of_the_parts_does_not_matter() {
    let cfg = setup();
    let cs = candidates();
    let third = cs.len() / 3;
    let make = || {
        vec![
            traced(&cfg, &cs[..third]),
            traced(&cfg, &cs[third..2 * third]),
            traced(&cfg, &cs[2 * third..]),
        ]
    };
    let forward = merge_all(cfg.grid, &make()).unwrap();
    let mut reversed = make();
    reversed.reverse();
    assert_eq!(merge_all(cfg.grid, &reversed).unwrap(), forward);
    let mut rotated = make();
    rotated.rotate_left(1);
    assert_eq!(merge_all(cfg.grid, &rotated).unwrap(), forward);
}

#[test]
fn order_of_the_candidates_does_not_matter() {
    let cfg = setup();
    let cs = candidates();
    let mut backwards = cs.clone();
    backwards.reverse();
    assert_eq!(traced(&cfg, &backwards), traced(&cfg, &cs));
}
