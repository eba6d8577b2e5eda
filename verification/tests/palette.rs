use buddhabrot::palette::{channel, Palette, CHANNELS};

#[test]
fn channel_follows_the_standard_thresholds() {
    let p = Palette::standard();
    assert_eq!(channel(0, &p), 0);
    assert_eq!(channel(299, &p), 0);
    assert_eq!(channel(300, &p), 1);
    assert_eq!(channel(599, &p), 1);
    assert_eq!(channel(600, &p), 2);
    assert_eq!(channel(usize::MAX, &p), 2);
}

#[test]
fn channel_follows_custom_thresholds() {
    let p = Palette { first: 2, second: 5 };
    let got: Vec<usize> = (0..7).map(|i| channel(i, &p)).collect();
    assert_eq!(got, vec![0, 0, 1, 1, 1, 2, 2]);
}

#[test]
fn channel_is_always_a_channel() {
    let p = Palette { first: 9, second: 3 };
    for i in 0..20 {
        assert!(channel(i, &p) < CHANNELS);
    }
    assert_eq!(channel(5, &p), 0);
    assert_eq!(channel(9, &p), 2);
}
