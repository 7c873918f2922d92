use raycast::color::{Color, Presets, CHANNEL_MAX};
use raycast::vector::Vec3;

const ONE: i64 = 1_000_000;

#[test]
fn presets_have_their_colours() {
    let cases = [
        (Presets::White, (ONE, ONE, ONE)),
        (Presets::Black, (0, 0, 0)),
        (Presets::Red, (ONE, 0, 0)),
        (Presets::Green, (0, ONE, 0)),
        (Presets::Blue, (0, 0, ONE)),
    ];
    for (preset, expected) in cases {
        let c = Color::colors(preset);
        assert_eq!((c.x(), c.y(), c.z()), expected);
    }
}

#[test]
fn from_vec3_keeps_the_components() {
    let c = Color::from_vec3(Vec3::new(1, -2, 3));
    assert_eq!((c.x(), c.y(), c.z()), (1, -2, 3));
}

#[test]
fn levels_are_clamped_before_they_are_scaled() {
    assert_eq!(CHANNEL_MAX, 999_000);
    let c = Color::new(ONE / 2, -5, 2 * ONE);
    assert_eq!(c.r(), 128 * ONE);
    assert_eq!(c.g(), 0);
    assert_eq!(c.b(), 255_744_000);
    let d = Color::new(999_000, 999_001, 998_999);
    assert_eq!(d.r(), 255_744_000);
    assert_eq!(d.g(), 255_744_000);
    assert_eq!(d.b(), 255_743_744);
}

#[test]
fn pixel_bytes() {
    assert_eq!(Color::new(ONE, 0, ONE / 2).pixel(), (255, 0, 128));
    assert_eq!(Color::new(-1, i64::MIN, i64::MAX).pixel(), (0, 0, 255));
    // The first intensity that gives the byte 1 is 1 / 256, rounded up.
    assert_eq!(Color::new(3906, 3907, 998_999).pixel(), (0, 1, 255));
    assert_eq!(Color::new(750_000, 850_000, 1_000_000).pixel(), (192, 217, 255));
}

#[test]
fn channels_stay_within_a_byte() {
    let samples = [
        i64::MIN,
        -1_000_000_000_000,
        -ONE,
        -1,
        0,
        1,
        3906,
        ONE / 3,
        ONE / 2,
        998_999,
        999_000,
        999_001,
        ONE,
        ONE + 1,
        1_003_000_000,
        i64::MAX,
    ];
    for a in samples {
        for b in samples {
            let c = Color::new(a, b, a);
            let levels = [c.r(), c.g(), c.b()];
            for level in levels {
                assert!(0 <= level / ONE && level / ONE <= 255);
            }
            let (red, green, blue) = c.pixel();
            assert_eq!(red as i64, c.r() / ONE);
            assert_eq!(green as i64, c.g() / ONE);
            assert_eq!(blue as i64, c.b() / ONE);
        }
    }
}

#[test]
fn write_color_appends_one_line() {
    let mut out = b"P3\n".to_vec();
    Color::new(ONE, 0, ONE / 2).write_color(&mut out);
    assert_eq!(out, b"P3\n255 0 128\n".to_vec());
    Color::new(30_000, 400_000, -7).write_color(&mut out);
    assert_eq!(out, b"P3\n255 0 128\n7 102 0\n".to_vec());
}
