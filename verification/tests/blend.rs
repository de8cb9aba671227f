use lcs_png_diff::{blend, BlendRate, BLACK, GREEN, RED};

#[test]
fn highlight_colours_are_fixed() {
    assert_eq!((0, 0, 0), BLACK);
    assert_eq!((255, 119, 119), RED);
    assert_eq!((99, 195, 99), GREEN);
}

#[test]
fn rates_are_a_quarter_and_zero() {
    assert_eq!(BlendRate { parts: 1, whole: 4 }, BlendRate::highlight());
    assert_eq!(BlendRate { parts: 0, whole: 1 }, BlendRate::none());
}

#[test]
fn blend_mixes_a_quarter_of_the_highlight_in() {
    // (3 * 10 + 255) / 4 = 71.25, (3 * 20 + 119) / 4 = 44.75,
    // (3 * 30 + 119) / 4 = 52.25, each cut down.
    assert_eq!([71, 44, 52, 255], blend([10, 20, 30, 255], RED, BlendRate::highlight()));
    // (3 * 10 + 99) / 4 = 32.25, (3 * 20 + 195) / 4 = 63.75, (3 * 30 + 99) / 4 = 47.25.
    assert_eq!([32, 63, 47, 255], blend([10, 20, 30, 255], GREEN, BlendRate::highlight()));
}

#[test]
fn blend_agrees_with_the_formula_in_floating_point() {
    let rate = 0.25f32;
    for base in 0..=255u8 {
        for tint in 0..=255u8 {
            let tinted = (base as f32 * (1.0 - rate) + tint as f32 * rate) as u8;
            assert_eq!(tinted, blend([base, 0, 0, 7], (tint, 0, 0), BlendRate::highlight())[0]);
            assert_eq!(tinted, blend([0, base, 0, 7], (0, tint, 0), BlendRate::highlight())[1]);
            assert_eq!(tinted, blend([0, 0, base, 7], (0, 0, tint), BlendRate::highlight())[2]);
            let kept = (base as f32 * (1.0 - 0.0) + tint as f32 * 0.0) as u8;
            assert_eq!(kept, blend([base, 0, 0, 7], (tint, 0, 0), BlendRate::none())[0]);
        }
    }
}

#[test]
fn blend_at_rate_zero_changes_nothing() {
    assert_eq!([10, 20, 30, 40], blend([10, 20, 30, 40], BLACK, BlendRate::none()));
    assert_eq!([255, 0, 128, 0], blend([255, 0, 128, 0], RED, BlendRate::none()));
}

#[test]
fn blend_at_rate_one_gives_the_highlight() {
    assert_eq!([99, 195, 99, 40], blend([10, 20, 30, 40], GREEN, BlendRate { parts: 3, whole: 3 }));
}

#[test]
fn blend_keeps_alpha() {
    for alpha in [0u8, 1, 127, 255] {
        assert_eq!(alpha, blend([1, 2, 3, alpha], RED, BlendRate::highlight())[3]);
    }
}

#[test]
fn blend_of_a_transparent_pixel_is_a_quarter_of_the_highlight() {
    assert_eq!([63, 29, 29, 0], blend([0, 0, 0, 0], RED, BlendRate::highlight()));
    assert_eq!([24, 48, 24, 0], blend([0, 0, 0, 0], GREEN, BlendRate::highlight()));
}

#[test]
fn blend_stays_within_a_channel() {
    assert_eq!([255, 221, 221, 255], blend([255, 255, 255, 255], RED, BlendRate::highlight()));
    assert_eq!([254, 254, 254, 9], blend([255, 255, 255, 9], (254, 254, 254), BlendRate { parts: 254, whole: 255 }));
}
