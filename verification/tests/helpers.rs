use zhukoview::helpers::{apply_argb, blend_colours};

#[test]
fn opaque_colour_replaces_pixel() {
    let mut p: u32 = 0x80445566;
    apply_argb(&mut p, 0xFF112233);
    assert_eq!(p, 0xFF112233);
}

#[test]
fn transparent_colour_leaves_pixel() {
    let mut p: u32 = 0x80445566;
    apply_argb(&mut p, 0x00ABCDEF);
    assert_eq!(p, 0x80445566);
}

#[test]
fn half_alpha_mixes_channels_and_adds_alphas() {
    let mut p: u32 = 0xFF0000FF;
    apply_argb(&mut p, 0x80FF0000);
    // red: 255 * 128 / 255 = 128, blue: 255 * 127 / 255 = 127, alpha saturates
    assert_eq!(p, 0xFF80007F);
}

#[test]
fn alphas_add_below_saturation() {
    let mut p: u32 = 0x10000000;
    apply_argb(&mut p, 0x20000000);
    assert_eq!(p, 0x30000000);
}

#[test]
fn blend_with_full_weight_gives_that_colour() {
    let (a, b, c) = (0x12345678u32, 0x9ABCDEF0u32, 0x0F1E2D3Cu32);
    assert_eq!(blend_colours(&a, &b, &c, &255, &0, &0), a);
    assert_eq!(blend_colours(&a, &b, &c, &0, &255, &0), b);
    assert_eq!(blend_colours(&a, &b, &c, &0, &0, &255), c);
}

#[test]
fn blend_of_primaries_in_equal_thirds() {
    let r = blend_colours(&0xFFFF0000, &0xFF00FF00, &0xFF0000FF, &85, &85, &85);
    assert_eq!(r, 0xFF555555);
}

#[test]
fn blend_caps_each_byte_at_255() {
    let r = blend_colours(&0xFFFF0000, &0xFFFF0000, &0, &255, &255, &0);
    assert_eq!(r, 0xFFFF0000);
}

#[test]
fn blend_rounds_down() {
    // 200 * 100 / 255 = 78.4...
    let r = blend_colours(&0x000000C8, &0, &0, &100, &0, &0);
    assert_eq!(r, 78);
}
