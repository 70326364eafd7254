use zhukoview::triangle::barycentric;
use zhukoview::{AntiAliasing, CanvasView, Colour};

const K: u32 = 0xFF000000;
const W: u32 = 0xFFFFFFFF;
const S: u32 = 0xFF5F5F5F;

#[test]
fn plain_circle_is_a_plus_for_radius_one() {
    let v = CanvasView::new(5, 5);
    let mut canvas = [K; 25];
    v.add_circle(&mut canvas, (2, 2), 1, W, AntiAliasing::Disabled);
    let expected = [
        K, K, K, K, K, //
        K, K, W, K, K, //
        K, W, W, W, K, //
        K, K, W, K, K, //
        K, K, K, K, K,
    ];
    assert_eq!(canvas, expected);
}

#[test]
fn sampled_circle_scales_alpha_by_coverage() {
    let v = CanvasView::new(5, 5);
    let mut canvas = [K; 25];
    v.add_circle(&mut canvas, (2, 2), 2, W, AntiAliasing::Enabled(4));
    let expected = [
        K, K, K, K, K, //
        K, S, W, W, S, //
        K, W, W, W, W, //
        K, W, W, W, W, //
        K, S, W, W, S,
    ];
    assert_eq!(canvas, expected);
}

#[test]
fn sampled_circle_caps_the_grid_at_four() {
    let v = CanvasView::new(5, 5);
    let mut a = [K; 25];
    let mut b = [K; 25];
    v.add_circle(&mut a, (2, 2), 2, W, AntiAliasing::Enabled(4));
    v.add_circle(&mut b, (2, 2), 2, W, AntiAliasing::Enabled(9));
    assert_eq!(a, b);
}

#[test]
fn circle_off_the_view_draws_nothing() {
    let v = CanvasView::new(5, 5);
    let mut canvas = [K; 25];
    v.add_circle(&mut canvas, (20, 20), 2, W, AntiAliasing::Disabled);
    assert_eq!(canvas, [K; 25]);
}

#[test]
fn barycentric_weights_at_corners_and_inside() {
    let (a, b, c) = ((0, 0), (4, 0), (0, 4));
    assert_eq!(barycentric(a, b, c, a), Some((255, 0, 0)));
    assert_eq!(barycentric(a, b, c, b), Some((0, 255, 0)));
    assert_eq!(barycentric(a, b, c, c), Some((0, 0, 255)));
    assert_eq!(barycentric(a, b, c, (1, 1)), Some((127, 63, 63)));
}

#[test]
fn barycentric_outside_is_none() {
    assert_eq!(barycentric((0, 0), (4, 0), (0, 4), (4, 4)), None);
    // a degenerate triangle has no point off its line
    assert_eq!(barycentric((0, 0), (1, 1), (2, 2), (0, 1)), None);
}

#[test]
fn barycentric_does_not_depend_on_orientation() {
    assert_eq!(barycentric((0, 0), (0, 4), (4, 0), (1, 1)), Some((127, 63, 63)));
}

#[test]
fn single_colour_triangle() {
    let v = CanvasView::new(6, 6);
    let mut canvas = [K; 36];
    v.add_triangle(&mut canvas, (0, 0), (4, 0), (0, 4), Colour::Single(W));
    for y in 0..6 {
        for x in 0..6 {
            let inside = y < 5 && x + y <= 4;
            assert_eq!(canvas[x + y * 6], if inside { W } else { K }, "pixel ({x}, {y})");
        }
    }
}

#[test]
fn triplet_triangle_blends_corner_colours() {
    let v = CanvasView::new(6, 6);
    let mut canvas = [K; 36];
    v.add_triangle(
        &mut canvas,
        (0, 0),
        (4, 0),
        (0, 4),
        Colour::Triplet(0xFFFF0000, 0xFF00FF00, 0xFF0000FF),
    );
    assert_eq!(&canvas[0..6], &[0xFFFF0000, 0xFFBE3E00, 0xFF7E7E00, 0xFF3EBE00, 0xFF00FF00, K]);
    assert_eq!(&canvas[6..12], &[0xFFBE003E, 0xFF7E3E3E, 0xFF3E7E3E, 0xFF00BE3E, K, K]);
    assert_eq!(canvas[24], 0xFF0000FF);
    assert_eq!(canvas[25], K);
}

#[test]
fn circle_box_starting_on_the_last_column_keeps_its_visible_part() {
    let v = CanvasView::new(2, 2);
    let mut canvas = [0u32; 4];
    v.add_circle(&mut canvas, (2, 0), 1, 0xFF0000FF, AntiAliasing::Disabled);
    assert_eq!(canvas, [0, 0xFF0000FF, 0, 0]);
}

#[test]
fn circle_box_starting_on_the_last_row_keeps_its_visible_part() {
    let v = CanvasView::new(3, 3);
    let mut canvas = [0u32; 9];
    v.add_circle(&mut canvas, (1, 3), 1, 0xFF00FF00, AntiAliasing::Disabled);
    let mut expected = [0u32; 9];
    expected[7] = 0xFF00FF00;
    assert_eq!(canvas, expected);
}

#[test]
fn circle_wholly_past_the_view_draws_nothing() {
    let v = CanvasView::new(3, 3);
    let mut canvas = [0u32; 9];
    v.add_circle(&mut canvas, (5, 1), 1, 0xFF00FF00, AntiAliasing::Enabled(2));
    assert_eq!(canvas, [0u32; 9]);
}

#[test]
fn triangle_corner_order_does_not_matter() {
    let v = CanvasView::new(8, 8);
    let (a, b, c) = ((1, 1), (6, 2), (2, 6));
    let orders = [(a, b, c), (b, a, c), (a, c, b), (c, b, a), (b, c, a), (c, a, b)];
    let mut reference = [K; 64];
    v.add_triangle(&mut reference, a, b, c, Colour::Single(0x80FFFFFF));
    for &(p, q, r) in &orders {
        let mut canvas = [K; 64];
        v.add_triangle(&mut canvas, p, q, r, Colour::Single(0x80FFFFFF));
        assert_eq!(canvas, reference);
    }
}

#[test]
fn triplet_colours_follow_their_corners() {
    let v = CanvasView::new(8, 8);
    let (a, b, c) = ((1, 1), (6, 2), (2, 6));
    let (ka, kb, kc) = (0xFFFF0000u32, 0xFF00FF00u32, 0xFF0000FFu32);
    let mut reference = [K; 64];
    v.add_triangle(&mut reference, a, b, c, Colour::Triplet(ka, kb, kc));
    let mut swapped = [K; 64];
    v.add_triangle(&mut swapped, b, a, c, Colour::Triplet(kb, ka, kc));
    assert_eq!(swapped, reference);
    let mut swapped = [K; 64];
    v.add_triangle(&mut swapped, a, c, b, Colour::Triplet(ka, kc, kb));
    assert_eq!(swapped, reference);
}
