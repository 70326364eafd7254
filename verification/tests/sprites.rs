use zhukoview::CanvasView;

const K: u32 = 0xFF000000;

#[test]
fn sprite_with_picks_mirrors_across_the_middle() {
    let v = CanvasView::new(6, 4);
    let mut canvas = [K; 24];
    let cmap = [0xFF111111u32, 0xFF222222, 0xFF333333];
    v.add_sprite_with(&mut canvas, (1, 1), 3, 2, &cmap, true, false, &[0, 1, 2, 1]);
    let (a, b, c) = (cmap[0], cmap[1], cmap[2]);
    let expected = [
        K, K, K, K, K, K, //
        K, a, b, a, K, K, //
        K, c, b, c, K, K, //
        K, K, K, K, K, K,
    ];
    assert_eq!(canvas, expected);
}

#[test]
fn sprite_pixel_on_the_axis_is_composited_twice() {
    // a one-row view would reject every rectangle: its first row is its last
    let v = CanvasView::new(3, 2);
    let mut canvas = [K; 6];
    v.add_sprite_with(&mut canvas, (0, 0), 3, 1, &[0x80FFFFFF], true, false, &[0, 0]);
    assert_eq!(canvas, [0xFF808080, 0xFFBFBFBF, 0xFF808080, K, K, K]);
}

#[test]
fn sprite_with_both_mirrors() {
    let v = CanvasView::new(4, 4);
    let mut canvas = [K; 16];
    let cmap = [0xFFAAAAAAu32, 0xFFBBBBBB, 0xFFCCCCCC, 0xFFDDDDDD];
    v.add_sprite_with(&mut canvas, (0, 0), 4, 4, &cmap, true, true, &[0, 1, 2, 3]);
    let (a, b, c, d) = (cmap[0], cmap[1], cmap[2], cmap[3]);
    let expected = [
        a, b, b, a, //
        c, d, d, c, //
        c, d, d, c, //
        a, b, b, a,
    ];
    assert_eq!(canvas, expected);
}

#[test]
fn random_sprite_uses_the_palette_symmetrically() {
    let v = CanvasView::new(7, 5);
    let mut canvas = [K; 35];
    let cmap = [0xFF1D2B53u32, 0xFF7E2553, 0xFF008751, 0xFFAB5236];
    v.add_sprite(&mut canvas, (1, 1), 5, 3, &cmap, true, false);
    for y in 0..5usize {
        for x in 0..7usize {
            let p = canvas[x + y * 7];
            if (1..=5).contains(&x) && (1..=3).contains(&y) {
                assert!(cmap.contains(&p), "pixel ({x}, {y}) is {p:08X}");
                assert_eq!(p, canvas[(6 - x) + y * 7]);
            } else {
                assert_eq!(p, K);
            }
        }
    }
}

#[test]
fn sprite_off_the_view_draws_nothing() {
    let v = CanvasView::new(4, 4);
    let mut canvas = [K; 16];
    v.add_sprite(&mut canvas, (9, 9), 2, 2, &[], true, true);
    assert_eq!(canvas, [K; 16]);
}
