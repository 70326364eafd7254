use zhukoview::{normalise_rect, CanvasView};

#[test]
fn new_view_covers_whole_canvas() {
    let v = CanvasView::new(7, 3);
    assert_eq!(v.offset, (0, 0));
    assert_eq!((v.w, v.h, v.stride), (7, 3, 7));
}

#[test]
fn normalise_rejects_empty_sizes() {
    let v = CanvasView::new(10, 10);
    assert_eq!(normalise_rect(&v, (1, 1), 0, 5), None);
    assert_eq!(normalise_rect(&v, (1, 1), 5, 0), None);
}

#[test]
fn normalise_clips_to_view() {
    let v = CanvasView::new(10, 10);
    assert_eq!(normalise_rect(&v, (2, 3), 4, 5), Some((2, 6, 3, 8)));
    assert_eq!(normalise_rect(&v, (-3, 8), 20, 5), Some((0, 10, 8, 10)));
}

#[test]
fn normalise_flips_negative_sizes() {
    let v = CanvasView::new(10, 10);
    assert_eq!(normalise_rect(&v, (-2, 3), 5, -2), Some((0, 3, 1, 3)));
    assert_eq!(normalise_rect(&v, (9, 9), -3, -4), Some((6, 9, 5, 9)));
}

#[test]
fn normalise_rejects_rects_off_the_view() {
    let v = CanvasView::new(10, 10);
    assert_eq!(normalise_rect(&v, (-5, 0), 5, 3), None);
    assert_eq!(normalise_rect(&v, (0, 20), 3, 3), None);
    // a rectangle that starts on the last column counts as missing
    assert_eq!(normalise_rect(&v, (9, 0), 1, 3), None);
    assert_eq!(normalise_rect(&v, (8, 0), 1, 3), Some((8, 9, 0, 3)));
}

#[test]
fn subview_clips_size_and_moves_offset() {
    let main = CanvasView::new(32, 32);
    let sub = main.subview((4, 4), 24, 24).unwrap();
    assert_eq!(sub.offset, (4, 4));
    assert_eq!((sub.w, sub.h, sub.stride), (24, 24, 32));
    let inner = sub.subview((20, 1), 10, 2).unwrap();
    assert_eq!(inner.offset, (24, 5));
    assert_eq!((inner.w, inner.h, inner.stride), (4, 2, 32));
}

#[test]
fn subview_keeps_an_unclipped_offset() {
    let main = CanvasView::new(10, 10);
    let sub = main.subview((-2, -2), 5, 5).unwrap();
    assert_eq!(sub.offset, (-2, -2));
    assert_eq!((sub.w, sub.h), (3, 3));
}

#[test]
fn subview_of_nothing_is_none() {
    let main = CanvasView::new(10, 10);
    assert!(main.subview((3, 3), 0, 4).is_none());
    assert!(main.subview((12, 3), 4, 4).is_none());
}

#[test]
fn pixel_conversions() {
    let v = CanvasView::new(2, 1);
    let src = [0x11223344u32, 0xAABBCCDD];
    let mut argb = [0u32; 2];
    v.rgba32_to_argb32(&src, &mut argb);
    assert_eq!(argb, [0x44112233, 0xDDAABBCC]);
    let mut back = [0u32; 2];
    v.argb32_to_rgba32(&argb, &mut back);
    assert_eq!(back, src);
}

#[test]
fn conversion_writes_only_the_length_of_dst() {
    let v = CanvasView::new(3, 1);
    let src = [0x01020304u32, 0x05060708, 0x090A0B0C];
    let mut dst = [7u32; 2];
    v.argb32_to_rgba32(&src, &mut dst);
    assert_eq!(dst, [0x02030401, 0x06070805]);
}

#[test]
fn fill_sets_exactly_the_view() {
    let main = CanvasView::new(4, 3);
    let sub = main.subview((1, 1), 2, 2).unwrap();
    let mut canvas = [0u32; 12];
    sub.fill(&mut canvas, 0xFF00FF00);
    let g = 0xFF00FF00;
    assert_eq!(canvas, [0, 0, 0, 0, 0, g, g, 0, 0, g, g, 0]);
}

#[test]
fn add_rect_blends_the_clipped_rect_once() {
    let v = CanvasView::new(4, 4);
    let mut canvas = [0xFF000000u32; 16];
    v.add_rect(&mut canvas, (3, 3), -2, -2, 0x80FFFFFF);
    let b = 0xFF000000;
    let m = 0xFF808080;
    assert_eq!(canvas, [b, b, b, b, b, m, m, b, b, m, m, b, b, b, b, b]);
}

#[test]
fn add_rect_off_the_view_draws_nothing() {
    let v = CanvasView::new(4, 4);
    let mut canvas = [1u32; 16];
    v.add_rect(&mut canvas, (5, 0), 2, 2, 0xFFFFFFFF);
    assert_eq!(canvas, [1u32; 16]);
}

#[test]
fn add_rect_in_subview_uses_offset() {
    let main = CanvasView::new(4, 4);
    let sub = main.subview((2, 2), 2, 2).unwrap();
    let mut canvas = [0u32; 16];
    sub.add_rect(&mut canvas, (0, 0), 1, 1, 0xFF123456);
    let mut expected = [0u32; 16];
    expected[10] = 0xFF123456;
    assert_eq!(canvas, expected);
}
