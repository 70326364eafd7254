use zhukoview::bresenham::Bresenham;
use zhukoview::CanvasView;

fn walk(p1: (isize, isize), p2: (isize, isize)) -> Vec<(isize, isize)> {
    let mut b = Bresenham::new(p1, p2);
    let mut pts = vec![b.point];
    while let Some(p) = b.next() {
        pts.push(p);
    }
    pts
}

#[test]
fn bresenham_shallow_line() {
    assert_eq!(walk((0, 0), (3, 1)), vec![(0, 0), (1, 0), (2, 1), (3, 1)]);
}

#[test]
fn bresenham_steep_line_backwards() {
    assert_eq!(
        walk((5, 5), (1, -2)),
        vec![(5, 5), (4, 4), (4, 3), (3, 2), (3, 1), (2, 0), (2, -1), (1, -2)]
    );
}

#[test]
fn bresenham_single_point_yields_nothing() {
    let mut b = Bresenham::new((2, 2), (2, 2));
    assert_eq!(b.point, (2, 2));
    assert_eq!(b.next(), None);
    assert_eq!(b.next(), None);
}

#[test]
fn bresenham_ends_at_end_and_steps_to_neighbours() {
    for &(p1, p2) in &[((0, 0), (7, 3)), ((-4, 9), (6, -1)), ((3, 3), (3, -5)), ((0, 0), (10, 10))] {
        let pts = walk(p1, p2);
        assert_eq!(pts[0], p1);
        assert_eq!(*pts.last().unwrap(), p2);
        for w in pts.windows(2) {
            let (a, b) = (w[0], w[1]);
            assert!((b.0 - a.0).abs() <= 1 && (b.1 - a.1).abs() <= 1 && a != b);
        }
        let (dx, dy) = ((p2.0 - p1.0).abs(), (p2.1 - p1.1).abs());
        assert_eq!(pts.len() as isize, dx.max(dy) + 1);
    }
}

#[test]
fn add_line_composites_each_point_in_view() {
    let v = CanvasView::new(6, 6);
    let (k, w) = (0xFF000000u32, 0xFFFFFFFFu32);
    let mut canvas = [k; 36];
    v.add_line(&mut canvas, (0, 0), (3, 1), w);
    let mut expected = [k; 36];
    for i in [0, 1, 8, 9] {
        expected[i] = w;
    }
    assert_eq!(canvas, expected);
}

#[test]
fn add_line_skips_points_off_the_view() {
    let main = CanvasView::new(4, 4);
    let sub = main.subview((1, 1), 2, 2).unwrap();
    let mut canvas = [0u32; 16];
    sub.add_line(&mut canvas, (-2, 0), (3, 0), 0xFF0000FF);
    let mut expected = [0u32; 16];
    expected[5] = 0xFF0000FF;
    expected[6] = 0xFF0000FF;
    assert_eq!(canvas, expected);
}

#[test]
fn ruler_draws_a_dashed_cross() {
    let v = CanvasView::new(5, 4);
    let (g, l, d) = (0xFF404040u32, 0xFF9F9F9Fu32, 0xFF1F1F1Fu32);
    let mut canvas = [g; 20];
    v.add_ruler(&mut canvas, (1, 2));
    let expected = [
        g, l, g, g, g, //
        g, d, g, g, g, //
        d, l, d, l, d, //
        g, d, g, g, g,
    ];
    assert_eq!(canvas, expected);
}

#[test]
fn ruler_on_the_last_column_draws_nothing() {
    let v = CanvasView::new(5, 4);
    let mut canvas = [3u32; 20];
    v.add_ruler(&mut canvas, (4, 1));
    v.add_ruler(&mut canvas, (1, 3));
    v.add_ruler(&mut canvas, (-1, 1));
    assert_eq!(canvas, [3u32; 20]);
}

#[test]
fn bresenham_yields_max_extent_points_then_none() {
    for &(p1, p2) in &[((0, 0), (7, 3)), ((2, -5), (-1, 4)), ((0, 0), (0, 0)), ((3, 3), (-3, -3))] {
        let mut b = Bresenham::new(p1, p2);
        let m = (p2.0 - p1.0).abs().max((p2.1 - p1.1).abs());
        let (sx, sy) = ((p2.0 - p1.0).signum(), (p2.1 - p1.1).signum());
        for _ in 0..m {
            let before = b.point();
            let p = b.next().unwrap();
            assert_eq!(p, b.point());
            assert!(p.0 - before.0 == 0 || p.0 - before.0 == sx);
            assert!(p.1 - before.1 == 0 || p.1 - before.1 == sy);
            assert_ne!(p, before);
        }
        assert_eq!(b.point(), p2);
        assert_eq!(b.next(), None);
        assert_eq!(b.next(), None);
        assert_eq!(b.point(), p2);
    }
}
