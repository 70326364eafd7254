use zhukoview::rainbow::Rainbow;

#[test]
fn rainbow_starts_at_opaque_red() {
    let r = Rainbow::new();
    assert_eq!(r.colour, 0xFF0000FF);
    assert_eq!(Rainbow::default().colour, 0xFF0000FF);
}

#[test]
fn rainbow_first_phase_raises_green() {
    let mut r = Rainbow::new();
    assert_eq!(r.next(), Some(0xFF0100FF));
    for _ in 1..255 {
        r.next();
    }
    assert_eq!(r.colour, 0xFFFF00FF);
    assert_eq!(r.next(), Some(0xFEFF00FF));
}

#[test]
fn rainbow_phases_in_turn() {
    let mut r = Rainbow::new();
    let mut ends = Vec::new();
    for i in 1..=1530 {
        let c = r.next().unwrap();
        assert_eq!(c & 0xFF, 0xFF);
        if i % 255 == 0 {
            ends.push(c);
        }
    }
    assert_eq!(ends, vec![0xFFFF00FF, 0x00FF00FF, 0x00FFFFFF, 0x0000FFFF, 0xFF00FFFF, 0xFF0000FF]);
}

#[test]
fn rainbow_repeats_every_1530_steps() {
    let mut r = Rainbow::new();
    let first: Vec<u32> = (0..1530).map(|_| r.next().unwrap()).collect();
    let second: Vec<u32> = (0..1530).map(|_| r.next().unwrap()).collect();
    assert_eq!(first, second);
}

#[test]
fn rainbow_moves_one_byte_by_one() {
    let mut r = Rainbow::new();
    for _ in 0..3060 {
        let c0 = r.colour();
        let c1 = r.next().unwrap();
        assert_eq!(c1, r.colour());
        let changed: Vec<u32> = [24u32, 16, 8, 0]
            .iter()
            .filter(|&&sh| (c0 >> sh) & 0xFF != (c1 >> sh) & 0xFF)
            .cloned()
            .collect();
        assert_eq!(changed.len(), 1);
        let sh = changed[0];
        assert_ne!(sh, 0);
        let (b0, b1) = ((c0 >> sh) & 0xFF, (c1 >> sh) & 0xFF);
        assert!(b1 == b0 + 1 || b1 + 1 == b0);
    }
}
