use watch_lib::{normalize_rect_to_screen, sweep_merge_rectangles, BoundingRect};

fn rect(x: i16, y: i16, width: u8, height: u8) -> BoundingRect {
    BoundingRect { x, y, width, height }
}

fn sweep(rects: &[BoundingRect]) -> Vec<BoundingRect> {
    let mut out = Vec::new();
    let mut normalized = Vec::new();
    let mut x_edges = Vec::new();
    let mut y_spans = Vec::new();
    sweep_merge_rectangles(rects, &mut out, &mut normalized, &mut x_edges, &mut y_spans);
    out
}

fn area(rs: &[BoundingRect]) -> u32 {
    rs.iter().map(|r| r.width as u32 * r.height as u32).sum()
}

fn covered(rs: &[BoundingRect], x: i16, y: i16) -> bool {
    rs.iter().any(|r| r.contains_point(x, y))
}

#[test]
fn contains_point_is_half_open() {
    let r = rect(2, 3, 4, 5);
    assert!(r.contains_point(2, 3));
    assert!(r.contains_point(5, 7));
    assert!(!r.contains_point(6, 3));
    assert!(!r.contains_point(2, 8));
    assert!(!r.contains_point(1, 3));
}

#[test]
fn contains_point_near_i16_limit_does_not_overflow() {
    let r = rect(i16::MAX - 2, 0, 255, 1);
    assert!(r.contains_point(i16::MAX, 0));
}

#[test]
fn overlaps_needs_shared_interior() {
    let a = rect(0, 0, 10, 10);
    assert!(a.overlaps(&rect(9, 9, 5, 5)));
    assert!(!a.overlaps(&rect(10, 0, 5, 5)));
    assert!(!a.overlaps(&rect(0, 10, 5, 5)));
}

#[test]
fn intersection_of_overlapping_rects() {
    let i = rect(0, 0, 10, 10).intersection(&rect(5, 5, 10, 10)).unwrap();
    assert_eq!(i, rect(5, 5, 5, 5));
}

#[test]
fn intersection_of_touching_rects_is_empty_but_present() {
    let i = rect(0, 0, 10, 10).intersection(&rect(10, 2, 5, 5)).unwrap();
    assert_eq!(i, rect(10, 2, 0, 5));
}

#[test]
fn intersection_of_apart_rects_is_none() {
    assert!(rect(0, 0, 10, 10).intersection(&rect(11, 0, 5, 5)).is_none());
}

#[test]
fn normalize_clips_to_screen() {
    assert_eq!(normalize_rect_to_screen(&rect(-5, 190, 20, 20)), Some((0, 15, 190, 200)));
    assert_eq!(normalize_rect_to_screen(&rect(200, 0, 10, 10)), None);
    assert_eq!(normalize_rect_to_screen(&rect(0, 0, 0, 10)), None);
}

#[test]
fn sweep_union_of_two_overlapping_squares() {
    let out = sweep(&[rect(0, 0, 10, 10), rect(5, 5, 10, 10)]);
    assert_eq!(area(&out), 175);
    for (i, a) in out.iter().enumerate() {
        for b in out.iter().skip(i + 1) {
            assert!(!a.overlaps(b));
        }
    }
    for y in 0..20 {
        for x in 0..20 {
            let inside = (x < 10 && y < 10) || (x >= 5 && x < 15 && y >= 5 && y < 15);
            assert_eq!(covered(&out, x, y), inside);
        }
    }
}

#[test]
fn sweep_of_nothing_is_nothing() {
    assert!(sweep(&[]).is_empty());
    assert!(sweep(&[rect(-30, -30, 10, 10), rect(250, 0, 5, 5)]).is_empty());
}

#[test]
fn sweep_merges_equal_and_touching_rects() {
    let out = sweep(&[rect(0, 0, 10, 10), rect(0, 0, 10, 10)]);
    assert_eq!(out, vec![rect(0, 0, 10, 10)]);
    let out = sweep(&[rect(0, 0, 10, 5), rect(0, 5, 10, 5)]);
    assert_eq!(out, vec![rect(0, 0, 10, 10)]);
}

#[test]
fn sweep_clips_to_screen() {
    let out = sweep(&[rect(190, 190, 30, 30)]);
    assert_eq!(out, vec![rect(190, 190, 10, 10)]);
}

#[test]
fn sweep_keeps_separate_rects_apart() {
    let out = sweep(&[rect(0, 0, 4, 4), rect(100, 100, 4, 4)]);
    assert_eq!(out.len(), 2);
    assert_eq!(area(&out), 32);
}

#[test]
fn sweep_matches_brute_force_on_many_inputs() {
    let mut seed: u32 = 12345;
    let mut next = move || {
        seed = seed.wrapping_mul(1_103_515_245).wrapping_add(12_345);
        (seed >> 16) & 0x7fff
    };
    for _ in 0..40 {
        let n = (next() % 6) as usize;
        let rects: Vec<BoundingRect> = (0..n)
            .map(|_| {
                rect(
                    (next() % 240) as i16 - 20,
                    (next() % 240) as i16 - 20,
                    (next() % 60) as u8,
                    (next() % 60) as u8,
                )
            })
            .collect();
        let out = sweep(&rects);
        for (i, a) in out.iter().enumerate() {
            assert!(a.width > 0 && a.height > 0);
            for b in out.iter().skip(i + 1) {
                assert!(!a.overlaps(b));
            }
        }
        for y in -5..205i16 {
            for x in -5..205i16 {
                let on_screen = (0..200).contains(&x) && (0..200).contains(&y);
                assert_eq!(covered(&out, x, y), on_screen && covered(&rects, x, y));
            }
        }
    }
}

#[test]
fn sweep_cuts_overlapping_squares_into_three_slabs() {
    let out = sweep(&[rect(0, 0, 10, 10), rect(5, 5, 10, 10)]);
    assert_eq!(out, vec![rect(0, 0, 5, 10), rect(5, 0, 5, 15), rect(10, 5, 5, 10)]);
}
