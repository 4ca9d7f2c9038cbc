use checkers::diagonals::{capture_targets, slide_targets};

fn mask(squares: &[i8]) -> u64 {
    squares.iter().fold(0u64, |m, s| m | (1u64 << *s))
}

fn on_diagonals(s: i8) -> u64 {
    let mut m = 0u64;
    for t in 0..64i8 {
        let dr = (t / 8 - s / 8).abs();
        let dc = (t % 8 - s % 8).abs();
        if t != s && dr == dc {
            m |= 1u64 << t;
        }
    }
    m
}

#[test]
fn sliding_without_blockers_reaches_both_diagonals() {
    for s in 0..64i8 {
        assert_eq!(slide_targets(s, 0), on_diagonals(s));
        assert_eq!(slide_targets(s, 0) & (1u64 << s), 0);
    }
    assert_eq!(slide_targets(0, 0), mask(&[9, 18, 27, 36, 45, 54, 63]));
    assert_eq!(slide_targets(7, 0), mask(&[14, 21, 28, 35, 42, 49, 56]));
}

#[test]
fn sliding_stops_before_the_first_blocker() {
    // From 27 (row 3, column 3).
    let blockers = mask(&[45, 13, 34]);
    assert_eq!(slide_targets(27, blockers), mask(&[36, 20, 18, 9, 0]));
    // A blocker on the square itself changes nothing.
    assert_eq!(slide_targets(27, blockers | (1 << 27)), mask(&[36, 20, 18, 9, 0]));
}

#[test]
fn capturing_without_blockers_reaches_nothing() {
    for s in 0..64i8 {
        assert_eq!(capture_targets(s, 0), 0);
    }
}

#[test]
fn capturing_lands_behind_exactly_one_blocker() {
    // From 0 along the long diagonal: a blocker on 18, a second on 45.
    assert_eq!(capture_targets(0, mask(&[18])), mask(&[27, 36, 45, 54, 63]));
    assert_eq!(capture_targets(0, mask(&[18, 45])), mask(&[27, 36]));
    // Two blockers next to each other leave no landing square.
    assert_eq!(capture_targets(0, mask(&[18, 27])), 0);
    // A blocker on the edge cannot be passed.
    assert_eq!(capture_targets(0, mask(&[63])), 0);
    // From 27: one blocker on each of two rays.
    assert_eq!(capture_targets(27, mask(&[36, 20])), mask(&[45, 54, 63, 13, 6]));
    // The result never holds the square itself.
    assert_eq!(capture_targets(27, mask(&[36, 20])) & (1 << 27), 0);
}

#[test]
fn rays_do_not_wrap_round_the_edges() {
    // From 7 (row 0, column 7) the only diagonal runs towards column 0.
    assert_eq!(slide_targets(7, 0) & mask(&[16, 8, 15]), 0);
    // From 32 (row 4, column 0).
    assert_eq!(slide_targets(32, 0), mask(&[41, 50, 59, 25, 18, 11, 4]));
    assert_eq!(capture_targets(32, mask(&[41])), mask(&[50, 59]));
}
