//! Squares that a king reaches along the diagonals through its square,
//! found by walking each of the four rays.

use vstd::prelude::*;
use crate::rules::{col, dist, heading, lemma_path, on_board, path_sq, ray_sq, row, same_diagonal};
use crate::useful_functions::{bit, bit_at, get_bit, lemma_bit_edits, lemma_bit_logic, with_bit};

verus! {

/// `t` is reached from `s` by sliding: it shares a diagonal with `s`, and
/// no square on the way, `t` included, is a blocker.
pub open spec fn slide_reach(s: int, blockers: u64, t: int) -> bool {
    same_diagonal(s, t) && forall|i: int|
        1 <= i <= dist(s, t) ==> !bit(blockers, #[trigger] path_sq(s, t, i))
}

/// `t` is reached from `s` by passing the blocker `m` steps away: `t` is no
/// blocker, and that blocker is the only one between `s` and `t`.
pub open spec fn capture_reach_over(s: int, blockers: u64, t: int, m: int) -> bool {
    &&& same_diagonal(s, t)
    &&& !bit(blockers, t)
    &&& 1 <= m < dist(s, t)
    &&& bit(blockers, path_sq(s, t, m))
    &&& forall|i: int|
        1 <= i < dist(s, t) && i != m ==> !bit(blockers, #[trigger] path_sq(s, t, i))
}

/// `t` is reached from `s` by passing exactly one blocker.
pub open spec fn capture_reach(s: int, blockers: u64, t: int) -> bool {
    exists|m: int| capture_reach_over(s, blockers, t, m)
}

/// The squares reached by sliding along one ray.
fn slide_ray(square: i8, up: bool, east: bool, blockers: u64) -> (r: u64)
    requires
        0 <= square < 64,
    ensures
        forall|t: u64|
            t < 64 ==> (#[trigger] bit_at(r, t) <==> heading(square as int, t as int, up, east)
                && slide_reach(square as int, blockers, t as int)),
{
    let ghost s = square as int;
    let dr: i8 = if up {
        1
    } else {
        -1
    };
    let dc: i8 = if east {
        1
    } else {
        -1
    };
    let mut result: u64 = 0;
    let mut r: i8 = square / 8 + dr;
    let mut c: i8 = square % 8 + dc;
    let mut go: bool = true;
    let ghost mut j: int = 1;
    proof {
        lemma_bit_logic();
        lemma_bit_edits();
    }
    while go
        invariant
            0 <= square < 64,
            s == square,
            1 <= j <= 8,
            dr == (if up {
                1i8
            } else {
                -1i8
            }),
            dc == (if east {
                1i8
            } else {
                -1i8
            }),
            8 * r + c == ray_sq(s, up, east, j),
            r == (if up {
                s / 8 + j
            } else {
                s / 8 - j
            }),
            c == (if east {
                s % 8 + j
            } else {
                s % 8 - j
            }),
            forall|i: int|
                1 <= i < j ==> on_board(#[trigger] ray_sq(s, up, east, i)) && !bit(
                    blockers,
                    ray_sq(s, up, east, i),
                ),
            go ==> forall|t: u64|
                t < 64 ==> (#[trigger] bit_at(result, t) <==> heading(s, t as int, up, east)
                    && same_diagonal(s, t as int) && dist(s, t as int) < j),
            !go ==> forall|t: u64|
                t < 64 ==> (#[trigger] bit_at(result, t) <==> heading(s, t as int, up, east)
                    && slide_reach(s, blockers, t as int)),
        decreases
                (if go {
                    9 - j
                } else {
                    0
                }),
    {
        let ghost prev = result;
        if r < 0 || r > 7 || c < 0 || c > 7 {
            go = false;
            assert forall|t: u64| t < 64 implies (#[trigger] bit_at(result, t) <==> heading(
                s,
                t as int,
                up,
                east,
            ) && slide_reach(s, blockers, t as int)) by {
                let ti = t as int;
                if heading(s, ti, up, east) && same_diagonal(s, ti) {
                    lemma_path(s, ti);
                    assert(dist(s, ti) < j) by {
                        if dist(s, ti) >= j {
                            assert(on_board(path_sq(s, ti, j)));
                        }
                    }
                    assert forall|i: int| 1 <= i <= dist(s, ti) implies !bit(
                        blockers,
                        #[trigger] path_sq(s, ti, i),
                    ) by {
                        assert(path_sq(s, ti, i) == ray_sq(s, up, east, i));
                    }
                }
            }
        } else {
            let idx: i8 = 8 * r + c;
            if get_bit(blockers, idx) == 1 {
                go = false;
                assert forall|t: u64| t < 64 implies (#[trigger] bit_at(result, t) <==> heading(
                    s,
                    t as int,
                    up,
                    east,
                ) && slide_reach(s, blockers, t as int)) by {
                    let ti = t as int;
                    if heading(s, ti, up, east) && same_diagonal(s, ti) {
                        lemma_path(s, ti);
                        if dist(s, ti) >= j {
                            assert(path_sq(s, ti, j) == ray_sq(s, up, east, j));
                        } else {
                            assert forall|i: int| 1 <= i <= dist(s, ti) implies !bit(
                                blockers,
                                #[trigger] path_sq(s, ti, i),
                            ) by {
                                assert(path_sq(s, ti, i) == ray_sq(s, up, east, i));
                            }
                        }
                    }
                }
            } else {
                result |= 1u64 << (idx as u64);
                assert(result == with_bit(prev, idx as u64));
                let ghost r0 = r as int;
                let ghost c0 = c as int;
                r += dr;
                c += dc;
                proof {
                    lemma_bit_edits();
                    let q = idx as int;
                    assert(q / 8 == r0 && q % 8 == c0);
                    assert(heading(s, q, up, east) && same_diagonal(s, q) && dist(s, q) == j);
                    assert forall|t: u64| t < 64 implies (#[trigger] bit_at(result, t) <==> heading(
                        s,
                        t as int,
                        up,
                        east,
                    ) && same_diagonal(s, t as int) && dist(s, t as int) < j + 1) by {
                        let ti = t as int;
                        assert(bit_at(result, t) == (t == idx as u64 || bit_at(prev, t)));
                        if heading(s, ti, up, east) && same_diagonal(s, ti) && dist(s, ti) == j {
                            lemma_path(s, ti);
                            assert(path_sq(s, ti, j) == ray_sq(s, up, east, j));
                            assert(ti == q);
                        }
                    }
                    j = j + 1;
                }
            }
        }
    }
    result
}

/// The squares that a piece on `square` reaches by sliding along its
/// diagonals up to, and not onto, the first blocker of each ray.
pub fn slide_targets(square: i8, blockers: u64) -> (r: u64)
    requires
        0 <= square < 64,
    ensures
        forall|t: u64|
            t < 64 ==> (#[trigger] bit_at(r, t) <==> slide_reach(square as int, blockers, t as int)),
{
    let a: u64 = slide_ray(square, true, true, blockers);
    let b: u64 = slide_ray(square, true, false, blockers);
    let c: u64 = slide_ray(square, false, true, blockers);
    let d: u64 = slide_ray(square, false, false, blockers);
    proof {
        lemma_bit_logic();
    }
    a | b | c | d
}

/// What [`capture_ray`] has found after looking at the squares less than
/// `j` steps away: nothing is reached before the first blocker, `m` steps
/// away if `taken`; after it, every square up to the next blocker.
spec fn capture_scan(
    s: int,
    up: bool,
    east: bool,
    blockers: u64,
    j: int,
    taken: bool,
    m: int,
    result: u64,
) -> bool {
    &&& forall|i: int|
        1 <= i < j ==> on_board(#[trigger] ray_sq(s, up, east, i)) && (bit(
            blockers,
            ray_sq(s, up, east, i),
        ) <==> taken && i == m)
    &&& taken ==> 1 <= m < j
    &&& forall|t: u64|
        t < 64 ==> (#[trigger] bit_at(result, t) <==> heading(s, t as int, up, east)
            && same_diagonal(s, t as int) && taken && m < dist(s, t as int) < j)
}

/// Once the walk along a ray has ended, the squares found are those reached by a capture.
proof fn lemma_capture_scan_done(
    s: int,
    up: bool,
    east: bool,
    blockers: u64,
    j: int,
    taken: bool,
    m: int,
    result: u64,
)
    requires
        on_board(s),
        1 <= j,
        capture_scan(s, up, east, blockers, j, taken, m, result),
        !on_board(ray_sq(s, up, east, j)) || (0 <= (if up {
            row(s) + j
        } else {
            row(s) - j
        }) < 8 && 0 <= (if east {
            col(s) + j
        } else {
            col(s) - j
        }) < 8 && taken && bit(blockers, ray_sq(s, up, east, j))) || !(0 <= (if up {
            row(s) + j
        } else {
            row(s) - j
        }) < 8 && 0 <= (if east {
            col(s) + j
        } else {
            col(s) - j
        }) < 8),
    ensures
        forall|t: u64|
            t < 64 ==> (#[trigger] bit_at(result, t) <==> heading(s, t as int, up, east)
                && capture_reach(s, blockers, t as int)),
{
    assert forall|t: u64| t < 64 implies (#[trigger] bit_at(result, t) <==> heading(
        s,
        t as int,
        up,
        east,
    ) && capture_reach(s, blockers, t as int)) by {
        let ti = t as int;
        if heading(s, ti, up, east) && same_diagonal(s, ti) {
            lemma_path(s, ti);
            let d = dist(s, ti);
            assert forall|i: int| 0 <= i <= d implies #[trigger] path_sq(s, ti, i) == ray_sq(
                s,
                up,
                east,
                i,
            ) by {}
            if bit_at(result, t) {
                assert(capture_reach_over(s, blockers, ti, m)) by {
                    assert(path_sq(s, ti, d) == ray_sq(s, up, east, d));
                    assert(path_sq(s, ti, m) == ray_sq(s, up, east, m));
                    assert forall|i: int| 1 <= i < d && i != m implies !bit(
                        blockers,
                        #[trigger] path_sq(s, ti, i),
                    ) by {
                        assert(path_sq(s, ti, i) == ray_sq(s, up, east, i));
                    }
                }
            }
            if capture_reach(s, blockers, ti) {
                let w = choose|w: int| capture_reach_over(s, blockers, ti, w);
                assert(path_sq(s, ti, w) == ray_sq(s, up, east, w));
                assert(path_sq(s, ti, d) == ray_sq(s, up, east, d));
                if d >= j {
                    assert(path_sq(s, ti, j) == ray_sq(s, up, east, j));
                    assert(on_board(path_sq(s, ti, j)));
                    assert(taken && bit(blockers, ray_sq(s, up, east, j)));
                    assert(path_sq(s, ti, m) == ray_sq(s, up, east, m));
                    assert(false);
                }
                assert(w < j);
                assert(taken && w == m);
            }
        }
    }
}

/// The squares reached along one ray by passing exactly one blocker.
fn capture_ray(square: i8, up: bool, east: bool, blockers: u64) -> (r: u64)
    requires
        0 <= square < 64,
    ensures
        forall|t: u64|
            t < 64 ==> (#[trigger] bit_at(r, t) <==> heading(square as int, t as int, up, east)
                && capture_reach(square as int, blockers, t as int)),
{
    let ghost s = square as int;
    let dr: i8 = if up {
        1
    } else {
        -1
    };
    let dc: i8 = if east {
        1
    } else {
        -1
    };
    let mut result: u64 = 0;
    let mut r: i8 = square / 8 + dr;
    let mut c: i8 = square % 8 + dc;
    let mut go: bool = true;
    let mut has_taken: bool = false;
    let ghost mut j: int = 1;
    let ghost mut m: int = 0;
    proof {
        lemma_bit_logic();
    }
    while go
        invariant
            0 <= square < 64,
            s == square,
            1 <= j <= 8,
            dr == (if up {
                1i8
            } else {
                -1i8
            }),
            dc == (if east {
                1i8
            } else {
                -1i8
            }),
            r == (if up {
                s / 8 + j
            } else {
                s / 8 - j
            }),
            c == (if east {
                s % 8 + j
            } else {
                s % 8 - j
            }),
            go ==> capture_scan(s, up, east, blockers, j, has_taken, m, result),
            !go ==> forall|t: u64|
                t < 64 ==> (#[trigger] bit_at(result, t) <==> heading(s, t as int, up, east)
                    && capture_reach(s, blockers, t as int)),
        decreases
                (if go {
                    9 - j
                } else {
                    0
                }),
    {
        let ghost prev = result;
        if r < 0 || r > 7 || c < 0 || c > 7 {
            go = false;
            proof {
                lemma_capture_scan_done(s, up, east, blockers, j, has_taken, m, result);
            }
        } else {
            let idx: i8 = 8 * r + c;
            assert(idx == ray_sq(s, up, east, j));
            assert(idx / 8 == r && idx % 8 == c);
            if get_bit(blockers, idx) == 1 {
                if has_taken {
                    go = false;
                    proof {
                        lemma_capture_scan_done(s, up, east, blockers, j, has_taken, m, result);
                    }
                } else {
                    has_taken = true;
                    r += dr;
                    c += dc;
                    proof {
                        m = j;
                        j = j + 1;
                    }
                }
            } else {
                if has_taken {
                    result |= 1u64 << (idx as u64);
                    assert(result == with_bit(prev, idx as u64));
                }
                r += dr;
                c += dc;
                proof {
                    lemma_bit_edits();
                    let q = idx as int;
                    assert(heading(s, q, up, east) && same_diagonal(s, q) && dist(s, q) == j);
                    assert forall|t: u64| t < 64 implies (#[trigger] bit_at(result, t) <==> heading(
                        s,
                        t as int,
                        up,
                        east,
                    ) && same_diagonal(s, t as int) && has_taken && m < dist(s, t as int) < j
                        + 1) by {
                        let ti = t as int;
                        if heading(s, ti, up, east) && same_diagonal(s, ti) && dist(s, ti) == j {
                            lemma_path(s, ti);
                            assert(path_sq(s, ti, j) == ray_sq(s, up, east, j));
                            assert(ti == q);
                        }
                    }
                    j = j + 1;
                }
            }
        }
    }
    result
}

/// The squares that a piece on `square` reaches by passing exactly one
/// blocker on a diagonal: those behind the first blocker of each ray up to,
/// and not onto, the second.
pub fn capture_targets(square: i8, blockers: u64) -> (r: u64)
    requires
        0 <= square < 64,
    ensures
        forall|t: u64|
            t < 64 ==> (#[trigger] bit_at(r, t) <==> capture_reach(
                square as int,
                blockers,
                t as int,
            )),
{
    let a: u64 = capture_ray(square, true, true, blockers);
    let b: u64 = capture_ray(square, true, false, blockers);
    let c: u64 = capture_ray(square, false, true, blockers);
    let d: u64 = capture_ray(square, false, false, blockers);
    proof {
        lemma_bit_logic();
    }
    a | b | c | d
}

/// With no blocker at all, sliding reaches the whole of both diagonals but the square itself.
pub proof fn lemma_slide_reach_unblocked(s: int, t: int)
    ensures
        slide_reach(s, 0, t) <==> same_diagonal(s, t),
{
    lemma_bit_logic();
}

} // verus!
