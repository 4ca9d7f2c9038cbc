//! What holds of every capture that the rules list.

use vstd::prelude::*;
use crate::captures::{jump_geometry, lemma_jump_geometry};
use crate::game::{Checker, MoveView};
use crate::moves::{lemma_gather_contains, prefixed, take_moves};
use crate::rules::{
    dist, lemma_jump_takes_one_piece, lemma_path, lemma_piece_count_update, on_board, path_sq,
    piece_count, Position,
};
use crate::movegen::{lemma_step_geometry, step_geometry};

verus! {

/// After a legal jump the board is whole and the jumping piece stands on the landing square.
pub proof fn lemma_after_jump(p: Position, s: int, t: int)
    requires
        p.wf(),
        p.legal_jump(s, t),
    ensures
        p.after_jump(s, t).wf(),
        p.after_jump(s, t).white == p.white,
        p.after_jump(s, t).board[t].belongs_to(p.white),
        piece_count(p.after_jump(s, t).board) + 1 == piece_count(p.board),
        on_board(s),
        on_board(t),
{
    lemma_jump_takes_one_piece(p, s, t);
}

/// A path of legal jumps takes one piece per jump and leaves the jumping
/// piece on its last square.
pub proof fn lemma_after_jumps(p: Position, path: Seq<int>)
    requires
        p.wf(),
        path.len() >= 2,
        p.jumps_ok(path),
    ensures
        p.after_jumps(path).wf(),
        p.after_jumps(path).white == p.white,
        p.after_jumps(path).board[path.last()].belongs_to(p.white),
        piece_count(p.after_jumps(path).board) + path.len() - 1 == piece_count(p.board),
        forall|i: int| 0 <= i < path.len() ==> on_board(#[trigger] path[i]),
    decreases path.len(),
{
    lemma_after_jump(p, path[0], path[1]);
    let q = p.after_jump(path[0], path[1]);
    let rest = path.drop_first();
    if rest.len() >= 2 {
        lemma_after_jumps(q, rest);
        assert forall|i: int| 0 <= i < path.len() implies on_board(#[trigger] path[i]) by {
            if i > 0 {
                assert(path[i] == rest[i - 1]);
            }
        }
    }
    assert(rest.last() == path.last());
}

/// A piece that can jump starts at least one full capture.
pub proof fn lemma_chains_via_nonempty(p: Position, s: int, t: int)
    requires
        p.wf(),
        p.legal_jump(s, t),
    ensures
        p.chains_via(s, t).len() > 0,
{
    lemma_jump_takes_one_piece(p, s, t);
}

/// The captures of a king that land first below `n` include those that land first on `t < n`.
pub proof fn lemma_chains_below_holds(p: Position, s: int, n: int, t: int)
    requires
        0 <= t < n,
    ensures
        p.chains_below(s, n).len() >= p.chains_via(s, t).len(),
    decreases n,
{
    if t < n - 1 {
        lemma_chains_below_holds(p, s, n - 1, t);
    }
}

/// A piece from whose square no full capture starts cannot jump.
pub proof fn lemma_no_chain_no_jump(p: Position, s: int)
    requires
        p.wf(),
        on_board(s),
        p.chains_from(s).len() == 0,
    ensures
        !p.can_jump_from(s),
{
    if p.can_jump_from(s) {
        let t = choose|t: int| p.legal_jump(s, t);
        lemma_chains_via_nonempty(p, s, t);
        if p.board[s].is_king() {
            lemma_chains_below_holds(p, s, 64, t);
        } else {
            lemma_jump_geometry(s);
            assert(jump_geometry(s));
            assert(dist(s, t) == 2);
            assert(t == s + 14 || t == s + 18 || t == s - 14 || t == s - 18) by {
                lemma_path(s, t);
            }
        }
    }
}

/// Every full capture listed for the jump from `s` to `t` starts with that
/// jump, is made of legal jumps, and ends where no further jump is possible.
pub proof fn lemma_chains_via_sound(p: Position, s: int, t: int, c: Seq<int>)
    requires
        p.chains_via(s, t).contains(c),
    ensures
        p.wf(),
        p.legal_jump(s, t),
        c.len() >= 2,
        c[0] == s,
        c[1] == t,
        p.maximal_chain(c),
    decreases piece_count(p.board), 0nat, 0nat,
{
    if p.wf() && p.legal_jump(s, t) {
        lemma_after_jump(p, s, t);
        let q = p.after_jump(s, t);
        let rest = q.chains_from(t);
        if rest.len() == 0 {
            assert(p.chains_via(s, t) == seq![seq![s, t]]);
            let k = choose|k: int| 0 <= k < p.chains_via(s, t).len() && p.chains_via(s, t)[k] == c;
            assert(c == seq![s, t]);
            assert(c.drop_first() =~= seq![t]);
            assert(q.jumps_ok(c.drop_first()));
            assert(q.after_jumps(c.drop_first()) == q);
            lemma_no_chain_no_jump(q, t);
        } else {
            let all = prefixed(rest, s);
            let k = choose|k: int| 0 <= k < all.len() && all[k] == c;
            let r = rest[k];
            assert(rest.contains(r));
            lemma_chains_from_sound(q, t, r);
            assert(c == seq![s] + r);
            assert(c.drop_first() =~= r);
            assert(c.last() == r.last());
        }
    } else {
        assert(p.chains_via(s, t).len() == 0);
        let k = choose|k: int| 0 <= k < p.chains_via(s, t).len() && p.chains_via(s, t)[k] == c;
    }
}

/// Every full capture listed for a king that lands first below `n` is sound.
pub proof fn lemma_chains_below_sound(p: Position, s: int, n: int, c: Seq<int>)
    requires
        p.chains_below(s, n).contains(c),
    ensures
        p.wf(),
        c.len() >= 2,
        c[0] == s,
        p.maximal_chain(c),
    decreases piece_count(p.board), 1nat, n,
{
    if n <= 0 {
        let k = choose|k: int| 0 <= k < p.chains_below(s, n).len() && p.chains_below(s, n)[k] == c;
    } else {
        let a = p.chains_below(s, n - 1);
        let b = p.chains_via(s, n - 1);
        let k = choose|k: int| 0 <= k < (a + b).len() && (a + b)[k] == c;
        if k < a.len() {
            assert(a[k] == c);
            assert(a.contains(c));
            lemma_chains_below_sound(p, s, n - 1, c);
        } else {
            assert(b[k - a.len()] == c);
            assert(b.contains(c));
            lemma_chains_via_sound(p, s, n - 1, c);
        }
    }
}

/// Every full capture listed for the piece on `s` starts on `s`, is made of
/// legal jumps, and ends where no further jump is possible.
pub proof fn lemma_chains_from_sound(p: Position, s: int, c: Seq<int>)
    requires
        p.chains_from(s).contains(c),
    ensures
        p.wf(),
        c.len() >= 2,
        c[0] == s,
        p.maximal_chain(c),
    decreases piece_count(p.board), 2nat, 0nat,
{
    if p.board[s].is_king() {
        lemma_chains_below_sound(p, s, 64, c);
    } else {
        let a = p.chains_via(s, s + 18);
        let b = p.chains_via(s, s + 14);
        let d = p.chains_via(s, s - 14);
        let e = p.chains_via(s, s - 18);
        let all = a + b + d + e;
        let k = choose|k: int| 0 <= k < all.len() && all[k] == c;
        if k < a.len() {
            assert(a[k] == c);
            assert(a.contains(c));
            lemma_chains_via_sound(p, s, s + 18, c);
        } else if k < a.len() + b.len() {
            assert(b[k - a.len()] == c);
            assert(b.contains(c));
            lemma_chains_via_sound(p, s, s + 14, c);
        } else if k < a.len() + b.len() + d.len() {
            assert(d[k - a.len() - b.len()] == c);
            assert(d.contains(c));
            lemma_chains_via_sound(p, s, s - 14, c);
        } else {
            assert(e[k - a.len() - b.len() - d.len()] == c);
            assert(e.contains(c));
            lemma_chains_via_sound(p, s, s - 18, c);
        }
    }
}

/// Every capture listed for the side to move is a full capture by one of its pieces.
pub proof fn lemma_capture_chains_sound(p: Position, c: Seq<int>)
    requires
        p.capture_chains().contains(c),
    ensures
        p.wf(),
        p.maximal_chain(c),
        p.board[c[0]].belongs_to(p.white),
{
    let a = p.man_captures(14);
    let b = p.man_captures(-18);
    let d = p.man_captures(18);
    let e = p.man_captures(-14);
    let f = p.king_captures();
    let all = a + b + d + e + f;
    let k = choose|k: int| 0 <= k < all.len() && all[k] == c;
    if k < a.len() {
        assert(a[k] == c);
        assert(a.contains(c));
        lemma_man_captures_sound(p, 14, c);
    } else if k < a.len() + b.len() {
        assert(b[k - a.len()] == c);
        assert(b.contains(c));
        lemma_man_captures_sound(p, -18, c);
    } else if k < a.len() + b.len() + d.len() {
        assert(d[k - a.len() - b.len()] == c);
        assert(d.contains(c));
        lemma_man_captures_sound(p, 18, c);
    } else if k < a.len() + b.len() + d.len() + e.len() {
        assert(e[k - a.len() - b.len() - d.len()] == c);
        assert(e.contains(c));
        lemma_man_captures_sound(p, -14, c);
    } else {
        assert(f[k - a.len() - b.len() - d.len() - e.len()] == c);
        assert(f.contains(c));
        lemma_gather_contains(64, p.king_capture_family(), c);
        let i = choose|i: int| 0 <= i < 64 && (#[trigger] (p.king_capture_family())(i)).contains(c);
        assert(p.king_captures_at(i).contains(c));
        lemma_chains_from_sound(p, i, c);
    }
}

/// Every capture listed for the men of the side to move is a full capture by one of them.
pub proof fn lemma_man_captures_sound(p: Position, step: int, c: Seq<int>)
    requires
        p.man_captures(step).contains(c),
    ensures
        p.wf(),
        p.maximal_chain(c),
        p.board[c[0]].belongs_to(p.white),
{
    lemma_gather_contains(64, p.man_capture_family(step), c);
    let i = choose|i: int| 0 <= i < 64 && (#[trigger] (p.man_capture_family(step))(i)).contains(c);
    assert(p.man_captures_at(step, i).contains(c));
    lemma_chains_via_sound(p, i, i + step, c);
}

/// Every move without capture listed for the side to move is one the rules allow.
pub proof fn lemma_simple_moves_sound(p: Position, m: MoveView)
    requires
        p.simple_moves().contains(m),
    ensures
        m is Simple,
        p.legal_simple(m->Simple_0, m->Simple_1),
        p.can_relocate(m->Simple_0, m->Simple_1),
{
    let d1: int = if p.white {
        7
    } else {
        -7
    };
    let d2: int = if p.white {
        9
    } else {
        -9
    };
    let a = p.man_steps(d1);
    let b = p.man_steps(d2);
    let f = p.king_slides();
    let all = a + b + f;
    let k = choose|k: int| 0 <= k < all.len() && all[k] == m;
    if k < a.len() {
        assert(a[k] == m);
        assert(a.contains(m));
        lemma_gather_contains(64, p.man_step_family(d1), m);
        let i = choose|i: int| 0 <= i < 64 && (#[trigger] (p.man_step_family(d1))(i)).contains(m);
        assert(p.man_step_at(d1, i).contains(m));
        assert(p.man_step_at(d1, i)[0] == m);
    } else if k < a.len() + b.len() {
        assert(b[k - a.len()] == m);
        assert(b.contains(m));
        lemma_gather_contains(64, p.man_step_family(d2), m);
        let i = choose|i: int| 0 <= i < 64 && (#[trigger] (p.man_step_family(d2))(i)).contains(m);
        assert(p.man_step_at(d2, i).contains(m));
        assert(p.man_step_at(d2, i)[0] == m);
    } else {
        assert(f[k - a.len() - b.len()] == m);
        assert(f.contains(m));
        lemma_gather_contains(64, p.king_slides_family(), m);
        let s = choose|s: int| 0 <= s < 64 && (#[trigger] (p.king_slides_family())(s)).contains(m);
        assert(p.king_slides_from(s).contains(m));
        lemma_gather_contains(64, p.king_slide_family(s), m);
        let t = choose|t: int| 0 <= t < 64 && (#[trigger] (p.king_slide_family(s))(t)).contains(m);
        assert(p.king_slide_at(s, t).contains(m));
        assert(p.king_slide_at(s, t)[0] == m);
        lemma_path(s, t);
        assert(p.board[path_sq(s, t, dist(s, t))] == Checker::Empty);
    }
}

/// Every capturing move listed is a capture along a full capture of the list.
pub proof fn lemma_capture_moves_sound(p: Position, m: MoveView)
    requires
        p.capture_moves().contains(m),
    ensures
        m is Take,
        p.capture_chains().contains(m->Take_0),
        p.wf(),
        p.maximal_chain(m->Take_0),
{
    let chains = p.capture_chains();
    let k = choose|k: int| 0 <= k < take_moves(chains).len() && take_moves(chains)[k] == m;
    assert(chains[k] == m->Take_0);
    assert(chains.contains(m->Take_0));
    lemma_capture_chains_sound(p, m->Take_0);
}

/// A capture is mandatory: where the side to move can capture, every move
/// it may make is a capture.
pub proof fn lemma_capture_is_mandatory(p: Position, m: MoveView)
    requires
        p.capture_moves().len() > 0,
        p.legal_moves().contains(m),
    ensures
        m is Take,
        p.capture_moves().contains(m),
{
    lemma_capture_moves_sound(p, m);
}

/// A capture is carried to its end: after any capturing move that the
/// side to move may make, the capturing piece can make no further jump
/// from the square on which it has landed.
pub proof fn lemma_captures_are_maximal(p: Position, path: Seq<int>)
    requires
        p.legal_moves().contains(MoveView::Take(path)),
    ensures
        path.len() >= 2,
        p.jumps_ok(path),
        !p.after_jumps(path).can_jump_from(path.last()),
{
    let m = MoveView::Take(path);
    if p.capture_moves().len() > 0 {
        lemma_capture_moves_sound(p, m);
    } else {
        lemma_simple_moves_sound(p, m);
    }
}

/// Every move that the side to move may make can be made, and a capture
/// among them takes at least one piece.
pub proof fn lemma_legal_moves_applicable(p: Position, m: MoveView)
    requires
        p.wf(),
        p.legal_moves().contains(m),
    ensures
        p.applicable(m),
        p.after_move(m).wf(),
        p.after_move(m).white == p.white,
        m is Take ==> piece_count(p.after_move(m).board) < piece_count(p.board),
        m is Simple ==> piece_count(p.after_move(m).board) == piece_count(p.board),
{
    if p.capture_moves().len() > 0 {
        lemma_capture_moves_sound(p, m);
        lemma_after_jumps(p, m->Take_0);
    } else {
        lemma_simple_moves_sound(p, m);
        let a = m->Simple_0;
        let b = m->Simple_1;
        let b1 = p.board.update(b, p.board[a].arriving_at(b));
        lemma_piece_count_update(p.board, b, p.board[a].arriving_at(b));
        lemma_piece_count_update(b1, a, Checker::Empty);
    }
}

/// What is in one of two sequences is in the two joined.
pub proof fn lemma_concat_contains<T>(a: Seq<T>, b: Seq<T>, x: T)
    ensures
        (a + b).contains(x) <==> a.contains(x) || b.contains(x),
{
    if a.contains(x) {
        let k = choose|k: int| 0 <= k < a.len() && a[k] == x;
        assert((a + b)[k] == x);
    }
    if b.contains(x) {
        let k = choose|k: int| 0 <= k < b.len() && b[k] == x;
        assert((a + b)[a.len() + k] == x);
    }
    if (a + b).contains(x) {
        let k = choose|k: int| 0 <= k < (a + b).len() && (a + b)[k] == x;
        if k < a.len() {
            assert(a[k] == x);
        } else {
            assert(b[k - a.len()] == x);
        }
    }
}

/// The captures of a king that land first below `n` hold every capture that lands first on `t < n`.
pub proof fn lemma_chains_below_contains(p: Position, s: int, n: int, t: int, c: Seq<int>)
    requires
        0 <= t < n,
        p.chains_via(s, t).contains(c),
    ensures
        p.chains_below(s, n).contains(c),
    decreases n,
{
    lemma_concat_contains(p.chains_below(s, n - 1), p.chains_via(s, n - 1), c);
    if t < n - 1 {
        lemma_chains_below_contains(p, s, n - 1, t, c);
    }
}

/// Every full capture that starts with the jump from `s` to `t` is listed for that jump.
pub proof fn lemma_chains_via_complete(p: Position, path: Seq<int>)
    requires
        p.wf(),
        p.maximal_chain(path),
    ensures
        p.chains_via(path[0], path[1]).contains(path),
        p.chains_from(path[0]).contains(path),
    decreases path.len(),
{
    let s = path[0];
    let t = path[1];
    lemma_after_jump(p, s, t);
    let q = p.after_jump(s, t);
    let rest = q.chains_from(t);
    let tail = path.drop_first();
    if path.len() == 2 {
        assert(q.after_jumps(tail) == q);
        assert(tail.last() == t);
        if rest.len() > 0 {
            assert(rest.contains(rest[0]));
            lemma_chains_from_sound(q, t, rest[0]);
            assert(q.legal_jump(rest[0][0], rest[0][1]));
            assert(false);
        }
        assert(path =~= seq![s, t]);
        assert(p.chains_via(s, t)[0] == path);
    } else {
        assert(tail.last() == path.last());
        assert(q.maximal_chain(tail));
        lemma_chains_via_complete(q, tail);
        assert(rest.contains(tail));
        let k = choose|k: int| 0 <= k < rest.len() && rest[k] == tail;
        assert(prefixed(rest, s)[k] == seq![s] + tail);
        assert(seq![s] + tail =~= path);
    }
    let via = p.chains_via(s, t);
    if p.board[s].is_king() {
        lemma_chains_below_contains(p, s, 64, t, path);
    } else {
        lemma_jump_geometry(s);
        assert(jump_geometry(s));
        lemma_path(s, t);
        assert(t == s + 14 || t == s + 18 || t == s - 14 || t == s - 18);
        let a = p.chains_via(s, s + 18);
        let b = p.chains_via(s, s + 14);
        let d = p.chains_via(s, s - 14);
        let e = p.chains_via(s, s - 18);
        lemma_concat_contains(a, b, path);
        lemma_concat_contains(a + b, d, path);
        lemma_concat_contains(a + b + d, e, path);
    }
}

/// The list of captures is complete: it holds every full capture by a
/// piece of the side to move.
pub proof fn lemma_capture_chains_complete(p: Position, path: Seq<int>)
    requires
        p.wf(),
        p.maximal_chain(path),
    ensures
        p.capture_chains().contains(path),
        p.capture_moves().contains(MoveView::Take(path)),
        p.legal_moves().contains(MoveView::Take(path)),
{
    let s = path[0];
    let t = path[1];
    lemma_chains_via_complete(p, path);
    lemma_after_jump(p, s, t);
    let a = p.man_captures(14);
    let b = p.man_captures(-18);
    let d = p.man_captures(18);
    let e = p.man_captures(-14);
    let f = p.king_captures();
    lemma_concat_contains(a, b, path);
    lemma_concat_contains(a + b, d, path);
    lemma_concat_contains(a + b + d, e, path);
    lemma_concat_contains(a + b + d + e, f, path);
    if p.board[s].is_king() {
        assert((p.king_capture_family())(s) == p.chains_from(s));
        lemma_gather_contains(64, p.king_capture_family(), path);
    } else {
        lemma_jump_geometry(s);
        assert(jump_geometry(s));
        lemma_path(s, t);
        let step = t - s;
        assert(step == 14 || step == 18 || step == -14 || step == -18);
        assert((p.man_capture_family(step))(s) == p.chains_via(s, s + step));
        lemma_gather_contains(64, p.man_capture_family(step), path);
    }
    let chains = p.capture_chains();
    let k = choose|k: int| 0 <= k < chains.len() && chains[k] == path;
    assert(take_moves(chains)[k] == MoveView::Take(path));
}

/// The list of moves without capture is complete: it holds every step of
/// a man and every slide of a king that the rules allow.
pub proof fn lemma_simple_moves_complete(p: Position, a: int, b: int)
    requires
        p.wf(),
        p.legal_simple(a, b),
    ensures
        p.simple_moves().contains(MoveView::Simple(a, b)),
{
    let m = MoveView::Simple(a, b);
    let d1: int = if p.white {
        7
    } else {
        -7
    };
    let d2: int = if p.white {
        9
    } else {
        -9
    };
    let x = p.man_steps(d1);
    let y = p.man_steps(d2);
    let z = p.king_slides();
    lemma_concat_contains(x, y, m);
    lemma_concat_contains(x + y, z, m);
    if p.man_step(a, b) {
        lemma_step_geometry(a);
        assert(step_geometry(a));
        lemma_path(a, b);
        let step = b - a;
        assert(step == d1 || step == d2);
        assert((p.man_step_family(step))(a)[0] == m);
        assert((p.man_step_family(step))(a).contains(m));
        lemma_gather_contains(64, p.man_step_family(step), m);
    } else {
        assert((p.king_slide_family(a))(b)[0] == m);
        assert((p.king_slide_family(a))(b).contains(m));
        lemma_gather_contains(64, p.king_slide_family(a), m);
        assert((p.king_slides_family())(a) == p.king_slides_from(a));
        lemma_gather_contains(64, p.king_slides_family(), m);
    }
}

/// The moves that the side to move may make are exactly these: where it
/// can capture, its full captures; else the steps of its men and the
/// slides of its kings.
pub proof fn lemma_legal_moves_are_the_legal_ones(p: Position, m: MoveView)
    requires
        p.wf(),
    ensures
        p.legal_moves().contains(m) <==> (match m {
            MoveView::Take(path) => p.maximal_chain(path),
            MoveView::Simple(a, b) => p.legal_simple(a, b) && forall|path: Seq<int>|
                !p.maximal_chain(path),
        }),
{
    if p.legal_moves().contains(m) {
        if p.capture_moves().len() > 0 {
            lemma_capture_moves_sound(p, m);
        } else {
            lemma_simple_moves_sound(p, m);
            assert forall|path: Seq<int>| !p.maximal_chain(path) by {
                if p.maximal_chain(path) {
                    lemma_capture_chains_complete(p, path);
                }
            }
        }
    }
    match m {
        MoveView::Take(path) => {
            if p.maximal_chain(path) {
                lemma_capture_chains_complete(p, path);
            }
        },
        MoveView::Simple(a, b) => {
            if p.legal_simple(a, b) && forall|path: Seq<int>| !p.maximal_chain(path) {
                lemma_simple_moves_complete(p, a, b);
                if p.capture_moves().len() > 0 {
                    let first = p.capture_moves()[0];
                    assert(p.capture_moves().contains(first));
                    lemma_capture_moves_sound(p, first);
                    assert(p.maximal_chain(first->Take_0));
                }
            }
        },
    }
}

/// No full capture is the beginning of another: a capture that goes on
/// after the last square of a full capture would be a jump from a square
/// from which no jump is possible.
pub proof fn lemma_no_capture_begins_another(p: Position, short: Seq<int>, long: Seq<int>)
    requires
        p.maximal_chain(short),
        p.maximal_chain(long),
        short.len() < long.len(),
    ensures
        long.take(short.len() as int) != short,
    decreases short.len(),
{
    if long.take(short.len() as int) == short {
        assert(long[0] == short[0] && long[1] == short[1]) by {
            assert(long.take(short.len() as int)[0] == long[0]);
            assert(long.take(short.len() as int)[1] == long[1]);
        }
        let q = p.after_jump(short[0], short[1]);
        let short_rest = short.drop_first();
        let long_rest = long.drop_first();
        assert(long_rest.take(short_rest.len() as int) =~= short_rest) by {
            assert forall|i: int| 0 <= i < short_rest.len() implies long_rest[i]
                == short_rest[i] by {
                assert(long.take(short.len() as int)[i + 1] == long[i + 1]);
            }
        }
        assert(short_rest.last() == short.last());
        assert(long_rest.last() == long.last());
        assert(q.jumps_ok(long_rest));
        assert(q.jumps_ok(short_rest));
        assert(q.after_jumps(short_rest) == p.after_jumps(short));
        assert(q.after_jumps(long_rest) == p.after_jumps(long));
        if short.len() == 2 {
            assert(q.after_jumps(short_rest) == q);
            assert(q.legal_jump(long_rest[0], long_rest[1]));
            assert(long_rest[0] == short_rest[0]);
            assert(false);
        } else {
            lemma_no_capture_begins_another(q, short_rest, long_rest);
        }
    }
}

} // verus!
