//! The moves that the rules allow in a position, in the order in which the
//! generator lists them.

use vstd::prelude::*;
use crate::game::{Checker, MoveView, squares};
use crate::rules::{
    dist, lemma_jump_takes_one_piece, path_sq, piece_count, Position, row, same_diagonal,
};

verus! {

/// The sequences `f(0)`, ..., `f(n - 1)` joined in this order.
pub open spec fn gather<T>(n: int, f: spec_fn(int) -> Seq<T>) -> Seq<T>
    decreases n,
{
    if n <= 0 {
        Seq::empty()
    } else {
        gather(n - 1, f) + f(n - 1)
    }
}

/// Indices whose sequences are empty add nothing.
pub proof fn lemma_gather_skip<T>(k: int, n: int, f: spec_fn(int) -> Seq<T>)
    requires
        0 <= k <= n,
        forall|j: int| k <= j < n ==> (#[trigger] f(j)).len() == 0,
    ensures
        gather(n, f) == gather(k, f),
    decreases n - k,
{
    if k < n {
        lemma_gather_skip(k, n - 1, f);
        assert(gather(n, f) =~= gather(n - 1, f));
    }
}

/// What is gathered comes from one of the sequences, and all of each sequence is gathered.
pub proof fn lemma_gather_contains<T>(n: int, f: spec_fn(int) -> Seq<T>, x: T)
    ensures
        gather(n, f).contains(x) <==> exists|i: int| 0 <= i < n && (#[trigger] f(i)).contains(x),
    decreases n,
{
    if n > 0 {
        lemma_gather_contains(n - 1, f, x);
        let a = gather(n - 1, f);
        let b = f(n - 1);
        if gather(n, f).contains(x) {
            let k = choose|k: int| 0 <= k < (a + b).len() && (a + b)[k] == x;
            if k < a.len() {
                assert(a[k] == x);
                assert(a.contains(x));
            } else {
                assert(b[k - a.len()] == x);
                assert(b.contains(x));
            }
        }
        if a.contains(x) {
            let k = choose|k: int| 0 <= k < a.len() && a[k] == x;
            assert((a + b)[k] == x);
        }
        if b.contains(x) {
            let k = choose|k: int| 0 <= k < b.len() && b[k] == x;
            assert((a + b)[a.len() + k] == x);
        }
    }
}

/// The square on which a move starts; -1 for a capture without squares.
pub open spec fn start_of(m: MoveView) -> int {
    match m {
        MoveView::Simple(a, _) => a,
        MoveView::Take(path) => if path.len() > 0 {
            path[0]
        } else {
            -1
        },
    }
}

/// Those of the moves that start on the square `from`, in their order.
pub open spec fn starting_on(moves: Seq<MoveView>, from: int) -> Seq<MoveView>
    decreases moves.len(),
{
    if moves.len() == 0 {
        moves
    } else if start_of(moves.last()) == from {
        starting_on(moves.drop_last(), from).push(moves.last())
    } else {
        starting_on(moves.drop_last(), from)
    }
}

/// The capturing moves that visit the given squares.
pub open spec fn take_moves(chains: Seq<Seq<int>>) -> Seq<MoveView> {
    chains.map_values(|c: Seq<int>| MoveView::Take(c))
}

/// The paths with the square `s` put in front of each.
pub open spec fn prefixed(paths: Seq<Seq<int>>, s: int) -> Seq<Seq<int>> {
    paths.map_values(|c: Seq<int>| seq![s] + c)
}

/// Paths stored last square first, read as paths from the first square on.
pub open spec fn rev_chains(v: Seq<Vec<i8>>) -> Seq<Seq<int>> {
    Seq::new(v.len(), |k: int| squares(v[k]@).reverse())
}

impl Position {
    /// A man of the side to move steps from `s` to the empty square `t`,
    /// one diagonal step towards its far row.
    pub open spec fn man_step(self, s: int, t: int) -> bool {
        &&& same_diagonal(s, t)
        &&& dist(s, t) == 1
        &&& self.board[s].is_man()
        &&& self.board[s].belongs_to(self.white)
        &&& self.board[t] == Checker::Empty
        &&& row(t) == (if self.white {
            row(s) + 1
        } else {
            row(s) - 1
        })
    }

    /// A king of the side to move slides from `s` to `t` along a diagonal
    /// on which every square up to `t` is empty.
    pub open spec fn king_slide(self, s: int, t: int) -> bool {
        &&& same_diagonal(s, t)
        &&& self.board[s].is_king()
        &&& self.board[s].belongs_to(self.white)
        &&& forall|i: int|
            1 <= i <= dist(s, t) ==> self.board[#[trigger] path_sq(s, t, i)] == Checker::Empty
    }

    /// A move without capture that the rules allow.
    pub open spec fn legal_simple(self, s: int, t: int) -> bool {
        self.man_step(s, t) || self.king_slide(s, t)
    }

    /// Some capturing jump starts on `s`.
    pub open spec fn can_jump_from(self, s: int) -> bool {
        exists|t: int| self.legal_jump(s, t)
    }

    /// A full capture of one turn: at least one jump, every jump legal where
    /// it is made, and no further jump possible from the last square.
    pub open spec fn maximal_chain(self, path: Seq<int>) -> bool {
        path.len() >= 2 && self.jumps_ok(path) && !self.after_jumps(path).can_jump_from(path.last())
    }

    /// The full captures that start with the jump from `s` to `t`: that
    /// jump alone if nothing can be captured after it, else the jump
    /// followed by each full capture from `t`.
    pub open spec fn chains_via(self, s: int, t: int) -> Seq<Seq<int>>
        decreases piece_count(self.board), 0nat, 0nat,
    {
        if self.wf() && self.legal_jump(s, t) {
            proof {
                lemma_jump_takes_one_piece(self, s, t);
            }
            let rest = self.after_jump(s, t).chains_from(t);
            if rest.len() == 0 {
                seq![seq![s, t]]
            } else {
                prefixed(rest, s)
            }
        } else {
            Seq::empty()
        }
    }

    /// The full captures of a king on `s` that land first on a square below `n`.
    pub open spec fn chains_below(self, s: int, n: int) -> Seq<Seq<int>>
        decreases piece_count(self.board), 1nat, n,
    {
        if n <= 0 {
            Seq::empty()
        } else {
            self.chains_below(s, n - 1) + self.chains_via(s, n - 1)
        }
    }

    /// The full captures that start on `s`, each as the squares visited.
    ///
    /// Those of a king come by landing square of the first jump, lowest
    /// first; those of a man by direction of the first jump.
    pub open spec fn chains_from(self, s: int) -> Seq<Seq<int>>
        decreases piece_count(self.board), 2nat, 0nat,
    {
        if self.board[s].is_king() {
            self.chains_below(s, 64)
        } else {
            self.chains_via(s, s + 18) + self.chains_via(s, s + 14) + self.chains_via(s, s - 14)
                + self.chains_via(s, s - 18)
        }
    }

    /// The full captures that start with the jump of a man from `i` to `i + step`.
    pub open spec fn man_captures_at(self, step: int, i: int) -> Seq<Seq<int>> {
        if self.board[i].is_man() {
            self.chains_via(i, i + step)
        } else {
            Seq::empty()
        }
    }

    /// The captures of men by square, for [`gather`].
    pub open spec fn man_capture_family(self, step: int) -> spec_fn(int) -> Seq<Seq<int>> {
        |i: int| self.man_captures_at(step, i)
    }

    /// The full captures whose first jump is made by a man and leads from
    /// its square `i` to `i + step`, by square of the man, lowest first.
    pub open spec fn man_captures(self, step: int) -> Seq<Seq<int>> {
        gather(64, self.man_capture_family(step))
    }

    /// The full captures of a king of the side to move on `i`.
    pub open spec fn king_captures_at(self, i: int) -> Seq<Seq<int>> {
        if self.board[i].is_king() && self.board[i].belongs_to(self.white) {
            self.chains_from(i)
        } else {
            Seq::empty()
        }
    }

    /// The captures of kings by square, for [`gather`].
    pub open spec fn king_capture_family(self) -> spec_fn(int) -> Seq<Seq<int>> {
        |i: int| self.king_captures_at(i)
    }

    /// The full captures of the kings of the side to move, by square of the king, lowest first.
    pub open spec fn king_captures(self) -> Seq<Seq<int>> {
        gather(64, self.king_capture_family())
    }

    /// All full captures of the side to move.
    pub open spec fn capture_chains(self) -> Seq<Seq<int>> {
        self.man_captures(14) + self.man_captures(-18) + self.man_captures(18) + self.man_captures(
            -14,
        ) + self.king_captures()
    }

    /// All capturing moves of the side to move.
    pub open spec fn capture_moves(self) -> Seq<MoveView> {
        take_moves(self.capture_chains())
    }

    /// The step of a man from `i` to `i + step`, if the rules allow it.
    pub open spec fn man_step_at(self, step: int, i: int) -> Seq<MoveView> {
        if self.man_step(i, i + step) {
            seq![MoveView::Simple(i, i + step)]
        } else {
            Seq::empty()
        }
    }

    /// The steps of men by square, for [`gather`].
    pub open spec fn man_step_family(self, step: int) -> spec_fn(int) -> Seq<MoveView> {
        |i: int| self.man_step_at(step, i)
    }

    /// The steps of the men of the side to move from a square `i` to
    /// `i + step`, by square of the man, lowest first.
    pub open spec fn man_steps(self, step: int) -> Seq<MoveView> {
        gather(64, self.man_step_family(step))
    }

    /// The slide of a king from `s` to `t`, if the rules allow it.
    pub open spec fn king_slide_at(self, s: int, t: int) -> Seq<MoveView> {
        if self.king_slide(s, t) {
            seq![MoveView::Simple(s, t)]
        } else {
            Seq::empty()
        }
    }

    /// The slides of the king on `s` by landing square, for [`gather`].
    pub open spec fn king_slide_family(self, s: int) -> spec_fn(int) -> Seq<MoveView> {
        |t: int| self.king_slide_at(s, t)
    }

    /// The slides of a king on `s`, by landing square, lowest first.
    pub open spec fn king_slides_from(self, s: int) -> Seq<MoveView> {
        gather(64, self.king_slide_family(s))
    }

    /// The slides of kings by square, for [`gather`].
    pub open spec fn king_slides_family(self) -> spec_fn(int) -> Seq<MoveView> {
        |s: int| self.king_slides_from(s)
    }

    /// The slides of all kings of the side to move, by square of the king, lowest first.
    pub open spec fn king_slides(self) -> Seq<MoveView> {
        gather(64, self.king_slides_family())
    }

    /// All moves without capture of the side to move.
    pub open spec fn simple_moves(self) -> Seq<MoveView> {
        if self.white {
            self.man_steps(7) + self.man_steps(9) + self.king_slides()
        } else {
            self.man_steps(-7) + self.man_steps(-9) + self.king_slides()
        }
    }

    /// The moves that the side to move may make: the captures if there is
    /// one, else the moves without capture.
    pub open spec fn legal_moves(self) -> Seq<MoveView> {
        if self.capture_moves().len() > 0 {
            self.capture_moves()
        } else {
            self.simple_moves()
        }
    }
}

/// Landing squares from which no capture starts add nothing to the captures of a king.
pub proof fn lemma_chains_below_skip(p: Position, s: int, k: int, n: int)
    requires
        0 <= k <= n,
        forall|j: int| k <= j < n ==> (#[trigger] p.chains_via(s, j)).len() == 0,
    ensures
        p.chains_below(s, n) == p.chains_below(s, k),
    decreases n - k,
{
    if k < n {
        lemma_chains_below_skip(p, s, k, n - 1);
        assert(p.chains_via(s, n - 1).len() == 0);
        assert(p.chains_below(s, n) == p.chains_below(s, n - 1) + p.chains_via(s, n - 1));
        assert(p.chains_below(s, n) =~= p.chains_below(s, n - 1));
    }
}

} // verus!
