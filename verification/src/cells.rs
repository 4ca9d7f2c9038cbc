//! Sets of squares, as the display of a turn in progress keeps them.

use vstd::prelude::*;
use rustc_hash::FxHashSet;

verus! {

/// A set of squares.
pub type Cells = FxHashSet<i8>;

/// `HashSet::insert` with the hasher of `rustc_hash`: afterwards the set
/// holds `square` and what it held before.
#[verifier::external_body]
pub(crate) fn cells_insert(cells: &mut Cells, square: i8)
    ensures
        final(cells)@ == old(cells)@.insert(square),
{
    cells.insert(square);
}

/// `HashSet::contains` with the hasher of `rustc_hash`: whether the set holds `square`.
#[verifier::external_body]
pub(crate) fn cells_contains(cells: &Cells, square: i8) -> (r: bool)
    ensures
        r == cells@.contains(square),
{
    cells.contains(&square)
}

/// `Clone::clone` of a `HashSet`: a set of the same squares.
#[verifier::external_body]
pub(crate) fn cells_clone(cells: &Cells) -> (r: Cells)
    ensures
        r@ == cells@,
{
    cells.clone()
}

/// The set of the squares of a path.
pub fn cells_of(path: &Vec<i8>) -> (cells: Cells)
    ensures
        cells@ == path@.to_set(),
{
    let mut cells: Cells = Default::default();
    let mut i: usize = 0;
    assert(path@.take(0).to_set() =~= Set::empty());
    while i < path.len()
        invariant
            i <= path.len(),
            cells@ == path@.take(i as int).to_set(),
        decreases path.len() - i,
    {
        cells_insert(&mut cells, path[i]);
        proof {
            let before = path@.take(i as int);
            let after = path@.take(i + 1);
            assert(after =~= before.push(path[i as int]));
            assert(after.to_set() =~= before.to_set().insert(path[i as int])) by {
                assert forall|x: i8| after.to_set().contains(x) <==> before.to_set().insert(
                    path[i as int],
                ).contains(x) by {
                    if after.contains(x) {
                        let k = choose|k: int| 0 <= k < after.len() && after[k] == x;
                        if k < before.len() {
                            assert(before[k] == x);
                        }
                    }
                    if before.contains(x) {
                        let k = choose|k: int| 0 <= k < before.len() && before[k] == x;
                        assert(after[k] == x);
                    }
                    if x == path[i as int] {
                        assert(after[i as int] == x);
                    }
                }
            }
        }
        i += 1;
    }
    assert(path@.take(path.len() as int) =~= path@);
    cells
}

} // verus!
