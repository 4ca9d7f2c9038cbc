//! Bit-level helpers shared by the board representation.

use vstd::prelude::*;

verus! {

/// Bit `i` of `x`, with the index already known to fit the word.
pub open spec fn bit_at(x: u64, i: u64) -> bool {
    (x >> i) & 1 == 1
}

/// Bit `i` of `x`; false for every index outside `0..64`.
pub open spec fn bit(x: u64, i: int) -> bool {
    0 <= i < 64 && bit_at(x, i as u64)
}

/// Squares whose column index (`i % 8`) is at least 1.
pub const EXCLUDE_RIGHT_COLUMN: u64 = 0xFEFE_FEFE_FEFE_FEFE;

/// Squares whose column index is at most 6.
pub const EXCLUDE_LEFT_COLUMN: u64 = 0x7F7F_7F7F_7F7F_7F7F;

/// Squares whose column index is at least 2.
pub const EXCLUDE_2_RIGHT_COLUMNS: u64 = 0xFCFC_FCFC_FCFC_FCFC;

/// Squares whose column index is at most 5.
pub const EXCLUDE_2_LEFT_COLUMNS: u64 = 0x3F3F_3F3F_3F3F_3F3F;

/// How the bits of a word follow from those of the words it is combined from.
pub proof fn lemma_bit_logic()
    by (bit_vector)
    ensures
        forall|x: u64, y: u64, i: u64|
            i < 64 ==> #[trigger] bit_at(x & y, i) == (bit_at(x, i) && bit_at(y, i)),
        forall|x: u64, y: u64, i: u64|
            i < 64 ==> #[trigger] bit_at(x | y, i) == (bit_at(x, i) || bit_at(y, i)),
        forall|x: u64, y: u64, i: u64|
            i < 64 ==> #[trigger] bit_at(x ^ y, i) == (bit_at(x, i) != bit_at(y, i)),
        forall|x: u64, i: u64| i < 64 ==> #[trigger] bit_at(!x, i) == !bit_at(x, i),
        forall|i: u64| i < 64 ==> !#[trigger] bit_at(0, i),
{
}

/// The word `1 << k` has bit `k` set and no other.
pub proof fn lemma_bit_single()
    by (bit_vector)
    ensures
        forall|k: u64, i: u64| k < 64 && i < 64 ==> #[trigger] bit_at(1u64 << k, i) == (i == k),
{
}

/// The word `(1 << k) - 1` has exactly the bits below `k` set.
pub proof fn lemma_below_single()
    by (bit_vector)
    ensures
        forall|k: u64, i: u64|
            k < 64 && i < 64 ==> #[trigger] bit_at(((1u64 << k) - 1) as u64, i) == (i < k),
        forall|k: u64| k < 64 ==> #[trigger] (1u64 << k) > 0,
{
}

/// A word keeps only its lowest set bit when it is combined by `&` with its negation.
pub proof fn lemma_lowest_bit(x: u64, t: u64)
    by (bit_vector)
    requires
        t < 64,
        (x >> t) & 1 == 1,
        x << ((64 - t) as u64) == 0,
    ensures
        !x < 0xFFFF_FFFF_FFFF_FFFF,
        x & ((!x + 1) as u64) == 1u64 << t,
{
}

/// The top bit shifted down by the number of leading zeros is the highest set bit.
pub proof fn lemma_highest_bit(x: u64, z: u64)
    by (bit_vector)
    requires
        z < 64,
        (x >> ((63 - z) as u64)) & 1 != 0,
        x >> ((64 - z) as u64) == 0,
    ensures
        0x8000_0000_0000_0000u64 >> z == 1u64 << ((63 - z) as u64),
        (x >> ((63 - z) as u64)) & 1 == 1,
{
}

/// `x` with bit `f` moved to bit `t`: bit `f` is cleared and bit `t` is
/// toggled if bit `f` was set.
pub open spec fn moved_bit(x: u64, f: u64, t: u64) -> u64 {
    x ^ ((((x & (1u64 << f)) >> f) << t) ^ (x & (1u64 << f)))
}

/// `x` with the bits `f` and `t` toggled.
pub open spec fn toggled_pair(x: u64, f: u64, t: u64) -> u64 {
    x ^ ((1u64 << f) ^ (1u64 << t))
}

/// `x` with bit `t` toggled.
pub open spec fn toggled_bit(x: u64, t: u64) -> u64 {
    x ^ (1u64 << t)
}

/// `x` with bit `t` set.
pub open spec fn with_bit(x: u64, t: u64) -> u64 {
    x | (1u64 << t)
}

/// `x` with bit `t` cleared.
pub open spec fn cleared_bit(x: u64, t: u64) -> u64 {
    x & !(1u64 << t)
}

/// Which bits each of the edits of a word changes.
pub proof fn lemma_bit_edits()
    by (bit_vector)
    ensures
        forall|x: u64, f: u64, t: u64, i: u64|
            f < 64 && t < 64 && i < 64 && f != t ==> #[trigger] bit_at(moved_bit(x, f, t), i) == (
            if i == t {
                bit_at(x, f) != bit_at(x, t)
            } else if i == f {
                false
            } else {
                bit_at(x, i)
            }),
        forall|x: u64, f: u64, t: u64, i: u64|
            f < 64 && t < 64 && i < 64 && f != t ==> #[trigger] bit_at(toggled_pair(x, f, t), i)
                == (if i == t || i == f {
                !bit_at(x, i)
            } else {
                bit_at(x, i)
            }),
        forall|x: u64, t: u64, i: u64|
            t < 64 && i < 64 ==> #[trigger] bit_at(toggled_bit(x, t), i) == (if i == t {
                !bit_at(x, i)
            } else {
                bit_at(x, i)
            }),
        forall|x: u64, t: u64, i: u64|
            t < 64 && i < 64 ==> #[trigger] bit_at(cleared_bit(x, t), i) == (i != t && bit_at(
                x,
                i,
            )),
        forall|x: u64, t: u64, i: u64|
            t < 64 && i < 64 ==> #[trigger] bit_at(with_bit(x, t), i) == (i == t || bit_at(x, i)),
        forall|x: u64, f: u64| f < 64 ==> (#[trigger] (x & (1u64 << f)) == 0) == !bit_at(x, f),
{
}

/// The squares `i` of `men` for which square `i + k` lies in `open` and
/// square `i` in `cols`.
pub open spec fn step_up_mask(open: u64, men: u64, k: u64, cols: u64) -> u64 {
    (open >> k) & cols & men
}

/// The squares `i` of `men` for which square `i - k` lies in `open` and
/// square `i` in `cols`.
pub open spec fn step_down_mask(open: u64, men: u64, k: u64, cols: u64) -> u64 {
    (open << k) & cols & men
}

/// The squares `i` of `men` for which square `i + k` lies in `enemy`,
/// square `i + 2 * k` in `open` and square `i` in `cols`.
pub open spec fn jump_up_mask(enemy: u64, open: u64, men: u64, k: u64, cols: u64) -> u64 {
    men & (enemy >> k) & (open >> ((2 * k) as u64)) & cols
}

/// The squares `i` of `men` for which square `i - k` lies in `enemy`,
/// square `i - 2 * k` in `open` and square `i` in `cols`.
pub open spec fn jump_down_mask(enemy: u64, open: u64, men: u64, k: u64, cols: u64) -> u64 {
    men & (enemy << k) & (open << ((2 * k) as u64)) & cols
}

/// Which squares the masks for the steps of men select: the shift looks at
/// the square 7 or 9 further on, and the column mask keeps the step from
/// wrapping round the edge of the board.
pub proof fn lemma_step_masks()
    by (bit_vector)
    ensures
        forall|open: u64, men: u64, i: u64|
            i < 64 ==> #[trigger] bit_at(step_up_mask(open, men, 7, EXCLUDE_RIGHT_COLUMN), i) == (
            bit_at(men, i) && i % 8 >= 1 && i + 7 < 64 && bit_at(open, (i + 7) as u64)),
        forall|open: u64, men: u64, i: u64|
            i < 64 ==> #[trigger] bit_at(step_up_mask(open, men, 9, EXCLUDE_LEFT_COLUMN), i) == (
            bit_at(men, i) && i % 8 <= 6 && i + 9 < 64 && bit_at(open, (i + 9) as u64)),
        forall|open: u64, men: u64, i: u64|
            i < 64 ==> #[trigger] bit_at(step_down_mask(open, men, 7, EXCLUDE_LEFT_COLUMN), i) == (
            bit_at(men, i) && i % 8 <= 6 && i >= 7 && bit_at(open, (i - 7) as u64)),
        forall|open: u64, men: u64, i: u64|
            i < 64 ==> #[trigger] bit_at(step_down_mask(open, men, 9, EXCLUDE_RIGHT_COLUMN), i) == (
            bit_at(men, i) && i % 8 >= 1 && i >= 9 && bit_at(open, (i - 9) as u64)),
{
}

/// Which squares the masks for the jumps of men select.
pub proof fn lemma_jump_masks()
    by (bit_vector)
    ensures
        forall|enemy: u64, open: u64, men: u64, i: u64|
            i < 64 ==> #[trigger] bit_at(
                jump_up_mask(enemy, open, men, 7, EXCLUDE_2_RIGHT_COLUMNS),
                i,
            ) == (bit_at(men, i) && i % 8 >= 2 && i + 14 < 64 && bit_at(enemy, (i + 7) as u64)
                && bit_at(open, (i + 14) as u64)),
        forall|enemy: u64, open: u64, men: u64, i: u64|
            i < 64 ==> #[trigger] bit_at(
                jump_up_mask(enemy, open, men, 9, EXCLUDE_2_LEFT_COLUMNS),
                i,
            ) == (bit_at(men, i) && i % 8 <= 5 && i + 18 < 64 && bit_at(enemy, (i + 9) as u64)
                && bit_at(open, (i + 18) as u64)),
        forall|enemy: u64, open: u64, men: u64, i: u64|
            i < 64 ==> #[trigger] bit_at(
                jump_down_mask(enemy, open, men, 7, EXCLUDE_2_LEFT_COLUMNS),
                i,
            ) == (bit_at(men, i) && i % 8 <= 5 && i >= 14 && bit_at(enemy, (i - 7) as u64)
                && bit_at(open, (i - 14) as u64)),
        forall|enemy: u64, open: u64, men: u64, i: u64|
            i < 64 ==> #[trigger] bit_at(
                jump_down_mask(enemy, open, men, 9, EXCLUDE_2_RIGHT_COLUMNS),
                i,
            ) == (bit_at(men, i) && i % 8 >= 2 && i >= 18 && bit_at(enemy, (i - 9) as u64)
                && bit_at(open, (i - 18) as u64)),
{
}

/// The squares that hold a piece when a game starts.
pub const INITIAL_PIECES: u64 = 0x55AA_5500_00AA_55AA;

/// The squares that hold a white piece when a game starts.
pub const INITIAL_WHITE_PIECES: u64 = 0x0000_0000_00AA_55AA;

/// At the start the pieces stand on the squares of odd row-plus-column in
/// the three rows nearest to each side, the white ones in rows 0 to 2.
pub proof fn lemma_initial_masks()
    by (bit_vector)
    ensures
        forall|i: u64|
            i < 64 ==> #[trigger] bit_at(INITIAL_PIECES, i) == ((i < 24 || i >= 40) && (i / 8) % 2
                != i % 2),
        forall|i: u64|
            i < 64 ==> #[trigger] bit_at(INITIAL_WHITE_PIECES, i) == (i < 24 && (i / 8) % 2 != i
                % 2),
{
}

/// The word whose only set bit is bit `k`.
pub open spec fn one_bit(k: int) -> u64 {
    1u64 << (k as u64)
}

/// Two words that differ in no bit are the same word.
pub proof fn lemma_xor_zero(a: u64, b: u64)
    by (bit_vector)
    requires
        a ^ b == 0,
    ensures
        a == b,
{
}

/// Index of the lowest set bit of a non-zero word.
pub open spec fn lowest_set(x: u64) -> int {
    vstd::std_specs::bits::u64_trailing_zeros(x) as int
}

/// Index of the highest set bit of a non-zero word.
pub open spec fn highest_set(x: u64) -> int {
    63 - vstd::std_specs::bits::u64_leading_zeros(x)
}

/// The lowest set bit of a non-zero word is set, and no bit below it is.
pub proof fn lemma_lowest_set(x: u64)
    requires
        x != 0,
    ensures
        0 <= lowest_set(x) < 64,
        bit(x, lowest_set(x)),
        forall|j: int| 0 <= j < lowest_set(x) ==> !bit(x, j),
{
    vstd::std_specs::bits::axiom_u64_trailing_zeros(x);
    let t = vstd::std_specs::bits::u64_trailing_zeros(x);
    assert forall|j: int| 0 <= j < t implies !bit(x, j) by {
        assert((x >> (j as u64)) & 1u64 == 0u64);
    }
}

/// The highest set bit of a non-zero word is set, and no bit above it is.
pub proof fn lemma_highest_set(x: u64)
    requires
        x != 0,
    ensures
        0 <= highest_set(x) < 64,
        bit(x, highest_set(x)),
        forall|j: int| highest_set(x) < j < 64 ==> !bit(x, j),
{
    vstd::std_specs::bits::axiom_u64_leading_zeros(x);
    let z = vstd::std_specs::bits::u64_leading_zeros(x) as u64;
    lemma_highest_bit(x, z);
    assert forall|j: int| highest_set(x) < j < 64 implies !bit(x, j) by {
        assert((x >> (j as u64)) & 1u64 == 0u64);
    }
}

/// Returns bit `i` of `x` as 0 or 1.
#[inline(always)]
pub fn get_bit(x: u64, i: i8) -> (r: u64)
    requires
        0 <= i < 64,
    ensures
        r == (if bit(x, i as int) { 1u64 } else { 0u64 }),
{
    let s: u64 = i as u64;
    let r: u64 = (x >> s) & 1;
    assert(r == 0 || r == 1) by (bit_vector)
        requires
            r == (x >> s) & 1,
    ;
    r
}

/// For a one-bit mask, the word with exactly the bits below that bit set.
#[inline(always)]
pub fn after_bit(mask: u64) -> (r: u64)
    requires
        mask > 0,
    ensures
        r == mask - 1,
        mask == one_bit(lowest_set(mask)) ==> forall|j: int|
            0 <= j < 64 ==> (#[trigger] bit(r, j) <==> j < lowest_set(mask)),
{
    let r: u64 = mask - 1;
    proof {
        lemma_below_single();
        lemma_lowest_set(mask);
    }
    r
}

/// For a one-bit mask, the word with exactly the bits above that bit set.
#[inline(always)]
pub fn before_bit(mask: u64) -> (r: u64)
    requires
        mask > 0,
    ensures
        r == !(mask ^ ((mask - 1) as u64)),
        mask == one_bit(lowest_set(mask)) ==> forall|j: int|
            0 <= j < 64 ==> (#[trigger] bit(r, j) <==> j > lowest_set(mask)),
{
    let r: u64 = !(mask ^ (mask - 1));
    proof {
        lemma_lowest_set(mask);
        lemma_below_single();
        lemma_bit_single();
        lemma_bit_logic();
    }
    r
}

/// The word that keeps only the lowest set bit of `x`; zero for zero.
#[inline(always)]
pub fn last_bit(x: u64) -> (r: u64)
    ensures
        x == 0 ==> r == 0,
        x != 0 ==> r == one_bit(lowest_set(x)),
        forall|j: int| #[trigger] bit(r, j) <==> x != 0 && j == lowest_set(x),
{
    proof {
        lemma_bit_logic();
        lemma_bit_single();
    }
    if x == 0 {
        return 0;
    }
    proof {
        vstd::std_specs::bits::axiom_u64_trailing_zeros(x);
        lemma_lowest_bit(x, vstd::std_specs::bits::u64_trailing_zeros(x) as u64);
    }
    x & (!x + 1)
}

/// The word that keeps only the highest set bit of `x`.
#[inline(always)]
pub fn first_bit(x: u64) -> (r: u64)
    requires
        x != 0,
    ensures
        r == one_bit(highest_set(x)),
        forall|j: int| #[trigger] bit(r, j) <==> j == highest_set(x),
{
    proof {
        lemma_highest_set(x);
        lemma_highest_bit(x, vstd::std_specs::bits::u64_leading_zeros(x) as u64);
        lemma_bit_single();
    }
    0x8000_0000_0000_0000u64 >> x.leading_zeros()
}

/// The word that keeps only the highest set bit of `x`; zero for zero.
#[inline(always)]
pub fn first_bit_or_0(x: u64) -> (r: u64)
    ensures
        x == 0 ==> r == 0,
        x != 0 ==> r == one_bit(highest_set(x)),
        forall|j: int| #[trigger] bit(r, j) <==> x != 0 && j == highest_set(x),
{
    if x == 0 {
        proof {
            lemma_bit_logic();
        }
        0
    } else {
        first_bit(x)
    }
}

/// Index of the lowest set bit of `mask`, or 0 when `mask` is zero.
#[inline(always)]
pub fn get_bit_i(mask: u64) -> (r: i8)
    ensures
        0 <= r < 64,
        mask == 0 ==> r == 0,
        mask != 0 ==> r == lowest_set(mask),
{
    if mask == 0 {
        return 0;
    }
    proof {
        lemma_lowest_set(mask);
    }
    let t: u32 = mask.trailing_zeros();
    t as i8
}

/// Index of the lowest set bit of `mask`, or `val` when `mask` is zero.
#[inline(always)]
pub fn get_bit_i_or(mask: u64, val: i8) -> (r: i8)
    ensures
        mask == 0 ==> r == val,
        mask != 0 ==> r == lowest_set(mask),
{
    if mask == 0 {
        return val;
    }
    get_bit_i(mask)
}

/// Screen coordinates (column from the left, row from the top) of square `i`.
#[inline(always)]
pub fn conv_1d_to_2d(i: i8) -> (r: (usize, usize))
    requires
        0 <= i < 64,
    ensures
        r.0 == 7 - i % 8,
        r.1 == 7 - i / 8,
{
    let c: i8 = i % 8;
    let l: i8 = i / 8;
    ((7 - c) as usize, (7 - l) as usize)
}

/// Square index of the screen coordinates (`x` from the left, `y` from the top).
#[inline(always)]
pub fn conv_2d_to_1d(x: usize, y: usize) -> (i: i8)
    requires
        x < 8,
        y < 8,
    ensures
        i == 63 - x - 8 * y,
        0 <= i < 64,
{
    let i: i8 = 63 - x as i8 - 8 * (y as i8);
    i
}

/// Clears the lowest set bit of `mask` and returns its index.
pub fn take_lowest_bit(mask: &mut u64) -> (i: i8)
    requires
        *old(mask) != 0,
    ensures
        0 <= i < 64,
        i == lowest_set(*old(mask)),
        bit_at(*old(mask), i as u64),
        forall|j: u64| j < i ==> !#[trigger] bit_at(*old(mask), j),
        forall|j: u64|
            j < 64 ==> #[trigger] bit_at(*final(mask), j) == (bit_at(*old(mask), j) && j != i),
{
    let lowest: u64 = last_bit(*mask);
    let i: i8 = get_bit_i(*mask);
    proof {
        lemma_lowest_set(*mask);
        lemma_bit_edits();
        assert forall|j: u64| j < i implies !#[trigger] bit_at(*mask, j) by {
            assert(!bit(*mask, j as int));
        }
    }
    let ghost before = *mask;
    *mask &= !lowest;
    assert(*mask == cleared_bit(before, i as u64));
    i
}

/// Two words with the same bits are the same word.
pub proof fn lemma_same_bits(a: u64, b: u64)
    requires
        forall|i: u64| i < 64 ==> bit_at(a, i) == bit_at(b, i),
    ensures
        a == b,
{
    if a ^ b != 0 {
        lemma_bit_logic();
        lemma_lowest_set(a ^ b);
        let t = lowest_set(a ^ b) as u64;
        assert(bit_at(a ^ b, t));
        assert(bit_at(a, t) == bit_at(b, t));
    } else {
        lemma_xor_zero(a, b);
    }
}

} // verus!
