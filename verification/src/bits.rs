//! Squares, coordinates and 64-bit occupancy masks.
//!
//! A square is an index in `0..64`; its column is `index % 8` and its row is
//! `index / 8`. A mask holds one bit per square.

use vstd::prelude::*;

verus! {

/// The eight squares of row 0.
pub const ROW: u64 = 0xFF;

/// The eight squares of column 0.
pub const COL: u64 = 0x0101010101010101;

/// The diagonal whose squares have `column + row == 7`.
pub const SLASH0: u64 = 0x0102040810204080;

/// The diagonal whose squares have `column == row`.
pub const SLASH1: u64 = 0x8040201008040201;

/// Bit `s` of `mask`, for a bit index already known to be a `u64`.
pub open spec fn bit_at(mask: u64, s: u64) -> bool {
    (mask >> s) & 1u64 == 1u64
}

/// Whether square `sq` is occupied in `mask`. No square outside `0..64` is.
pub open spec fn holds(mask: u64, sq: int) -> bool {
    0 <= sq < 64 && bit_at(mask, sq as u64)
}

/// The mask that holds exactly square `sq % 64`.
pub open spec fn piece(sq: int) -> u64 {
    1u64 << ((sq % 64) as u64)
}

/// The mask of all squares at or above `sq % 64`.
pub open spec fn at_or_above(sq: int) -> u64 {
    !((piece(sq) - 1) as u64)
}

/// The mask of all squares at or below `sq % 64`.
pub open spec fn at_or_below(sq: int) -> u64 {
    !at_or_above(sq) | piece(sq)
}

/// How many of the lowest `n` squares are occupied in `mask`.
pub open spec fn low_ones(mask: u64, n: nat) -> nat
    decreases n,
{
    if n == 0 {
        0
    } else {
        low_ones(mask, (n - 1) as nat) + if holds(mask, n - 1) {
            1nat
        } else {
            0nat
        }
    }
}

/// How many squares are occupied in `mask`.
pub open spec fn ones(mask: u64) -> nat {
    low_ones(mask, 64)
}

/// `u64::count_ones` of the standard library: the number of one bits in the
/// binary representation of the value, that is the number of squares in `0..64`
/// whose bit is set.
pub assume_specification[ u64::count_ones ](x: u64) -> (r: u32)
    ensures
        r == ones(x),
;

/// The logical operations on masks, bit by bit.
pub proof fn lemma_bit_ops(a: u64, b: u64, s: u64)
    by (bit_vector)
    requires
        s < 64,
    ensures
        bit_at(a & b, s) == (bit_at(a, s) && bit_at(b, s)),
        bit_at(a | b, s) == (bit_at(a, s) || bit_at(b, s)),
        bit_at(!a, s) == !bit_at(a, s),
        !bit_at(0u64, s),
{
}

/// The bits of a mask of one square, and of the mask of all squares from it up.
pub proof fn lemma_single_bit(k: u64, s: u64)
    by (bit_vector)
    requires
        k < 64,
        s < 64,
    ensures
        bit_at(1u64 << k, s) == (s == k),
        (1u64 << k) >= 1u64,
        bit_at(!(((1u64 << k) - 1u64) as u64), s) == (s >= k),
{
}

/// The lowest six bits of a number are its remainder modulo 64.
pub proof fn lemma_wrap_index(sq: i32, k: i32)
    by (bit_vector)
    requires
        k == sq & 63i32,
    ensures
        0i32 <= k < 64i32,
        k == sq % 64i32,
{
}

/// The lowest three bits of a number are its remainder modulo 8.
proof fn lemma_column_bits(sq: i32, x: i32)
    by (bit_vector)
    requires
        x == sq & 7i32,
    ensures
        x == sq % 8i32,
{
}

/// Shifting a number down by three bits divides it by 8, rounding down.
proof fn lemma_row_bits(sq: i32, y: i32)
    by (bit_vector)
    requires
        y == sq >> 3i32,
    ensures
        y == sq / 8i32,
{
}

/// The three logical operations on masks, square by square.
pub proof fn lemma_holds_ops(a: u64, b: u64, sq: int)
    ensures
        holds(a & b, sq) == (holds(a, sq) && holds(b, sq)),
        holds(a | b, sq) == (holds(a, sq) || holds(b, sq)),
        0 <= sq < 64 ==> holds(!a, sq) == !holds(a, sq),
        !holds(0, sq),
{
    if 0 <= sq < 64 {
        lemma_bit_ops(a, b, sq as u64);
    }
}

/// `piece(k)` holds square `k % 64` and no other.
pub proof fn lemma_holds_piece(k: int, sq: int)
    ensures
        holds(piece(k), sq) == (sq == k % 64),
        piece(k) >= 1,
{
    if 0 <= sq < 64 {
        lemma_single_bit((k % 64) as u64, sq as u64);
    } else {
        lemma_single_bit((k % 64) as u64, 0);
    }
}

/// `at_or_above(k)` holds the squares from `k % 64` up, `at_or_below(k)` those up to it.
pub proof fn lemma_holds_ranges(k: int, sq: int)
    ensures
        holds(at_or_above(k), sq) == (k % 64 <= sq < 64),
        holds(at_or_below(k), sq) == (0 <= sq <= k % 64),
{
    if 0 <= sq < 64 {
        lemma_single_bit((k % 64) as u64, sq as u64);
        lemma_bit_ops(at_or_above(k), piece(k), sq as u64);
        lemma_bit_ops(!at_or_above(k), piece(k), sq as u64);
    }
}

/// A mask is zero exactly when no square is occupied in it.
pub proof fn lemma_zero_mask(m: u64)
    ensures
        m == 0 <==> forall|sq: int| !holds(m, sq),
{
    if m == 0 {
        assert forall|sq: int| !holds(m, sq) by {
            lemma_holds_ops(m, m, sq);
        }
    } else {
        vstd::std_specs::bits::axiom_u64_trailing_zeros(m);
        let t = vstd::std_specs::bits::u64_trailing_zeros(m);
        assert(holds(m, t as int));
    }
}

/// The mask of square `sq % 64`.
pub fn to_piece(sq: i32) -> (r: u64)
    ensures
        r == piece(sq as int),
{
    let k: i32 = sq & 63;
    proof {
        lemma_wrap_index(sq, k);
    }
    1u64 << (k as u32)
}

/// The mask of all squares at or above `sq % 64`.
pub fn higher_eq(sq: i32) -> (r: u64)
    ensures
        r == at_or_above(sq as int),
{
    let p = to_piece(sq);
    proof {
        lemma_holds_piece(sq as int, 0);
    }
    !(p - 1)
}

/// The mask of all squares at or below `sq % 64`.
pub fn lower_eq(sq: i32) -> (r: u64)
    ensures
        r == at_or_below(sq as int),
{
    !higher_eq(sq) | to_piece(sq)
}

/// Column and row of a square: `(sq % 8, sq / 8)`, rounding the row down.
pub fn to_coord_2d(sq: i32) -> (r: (i32, i32))
    ensures
        r.0 == sq as int % 8,
        r.1 == sq as int / 8,
{
    let x: i32 = sq & 7;
    let y: i32 = sq >> 3;
    proof {
        lemma_column_bits(sq, x);
        lemma_row_bits(sq, y);
    }
    (x, y)
}

/// The square at column `c.0` and row `c.1`.
pub fn to_coord(c: (i32, i32)) -> (r: i32)
    requires
        0 <= c.0 < 8,
        0 <= c.1 < 8,
    ensures
        r == c.0 + 8 * c.1,
{
    c.0 + 8 * c.1
}

} // verus!
