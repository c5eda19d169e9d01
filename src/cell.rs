//! Packing of a lattice coordinate pair into a single integer key.
//!
//! A cell `(x, y)` with `i32` coordinates is stored as the `u64`
//! `(x - i32::MIN) * 2^32 + (y - i32::MIN)`: both coordinates are shifted
//! into `0..2^32` and placed side by side. Every `u64` is the key of exactly
//! one cell, so a set of keys is a set of cells.
use vstd::arithmetic::div_mod::{lemma_fundamental_div_mod, lemma_fundamental_div_mod_converse};
use vstd::prelude::*;

verus! {

/// Number of distinct `i32` values.
pub const SPAN: u64 = 0x1_0000_0000;

/// `v` is representable as an `i32`.
pub open spec fn in_i32(v: int) -> bool {
    i32::MIN <= v <= i32::MAX
}

/// Both coordinates of `c` are representable as `i32`.
pub open spec fn representable(c: (int, int)) -> bool {
    in_i32(c.0) && in_i32(c.1)
}

/// The key of the cell `(x, y)`.
pub open spec fn key_of(x: int, y: int) -> int {
    (x - i32::MIN) * 0x1_0000_0000 + (y - i32::MIN)
}

/// The cell whose key is `k`.
pub open spec fn cell_of_key(k: int) -> (int, int) {
    (k / 0x1_0000_0000 + i32::MIN, k % 0x1_0000_0000 + i32::MIN)
}

/// Keys of representable cells are `u64` values, and decoding them gives the cell back.
pub proof fn lemma_key_of_cell(x: int, y: int)
    requires
        in_i32(x),
        in_i32(y),
    ensures
        0 <= key_of(x, y) <= u64::MAX,
        cell_of_key(key_of(x, y)) == (x, y),
{
    lemma_fundamental_div_mod_converse(key_of(x, y), 0x1_0000_0000, x - i32::MIN, y - i32::MIN);
}

/// Every `u64` is the key of one representable cell.
pub proof fn lemma_cell_of_key(k: int)
    requires
        0 <= k <= u64::MAX,
    ensures
        representable(cell_of_key(k)),
        key_of(cell_of_key(k).0, cell_of_key(k).1) == k,
{
    lemma_fundamental_div_mod(k, 0x1_0000_0000);
}

/// Distinct representable cells have distinct keys.
pub proof fn lemma_key_injective(a: (int, int), b: (int, int))
    requires
        representable(a),
        representable(b),
        key_of(a.0, a.1) == key_of(b.0, b.1),
    ensures
        a == b,
{
    lemma_key_of_cell(a.0, a.1);
    lemma_key_of_cell(b.0, b.1);
}

/// The key of the cell `(x, y)`.
pub fn encode(x: i32, y: i32) -> (k: u64)
    ensures
        k == key_of(x as int, y as int),
{
    proof {
        lemma_key_of_cell(x as int, y as int);
    }
    let hi: u64 = (x as i64 - i32::MIN as i64) as u64;
    let lo: u64 = (y as i64 - i32::MIN as i64) as u64;
    hi * SPAN + lo
}

/// The cell whose key is `k`.
pub fn decode(k: u64) -> (c: (i32, i32))
    ensures
        (c.0 as int, c.1 as int) == cell_of_key(k as int),
        key_of(c.0 as int, c.1 as int) == k,
{
    proof {
        lemma_cell_of_key(k as int);
    }
    let hi: u64 = k / SPAN;
    let lo: u64 = k % SPAN;
    ((hi as i64 + i32::MIN as i64) as i32, (lo as i64 + i32::MIN as i64) as i32)
}

} // verus!
