//! Numbering the cells of a cube of `side_len` cells per edge: a cell at
//! `(x, y, z)` has index `x + z * side_len + y * side_len^2`.

use vstd::prelude::*;
use vstd::arithmetic::div_mod::{lemma_fundamental_div_mod, lemma_fundamental_div_mod_converse, lemma_mod_pos_bound};
use vstd::arithmetic::mul::{lemma_mul_strict_inequality, lemma_mul_inequality};

verus! {

/// The remainder of Rust's integer division by a positive `b`: it takes the
/// sign of `a`.
pub open spec fn trunc_rem(a: int, b: int) -> int {
    if a >= 0 { a % b } else { -((-a) % b) }
}

/// The index of the cell at `(x, y, z)`, each coordinate first reduced by
/// Rust's remainder by `side_len`, then turned into a `usize` (a negative
/// sum wraps, as `as` does).
pub open spec fn cell_index(x: i32, y: i32, z: i32, side_len: i32) -> int {
    let s = side_len as int;
    trunc_rem(x as int, s) + trunc_rem(y as int, s) * s * s + trunc_rem(z as int, s) * s
}

/// Whether every step of computing `cell_index` fits in an `i32`.
pub open spec fn cell_index_fits(x: i32, y: i32, z: i32, side_len: i32) -> bool {
    let s = side_len as int;
    let ry = trunc_rem(y as int, s);
    let rz = trunc_rem(z as int, s);
    &&& i32::MIN <= ry * s <= i32::MAX
    &&& i32::MIN <= ry * s * s <= i32::MAX
    &&& i32::MIN <= rz * s <= i32::MAX
    &&& i32::MIN <= trunc_rem(x as int, s) + ry * s * s <= i32::MAX
    &&& i32::MIN <= cell_index(x, y, z, side_len) <= i32::MAX
}

/// The index of the cell at `(x, y, z)` in a cube of `side_len` cells per
/// edge; see `cell_index`.
pub fn pos_to_index(x: i32, y: i32, z: i32, side_len: i32) -> (r: usize)
    requires
        side_len > 0,
        cell_index_fits(x, y, z, side_len),
    ensures
        r == #[verifier::truncate] (cell_index(x, y, z, side_len) as usize),
{
    let rx = x % side_len;
    assert(rx == trunc_rem(x as int, side_len as int));
    let ry = y % side_len;
    assert(ry == trunc_rem(y as int, side_len as int));
    let rz = z % side_len;
    assert(rz == trunc_rem(z as int, side_len as int));
    let sum = rx + ry * side_len * side_len + rz * side_len;
    #[verifier::truncate] (sum as usize)
}

/// The cell `(x, y, z)` of index `index` in a cube of `side_len` cells per
/// edge.
pub fn index_to_pos(index: u32, side_len: u32) -> (r: (u32, u32, u32))
    requires
        side_len > 0,
        side_len * side_len <= u32::MAX,
    ensures
        r.0 == (index % (side_len * side_len) as u32) % side_len,
        r.1 == index / (side_len * side_len) as u32,
        r.2 == (index % (side_len * side_len) as u32) / side_len,
{
    let area = side_len * side_len;
    assert(area > 0) by (nonlinear_arith)
        requires
            side_len > 0,
            area == side_len * side_len,
    ;
    ((index % area) % side_len, index / area, (index % area) / side_len)
}

/// A cell inside the cube keeps its coordinates through its index.
pub proof fn law_index_roundtrip(x: i32, y: i32, z: i32, side_len: i32)
    requires
        side_len > 0,
        0 <= x < side_len,
        0 <= y < side_len,
        0 <= z < side_len,
        side_len * side_len * side_len <= i32::MAX,
    ensures
        ({
            let s = side_len as int;
            let i = cell_index(x, y, z, side_len);
            &&& i == x + z * s + y * s * s
            &&& 0 <= i < s * s * s
            &&& (i % (s * s)) % s == x
            &&& i / (s * s) == y
            &&& (i % (s * s)) / s == z
        }),
{
    let s = side_len as int;
    let i = cell_index(x, y, z, side_len);
    assert(x as int % s == x) by {
        lemma_fundamental_div_mod_converse(x as int, s, 0, x as int);
    }
    assert(y as int % s == y) by {
        lemma_fundamental_div_mod_converse(y as int, s, 0, y as int);
    }
    assert(z as int % s == z) by {
        lemma_fundamental_div_mod_converse(z as int, s, 0, z as int);
    }
    assert(trunc_rem(x as int, s) == x);
    assert(trunc_rem(y as int, s) == y);
    assert(trunc_rem(z as int, s) == z);
    let low = x + z * s;
    lemma_mul_inequality(z as int, s - 1, s);
    assert(low < s * s) by (nonlinear_arith)
        requires
            0 <= x < s,
            0 <= z < s,
            low == x + z * s,
    ;
    assert(0 <= low);
    assert(y * s * s == y * (s * s)) by (nonlinear_arith);
    assert(i == y * (s * s) + low);
    lemma_fundamental_div_mod_converse(i, s * s, y as int, low);
    lemma_fundamental_div_mod_converse(low, s, z as int, x as int);
    assert(i < s * s * s) by (nonlinear_arith)
        requires
            i == y * (s * s) + low,
            0 <= y < s,
            0 <= low < s * s,
    ;
    assert(0 <= i) by (nonlinear_arith)
        requires
            i == y * (s * s) + low,
            0 <= y,
            0 <= low,
            s > 0,
    ;
}

/// An index inside the cube comes back through its coordinates: with
/// `x = (i mod s²) mod s`, `y = i / s²` and `z = (i mod s²) / s`, each inside
/// the cube, the cell `(x, y, z)` has index `i`.
pub proof fn law_position_roundtrip(i: int, side_len: i32)
    requires
        side_len > 0,
        side_len * side_len * side_len <= i32::MAX,
        0 <= i < side_len * side_len * side_len,
    ensures
        ({
            let s = side_len as int;
            let x = (i % (s * s)) % s;
            let y = i / (s * s);
            let z = (i % (s * s)) / s;
            &&& 0 <= x < s
            &&& 0 <= y < s
            &&& 0 <= z < s
            &&& cell_index(x as i32, y as i32, z as i32, side_len) == i
        }),
{
    let s = side_len as int;
    let ss = s * s;
    assert(ss > 0) by (nonlinear_arith)
        requires
            s > 0,
            ss == s * s,
    ;
    let m = i % ss;
    let y = i / ss;
    let x = m % s;
    let z = m / s;
    lemma_fundamental_div_mod(i, ss);
    lemma_mod_pos_bound(i, ss);
    lemma_fundamental_div_mod(m, s);
    lemma_mod_pos_bound(m, s);
    assert(0 <= y < s) by (nonlinear_arith)
        requires
            i == ss * y + m,
            0 <= m < ss,
            0 <= i < ss * s,
            ss > 0,
    ;
    assert(0 <= z < s) by (nonlinear_arith)
        requires
            m == s * z + x,
            0 <= x < s,
            0 <= m < s * s,
            s > 0,
    ;
    assert(s * s * s <= i32::MAX);
    assert(x as i32 as int == x && y as i32 as int == y && z as i32 as int == z);
    assert(x % s == x) by {
        lemma_fundamental_div_mod_converse(x, s, 0, x);
    }
    assert(y % s == y) by {
        lemma_fundamental_div_mod_converse(y, s, 0, y);
    }
    assert(z % s == z) by {
        lemma_fundamental_div_mod_converse(z, s, 0, z);
    }
    assert(y * s * s == ss * y) by (nonlinear_arith)
        requires
            ss == s * s,
    ;
    assert(z * s == s * z) by (nonlinear_arith);
}

} // verus!
