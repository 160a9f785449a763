//! Flat indexing of 3D grids: `index = x + y * mx + z * mx * my`.
use vstd::prelude::*;

verus! {

/// Flat index of cell (x, y, z) in a grid of width `mx` and height `my`.
pub open spec fn idx3(x: int, y: int, z: int, mx: int, my: int) -> int {
    x + y * mx + z * (mx * my)
}

/// A cell inside the grid has a flat index inside the grid, and each partial sum is
/// bounded by the full index.
pub proof fn lemma_idx3_bound(x: int, y: int, z: int, mx: int, my: int, mz: int)
    requires
        0 <= x < mx,
        0 <= y < my,
        0 <= z < mz,
    ensures
        0 <= y * mx,
        0 <= z * (mx * my),
        0 <= mx * my,
        y * mx + mx <= mx * my,
        z * (mx * my) + mx * my <= mx * my * mz,
        0 <= idx3(x, y, z, mx, my) < mx * my * mz,
        mx * my <= mx * my * mz,
{
    assert(0 <= y * mx) by (nonlinear_arith)
        requires
            0 <= y,
            0 < mx,
    ;
    assert(0 <= mx * my) by (nonlinear_arith)
        requires
            0 < my,
            0 < mx,
    ;
    assert(0 <= z * (mx * my)) by (nonlinear_arith)
        requires
            0 <= z,
            0 <= mx * my,
    ;
    assert(y * mx + mx <= mx * my) by (nonlinear_arith)
        requires
            y + 1 <= my,
            0 < mx,
    ;
    assert(z * (mx * my) + mx * my <= mx * my * mz) by (nonlinear_arith)
        requires
            z + 1 <= mz,
            0 <= mx * my,
    ;
    assert(mx * my <= mx * my * mz) by (nonlinear_arith)
        requires
            1 <= mz,
            0 <= mx * my,
    ;
}

/// The coordinates of a flat index, inverse of `idx3`.
pub proof fn lemma_idx3_inverse(i: int, mx: int, my: int)
    requires
        0 <= i,
        0 < mx,
        0 < my,
    ensures
        i == idx3(i % mx, (i / mx) % my, i / (mx * my), mx, my),
        0 <= i % mx < mx,
        0 <= (i / mx) % my < my,
        0 <= i / (mx * my),
{
    assert(0 < mx * my) by (nonlinear_arith)
        requires
            0 < my,
            0 < mx,
    ;
    vstd::arithmetic::div_mod::lemma_fundamental_div_mod(i, mx);
    vstd::arithmetic::div_mod::lemma_fundamental_div_mod(i / mx, my);
    vstd::arithmetic::div_mod::lemma_div_denominator(i, mx, my);
    vstd::arithmetic::div_mod::lemma_div_pos_is_pos(i, mx);
    vstd::arithmetic::div_mod::lemma_div_pos_is_pos(i, mx * my);
    vstd::arithmetic::div_mod::lemma_mod_pos_bound(i, mx);
    vstd::arithmetic::div_mod::lemma_mod_pos_bound(i / mx, my);
    let q = i / mx;
    assert(i == i % mx + mx * q);
    assert(q == q % my + my * (q / my));
    assert(q / my == i / (mx * my));
    assert(mx * q == mx * (q % my) + mx * (my * (q / my))) by (nonlinear_arith)
        requires
            q == q % my + my * (q / my),
    ;
    assert(mx * (my * (q / my)) == (q / my) * (mx * my)) by (nonlinear_arith);
    assert(mx * (q % my) == (q % my) * mx) by (nonlinear_arith);
}

/// Two distinct in-range coordinates have distinct flat indices.
pub proof fn lemma_idx3_injective(
    x1: int,
    y1: int,
    z1: int,
    x2: int,
    y2: int,
    z2: int,
    mx: int,
    my: int,
)
    requires
        0 <= x1 < mx,
        0 <= y1 < my,
        0 <= z1,
        0 <= x2 < mx,
        0 <= y2 < my,
        0 <= z2,
        idx3(x1, y1, z1, mx, my) == idx3(x2, y2, z2, mx, my),
    ensures
        x1 == x2,
        y1 == y2,
        z1 == z2,
{
    let i = idx3(x1, y1, z1, mx, my);
    assert(0 <= y1 * mx && 0 <= z1 * (mx * my) && 0 <= mx * my) by (nonlinear_arith)
        requires
            0 <= y1,
            0 <= z1,
            0 < mx,
            0 < my,
    ;
    lemma_idx3_inverse(i, mx, my);
    assert(i == x1 + mx * (y1 + my * z1)) by (nonlinear_arith)
        requires
            i == x1 + y1 * mx + z1 * (mx * my),
    ;
    assert(i == x2 + mx * (y2 + my * z2)) by (nonlinear_arith)
        requires
            i == x2 + y2 * mx + z2 * (mx * my),
    ;
    assert(0 <= y1 + my * z1 && 0 <= y2 + my * z2) by (nonlinear_arith)
        requires
            0 <= y1,
            0 <= z1,
            0 <= y2,
            0 <= z2,
            0 < my,
    ;
    vstd::arithmetic::div_mod::lemma_fundamental_div_mod_converse(i, mx, y1 + my * z1, x1);
    vstd::arithmetic::div_mod::lemma_fundamental_div_mod_converse(i, mx, y2 + my * z2, x2);
    let q = y1 + my * z1;
    vstd::arithmetic::div_mod::lemma_fundamental_div_mod_converse(q, my, z1, y1);
    vstd::arithmetic::div_mod::lemma_fundamental_div_mod_converse(q, my, z2, y2);
}

} // verus!
