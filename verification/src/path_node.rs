//! The path node: a breadth-first search from the finish cells through substrate cells,
//! then a path drawn from the best start cell back down to a finish cell.
use vstd::prelude::*;
use crate::node::Node;
use crate::context::ExecutionContext;
use crate::geom::{idx3, lemma_idx3_bound, lemma_idx3_inverse};
use crate::rng::{DotNetRandom, MBIG};
use crate::context::grid_ok;
use crate::field::{lemma_reached_bound, lemma_reached_update, reached_count};
use crate::grid::{lemma_nonempty_dims, lemma_plane_div_bound};
use crate::vecs::filled_i32;

verus! {

/// `s` with direction `d` appended when `c` holds.
pub open spec fn push_dir(s: Seq<(i32, i32, i32)>, c: bool, d: (i32, i32, i32)) -> Seq<(i32, i32, i32)> {
    if c {
        s.push(d)
    } else {
        s
    }
}

/// The moves from (x, y, z) that stay inside the grid: the face moves, then (with
/// `edges`) the edge diagonals, then (with `vertices`, in 3D) the corner diagonals. A grid
/// of depth 1 is treated as 2D.
pub open spec fn spec_directions(x: int, y: int, z: int, mx: int, my: int, mz: int, edges: bool, vertices: bool) -> Seq<(i32, i32, i32)> {
    if mz == 1 {
        let t0 = push_dir(Seq::empty(), x > 0, (-1i32, 0i32, 0i32));
        let t1 = push_dir(t0, x < mx - 1, (1i32, 0i32, 0i32));
        let t2 = push_dir(t1, y > 0, (0i32, -1i32, 0i32));
        let t3 = push_dir(t2, y < my - 1, (0i32, 1i32, 0i32));
        let t4 = push_dir(t3, edges && (x > 0 && y > 0), (-1i32, -1i32, 0i32));
        let t5 = push_dir(t4, edges && (x > 0 && y < my - 1), (-1i32, 1i32, 0i32));
        let t6 = push_dir(t5, edges && (x < mx - 1 && y > 0), (1i32, -1i32, 0i32));
        let t7 = push_dir(t6, edges && (x < mx - 1 && y < my - 1), (1i32, 1i32, 0i32));
        t7
    } else {
        let t0 = push_dir(Seq::empty(), x > 0, (-1i32, 0i32, 0i32));
        let t1 = push_dir(t0, x < mx - 1, (1i32, 0i32, 0i32));
        let t2 = push_dir(t1, y > 0, (0i32, -1i32, 0i32));
        let t3 = push_dir(t2, y < my - 1, (0i32, 1i32, 0i32));
        let t4 = push_dir(t3, z > 0, (0i32, 0i32, -1i32));
        let t5 = push_dir(t4, z < mz - 1, (0i32, 0i32, 1i32));
        let t6 = push_dir(t5, edges && (x > 0 && y > 0), (-1i32, -1i32, 0i32));
        let t7 = push_dir(t6, edges && (x > 0 && y < my - 1), (-1i32, 1i32, 0i32));
        let t8 = push_dir(t7, edges && (x < mx - 1 && y > 0), (1i32, -1i32, 0i32));
        let t9 = push_dir(t8, edges && (x < mx - 1 && y < my - 1), (1i32, 1i32, 0i32));
        let t10 = push_dir(t9, edges && (x > 0 && z > 0), (-1i32, 0i32, -1i32));
        let t11 = push_dir(t10, edges && (x > 0 && z < mz - 1), (-1i32, 0i32, 1i32));
        let t12 = push_dir(t11, edges && (x < mx - 1 && z > 0), (1i32, 0i32, -1i32));
        let t13 = push_dir(t12, edges && (x < mx - 1 && z < mz - 1), (1i32, 0i32, 1i32));
        let t14 = push_dir(t13, edges && (y > 0 && z > 0), (0i32, -1i32, -1i32));
        let t15 = push_dir(t14, edges && (y > 0 && z < mz - 1), (0i32, -1i32, 1i32));
        let t16 = push_dir(t15, edges && (y < my - 1 && z > 0), (0i32, 1i32, -1i32));
        let t17 = push_dir(t16, edges && (y < my - 1 && z < mz - 1), (0i32, 1i32, 1i32));
        let t18 = push_dir(t17, vertices && (x > 0 && y > 0 && z > 0), (-1i32, -1i32, -1i32));
        let t19 = push_dir(t18, vertices && (x > 0 && y > 0 && z < mz - 1), (-1i32, -1i32, 1i32));
        let t20 = push_dir(t19, vertices && (x > 0 && y < my - 1 && z > 0), (-1i32, 1i32, -1i32));
        let t21 = push_dir(t20, vertices && (x > 0 && y < my - 1 && z < mz - 1), (-1i32, 1i32, 1i32));
        let t22 = push_dir(t21, vertices && (x < mx - 1 && y > 0 && z > 0), (1i32, -1i32, -1i32));
        let t23 = push_dir(t22, vertices && (x < mx - 1 && y > 0 && z < mz - 1), (1i32, -1i32, 1i32));
        let t24 = push_dir(t23, vertices && (x < mx - 1 && y < my - 1 && z > 0), (1i32, 1i32, -1i32));
        let t25 = push_dir(t24, vertices && (x < mx - 1 && y < my - 1 && z < mz - 1), (1i32, 1i32, 1i32));
        t25
    }
}

/// The in-grid moves from (x, y, z) (see `spec_directions`).
pub fn directions(x: i32, y: i32, z: i32, mx: usize, my: usize, mz: usize, edges: bool, vertices: bool) -> (r: Vec<(i32, i32, i32)>)
    requires
        mx <= i32::MAX,
        my <= i32::MAX,
        mz <= i32::MAX,
    ensures
        r@ == spec_directions(x as int, y as int, z as int, mx as int, my as int, mz as int, edges, vertices),
{
    let mxi = mx as i32;
    let myi = my as i32;
    let mzi = mz as i32;
    let mut result: Vec<(i32, i32, i32)> = Vec::new();
    if mzi == 1 {
        if x > 0 {
            result.push((-1, 0, 0));
        }
        if x < mxi - 1 {
            result.push((1, 0, 0));
        }
        if y > 0 {
            result.push((0, -1, 0));
        }
        if y < myi - 1 {
            result.push((0, 1, 0));
        }
        if edges {
            if x > 0 && y > 0 {
                result.push((-1, -1, 0));
            }
            if x > 0 && y < myi - 1 {
                result.push((-1, 1, 0));
            }
            if x < mxi - 1 && y > 0 {
                result.push((1, -1, 0));
            }
            if x < mxi - 1 && y < myi - 1 {
                result.push((1, 1, 0));
            }
        }
    } else {
        if x > 0 {
            result.push((-1, 0, 0));
        }
        if x < mxi - 1 {
            result.push((1, 0, 0));
        }
        if y > 0 {
            result.push((0, -1, 0));
        }
        if y < myi - 1 {
            result.push((0, 1, 0));
        }
        if z > 0 {
            result.push((0, 0, -1));
        }
        if z < mzi - 1 {
            result.push((0, 0, 1));
        }
        if edges {
            if x > 0 && y > 0 {
                result.push((-1, -1, 0));
            }
            if x > 0 && y < myi - 1 {
                result.push((-1, 1, 0));
            }
            if x < mxi - 1 && y > 0 {
                result.push((1, -1, 0));
            }
            if x < mxi - 1 && y < myi - 1 {
                result.push((1, 1, 0));
            }
            if x > 0 && z > 0 {
                result.push((-1, 0, -1));
            }
            if x > 0 && z < mzi - 1 {
                result.push((-1, 0, 1));
            }
            if x < mxi - 1 && z > 0 {
                result.push((1, 0, -1));
            }
            if x < mxi - 1 && z < mzi - 1 {
                result.push((1, 0, 1));
            }
            if y > 0 && z > 0 {
                result.push((0, -1, -1));
            }
            if y > 0 && z < mzi - 1 {
                result.push((0, -1, 1));
            }
            if y < myi - 1 && z > 0 {
                result.push((0, 1, -1));
            }
            if y < myi - 1 && z < mzi - 1 {
                result.push((0, 1, 1));
            }
        }
        if vertices {
            if x > 0 && y > 0 && z > 0 {
                result.push((-1, -1, -1));
            }
            if x > 0 && y > 0 && z < mzi - 1 {
                result.push((-1, -1, 1));
            }
            if x > 0 && y < myi - 1 && z > 0 {
                result.push((-1, 1, -1));
            }
            if x > 0 && y < myi - 1 && z < mzi - 1 {
                result.push((-1, 1, 1));
            }
            if x < mxi - 1 && y > 0 && z > 0 {
                result.push((1, -1, -1));
            }
            if x < mxi - 1 && y > 0 && z < mzi - 1 {
                result.push((1, -1, 1));
            }
            if x < mxi - 1 && y < myi - 1 && z > 0 {
                result.push((1, 1, -1));
            }
            if x < mxi - 1 && y < myi - 1 && z < mzi - 1 {
                result.push((1, 1, 1));
            }
        }
    }
    assert(result@ =~= spec_directions(x as int, y as int, z as int, mx as int, my as int, mz as int, edges, vertices));
    result
}

/// A move to an adjacent (face, edge or corner) cell inside the grid.
pub open spec fn dir_ok(d: (i32, i32, i32), x: int, y: int, z: int, mx: int, my: int, mz: int) -> bool {
    &&& -1 <= d.0 <= 1 && -1 <= d.1 <= 1 && -1 <= d.2 <= 1
    &&& !(d.0 == 0 && d.1 == 0 && d.2 == 0)
    &&& 0 <= x + d.0 < mx && 0 <= y + d.1 < my && 0 <= z + d.2 < mz
}

proof fn lemma_push_dir(s: Seq<(i32, i32, i32)>, c: bool, d: (i32, i32, i32), x: int, y: int, z: int, mx: int, my: int, mz: int)
    requires
        forall|k: int| 0 <= k < s.len() ==> dir_ok(#[trigger] s[k], x, y, z, mx, my, mz),
        c ==> dir_ok(d, x, y, z, mx, my, mz),
    ensures
        forall|k: int| 0 <= k < push_dir(s, c, d).len() ==> dir_ok(#[trigger] push_dir(s, c, d)[k], x, y, z, mx, my, mz),
{
    if c {
        assert forall|k: int| 0 <= k < push_dir(s, c, d).len() implies dir_ok(#[trigger] push_dir(s, c, d)[k], x, y, z, mx, my, mz) by {
            if k < s.len() {
                assert(push_dir(s, c, d)[k] == s[k]);
            }
        }
    }
}

/// Every move in the direction list stays inside the grid.
pub proof fn lemma_directions_ok(x: int, y: int, z: int, mx: int, my: int, mz: int, edges: bool, vertices: bool)
    requires
        0 <= x < mx,
        0 <= y < my,
        0 <= z < mz,
    ensures
        forall|k: int|
            0 <= k < spec_directions(x, y, z, mx, my, mz, edges, vertices).len() ==> dir_ok(
                #[trigger] spec_directions(x, y, z, mx, my, mz, edges, vertices)[k],
                x,
                y,
                z,
                mx,
                my,
                mz,
            ),
{
    if mz == 1 {
        lemma_directions_ok_2d(x, y, z, mx, my, mz, edges, vertices);
    } else {
        lemma_directions_ok_3d(x, y, z, mx, my, mz, edges, vertices);
    }
}

#[verifier::rlimit(60)]
proof fn lemma_directions_ok_2d(x: int, y: int, z: int, mx: int, my: int, mz: int, edges: bool, vertices: bool)
    requires
        0 <= x < mx,
        0 <= y < my,
        0 <= z < mz,
        mz == 1,
    ensures
        forall|k: int|
            0 <= k < spec_directions(x, y, z, mx, my, mz, edges, vertices).len() ==> dir_ok(
                #[trigger] spec_directions(x, y, z, mx, my, mz, edges, vertices)[k],
                x,
                y,
                z,
                mx,
                my,
                mz,
            ),
{
        let t0 = push_dir(Seq::<(i32, i32, i32)>::empty(), x > 0, (-1i32, 0i32, 0i32));
        lemma_push_dir(Seq::<(i32, i32, i32)>::empty(), x > 0, (-1i32, 0i32, 0i32), x, y, z, mx, my, mz);
        let t1 = push_dir(t0, x < mx - 1, (1i32, 0i32, 0i32));
        lemma_push_dir(t0, x < mx - 1, (1i32, 0i32, 0i32), x, y, z, mx, my, mz);
        let t2 = push_dir(t1, y > 0, (0i32, -1i32, 0i32));
        lemma_push_dir(t1, y > 0, (0i32, -1i32, 0i32), x, y, z, mx, my, mz);
        let t3 = push_dir(t2, y < my - 1, (0i32, 1i32, 0i32));
        lemma_push_dir(t2, y < my - 1, (0i32, 1i32, 0i32), x, y, z, mx, my, mz);
        let t4 = push_dir(t3, edges && (x > 0 && y > 0), (-1i32, -1i32, 0i32));
        lemma_push_dir(t3, edges && (x > 0 && y > 0), (-1i32, -1i32, 0i32), x, y, z, mx, my, mz);
        let t5 = push_dir(t4, edges && (x > 0 && y < my - 1), (-1i32, 1i32, 0i32));
        lemma_push_dir(t4, edges && (x > 0 && y < my - 1), (-1i32, 1i32, 0i32), x, y, z, mx, my, mz);
        let t6 = push_dir(t5, edges && (x < mx - 1 && y > 0), (1i32, -1i32, 0i32));
        lemma_push_dir(t5, edges && (x < mx - 1 && y > 0), (1i32, -1i32, 0i32), x, y, z, mx, my, mz);
        let t7 = push_dir(t6, edges && (x < mx - 1 && y < my - 1), (1i32, 1i32, 0i32));
        lemma_push_dir(t6, edges && (x < mx - 1 && y < my - 1), (1i32, 1i32, 0i32), x, y, z, mx, my, mz);
        assert(t7 == spec_directions(x, y, z, mx, my, mz, edges, vertices));
}

#[verifier::rlimit(100)]
#[verifier::spinoff_prover]
proof fn lemma_directions_ok_3d(x: int, y: int, z: int, mx: int, my: int, mz: int, edges: bool, vertices: bool)
    requires
        0 <= x < mx,
        0 <= y < my,
        0 <= z < mz,
        mz != 1,
    ensures
        forall|k: int|
            0 <= k < spec_directions(x, y, z, mx, my, mz, edges, vertices).len() ==> dir_ok(
                #[trigger] spec_directions(x, y, z, mx, my, mz, edges, vertices)[k],
                x,
                y,
                z,
                mx,
                my,
                mz,
            ),
{
        let t0 = push_dir(Seq::<(i32, i32, i32)>::empty(), x > 0, (-1i32, 0i32, 0i32));
        lemma_push_dir(Seq::<(i32, i32, i32)>::empty(), x > 0, (-1i32, 0i32, 0i32), x, y, z, mx, my, mz);
        let t1 = push_dir(t0, x < mx - 1, (1i32, 0i32, 0i32));
        lemma_push_dir(t0, x < mx - 1, (1i32, 0i32, 0i32), x, y, z, mx, my, mz);
        let t2 = push_dir(t1, y > 0, (0i32, -1i32, 0i32));
        lemma_push_dir(t1, y > 0, (0i32, -1i32, 0i32), x, y, z, mx, my, mz);
        let t3 = push_dir(t2, y < my - 1, (0i32, 1i32, 0i32));
        lemma_push_dir(t2, y < my - 1, (0i32, 1i32, 0i32), x, y, z, mx, my, mz);
        let t4 = push_dir(t3, z > 0, (0i32, 0i32, -1i32));
        lemma_push_dir(t3, z > 0, (0i32, 0i32, -1i32), x, y, z, mx, my, mz);
        let t5 = push_dir(t4, z < mz - 1, (0i32, 0i32, 1i32));
        lemma_push_dir(t4, z < mz - 1, (0i32, 0i32, 1i32), x, y, z, mx, my, mz);
        let t6 = push_dir(t5, edges && (x > 0 && y > 0), (-1i32, -1i32, 0i32));
        lemma_push_dir(t5, edges && (x > 0 && y > 0), (-1i32, -1i32, 0i32), x, y, z, mx, my, mz);
        let t7 = push_dir(t6, edges && (x > 0 && y < my - 1), (-1i32, 1i32, 0i32));
        lemma_push_dir(t6, edges && (x > 0 && y < my - 1), (-1i32, 1i32, 0i32), x, y, z, mx, my, mz);
        let t8 = push_dir(t7, edges && (x < mx - 1 && y > 0), (1i32, -1i32, 0i32));
        lemma_push_dir(t7, edges && (x < mx - 1 && y > 0), (1i32, -1i32, 0i32), x, y, z, mx, my, mz);
        let t9 = push_dir(t8, edges && (x < mx - 1 && y < my - 1), (1i32, 1i32, 0i32));
        lemma_push_dir(t8, edges && (x < mx - 1 && y < my - 1), (1i32, 1i32, 0i32), x, y, z, mx, my, mz);
        let t10 = push_dir(t9, edges && (x > 0 && z > 0), (-1i32, 0i32, -1i32));
        lemma_push_dir(t9, edges && (x > 0 && z > 0), (-1i32, 0i32, -1i32), x, y, z, mx, my, mz);
        let t11 = push_dir(t10, edges && (x > 0 && z < mz - 1), (-1i32, 0i32, 1i32));
        lemma_push_dir(t10, edges && (x > 0 && z < mz - 1), (-1i32, 0i32, 1i32), x, y, z, mx, my, mz);
        let t12 = push_dir(t11, edges && (x < mx - 1 && z > 0), (1i32, 0i32, -1i32));
        lemma_push_dir(t11, edges && (x < mx - 1 && z > 0), (1i32, 0i32, -1i32), x, y, z, mx, my, mz);
        let t13 = push_dir(t12, edges && (x < mx - 1 && z < mz - 1), (1i32, 0i32, 1i32));
        lemma_push_dir(t12, edges && (x < mx - 1 && z < mz - 1), (1i32, 0i32, 1i32), x, y, z, mx, my, mz);
        let t14 = push_dir(t13, edges && (y > 0 && z > 0), (0i32, -1i32, -1i32));
        lemma_push_dir(t13, edges && (y > 0 && z > 0), (0i32, -1i32, -1i32), x, y, z, mx, my, mz);
        let t15 = push_dir(t14, edges && (y > 0 && z < mz - 1), (0i32, -1i32, 1i32));
        lemma_push_dir(t14, edges && (y > 0 && z < mz - 1), (0i32, -1i32, 1i32), x, y, z, mx, my, mz);
        let t16 = push_dir(t15, edges && (y < my - 1 && z > 0), (0i32, 1i32, -1i32));
        lemma_push_dir(t15, edges && (y < my - 1 && z > 0), (0i32, 1i32, -1i32), x, y, z, mx, my, mz);
        let t17 = push_dir(t16, edges && (y < my - 1 && z < mz - 1), (0i32, 1i32, 1i32));
        lemma_push_dir(t16, edges && (y < my - 1 && z < mz - 1), (0i32, 1i32, 1i32), x, y, z, mx, my, mz);
        let t18 = push_dir(t17, vertices && (x > 0 && y > 0 && z > 0), (-1i32, -1i32, -1i32));
        lemma_push_dir(t17, vertices && (x > 0 && y > 0 && z > 0), (-1i32, -1i32, -1i32), x, y, z, mx, my, mz);
        let t19 = push_dir(t18, vertices && (x > 0 && y > 0 && z < mz - 1), (-1i32, -1i32, 1i32));
        lemma_push_dir(t18, vertices && (x > 0 && y > 0 && z < mz - 1), (-1i32, -1i32, 1i32), x, y, z, mx, my, mz);
        let t20 = push_dir(t19, vertices && (x > 0 && y < my - 1 && z > 0), (-1i32, 1i32, -1i32));
        lemma_push_dir(t19, vertices && (x > 0 && y < my - 1 && z > 0), (-1i32, 1i32, -1i32), x, y, z, mx, my, mz);
        let t21 = push_dir(t20, vertices && (x > 0 && y < my - 1 && z < mz - 1), (-1i32, 1i32, 1i32));
        lemma_push_dir(t20, vertices && (x > 0 && y < my - 1 && z < mz - 1), (-1i32, 1i32, 1i32), x, y, z, mx, my, mz);
        let t22 = push_dir(t21, vertices && (x < mx - 1 && y > 0 && z > 0), (1i32, -1i32, -1i32));
        lemma_push_dir(t21, vertices && (x < mx - 1 && y > 0 && z > 0), (1i32, -1i32, -1i32), x, y, z, mx, my, mz);
        let t23 = push_dir(t22, vertices && (x < mx - 1 && y > 0 && z < mz - 1), (1i32, -1i32, 1i32));
        lemma_push_dir(t22, vertices && (x < mx - 1 && y > 0 && z < mz - 1), (1i32, -1i32, 1i32), x, y, z, mx, my, mz);
        let t24 = push_dir(t23, vertices && (x < mx - 1 && y < my - 1 && z > 0), (1i32, 1i32, -1i32));
        lemma_push_dir(t23, vertices && (x < mx - 1 && y < my - 1 && z > 0), (1i32, 1i32, -1i32), x, y, z, mx, my, mz);
        let t25 = push_dir(t24, vertices && (x < mx - 1 && y < my - 1 && z < mz - 1), (1i32, 1i32, 1i32));
        lemma_push_dir(t24, vertices && (x < mx - 1 && y < my - 1 && z < mz - 1), (1i32, 1i32, 1i32), x, y, z, mx, my, mz);
        assert(t25 == spec_directions(x, y, z, mx, my, mz, edges, vertices));
}

/// The face moves -x, +x, -y, +y, -z, +z that stay inside the grid.
pub open spec fn spec_cardinals(x: int, y: int, z: int, mx: int, my: int, mz: int) -> Seq<(i32, i32, i32)> {
    let t0 = push_dir(Seq::empty(), x > 0, (-1i32, 0i32, 0i32));
    let t1 = push_dir(t0, x < mx - 1, (1i32, 0i32, 0i32));
    let t2 = push_dir(t1, y > 0, (0i32, -1i32, 0i32));
    let t3 = push_dir(t2, y < my - 1, (0i32, 1i32, 0i32));
    let t4 = push_dir(t3, z > 0, (0i32, 0i32, -1i32));
    push_dir(t4, z < mz - 1, (0i32, 0i32, 1i32))
}

/// The target of move `d` from (x, y, z) is in the grid and one generation closer.
pub open spec fn is_step(gens: Seq<i32>, d: (i32, i32, i32), x: int, y: int, z: int, mx: int, my: int, mz: int, g: int) -> bool {
    &&& 0 <= x + d.0 < mx && 0 <= y + d.1 < my && 0 <= z + d.2 < mz
    &&& gens[idx3(x + d.0, y + d.1, z + d.2, mx, my)] == g - 1
}

/// The moves of `dirs` that are steps, in order.
pub open spec fn steps_of(dirs: Seq<(i32, i32, i32)>, gens: Seq<i32>, x: int, y: int, z: int, mx: int, my: int, mz: int, g: int) -> Seq<(i32, i32, i32)>
    decreases dirs.len(),
{
    if dirs.len() == 0 {
        Seq::empty()
    } else {
        let c = steps_of(dirs.drop_last(), gens, x, y, z, mx, my, mz, g);
        if is_step(gens, dirs.last(), x, y, z, mx, my, mz, g) {
            c.push(dirs.last())
        } else {
            c
        }
    }
}

proof fn lemma_steps_of(dirs: Seq<(i32, i32, i32)>, gens: Seq<i32>, x: int, y: int, z: int, mx: int, my: int, mz: int, g: int)
    ensures
        forall|k: int| 0 <= k < steps_of(dirs, gens, x, y, z, mx, my, mz, g).len() ==> #[trigger] is_step(gens, steps_of(dirs, gens, x, y, z, mx, my, mz, g)[k], x, y, z, mx, my, mz, g)
            && dirs.contains(steps_of(dirs, gens, x, y, z, mx, my, mz, g)[k]),
    decreases dirs.len(),
{
    if dirs.len() > 0 {
        lemma_steps_of(dirs.drop_last(), gens, x, y, z, mx, my, mz, g);
        let c = steps_of(dirs.drop_last(), gens, x, y, z, mx, my, mz, g);
        assert forall|k: int| 0 <= k < steps_of(dirs, gens, x, y, z, mx, my, mz, g).len() implies #[trigger] is_step(gens, steps_of(dirs, gens, x, y, z, mx, my, mz, g)[k], x, y, z, mx, my, mz, g)
            && dirs.contains(steps_of(dirs, gens, x, y, z, mx, my, mz, g)[k]) by {
            if k < c.len() {
                let e = c[k];
                assert(steps_of(dirs, gens, x, y, z, mx, my, mz, g)[k] == e);
                assert(is_step(gens, c[k], x, y, z, mx, my, mz, g));
                assert(dirs.drop_last().contains(e));
                let j = choose|j: int| 0 <= j < dirs.drop_last().len() && dirs.drop_last()[j] == e;
                assert(dirs[j] == e);
            } else {
                assert(dirs[dirs.len() - 1] == dirs.last());
            }
        }
    }
}

/// The moves of `dirs` that are steps from (x, y, z), in order.
fn collect_steps(
    dirs: &Vec<(i32, i32, i32)>,
    gens: &Vec<i32>,
    x: i32,
    y: i32,
    z: i32,
    mx: usize,
    my: usize,
    mz: usize,
    g: i32,
) -> (r: Vec<(i32, i32, i32)>)
    requires
        gens@.len() == mx * my * mz,
        mx <= i32::MAX && my <= i32::MAX && mz <= i32::MAX,
        mx * my <= i32::MAX,
        mx * my * mz <= i32::MAX,
        forall|k: int| 0 <= k < dirs@.len() ==> -1 <= (#[trigger] dirs@[k]).0 <= 1 && -1 <= dirs@[k].1 <= 1 && -1 <= dirs@[k].2 <= 1,
        0 <= x < mx && 0 <= y < my && 0 <= z < mz,
    ensures
        r@ == steps_of(dirs@, gens@, x as int, y as int, z as int, mx as int, my as int, mz as int, g as int),
{
    let mut r: Vec<(i32, i32, i32)> = Vec::new();
    let mxi = mx as i32;
    let myi = my as i32;
    let mzi = mz as i32;
    let mut k: usize = 0;
    while k < dirs.len()
        invariant
            gens@.len() == mx * my * mz,
            mx <= i32::MAX && my <= i32::MAX && mz <= i32::MAX,
            mx * my <= i32::MAX,
            mx * my * mz <= i32::MAX,
            mxi == mx && myi == my && mzi == mz,
            forall|j: int| 0 <= j < dirs@.len() ==> -1 <= (#[trigger] dirs@[j]).0 <= 1 && -1 <= dirs@[j].1 <= 1 && -1 <= dirs@[j].2 <= 1,
            0 <= x < mx && 0 <= y < my && 0 <= z < mz,
            k <= dirs@.len(),
            r@ == steps_of(dirs@.take(k as int), gens@, x as int, y as int, z as int, mx as int, my as int, mz as int, g as int),
        decreases dirs@.len() - k,
    {
        let d = dirs[k];
        let nx = x + d.0;
        let ny = y + d.1;
        let nz = z + d.2;
        proof {
            assert(dirs@.take(k + 1).drop_last() =~= dirs@.take(k as int));
            assert(dirs@.take(k + 1).last() == d);
        }
        if nx >= 0 && nx < mxi && ny >= 0 && ny < myi && nz >= 0 && nz < mzi {
            proof {
                lemma_idx3_bound(nx as int, ny as int, nz as int, mx as int, my as int, mz as int);
            }
            let ni = (nx as usize) + (ny as usize) * mx + (nz as usize) * (mx * my);
            if (g as i64) - 1 == gens[ni] as i64 {
                r.push(d);
            }
        }
        k = k + 1;
    }
    assert(dirs@.take(dirs@.len() as int) =~= dirs@);
    r
}

/// Integer square root: the largest `r` with `r * r <= v`.
pub fn isqrt(v: u64) -> (r: u64)
    ensures
        (r as int) * (r as int) <= v,
        v < (r as int + 1) * (r as int + 1),
{
    let mut lo: u64 = 0;
    let mut hi: u64 = 0x1_0000_0000;
    assert((hi as int) * (hi as int) > v) by (nonlinear_arith)
        requires
            hi == 0x1_0000_0000,
            v <= 0xffff_ffff_ffff_ffff,
    ;
    while hi - lo > 1
        invariant
            lo < hi <= 0x1_0000_0000,
            (lo as int) * (lo as int) <= v,
            v < (hi as int) * (hi as int),
        decreases hi - lo,
    {
        let mid = lo + (hi - lo) / 2;
        assert((mid as int) * (mid as int) <= 0x1_0000_0000_0000_0000) by (nonlinear_arith)
            requires
                mid <= 0x1_0000_0000,
        ;
        if (mid as u128) * (mid as u128) <= v as u128 {
            lo = mid;
        } else {
            hi = mid;
        }
    }
    lo
}

/// Scale of the fixed-point keys used to compare moves by direction.
pub const KEY_SCALE: i64 = 0x4000_0000;

/// Fixed-point cosine between move `c` and direction `d`: `root` is the integer part of
/// `|c . d| * KEY_SCALE / sqrt(|c|^2 |d|^2)`.
pub open spec fn spec_cos_key(c: (i32, i32, i32), d: (i32, i32, i32), root: int) -> bool {
    let dot = c.0 * d.0 + c.1 * d.1 + c.2 * d.2;
    let lc = c.0 * c.0 + c.1 * c.1 + c.2 * c.2;
    let ld = d.0 * d.0 + d.1 * d.1 + d.2 * d.2;
    let v = (dot * dot * 0x1000_0000_0000_0000) / (lc * ld);
    root * root <= v < (root + 1) * (root + 1)
}

/// The fixed-point cosine key of move `c` against direction `d` (both with components
/// in [-1, 1], neither zero), with the sign of `c . d`.
pub fn cos_key(c: (i32, i32, i32), d: (i32, i32, i32)) -> (r: i64)
    requires
        -1 <= c.0 <= 1 && -1 <= c.1 <= 1 && -1 <= c.2 <= 1,
        -1 <= d.0 <= 1 && -1 <= d.1 <= 1 && -1 <= d.2 <= 1,
        !(c.0 == 0 && c.1 == 0 && c.2 == 0),
        !(d.0 == 0 && d.1 == 0 && d.2 == 0),
    ensures
        exists|root: int|
            spec_cos_key(c, d, root) && r == (if c.0 * d.0 + c.1 * d.1 + c.2 * d.2 >= 0 { root } else { -root }),
{
    assert(-1 <= c.0 * d.0 <= 1 && -1 <= c.1 * d.1 <= 1 && -1 <= c.2 * d.2 <= 1) by (nonlinear_arith)
        requires
            -1 <= c.0 <= 1 && -1 <= c.1 <= 1 && -1 <= c.2 <= 1,
            -1 <= d.0 <= 1 && -1 <= d.1 <= 1 && -1 <= d.2 <= 1,
    ;
    assert(0 <= c.0 * c.0 <= 1 && 0 <= c.1 * c.1 <= 1 && 0 <= c.2 * c.2 <= 1) by (nonlinear_arith)
        requires
            -1 <= c.0 <= 1 && -1 <= c.1 <= 1 && -1 <= c.2 <= 1,
    ;
    assert(0 <= d.0 * d.0 <= 1 && 0 <= d.1 * d.1 <= 1 && 0 <= d.2 * d.2 <= 1) by (nonlinear_arith)
        requires
            -1 <= d.0 <= 1 && -1 <= d.1 <= 1 && -1 <= d.2 <= 1,
    ;
    let dot = c.0 * d.0 + c.1 * d.1 + c.2 * d.2;
    let lc = c.0 * c.0 + c.1 * c.1 + c.2 * c.2;
    let ld = d.0 * d.0 + d.1 * d.1 + d.2 * d.2;
    assert(lc >= 1 && ld >= 1) by (nonlinear_arith)
        requires
            -1 <= c.0 <= 1 && -1 <= c.1 <= 1 && -1 <= c.2 <= 1,
            -1 <= d.0 <= 1 && -1 <= d.1 <= 1 && -1 <= d.2 <= 1,
            !(c.0 == 0 && c.1 == 0 && c.2 == 0),
            !(d.0 == 0 && d.1 == 0 && d.2 == 0),
            lc == c.0 * c.0 + c.1 * c.1 + c.2 * c.2,
            ld == d.0 * d.0 + d.1 * d.1 + d.2 * d.2,
    ;
    assert(1 <= lc * ld <= 9) by (nonlinear_arith)
        requires
            1 <= lc <= 3,
            1 <= ld <= 3,
    ;
    assert(0 <= dot * dot <= 9) by (nonlinear_arith)
        requires
            -3 <= dot <= 3,
    ;
    let dd: u64 = (dot * dot) as u64;
    let den: u64 = (lc * ld) as u64;
    let v: u64 = (dd * 0x1000_0000_0000_0000u64) / den;
    let root = isqrt(v);
    assert(root <= 0x1_0000_0000) by (nonlinear_arith)
        requires
            (root as int) * (root as int) <= v,
            v <= 0xffff_ffff_ffff_ffff,
    ;
    assert(spec_cos_key(c, d, root as int));
    if dot >= 0 {
        root as i64
    } else {
        -(root as i64)
    }
}


/// The in-grid face moves from (x, y, z) (see `spec_cardinals`).
pub fn cardinals(x: i32, y: i32, z: i32, mx: usize, my: usize, mz: usize) -> (r: Vec<(i32, i32, i32)>)
    requires
        mx <= i32::MAX,
        my <= i32::MAX,
        mz <= i32::MAX,
    ensures
        r@ == spec_cardinals(x as int, y as int, z as int, mx as int, my as int, mz as int),
        forall|k: int| 0 <= k < r@.len() ==> -1 <= (#[trigger] r@[k]).0 <= 1 && -1 <= r@[k].1 <= 1 && -1 <= r@[k].2 <= 1,
{
    let mxi = mx as i32;
    let myi = my as i32;
    let mzi = mz as i32;
    let mut result: Vec<(i32, i32, i32)> = Vec::new();
    if x > 0 {
        result.push((-1, 0, 0));
    }
    if x < mxi - 1 {
        result.push((1, 0, 0));
    }
    if y > 0 {
        result.push((0, -1, 0));
    }
    if y < myi - 1 {
        result.push((0, 1, 0));
    }
    if z > 0 {
        result.push((0, 0, -1));
    }
    if z < mzi - 1 {
        result.push((0, 0, 1));
    }
    assert(result@ =~= spec_cardinals(x as int, y as int, z as int, mx as int, my as int, mz as int));
    result
}

/// Grid size limits under which the path search runs.
pub open spec fn path_grid_ok(gens: Seq<i32>, mx: int, my: int, mz: int) -> bool {
    &&& gens.len() == mx * my * mz
    &&& mx <= i32::MAX && my <= i32::MAX && mz <= i32::MAX
    &&& mx * my <= i32::MAX
    &&& mx * my * mz <= i32::MAX
}

/// The next move along the path from (x, y, z), having arrived by direction (dx, dy, dz):
/// a move to a neighbour one generation closer to the finish. Without diagonals, the
/// previous direction is kept when `inertia` allows and it still descends; otherwise a
/// descending face move is drawn at random. With diagonals, `inertia` picks the
/// descending move best aligned with the previous direction (fixed-point cosine plus a
/// random tie-break of up to one tenth), else a random descending move. (0, 0, 0) when
/// no move descends.
pub fn find_direction(
    x: i32,
    y: i32,
    z: i32,
    dx: i32,
    dy: i32,
    dz: i32,
    generations: &Vec<i32>,
    mx: usize,
    my: usize,
    mz: usize,
    inertia: bool,
    edges: bool,
    vertices: bool,
    random: &mut DotNetRandom,
) -> (r: (i32, i32, i32))
    requires
        old(random).wf(),
        path_grid_ok(generations@, mx as int, my as int, mz as int),
        0 <= x < mx && 0 <= y < my && 0 <= z < mz,
        -1 <= dx <= 1 && -1 <= dy <= 1 && -1 <= dz <= 1,
    ensures
        final(random).wf(),
        -1 <= r.0 <= 1 && -1 <= r.1 <= 1 && -1 <= r.2 <= 1,
        ({
            let g = generations@[idx3(x as int, y as int, z as int, mx as int, my as int)] as int;
            let dirs = if !edges && !vertices {
                spec_cardinals(x as int, y as int, z as int, mx as int, my as int, mz as int)
            } else {
                spec_directions(x as int, y as int, z as int, mx as int, my as int, mz as int, edges, vertices)
            };
            &&& r == (0i32, 0i32, 0i32) || is_step(generations@, r, x as int, y as int, z as int, mx as int, my as int, mz as int, g)
            &&& steps_of(dirs, generations@, x as int, y as int, z as int, mx as int, my as int, mz as int, g).len() > 0 ==> r
                != (0i32, 0i32, 0i32)
        }),
{
    if !vertices && !edges {
        face_step(x, y, z, dx, dy, dz, generations, mx, my, mz, inertia, random)
    } else {
        diagonal_step(x, y, z, dx, dy, dz, generations, mx, my, mz, inertia, edges, vertices, random)
    }
}

/// `find_direction` without diagonal moves.
#[verifier::rlimit(100)]
#[verifier::spinoff_prover]
fn face_step(
    x: i32,
    y: i32,
    z: i32,
    dx: i32,
    dy: i32,
    dz: i32,
    generations: &Vec<i32>,
    mx: usize,
    my: usize,
    mz: usize,
    inertia: bool,
    random: &mut DotNetRandom,
) -> (r: (i32, i32, i32))
    requires
        old(random).wf(),
        path_grid_ok(generations@, mx as int, my as int, mz as int),
        0 <= x < mx && 0 <= y < my && 0 <= z < mz,
        -1 <= dx <= 1 && -1 <= dy <= 1 && -1 <= dz <= 1,
    ensures
        final(random).wf(),
        -1 <= r.0 <= 1 && -1 <= r.1 <= 1 && -1 <= r.2 <= 1,
        ({
            let g = generations@[idx3(x as int, y as int, z as int, mx as int, my as int)] as int;
            let dirs = spec_cardinals(x as int, y as int, z as int, mx as int, my as int, mz as int);
            &&& r == (0i32, 0i32, 0i32) || is_step(generations@, r, x as int, y as int, z as int, mx as int, my as int, mz as int, g)
            &&& steps_of(dirs, generations@, x as int, y as int, z as int, mx as int, my as int, mz as int, g).len() > 0 ==> r
                != (0i32, 0i32, 0i32)
        }),
{
    let mxi = mx as i32;
    let myi = my as i32;
    let mzi = mz as i32;
    proof {
        lemma_idx3_bound(x as int, y as int, z as int, mx as int, my as int, mz as int);
    }
    let g = generations[(x as usize) + (y as usize) * mx + (z as usize) * (mx * my)];
    let ghost gi = g as int;
        if dx != 0 || dy != 0 || dz != 0 {
            let cx = x + dx;
            let cy = y + dy;
            let cz = z + dz;
            if inertia && cx >= 0 && cy >= 0 && cz >= 0 && cx < mxi && cy < myi && cz < mzi {
                proof {
                    lemma_idx3_bound(cx as int, cy as int, cz as int, mx as int, my as int, mz as int);
                }
                let ci = (cx as usize) + (cy as usize) * mx + (cz as usize) * (mx * my);
                if generations[ci] as i64 == g as i64 - 1 {
                    return (dx, dy, dz);
                }
            }
        }
        let dirs = cardinals(x, y, z, mx, my, mz);
        let cands = collect_steps(&dirs, generations, x, y, z, mx, my, mz, g);
        proof {
            lemma_steps_of(dirs@, generations@, x as int, y as int, z as int, mx as int, my as int, mz as int, g as int);
        }
        if cands.len() == 0 {
            return (0, 0, 0);
        }
        proof {
            assert(cands@.len() <= dirs@.len()) by {
                lemma_steps_len(dirs@, generations@, x as int, y as int, z as int, mx as int, my as int, mz as int, g as int);
            }
        }
        let k = random.next_int_max(cands.len() as i32) as usize;
        proof {
            assert(is_step(generations@, cands@[k as int], x as int, y as int, z as int, mx as int, my as int, mz as int, g as int));
            assert(dirs@.contains(cands@[k as int]));
        }
        cands[k]
}

/// `find_direction` with diagonal moves.
#[verifier::rlimit(100)]
#[verifier::spinoff_prover]
fn diagonal_step(
    x: i32,
    y: i32,
    z: i32,
    dx: i32,
    dy: i32,
    dz: i32,
    generations: &Vec<i32>,
    mx: usize,
    my: usize,
    mz: usize,
    inertia: bool,
    edges: bool,
    vertices: bool,
    random: &mut DotNetRandom,
) -> (r: (i32, i32, i32))
    requires
        old(random).wf(),
        path_grid_ok(generations@, mx as int, my as int, mz as int),
        0 <= x < mx && 0 <= y < my && 0 <= z < mz,
        -1 <= dx <= 1 && -1 <= dy <= 1 && -1 <= dz <= 1,
    ensures
        final(random).wf(),
        -1 <= r.0 <= 1 && -1 <= r.1 <= 1 && -1 <= r.2 <= 1,
        ({
            let g = generations@[idx3(x as int, y as int, z as int, mx as int, my as int)] as int;
            let dirs = spec_directions(x as int, y as int, z as int, mx as int, my as int, mz as int, edges, vertices);
            &&& r == (0i32, 0i32, 0i32) || is_step(generations@, r, x as int, y as int, z as int, mx as int, my as int, mz as int, g)
            &&& steps_of(dirs, generations@, x as int, y as int, z as int, mx as int, my as int, mz as int, g).len() > 0 ==> r
                != (0i32, 0i32, 0i32)
        }),
{
    let mxi = mx as i32;
    let myi = my as i32;
    let mzi = mz as i32;
    proof {
        lemma_idx3_bound(x as int, y as int, z as int, mx as int, my as int, mz as int);
    }
    let g = generations[(x as usize) + (y as usize) * mx + (z as usize) * (mx * my)];
    let ghost gi = g as int;
        let dirs = directions(x, y, z, mx, my, mz, edges, vertices);
        proof {
            lemma_directions_ok(x as int, y as int, z as int, mx as int, my as int, mz as int, edges, vertices);
            assert forall|j: int| 0 <= j < dirs@.len() implies -1 <= (#[trigger] dirs@[j]).0 <= 1 && -1 <= dirs@[j].1 <= 1 && -1
                <= dirs@[j].2 <= 1 by {
                assert(dir_ok(dirs@[j], x as int, y as int, z as int, mx as int, my as int, mz as int));
            }
        }
        let cands = collect_steps(&dirs, generations, x, y, z, mx, my, mz, g);
        proof {
            lemma_steps_of(dirs@, generations@, x as int, y as int, z as int, mx as int, my as int, mz as int, g as int);
            lemma_steps_len(dirs@, generations@, x as int, y as int, z as int, mx as int, my as int, mz as int, g as int);
        }
        if cands.len() == 0 {
            return (0, 0, 0);
        }
        if inertia && (dx != 0 || dy != 0 || dz != 0) {
            proof {
                assert forall|q: int| 0 <= q < cands@.len() implies {
                    let c = #[trigger] cands@[q];
                    &&& -1 <= c.0 <= 1 && -1 <= c.1 <= 1 && -1 <= c.2 <= 1
                    &&& !(c.0 == 0 && c.1 == 0 && c.2 == 0)
                } by {
                    assert(is_step(generations@, cands@[q], x as int, y as int, z as int, mx as int, my as int, mz as int, g as int));
                    let w = choose|w: int| 0 <= w < dirs@.len() && dirs@[w] == cands@[q];
                    assert(dir_ok(dirs@[w], x as int, y as int, z as int, mx as int, my as int, mz as int));
                }
            }
            let c = best_aligned(&cands, (dx, dy, dz), random);
            proof {
                let q = choose|q: int| 0 <= q < cands@.len() && cands@[q] == c;
                assert(is_step(generations@, cands@[q], x as int, y as int, z as int, mx as int, my as int, mz as int, g as int));
            }
            c
        } else {
            let k = random.next_int_max(cands.len() as i32) as usize;
            proof {
                assert(is_step(generations@, cands@[k as int], x as int, y as int, z as int, mx as int, my as int, mz as int, g as int));
                let q = choose|q: int| 0 <= q < dirs@.len() && dirs@[q] == cands@[k as int];
                assert(dir_ok(dirs@[q], x as int, y as int, z as int, mx as int, my as int, mz as int));
            }
            cands[k]
        }
}

proof fn lemma_steps_len(dirs: Seq<(i32, i32, i32)>, gens: Seq<i32>, x: int, y: int, z: int, mx: int, my: int, mz: int, g: int)
    ensures
        steps_of(dirs, gens, x, y, z, mx, my, mz, g).len() <= dirs.len(),
    decreases dirs.len(),
{
    if dirs.len() > 0 {
        lemma_steps_len(dirs.drop_last(), gens, x, y, z, mx, my, mz, g);
    }
}

proof fn lemma_cos_key_bound(c: (i32, i32, i32), d: (i32, i32, i32), root: int)
    requires
        spec_cos_key(c, d, root),
        -1 <= c.0 <= 1 && -1 <= c.1 <= 1 && -1 <= c.2 <= 1,
        -1 <= d.0 <= 1 && -1 <= d.1 <= 1 && -1 <= d.2 <= 1,
        !(c.0 == 0 && c.1 == 0 && c.2 == 0),
        !(d.0 == 0 && d.1 == 0 && d.2 == 0),
    ensures
        0 <= root <= 0x4000_0000,
{
    let dot = c.0 * d.0 + c.1 * d.1 + c.2 * d.2;
    let lc = c.0 * c.0 + c.1 * c.1 + c.2 * c.2;
    let ld = d.0 * d.0 + d.1 * d.1 + d.2 * d.2;
    assert(dot * dot <= lc * ld) by (nonlinear_arith)
        requires
            -1 <= c.0 <= 1 && -1 <= c.1 <= 1 && -1 <= c.2 <= 1,
            -1 <= d.0 <= 1 && -1 <= d.1 <= 1 && -1 <= d.2 <= 1,
            dot == c.0 * d.0 + c.1 * d.1 + c.2 * d.2,
            lc == c.0 * c.0 + c.1 * c.1 + c.2 * c.2,
            ld == d.0 * d.0 + d.1 * d.1 + d.2 * d.2,
    ;
    assert(lc * ld >= 1) by (nonlinear_arith)
        requires
            -1 <= c.0 <= 1 && -1 <= c.1 <= 1 && -1 <= c.2 <= 1,
            -1 <= d.0 <= 1 && -1 <= d.1 <= 1 && -1 <= d.2 <= 1,
            !(c.0 == 0 && c.1 == 0 && c.2 == 0),
            !(d.0 == 0 && d.1 == 0 && d.2 == 0),
            lc == c.0 * c.0 + c.1 * c.1 + c.2 * c.2,
            ld == d.0 * d.0 + d.1 * d.1 + d.2 * d.2,
    ;
    assert(dot * dot >= 0) by (nonlinear_arith);
    let v = (dot * dot * 0x1000_0000_0000_0000) / (lc * ld);
    assert(v <= 0x1000_0000_0000_0000) by (nonlinear_arith)
        requires
            v == (dot * dot * 0x1000_0000_0000_0000) / (lc * ld),
            0 <= dot * dot <= lc * ld,
            lc * ld >= 1,
    ;
    assert(root >= 0 || root <= -1);
    if root > 0x4000_0000 {
        assert(root * root > 0x1000_0000_0000_0000) by (nonlinear_arith)
            requires
                root > 0x4000_0000,
        ;
    }
    if root < 0 {
        assert((root + 1) * (root + 1) <= root * root) by (nonlinear_arith)
            requires
                root <= -1,
        ;
    }
}

/// The move of `cands` best aligned with direction `d`: the largest fixed-point cosine
/// plus a random tie-break of up to one tenth (first one kept on equal keys).
pub fn best_aligned(cands: &Vec<(i32, i32, i32)>, d: (i32, i32, i32), random: &mut DotNetRandom) -> (r: (i32, i32, i32))
    requires
        old(random).wf(),
        cands@.len() > 0,
        -1 <= d.0 <= 1 && -1 <= d.1 <= 1 && -1 <= d.2 <= 1,
        !(d.0 == 0 && d.1 == 0 && d.2 == 0),
        forall|q: int| 0 <= q < cands@.len() ==> {
            let c = #[trigger] cands@[q];
            &&& -1 <= c.0 <= 1 && -1 <= c.1 <= 1 && -1 <= c.2 <= 1
            &&& !(c.0 == 0 && c.1 == 0 && c.2 == 0)
        },
    ensures
        final(random).wf(),
        cands@.contains(r),
{
    let mut max_key: i64 = -4 * KEY_SCALE;
    let mut result = cands[0];
    let mut j: usize = 0;
    while j < cands.len()
        invariant
            random.wf(),
            j <= cands@.len(),
            cands@.contains(result),
            -1 <= d.0 <= 1 && -1 <= d.1 <= 1 && -1 <= d.2 <= 1,
            !(d.0 == 0 && d.1 == 0 && d.2 == 0),
            forall|q: int| 0 <= q < cands@.len() ==> {
                let c = #[trigger] cands@[q];
                &&& -1 <= c.0 <= 1 && -1 <= c.1 <= 1 && -1 <= c.2 <= 1
                &&& !(c.0 == 0 && c.1 == 0 && c.2 == 0)
            },
        decreases cands@.len() - j,
    {
        let c = cands[j];
        let s = random.next_sample();
        let noise: i64 = if s >= 0 {
            ((s as u64) * 0x4000_0000u64 / 0x4_ffff_fff6u64) as i64
        } else {
            0
        };
        assert(noise <= 0x4000_0000) by (nonlinear_arith)
            requires
                s >= 0 ==> noise == ((s as int) * 0x4000_0000) / 0x4_ffff_fff6,
                s < 0 ==> noise == 0,
                s <= 0x7fff_ffff,
        ;
        let cos = cos_key(c, d);
        proof {
            let root = choose|root: int| spec_cos_key(c, d, root) && cos == (if c.0 * d.0 + c.1 * d.1 + c.2 * d.2 >= 0 { root } else { -root });
            lemma_cos_key_bound(c, d, root);
        }
        let key = cos + noise;
        if key > max_key {
            max_key = key;
            result = c;
        }
        j = j + 1;
    }
    result
}

/// Draws a path from a start cell to a finish cell through substrate cells.
#[derive(Debug, Clone, Copy)]
pub struct PathNode {
    /// Wave of the start values.
    pub start: u32,
    /// Wave of the finish values.
    pub finish: u32,
    /// Wave of the values the path may cross.
    pub substrate: u32,
    /// Value written along the path.
    pub value: u8,
    /// Prefer keeping the direction.
    pub inertia: bool,
    /// Start from the farthest start cell instead of the nearest.
    pub longest: bool,
    /// Allow edge-diagonal moves.
    pub edges: bool,
    /// Allow corner-diagonal moves (3D).
    pub vertices: bool,
}

/// The breadth-first search state: every queued entry is an in-grid cell whose generation
/// is recorded with it and bounded by its position; the queue is no longer than the
/// number of reached cells; generations are -1 (unreached) or more.
pub open spec fn frontier_ok(q: Seq<(i32, i32, i32, i32)>, gens: Seq<i32>, mx: int, my: int, mz: int) -> bool {
    &&& forall|k: int| 0 <= k < q.len() ==> {
        let e = #[trigger] q[k];
        &&& 0 <= e.1 < mx && 0 <= e.2 < my && 0 <= e.3 < mz
        &&& gens[idx3(e.1 as int, e.2 as int, e.3 as int, mx, my)] == e.0
        &&& 0 <= e.0 <= k
    }
    &&& q.len() <= reached_count(gens, gens.len() as int)
    &&& forall|i: int| 0 <= i < gens.len() ==> #[trigger] gens[i] >= -1
}

/// Whether value `v` is in wave `w`.
pub open spec fn in_wave(w: u32, v: u8) -> bool {
    w & (1u32 << v) != 0
}

/// The flat index of the cell that move `d` leads to from (x, y, z).
pub open spec fn moved(x: int, y: int, z: int, d: (i32, i32, i32), mx: int, my: int) -> int {
    idx3(x + d.0, y + d.1, z + d.2, mx, my)
}

/// The moves a path may take from cell `j` (see `spec_directions`).
#[verifier::opaque]
pub open spec fn cell_dirs(j: int, mx: int, my: int, mz: int, edges: bool, vertices: bool) -> Seq<(i32, i32, i32)> {
    spec_directions(j % mx, (j / mx) % my, j / (mx * my), mx, my, mz, edges, vertices)
}

/// The flat index of the cell that move `d` leads to from cell `j`.
pub open spec fn cell_move(j: int, d: (i32, i32, i32), mx: int, my: int) -> int {
    moved(j % mx, (j / mx) % my, j / (mx * my), d, mx, my)
}

/// Whether one move of a path leads from cell `j` to cell `i`.
pub open spec fn path_nbr(j: int, i: int, mx: int, my: int, mz: int, edges: bool, vertices: bool) -> bool {
    let ds = cell_dirs(j, mx, my, mz, edges, vertices);
    exists|m: int| 0 <= m < ds.len() && cell_move(j, #[trigger] ds[m], mx, my) == i
}

/// Whether a path may go on from a cell holding `v`: a finish or substrate cell.
pub open spec fn path_passes(n: PathNode, v: u8) -> bool {
    in_wave(n.finish, v) || in_wave(n.substrate, v)
}

/// Whether a path may enter a cell holding `v`: a substrate or start cell.
pub open spec fn path_enters(n: PathNode, v: u8) -> bool {
    in_wave(n.substrate, v) || in_wave(n.start, v)
}

/// Whether `p` is a walk of a path search: it starts on a finish cell, and each move
/// goes from a finish or substrate cell into a substrate or start cell.
pub open spec fn path_walk(n: PathNode, state: Seq<u8>, mx: int, my: int, mz: int, p: Seq<int>) -> bool {
    &&& p.len() >= 1
    &&& forall|t: int| 0 <= t < p.len() ==> 0 <= #[trigger] p[t] < state.len()
    &&& in_wave(n.finish, state[p[0]])
    &&& forall|t: int|
        0 <= t < p.len() - 1 ==> path_passes(n, state[#[trigger] p[t]]) && path_enters(n, state[p[t + 1]])
            && path_nbr(p[t], p[t + 1], mx, my, mz, n.edges, n.vertices)
}

/// Whether some start cell that is not a finish cell ends a walk from a finish cell.
pub open spec fn path_exists(n: PathNode, state: Seq<u8>, mx: int, my: int, mz: int) -> bool {
    exists|p: Seq<int>|
        #[trigger] path_walk(n, state, mx, my, mz, p) && in_wave(n.start, state[p.last()]) && !in_wave(
            n.finish,
            state[p.last()],
        )
}

/// Every move out of cell `j`, among its first `upto`, that enters a cell the path may
/// enter, leads to a reached cell.
pub open spec fn moves_done(n: PathNode, state: Seq<u8>, gens: Seq<i32>, j: int, mx: int, my: int, mz: int, upto: int) -> bool {
    let ds = cell_dirs(j, mx, my, mz, n.edges, n.vertices);
    forall|m: int|
        0 <= m < upto && m < ds.len() && 0 <= cell_move(j, #[trigger] ds[m], mx, my) < state.len() && path_enters(
            n,
            state[cell_move(j, ds[m], mx, my)],
        ) ==> gens[cell_move(
            j,
            ds[m],
            mx,
            my,
        )] >= 0
}

/// The coordinates of an in-grid cell are those of its flat index.
proof fn lemma_coords_of(x: int, y: int, z: int, mx: int, my: int, mz: int)
    requires
        0 <= x < mx,
        0 <= y < my,
        0 <= z < mz,
    ensures
        ({
            let i = idx3(x, y, z, mx, my);
            i % mx == x && (i / mx) % my == y && i / (mx * my) == z
        }),
{
    let i = idx3(x, y, z, mx, my);
    lemma_idx3_bound(x, y, z, mx, my, mz);
    lemma_idx3_inverse(i, mx, my);
    crate::geom::lemma_idx3_injective(x, y, z, i % mx, (i / mx) % my, i / (mx * my), mx, my);
}

/// The moves out of an in-grid cell, by its flat index.
proof fn lemma_cell_dirs(x: int, y: int, z: int, mx: int, my: int, mz: int, edges: bool, vertices: bool)
    requires
        0 <= x < mx,
        0 <= y < my,
        0 <= z < mz,
    ensures
        ({
            let i = idx3(x, y, z, mx, my);
            &&& i % mx == x && (i / mx) % my == y && i / (mx * my) == z
            &&& cell_dirs(i, mx, my, mz, edges, vertices) == spec_directions(x, y, z, mx, my, mz, edges, vertices)
        }),
{
    reveal(cell_dirs);
    lemma_coords_of(x, y, z, mx, my, mz);
}

/// Once every reached cell that a path passes through has all its moves done, the end
/// of every walk has a generation.
proof fn lemma_walk_complete(n: PathNode, state: Seq<u8>, gens: Seq<i32>, mx: int, my: int, mz: int, p: Seq<int>)
    requires
        gens.len() == state.len(),
        forall|j: int| 0 <= j < state.len() && in_wave(n.finish, #[trigger] state[j]) ==> gens[j] == 0,
        forall|j: int|
            0 <= j < state.len() && #[trigger] gens[j] >= 0 && path_passes(n, state[j]) ==> moves_done(
                n,
                state,
                gens,
                j,
                mx,
                my,
                mz,
                cell_dirs(j, mx, my, mz, n.edges, n.vertices).len() as int,
            ),
        path_walk(n, state, mx, my, mz, p),
    ensures
        gens[p.last()] >= 0,
    decreases p.len(),
{
    if p.len() == 1 {
        assert(p.last() == p[0]);
    } else {
        let q = p.drop_last();
        assert(path_walk(n, state, mx, my, mz, q)) by {
            assert forall|t: int| 0 <= t < q.len() - 1 implies path_passes(n, state[#[trigger] q[t]]) && path_enters(
                n,
                state[q[t + 1]],
            ) && path_nbr(q[t], q[t + 1], mx, my, mz, n.edges, n.vertices) by {
                assert(q[t] == p[t] && q[t + 1] == p[t + 1]);
            }
        }
        lemma_walk_complete(n, state, gens, mx, my, mz, q);
        let j = q.last();
        let t = p.len() - 2;
        assert(j == p[t]);
        assert(path_passes(n, state[p[t]]) && path_enters(n, state[p[t + 1]]) && path_nbr(p[t], p[t + 1], mx, my, mz, n.edges, n.vertices));
        assert(p[t + 1] == p.last());
        let ds = cell_dirs(j, mx, my, mz, n.edges, n.vertices);
        let m = choose|m: int| 0 <= m < ds.len() && cell_move(j, #[trigger] ds[m], mx, my) == p.last();
        assert(moves_done(n, state, gens, j, mx, my, mz, ds.len() as int));
        assert(path_enters(n, state[cell_move(j, ds[m], mx, my)]));
    }
}

/// What drawing a path wrote: finish cells keep their values, every cell logged since
/// `log0` holds the path value, and every cell that changed is logged.
pub open spec fn painted(n: PathNode, before: Seq<u8>, after: Seq<u8>, log0: Seq<usize>, log1: Seq<usize>) -> bool {
    &&& forall|i: int| 0 <= i < before.len() && in_wave(n.finish, before[i]) ==> #[trigger] after[i] == before[i]
    &&& forall|t: int| log0.len() <= t < log1.len() ==> (#[trigger] log1[t] as int) < after.len() && after[log1[t] as int] == n.value
    &&& forall|i: int| 0 <= i < before.len() && #[trigger] after[i] != before[i] ==> exists|t: int|
        log0.len() <= t < log1.len() && #[trigger] log1[t] == i
}

/// Writing the path value at a cell that is not a finish cell, and logging it, keeps
/// what `painted` states.
proof fn lemma_painted_write(
    n: PathNode,
    st: Seq<u8>,
    s0: Seq<u8>,
    s1: Seq<u8>,
    log0: Seq<usize>,
    l0: Seq<usize>,
    l1: Seq<usize>,
    i: usize,
)
    requires
        painted(n, st, s0, log0, l0),
        s0.len() == st.len(),
        0 <= i < st.len(),
        !in_wave(n.finish, st[i as int]),
        s1 == s0.update(i as int, n.value),
        l1 == l0.push(i),
        l0.len() >= log0.len(),
    ensures
        painted(n, st, s1, log0, l1),
{
    assert forall|t: int| log0.len() <= t < l1.len() implies (#[trigger] l1[t] as int) < s1.len() && s1[l1[t] as int] == n.value by {
        if t < l0.len() {
            assert(l1[t] == l0[t]);
        }
    }
    assert forall|j: int| 0 <= j < st.len() && #[trigger] s1[j] != st[j] implies exists|t: int|
        log0.len() <= t < l1.len() && #[trigger] l1[t] == j by {
        if j == i as int {
            assert(l1[l0.len() as int] == i);
        } else {
            let t = choose|t: int| log0.len() <= t < l0.len() && #[trigger] l0[t] == j;
            assert(l1[t] == l0[t]);
        }
    }
}


/// Whether move `d` may be taken from (x, y, z): it stays in the grid and is a face move,
/// or an edge diagonal with `edges`, or (in 3D) a corner diagonal with `vertices`; in 2D
/// it stays on the layer.
pub open spec fn dir_cond(d: (i32, i32, i32), x: int, y: int, z: int, mx: int, my: int, mz: int, edges: bool, vertices: bool) -> bool {
    let nz = (if d.0 != 0 { 1int } else { 0int }) + (if d.1 != 0 { 1int } else { 0int }) + (if d.2 != 0 { 1int } else { 0int });
    &&& -1 <= d.0 <= 1 && -1 <= d.1 <= 1 && -1 <= d.2 <= 1
    &&& 0 <= x + d.0 < mx && 0 <= y + d.1 < my && 0 <= z + d.2 < mz
    &&& if mz == 1 {
        d.2 == 0 && (nz == 1 || (nz == 2 && edges))
    } else {
        nz == 1 || (nz == 2 && edges) || (nz == 3 && vertices)
    }
}

/// The move back.
pub open spec fn neg_dir(d: (i32, i32, i32)) -> (i32, i32, i32) {
    ((-d.0) as i32, (-d.1) as i32, (-d.2) as i32)
}

/// Pushing an element adds exactly it to what a sequence contains.
proof fn lemma_push_dir_contains(s: Seq<(i32, i32, i32)>, c: bool, d: (i32, i32, i32), e: (i32, i32, i32))
    ensures
        push_dir(s, c, d).contains(e) == (s.contains(e) || (c && e == d)),
{
    if c {
        let t = s.push(d);
        if s.contains(e) {
            let k = choose|k: int| 0 <= k < s.len() && s[k] == e;
            assert(t[k] == e);
        }
        if e == d {
            assert(t[s.len() as int] == e);
        }
        if t.contains(e) {
            let k = choose|k: int| 0 <= k < t.len() && t[k] == e;
            if k < s.len() {
                assert(s[k] == e);
            }
        }
    }
}

/// A move is listed exactly when it may be taken.
#[verifier::rlimit(80)]
pub proof fn lemma_directions_contain(x: int, y: int, z: int, mx: int, my: int, mz: int, edges: bool, vertices: bool, d: (i32, i32, i32))
    requires
        0 <= x < mx,
        0 <= y < my,
        0 <= z < mz,
    ensures
        spec_directions(x, y, z, mx, my, mz, edges, vertices).contains(d) == dir_cond(d, x, y, z, mx, my, mz, edges, vertices),
{
    if mz == 1 {
        let t0 = push_dir(Seq::empty(), x > 0, (-1i32, 0i32, 0i32));
        let t1 = push_dir(t0, x < mx - 1, (1i32, 0i32, 0i32));
        let t2 = push_dir(t1, y > 0, (0i32, -1i32, 0i32));
        let t3 = push_dir(t2, y < my - 1, (0i32, 1i32, 0i32));
        let t4 = push_dir(t3, edges && (x > 0 && y > 0), (-1i32, -1i32, 0i32));
        let t5 = push_dir(t4, edges && (x > 0 && y < my - 1), (-1i32, 1i32, 0i32));
        let t6 = push_dir(t5, edges && (x < mx - 1 && y > 0), (1i32, -1i32, 0i32));
        let t7 = push_dir(t6, edges && (x < mx - 1 && y < my - 1), (1i32, 1i32, 0i32));
        lemma_push_dir_contains(Seq::empty(), x > 0, (-1i32, 0i32, 0i32), d);
        lemma_push_dir_contains(t0, x < mx - 1, (1i32, 0i32, 0i32), d);
        lemma_push_dir_contains(t1, y > 0, (0i32, -1i32, 0i32), d);
        lemma_push_dir_contains(t2, y < my - 1, (0i32, 1i32, 0i32), d);
        lemma_push_dir_contains(t3, edges && (x > 0 && y > 0), (-1i32, -1i32, 0i32), d);
        lemma_push_dir_contains(t4, edges && (x > 0 && y < my - 1), (-1i32, 1i32, 0i32), d);
        lemma_push_dir_contains(t5, edges && (x < mx - 1 && y > 0), (1i32, -1i32, 0i32), d);
        lemma_push_dir_contains(t6, edges && (x < mx - 1 && y < my - 1), (1i32, 1i32, 0i32), d);
        assert(!Seq::<(i32, i32, i32)>::empty().contains(d));
        assert(spec_directions(x, y, z, mx, my, mz, edges, vertices) == t7);
    } else {
        lemma_directions_contain_3d(x, y, z, mx, my, mz, edges, vertices, d);
    }
}

/// A move is listed exactly when it may be taken (3D).
#[verifier::rlimit(100)]
proof fn lemma_directions_contain_3d(x: int, y: int, z: int, mx: int, my: int, mz: int, edges: bool, vertices: bool, d: (i32, i32, i32))
    requires
        0 <= x < mx,
        0 <= y < my,
        0 <= z < mz,
        mz != 1,
    ensures
        spec_directions(x, y, z, mx, my, mz, edges, vertices).contains(d) == dir_cond(d, x, y, z, mx, my, mz, edges, vertices),
{
    let t0 = push_dir(Seq::empty(), x > 0, (-1i32, 0i32, 0i32));
    lemma_push_dir_contains(Seq::empty(), x > 0, (-1i32, 0i32, 0i32), d);
    let t1 = push_dir(t0, x < mx - 1, (1i32, 0i32, 0i32));
    lemma_push_dir_contains(t0, x < mx - 1, (1i32, 0i32, 0i32), d);
    let t2 = push_dir(t1, y > 0, (0i32, -1i32, 0i32));
    lemma_push_dir_contains(t1, y > 0, (0i32, -1i32, 0i32), d);
    let t3 = push_dir(t2, y < my - 1, (0i32, 1i32, 0i32));
    lemma_push_dir_contains(t2, y < my - 1, (0i32, 1i32, 0i32), d);
    let t4 = push_dir(t3, z > 0, (0i32, 0i32, -1i32));
    lemma_push_dir_contains(t3, z > 0, (0i32, 0i32, -1i32), d);
    let t5 = push_dir(t4, z < mz - 1, (0i32, 0i32, 1i32));
    lemma_push_dir_contains(t4, z < mz - 1, (0i32, 0i32, 1i32), d);
    let t6 = push_dir(t5, edges && (x > 0 && y > 0), (-1i32, -1i32, 0i32));
    lemma_push_dir_contains(t5, edges && (x > 0 && y > 0), (-1i32, -1i32, 0i32), d);
    let t7 = push_dir(t6, edges && (x > 0 && y < my - 1), (-1i32, 1i32, 0i32));
    lemma_push_dir_contains(t6, edges && (x > 0 && y < my - 1), (-1i32, 1i32, 0i32), d);
    let t8 = push_dir(t7, edges && (x < mx - 1 && y > 0), (1i32, -1i32, 0i32));
    lemma_push_dir_contains(t7, edges && (x < mx - 1 && y > 0), (1i32, -1i32, 0i32), d);
    let t9 = push_dir(t8, edges && (x < mx - 1 && y < my - 1), (1i32, 1i32, 0i32));
    lemma_push_dir_contains(t8, edges && (x < mx - 1 && y < my - 1), (1i32, 1i32, 0i32), d);
    let t10 = push_dir(t9, edges && (x > 0 && z > 0), (-1i32, 0i32, -1i32));
    lemma_push_dir_contains(t9, edges && (x > 0 && z > 0), (-1i32, 0i32, -1i32), d);
    let t11 = push_dir(t10, edges && (x > 0 && z < mz - 1), (-1i32, 0i32, 1i32));
    lemma_push_dir_contains(t10, edges && (x > 0 && z < mz - 1), (-1i32, 0i32, 1i32), d);
    let t12 = push_dir(t11, edges && (x < mx - 1 && z > 0), (1i32, 0i32, -1i32));
    lemma_push_dir_contains(t11, edges && (x < mx - 1 && z > 0), (1i32, 0i32, -1i32), d);
    let t13 = push_dir(t12, edges && (x < mx - 1 && z < mz - 1), (1i32, 0i32, 1i32));
    lemma_push_dir_contains(t12, edges && (x < mx - 1 && z < mz - 1), (1i32, 0i32, 1i32), d);
    let t14 = push_dir(t13, edges && (y > 0 && z > 0), (0i32, -1i32, -1i32));
    lemma_push_dir_contains(t13, edges && (y > 0 && z > 0), (0i32, -1i32, -1i32), d);
    let t15 = push_dir(t14, edges && (y > 0 && z < mz - 1), (0i32, -1i32, 1i32));
    lemma_push_dir_contains(t14, edges && (y > 0 && z < mz - 1), (0i32, -1i32, 1i32), d);
    let t16 = push_dir(t15, edges && (y < my - 1 && z > 0), (0i32, 1i32, -1i32));
    lemma_push_dir_contains(t15, edges && (y < my - 1 && z > 0), (0i32, 1i32, -1i32), d);
    let t17 = push_dir(t16, edges && (y < my - 1 && z < mz - 1), (0i32, 1i32, 1i32));
    lemma_push_dir_contains(t16, edges && (y < my - 1 && z < mz - 1), (0i32, 1i32, 1i32), d);
    let t18 = push_dir(t17, vertices && (x > 0 && y > 0 && z > 0), (-1i32, -1i32, -1i32));
    lemma_push_dir_contains(t17, vertices && (x > 0 && y > 0 && z > 0), (-1i32, -1i32, -1i32), d);
    let t19 = push_dir(t18, vertices && (x > 0 && y > 0 && z < mz - 1), (-1i32, -1i32, 1i32));
    lemma_push_dir_contains(t18, vertices && (x > 0 && y > 0 && z < mz - 1), (-1i32, -1i32, 1i32), d);
    let t20 = push_dir(t19, vertices && (x > 0 && y < my - 1 && z > 0), (-1i32, 1i32, -1i32));
    lemma_push_dir_contains(t19, vertices && (x > 0 && y < my - 1 && z > 0), (-1i32, 1i32, -1i32), d);
    let t21 = push_dir(t20, vertices && (x > 0 && y < my - 1 && z < mz - 1), (-1i32, 1i32, 1i32));
    lemma_push_dir_contains(t20, vertices && (x > 0 && y < my - 1 && z < mz - 1), (-1i32, 1i32, 1i32), d);
    let t22 = push_dir(t21, vertices && (x < mx - 1 && y > 0 && z > 0), (1i32, -1i32, -1i32));
    lemma_push_dir_contains(t21, vertices && (x < mx - 1 && y > 0 && z > 0), (1i32, -1i32, -1i32), d);
    let t23 = push_dir(t22, vertices && (x < mx - 1 && y > 0 && z < mz - 1), (1i32, -1i32, 1i32));
    lemma_push_dir_contains(t22, vertices && (x < mx - 1 && y > 0 && z < mz - 1), (1i32, -1i32, 1i32), d);
    let t24 = push_dir(t23, vertices && (x < mx - 1 && y < my - 1 && z > 0), (1i32, 1i32, -1i32));
    lemma_push_dir_contains(t23, vertices && (x < mx - 1 && y < my - 1 && z > 0), (1i32, 1i32, -1i32), d);
    let t25 = push_dir(t24, vertices && (x < mx - 1 && y < my - 1 && z < mz - 1), (1i32, 1i32, 1i32));
    lemma_push_dir_contains(t24, vertices && (x < mx - 1 && y < my - 1 && z < mz - 1), (1i32, 1i32, 1i32), d);
    assert(!Seq::<(i32, i32, i32)>::empty().contains(d));
    assert(spec_directions(x, y, z, mx, my, mz, edges, vertices) == t25);
}

/// The face moves are those listed without diagonals.
proof fn lemma_cardinals_contain(x: int, y: int, z: int, mx: int, my: int, mz: int, d: (i32, i32, i32))
    requires
        0 <= x < mx,
        0 <= y < my,
        0 <= z < mz,
    ensures
        spec_cardinals(x, y, z, mx, my, mz).contains(d) == dir_cond(d, x, y, z, mx, my, mz, false, false),
{
    let c0 = push_dir(Seq::empty(), x > 0, (-1i32, 0i32, 0i32));
    lemma_push_dir_contains(Seq::empty(), x > 0, (-1i32, 0i32, 0i32), d);
    let c1 = push_dir(c0, x < mx - 1, (1i32, 0i32, 0i32));
    lemma_push_dir_contains(c0, x < mx - 1, (1i32, 0i32, 0i32), d);
    let c2 = push_dir(c1, y > 0, (0i32, -1i32, 0i32));
    lemma_push_dir_contains(c1, y > 0, (0i32, -1i32, 0i32), d);
    let c3 = push_dir(c2, y < my - 1, (0i32, 1i32, 0i32));
    lemma_push_dir_contains(c2, y < my - 1, (0i32, 1i32, 0i32), d);
    let c4 = push_dir(c3, z > 0, (0i32, 0i32, -1i32));
    lemma_push_dir_contains(c3, z > 0, (0i32, 0i32, -1i32), d);
    let c5 = push_dir(c4, z < mz - 1, (0i32, 0i32, 1i32));
    lemma_push_dir_contains(c4, z < mz - 1, (0i32, 0i32, 1i32), d);
    assert(!Seq::<(i32, i32, i32)>::empty().contains(d));
    assert(spec_cardinals(x, y, z, mx, my, mz) == c5);
}

/// A move that is listed and descends one generation makes the list of descending moves
/// non-empty.
proof fn lemma_step_listed(
    dirs: Seq<(i32, i32, i32)>,
    gens: Seq<i32>,
    x: int,
    y: int,
    z: int,
    mx: int,
    my: int,
    mz: int,
    g: int,
    d: (i32, i32, i32),
)
    requires
        dirs.contains(d),
        is_step(gens, d, x, y, z, mx, my, mz, g),
    ensures
        steps_of(dirs, gens, x, y, z, mx, my, mz, g).len() > 0,
    decreases dirs.len(),
{
    if dirs.last() != d {
        let k = choose|k: int| 0 <= k < dirs.len() && dirs[k] == d;
        assert(k < dirs.len() - 1);
        assert(dirs.drop_last()[k] == d);
        lemma_step_listed(dirs.drop_last(), gens, x, y, z, mx, my, mz, g, d);
    }
}

/// Each move listed for a cell may be taken from it.
proof fn lemma_cell_dir_cond(p: int, mx: int, my: int, mz: int, edges: bool, vertices: bool, m: int)
    requires
        0 <= p < mx * my * mz,
        mx > 0 && my > 0,
        0 <= m < cell_dirs(p, mx, my, mz, edges, vertices).len(),
    ensures
        dir_cond(cell_dirs(p, mx, my, mz, edges, vertices)[m], p % mx, (p / mx) % my, p / (mx * my), mx, my, mz, edges, vertices),
        p == idx3(p % mx, (p / mx) % my, p / (mx * my), mx, my),
        0 <= p % mx < mx && 0 <= (p / mx) % my < my && 0 <= p / (mx * my) < mz,
{
    reveal(cell_dirs);
    lemma_idx3_inverse(p, mx, my);
    crate::grid::lemma_plane_div_bound(p, mx, my, mz);
    let ds = cell_dirs(p, mx, my, mz, edges, vertices);
    assert(ds.contains(ds[m]));
    lemma_directions_contain(p % mx, (p / mx) % my, p / (mx * my), mx, my, mz, edges, vertices, ds[m]);
}

/// A cell with a positive generation has a move it may take to a cell of the generation
/// before.
proof fn lemma_descent_move(n: PathNode, st: Seq<u8>, gens: Seq<i32>, mx: int, my: int, mz: int, x: int, y: int, z: int) -> (b: (i32, i32, i32))
    requires
        gens.len() == st.len(),
        st.len() == mx * my * mz,
        parents_ok(n, st, gens, mx, my, mz),
        0 <= x < mx && 0 <= y < my && 0 <= z < mz,
        gens[idx3(x, y, z, mx, my)] > 0,
    ensures
        dir_cond(b, x, y, z, mx, my, mz, n.edges, n.vertices),
        is_step(gens, b, x, y, z, mx, my, mz, gens[idx3(x, y, z, mx, my)] as int),
{
    let j = idx3(x, y, z, mx, my);
    lemma_idx3_bound(x, y, z, mx, my, mz);
    let p = choose|p: int| 0 <= p < st.len() && gens[p] == gens[j] - 1 && #[trigger] path_nbr(p, j, mx, my, mz, n.edges, n.vertices);
    let ds = cell_dirs(p, mx, my, mz, n.edges, n.vertices);
    let m = choose|m: int| 0 <= m < ds.len() && cell_move(p, #[trigger] ds[m], mx, my) == j;
    lemma_cell_dir_cond(p, mx, my, mz, n.edges, n.vertices, m);
    let d = ds[m];
    let px = p % mx;
    let py = (p / mx) % my;
    let pz = p / (mx * my);
    crate::geom::lemma_idx3_injective(px + d.0, py + d.1, pz + d.2, x, y, z, mx, my);
    neg_dir(d)
}

/// A cell with a positive generation has a descending move among those the path may take.
proof fn lemma_descent(n: PathNode, st: Seq<u8>, gens: Seq<i32>, mx: int, my: int, mz: int, x: int, y: int, z: int)
    requires
        gens.len() == st.len(),
        st.len() == mx * my * mz,
        parents_ok(n, st, gens, mx, my, mz),
        0 <= x < mx && 0 <= y < my && 0 <= z < mz,
        gens[idx3(x, y, z, mx, my)] > 0,
    ensures
        ({
            let dirs = if !n.edges && !n.vertices {
                spec_cardinals(x, y, z, mx, my, mz)
            } else {
                spec_directions(x, y, z, mx, my, mz, n.edges, n.vertices)
            };
            steps_of(dirs, gens, x, y, z, mx, my, mz, gens[idx3(x, y, z, mx, my)] as int).len() > 0
        }),
{
    let g = gens[idx3(x, y, z, mx, my)] as int;
    let b = lemma_descent_move(n, st, gens, mx, my, mz, x, y, z);
    if !n.edges && !n.vertices {
        lemma_cardinals_contain(x, y, z, mx, my, mz, b);
        lemma_step_listed(spec_cardinals(x, y, z, mx, my, mz), gens, x, y, z, mx, my, mz, g, b);
    } else {
        lemma_directions_contain(x, y, z, mx, my, mz, n.edges, n.vertices, b);
        lemma_step_listed(spec_directions(x, y, z, mx, my, mz, n.edges, n.vertices), gens, x, y, z, mx, my, mz, g, b);
    }
}

/// Whether cells `a` and `b` are distinct and adjacent (by a face, an edge or a corner).
pub open spec fn near(a: int, b: int, mx: int, my: int) -> bool {
    let ax = a % mx;
    let ay = (a / mx) % my;
    let az = a / (mx * my);
    let bx = b % mx;
    let by = (b / mx) % my;
    let bz = b / (mx * my);
    &&& a != b
    &&& -1 <= bx - ax <= 1 && -1 <= by - ay <= 1 && -1 <= bz - az <= 1
}

/// Whether each cell of `w` after the first is adjacent to the one before and one
/// generation lower.
pub open spec fn descends(w: Seq<int>, gens: Seq<i32>, mx: int, my: int) -> bool {
    forall|t: int| 0 <= t < w.len() - 1 ==> gens[w[t + 1]] == gens[#[trigger] w[t]] - 1 && near(w[t], w[t + 1], mx, my)
}

/// Whether no cell is both a start and a finish cell.
pub open spec fn ends_apart(n: PathNode, state: Seq<u8>) -> bool {
    forall|i: int| 0 <= i < state.len() ==> !(in_wave(n.start, #[trigger] state[i]) && in_wave(n.finish, state[i]))
}

/// The cells of `w` strictly between its first and its last, as log entries.
pub open spec fn inner_cells(w: Seq<int>) -> Seq<usize> {
    Seq::new((w.len() - 2) as nat, |t: int| w[t + 1] as usize)
}

/// The state after writing `value` on the cells of `w` strictly between its ends.
pub open spec fn drawn_state(state: Seq<u8>, w: Seq<int>, value: u8) -> Seq<u8> {
    Seq::new(state.len(), |i: int| if w.subrange(1, w.len() - 1).contains(i) { value } else { state[i] })
}

/// A path drawn along `w` with search generations `gens`: the walk starts on a start cell,
/// goes down the generations one adjacent cell at a time to a cell of generation 0 (a
/// finish cell), and exactly the cells strictly between its ends are written with the path
/// value and logged, in order.
pub open spec fn drawn_along(
    n: PathNode,
    st: Seq<u8>,
    after: Seq<u8>,
    log0: Seq<usize>,
    log1: Seq<usize>,
    mx: int,
    my: int,
    mz: int,
    w: Seq<int>,
    gens: Seq<i32>,
) -> bool {
    &&& gens_ok(n, st, gens, mx, my, mz)
    &&& w.len() >= 2
    &&& forall|t: int| 0 <= t < w.len() ==> 0 <= #[trigger] w[t] < st.len()
    &&& in_wave(n.start, st[w[0]])
    &&& start_chosen(n, st, gens, w[0])
    &&& gens[w.last()] == 0
    &&& descends(w, gens, mx, my)
    &&& log1 == log0 + inner_cells(w)
    &&& after == drawn_state(st, w, n.value)
}

/// Writing the path value on the last cell of a walk and extending the walk by one cell
/// moves that cell to the inside of the walk.
proof fn lemma_drawn_push(st: Seq<u8>, w: Seq<int>, nxt: int, value: u8)
    requires
        w.len() >= 2,
        0 <= w.last() < st.len(),
    ensures
        drawn_state(st, w.push(nxt), value) == drawn_state(st, w, value).update(w.last(), value),
{
    let a = w.subrange(1, w.len() - 1);
    let b = w.push(nxt).subrange(1, w.len() as int);
    assert(b =~= a.push(w.last()));
    assert forall|i: int| 0 <= i < st.len() implies #[trigger] drawn_state(st, w.push(nxt), value)[i] == drawn_state(
        st,
        w,
        value,
    ).update(w.last(), value)[i] by {
        if i == w.last() {
            assert(b[b.len() - 1] == i);
            assert(b.contains(i));
        } else {
            if a.contains(i) {
                let k = choose|k: int| 0 <= k < a.len() && a[k] == i;
                assert(b[k] == i);
            }
            if b.contains(i) {
                let k = choose|k: int| 0 <= k < b.len() && b[k] == i;
                assert(k < a.len());
                assert(a[k] == i);
            }
        }
    }
    assert(drawn_state(st, w.push(nxt), value) =~= drawn_state(st, w, value).update(w.last(), value));
}

/// Whether the walk's first cell `s` is a start cell whose generation is the least among
/// start cells with a generation, or the greatest with `longest`.
pub open spec fn start_chosen(n: PathNode, st: Seq<u8>, gens: Seq<i32>, s: int) -> bool {
    forall|i: int|
        0 <= i < st.len() && in_wave(n.start, #[trigger] st[i]) && gens[i] >= 0 ==> if n.longest {
            gens[i] <= gens[s]
        } else {
            gens[s] <= gens[i]
        }
}

/// Whether a path was drawn (see `drawn_along`).
pub open spec fn path_drawn(n: PathNode, st: Seq<u8>, after: Seq<u8>, log0: Seq<usize>, log1: Seq<usize>, mx: int, my: int, mz: int) -> bool {
    exists|w: Seq<int>, gens: Seq<i32>| #[trigger] drawn_along(n, st, after, log0, log1, mx, my, mz, w, gens)
}

/// The flat index of a cell given by its coordinates.
pub open spec fn sidx(p: (i32, i32, i32), mx: int, my: int) -> int {
    idx3(p.0 as int, p.1 as int, p.2 as int, mx, my)
}

/// The flat index of a queue entry's cell.
pub open spec fn fidx(e: (i32, i32, i32, i32), mx: int, my: int) -> int {
    idx3(e.1 as int, e.2 as int, e.3 as int, mx, my)
}

/// Every cell with a generation ends a walk from a finish cell.
pub open spec fn walks_ok(n: PathNode, state: Seq<u8>, gens: Seq<i32>, mx: int, my: int, mz: int) -> bool {
    forall|j: int|
        0 <= j < state.len() && #[trigger] gens[j] >= 0 ==> exists|p: Seq<int>|
            #[trigger] path_walk(n, state, mx, my, mz, p) && p.last() == j
}

/// The queue holds only cells a path passes through, and every such cell with a
/// generation is queued.
pub open spec fn queue_ok(n: PathNode, state: Seq<u8>, gens: Seq<i32>, q: Seq<(i32, i32, i32, i32)>, mx: int, my: int) -> bool {
    &&& forall|k: int| 0 <= k < q.len() ==> path_passes(n, state[fidx(#[trigger] q[k], mx, my)])
    &&& forall|j: int|
        0 <= j < state.len() && #[trigger] gens[j] >= 0 && path_passes(n, state[j]) ==> exists|k: int|
            0 <= k < q.len() && fidx(#[trigger] q[k], mx, my) == j
}

/// Every cell with a positive generation is one move away from a cell of the generation
/// before.
pub open spec fn parents_ok(n: PathNode, state: Seq<u8>, gens: Seq<i32>, mx: int, my: int, mz: int) -> bool {
    forall|j: int|
        0 <= j < state.len() && #[trigger] gens[j] > 0 ==> exists|p: int|
            0 <= p < state.len() && gens[p] == gens[j] - 1 && #[trigger] path_nbr(p, j, mx, my, mz, n.edges, n.vertices)
}

/// Giving a cell the generation after that of a cell one move away keeps every positive
/// generation backed by a parent.
proof fn lemma_parent_extend(
    n: PathNode,
    state: Seq<u8>,
    g0: Seq<i32>,
    g1: Seq<i32>,
    mx: int,
    my: int,
    mz: int,
    cur: int,
    ni: int,
    k: int,
)
    requires
        parents_ok(n, state, g0, mx, my, mz),
        g0.len() == state.len() && g1.len() == state.len(),
        0 <= cur < state.len() && 0 <= ni < state.len(),
        g0[cur] >= 0,
        g0[ni] == -1,
        g1[ni] == g0[cur] + 1,
        0 <= k < cell_dirs(cur, mx, my, mz, n.edges, n.vertices).len(),
        cell_move(cur, cell_dirs(cur, mx, my, mz, n.edges, n.vertices)[k], mx, my) == ni,
        forall|j: int| 0 <= j < state.len() && j != ni ==> g1[j] == g0[j],
    ensures
        parents_ok(n, state, g1, mx, my, mz),
{
    assert(path_nbr(cur, ni, mx, my, mz, n.edges, n.vertices));
    assert forall|j: int| 0 <= j < state.len() && #[trigger] g1[j] > 0 implies exists|p: int|
        0 <= p < state.len() && g1[p] == g1[j] - 1 && #[trigger] path_nbr(p, j, mx, my, mz, n.edges, n.vertices) by {
        if j == ni {
            assert(g1[cur] == g1[j] - 1);
        } else {
            assert(g0[j] > 0);
            let p = choose|p: int|
                0 <= p < state.len() && g0[p] == g0[j] - 1 && #[trigger] path_nbr(p, j, mx, my, mz, n.edges, n.vertices);
            assert(p != ni);
            assert(g1[p] == g0[p]);
        }
    }
}

/// The generations after the search: 0 exactly on finish cells, a walk to every cell with
/// a generation, and every move out of such a cell that a path passes through done.
pub open spec fn gens_ok(n: PathNode, state: Seq<u8>, gens: Seq<i32>, mx: int, my: int, mz: int) -> bool {
    &&& gens.len() == state.len()
    &&& forall|j: int| 0 <= j < state.len() ==> (#[trigger] gens[j] == 0 <==> in_wave(n.finish, state[j]))
    &&& walks_ok(n, state, gens, mx, my, mz)
    &&& parents_ok(n, state, gens, mx, my, mz)
    &&& forall|j: int|
        0 <= j < state.len() && #[trigger] gens[j] >= 0 && path_passes(n, state[j]) ==> moves_done(
            n,
            state,
            gens,
            j,
            mx,
            my,
            mz,
            cell_dirs(j, mx, my, mz, n.edges, n.vertices).len() as int,
        )
}

/// Giving a generation to a cell entered by a move from a cell with a walk keeps every
/// generation backed by a walk.
proof fn lemma_walk_extend(
    n: PathNode,
    state: Seq<u8>,
    g0: Seq<i32>,
    g1: Seq<i32>,
    mx: int,
    my: int,
    mz: int,
    cur: int,
    ni: int,
    k: int,
)
    requires
        walks_ok(n, state, g0, mx, my, mz),
        g0.len() == state.len() && g1.len() == state.len(),
        0 <= cur < state.len() && 0 <= ni < state.len(),
        g0[cur] >= 0,
        path_passes(n, state[cur]),
        path_enters(n, state[ni]),
        0 <= k < cell_dirs(cur, mx, my, mz, n.edges, n.vertices).len(),
        cell_move(cur, cell_dirs(cur, mx, my, mz, n.edges, n.vertices)[k], mx, my) == ni,
        forall|j: int| 0 <= j < state.len() && j != ni ==> g1[j] == g0[j],
    ensures
        walks_ok(n, state, g1, mx, my, mz),
{
    let p = choose|p: Seq<int>| #[trigger] path_walk(n, state, mx, my, mz, p) && p.last() == cur;
    let w = p.push(ni);
    assert(path_nbr(cur, ni, mx, my, mz, n.edges, n.vertices));
    assert(path_walk(n, state, mx, my, mz, w)) by {
        assert forall|t: int| 0 <= t < w.len() - 1 implies path_passes(n, state[#[trigger] w[t]]) && path_enters(
            n,
            state[w[t + 1]],
        ) && path_nbr(w[t], w[t + 1], mx, my, mz, n.edges, n.vertices) by {
            if t < p.len() - 1 {
                assert(w[t] == p[t] && w[t + 1] == p[t + 1]);
            } else {
                assert(w[t] == cur && w[t + 1] == ni);
            }
        }
        assert forall|t: int| 0 <= t < w.len() implies 0 <= #[trigger] w[t] < state.len() by {
            if t < p.len() {
                assert(w[t] == p[t]);
            }
        }
    }
    assert forall|j: int| 0 <= j < state.len() && #[trigger] g1[j] >= 0 implies exists|q: Seq<int>|
        #[trigger] path_walk(n, state, mx, my, mz, q) && q.last() == j by {
        if j != ni {
            assert(g0[j] >= 0);
        } else {
            assert(w.last() == j);
        }
    }
}

/// Giving a generation to a cell that had none, and queueing it when a path passes
/// through it, keeps the queue complete.
proof fn lemma_queue_extend(
    n: PathNode,
    state: Seq<u8>,
    g0: Seq<i32>,
    g1: Seq<i32>,
    q0: Seq<(i32, i32, i32, i32)>,
    q1: Seq<(i32, i32, i32, i32)>,
    mx: int,
    my: int,
    ni: int,
)
    requires
        queue_ok(n, state, g0, q0, mx, my),
        g0.len() == state.len() && g1.len() == state.len(),
        0 <= ni < state.len(),
        g0[ni] == -1,
        !in_wave(n.finish, state[ni]),
        forall|j: int| 0 <= j < state.len() && j != ni ==> g1[j] == g0[j],
        q1.len() >= q0.len(),
        forall|k: int| 0 <= k < q0.len() ==> q1[k] == q0[k],
        (q1.len() == q0.len() && !in_wave(n.substrate, state[ni])) || (q1.len() == q0.len() + 1 && fidx(
            q1[q0.len() as int],
            mx,
            my,
        ) == ni && in_wave(n.substrate, state[ni])),
    ensures
        queue_ok(n, state, g1, q1, mx, my),
{
    assert forall|k: int| 0 <= k < q1.len() implies path_passes(n, state[fidx(#[trigger] q1[k], mx, my)]) by {
        if k < q0.len() {
            assert(q1[k] == q0[k]);
        }
    }
    assert forall|j: int| 0 <= j < state.len() && #[trigger] g1[j] >= 0 && path_passes(n, state[j]) implies exists|k: int|
        0 <= k < q1.len() && fidx(#[trigger] q1[k], mx, my) == j by {
        if j != ni {
            assert(g0[j] >= 0);
            let k = choose|k: int| 0 <= k < q0.len() && fidx(#[trigger] q0[k], mx, my) == j;
            assert(q1[k] == q0[k]);
        } else {
            assert(fidx(q1[q0.len() as int], mx, my) == j);
        }
    }
}

/// Moves done stay done when generations are only given, never taken.
proof fn lemma_moves_grow(n: PathNode, state: Seq<u8>, g0: Seq<i32>, g1: Seq<i32>, j: int, mx: int, my: int, mz: int, upto: int)
    requires
        moves_done(n, state, g0, j, mx, my, mz, upto),
        g0.len() == state.len() && g1.len() == state.len(),
        forall|t: int| 0 <= t < state.len() && #[trigger] g0[t] >= 0 ==> g1[t] >= 0,
    ensures
        moves_done(n, state, g1, j, mx, my, mz, upto),
{
    let ds = cell_dirs(j, mx, my, mz, n.edges, n.vertices);
    assert forall|m: int|
        0 <= m < upto && m < ds.len() && 0 <= cell_move(j, #[trigger] ds[m], mx, my) < state.len() && path_enters(
            n,
            state[cell_move(j, ds[m], mx, my)],
        ) implies g1[cell_move(j, ds[m], mx, my)] >= 0 by {
        assert(g0[cell_move(j, ds[m], mx, my)] >= 0);
    }
}

/// The search state after `head` queue entries: the queue is consistent, generations are
/// 0 exactly on finish cells, every reached cell ends a walk, the queue holds every reached
/// cell a path passes through, and the moves out of the first `head` entries are done.
pub open spec fn search_ok(
    n: PathNode,
    st: Seq<u8>,
    gens: Seq<i32>,
    q: Seq<(i32, i32, i32, i32)>,
    mx: int,
    my: int,
    mz: int,
    head: int,
) -> bool {
    &&& gens.len() == st.len()
    &&& frontier_ok(q, gens, mx, my, mz)
    &&& forall|j: int| 0 <= j < st.len() ==> #[trigger] gens[j] < st.len()
    &&& 0 <= head <= q.len()
    &&& forall|j: int| 0 <= j < st.len() ==> (#[trigger] gens[j] == 0 <==> in_wave(n.finish, st[j]))
    &&& walks_ok(n, st, gens, mx, my, mz)
    &&& parents_ok(n, st, gens, mx, my, mz)
    &&& queue_ok(n, st, gens, q, mx, my)
    &&& forall|k: int| 0 <= k < head ==> {
        let j = fidx(#[trigger] q[k], mx, my);
        moves_done(n, st, gens, j, mx, my, mz, cell_dirs(j, mx, my, mz, n.edges, n.vertices).len() as int)
    }
}

impl PathNode {
    /// A path node; no inertia, shortest path, face moves only.
    pub fn new(start: u32, finish: u32, substrate: u32, value: u8) -> (node: Self)
        ensures
            node.start == start && node.finish == finish && node.substrate == substrate && node.value == value,
            !node.inertia && !node.longest && !node.edges && !node.vertices,
    {
        PathNode { start, finish, substrate, value, inertia: false, longest: false, edges: false, vertices: false }
    }

    /// Internal consistency: the written value is a grid value.
    pub open spec fn wf(&self) -> bool {
        self.value < 32
    }

    /// The search's first queue: every finish cell with generation 0, every other cell
    /// unreached; the start cells are listed in `starts`.
    #[verifier::loop_isolation(false)]
    fn seed_search(&self, ctx: &ExecutionContext, starts: &mut Vec<(i32, i32, i32)>) -> (res: (Vec<i32>, Vec<(i32, i32, i32, i32)>))
        requires
            ctx.wf(),
            old(starts)@.len() == 0,
        ensures
            ({
                let (gens, frontier) = res;
                let st = ctx.grid.state@;
                let (mx, my, mz) = (ctx.grid.mx as int, ctx.grid.my as int, ctx.grid.mz as int);
                &&& gens@.len() == st.len()
                &&& frontier_ok(frontier@, gens@, mx, my, mz)
                &&& forall|j: int| 0 <= j < st.len() ==> #[trigger] gens@[j] < st.len()
                &&& forall|j: int| 0 <= j < st.len() ==> (#[trigger] gens@[j] == 0 <==> in_wave(self.finish, st[j]))
                &&& walks_ok(*self, st, gens@, mx, my, mz)
                &&& queue_ok(*self, st, gens@, frontier@, mx, my)
                &&& forall|j: int| 0 <= j < st.len() ==> #[trigger] gens@[j] <= 0
                &&& forall|k: int| 0 <= k < final(starts)@.len() ==> {
                    let p = #[trigger] final(starts)@[k];
                    &&& 0 <= p.0 < mx && 0 <= p.1 < my && 0 <= p.2 < mz
                    &&& in_wave(self.start, st[idx3(p.0 as int, p.1 as int, p.2 as int, mx, my)])
                }
                &&& forall|j: int| 0 <= j < st.len() && in_wave(self.start, #[trigger] st[j]) ==> exists|k: int|
                    0 <= k < final(starts)@.len() && idx3(
                        (#[trigger] final(starts)@[k]).0 as int,
                        final(starts)@[k].1 as int,
                        final(starts)@[k].2 as int,
                        mx,
                        my,
                    ) == j
            }),
    {
        let mx = ctx.grid.mx;
        let my = ctx.grid.my;
        let mz = ctx.grid.mz;
        let n = ctx.grid.state.len();
        let ghost st = ctx.grid.state@;
        let ghost node = *self;
        let mut gens = filled_i32(n, -1);
        let mut frontier: Vec<(i32, i32, i32, i32)> = Vec::new();
        proof {
            crate::field::lemma_reached_none_prefix(gens@, n as int);
        }
        let mut i: usize = 0;
        while i < n
            invariant
                ctx.wf(),
                st == ctx.grid.state@,
                node == *self,
                n == ctx.grid.state@.len(),
                mx == ctx.grid.mx && my == ctx.grid.my && mz == ctx.grid.mz,
                i <= n,
                gens@.len() == n,
                frontier_ok(frontier@, gens@, mx as int, my as int, mz as int),
                forall|j: int| 0 <= j < n ==> #[trigger] gens@[j] < n,
                forall|j: int| i <= j < n ==> #[trigger] gens@[j] == -1,
                forall|j: int| 0 <= j < i ==> (#[trigger] gens@[j] == 0 <==> in_wave(node.finish, st[j])),
                forall|j: int| 0 <= j < i ==> #[trigger] gens@[j] <= 0,
                forall|k: int| 0 <= k < frontier@.len() ==> (#[trigger] frontier@[k]).0 == 0,
                walks_ok(node, st, gens@, mx as int, my as int, mz as int),
                queue_ok(node, st, gens@, frontier@, mx as int, my as int),
                forall|k: int| 0 <= k < starts@.len() ==> {
                    let p = #[trigger] starts@[k];
                    &&& 0 <= p.0 < mx && 0 <= p.1 < my && 0 <= p.2 < mz
                    &&& in_wave(node.start, st[idx3(p.0 as int, p.1 as int, p.2 as int, mx as int, my as int)])
                },
                forall|j: int| 0 <= j < i && in_wave(node.start, #[trigger] st[j]) ==> exists|k: int|
                    0 <= k < starts@.len() && idx3(
                        (#[trigger] starts@[k]).0 as int,
                        starts@[k].1 as int,
                        starts@[k].2 as int,
                        mx as int,
                        my as int,
                    ) == j,
            decreases n - i,
        {
            proof {
                lemma_nonempty_dims(mx as int, my as int, mz as int);
                lemma_idx3_inverse(i as int, mx as int, my as int);
                lemma_plane_div_bound(i as int, mx as int, my as int, mz as int);
            }
            let x = (i % mx) as i32;
            let y = ((i / mx) % my) as i32;
            let z = (i / (mx * my)) as i32;
            let v = ctx.grid.state[i];
            assert(idx3(x as int, y as int, z as int, mx as int, my as int) == i);
            let ghost s0 = starts@;
            if self.start & (1u32 << v) != 0 {
                starts.push((x, y, z));
                proof {
                    assert(starts@[starts@.len() - 1] == (x, y, z));
                }
            }
            proof {
                assert forall|j: int| 0 <= j < i + 1 && in_wave(node.start, #[trigger] st[j]) implies exists|k: int|
                    0 <= k < starts@.len() && idx3(
                        (#[trigger] starts@[k]).0 as int,
                        starts@[k].1 as int,
                        starts@[k].2 as int,
                        mx as int,
                        my as int,
                    ) == j by {
                    if j < i {
                        let k = choose|k: int|
                            0 <= k < s0.len() && idx3(
                                (#[trigger] s0[k]).0 as int,
                                s0[k].1 as int,
                                s0[k].2 as int,
                                mx as int,
                                my as int,
                            ) == j;
                        assert(starts@[k] == s0[k]);
                    } else {
                        assert(starts@[starts@.len() - 1] == (x, y, z));
                    }
                }
                assert forall|k: int| 0 <= k < starts@.len() implies {
                    let p = #[trigger] starts@[k];
                    &&& 0 <= p.0 < mx && 0 <= p.1 < my && 0 <= p.2 < mz
                    &&& in_wave(node.start, st[idx3(p.0 as int, p.1 as int, p.2 as int, mx as int, my as int)])
                } by {
                    if k < s0.len() {
                        assert(starts@[k] == s0[k]);
                    }
                }
            }
            if self.finish & (1u32 << v) != 0 {
                let ghost g0 = gens@;
                let ghost q0 = frontier@;
                gens.set(i, 0);
                frontier.push((0, x, y, z));
                proof {
                    lemma_reached_update(g0, n as int, i as int, 0);
                    assert forall|k: int| 0 <= k < frontier@.len() implies {
                        let e = #[trigger] frontier@[k];
                        &&& 0 <= e.1 < mx && 0 <= e.2 < my && 0 <= e.3 < mz
                        &&& gens@[idx3(e.1 as int, e.2 as int, e.3 as int, mx as int, my as int)] == e.0
                        &&& 0 <= e.0 <= k
                    } by {
                        if k < q0.len() {
                            assert(frontier@[k] == q0[k]);
                            let e = q0[k];
                            lemma_idx3_bound(e.1 as int, e.2 as int, e.3 as int, mx as int, my as int, mz as int);
                            assert(g0[idx3(e.1 as int, e.2 as int, e.3 as int, mx as int, my as int)] == 0);
                        }
                    }
                    let w = seq![i as int];
                    assert(path_walk(node, st, mx as int, my as int, mz as int, w));
                    assert forall|j: int| 0 <= j < st.len() && #[trigger] gens@[j] >= 0 implies exists|p: Seq<int>|
                        #[trigger] path_walk(node, st, mx as int, my as int, mz as int, p) && p.last() == j by {
                        if j != i {
                            assert(g0[j] >= 0);
                        } else {
                            assert(w.last() == j);
                        }
                    }
                    assert forall|j: int| 0 <= j < st.len() && #[trigger] gens@[j] >= 0 && path_passes(node, st[j])
                        implies exists|q: int| 0 <= q < frontier@.len() && fidx(#[trigger] frontier@[q], mx as int, my as int) == j by {
                        if j != i {
                            assert(g0[j] >= 0);
                            let q = choose|q: int| 0 <= q < q0.len() && fidx(#[trigger] q0[q], mx as int, my as int) == j;
                            assert(frontier@[q] == q0[q]);
                        } else {
                            assert(fidx(frontier@[q0.len() as int], mx as int, my as int) == j);
                        }
                    }
                    assert forall|q: int| 0 <= q < frontier@.len() implies path_passes(node, st[fidx(#[trigger] frontier@[q], mx as int, my as int)]) by {
                        if q < q0.len() {
                            assert(frontier@[q] == q0[q]);
                        }
                    }
                }
            }
            i = i + 1;
        }
        (gens, frontier)
    }

    /// Generations: 0 on finish cells, then breadth-first through substrate cells (start
    /// cells are reached but not crossed). The start cells are listed in `starts`.
    #[verifier::rlimit(100)]
    fn generations(&self, ctx: &ExecutionContext, starts: &mut Vec<(i32, i32, i32)>) -> (gens: Vec<i32>)
        requires
            ctx.wf(),
            old(starts)@.len() == 0,
        ensures
            gens@.len() == ctx.grid.state@.len(),
            forall|i: int| 0 <= i < gens@.len() ==> #[trigger] gens@[i] >= -1 && gens@[i] < gens@.len(),
            forall|k: int| 0 <= k < final(starts)@.len() ==> {
                let p = #[trigger] final(starts)@[k];
                &&& 0 <= p.0 < ctx.grid.mx && 0 <= p.1 < ctx.grid.my && 0 <= p.2 < ctx.grid.mz
                &&& in_wave(self.start, ctx.grid.state@[idx3(p.0 as int, p.1 as int, p.2 as int, ctx.grid.mx as int, ctx.grid.my as int)])
            },
            forall|j: int| 0 <= j < gens@.len() && in_wave(self.start, #[trigger] ctx.grid.state@[j]) ==> exists|k: int|
                0 <= k < final(starts)@.len() && idx3(
                    (#[trigger] final(starts)@[k]).0 as int,
                    final(starts)@[k].1 as int,
                    final(starts)@[k].2 as int,
                    ctx.grid.mx as int,
                    ctx.grid.my as int,
                ) == j,
            gens_ok(*self, ctx.grid.state@, gens@, ctx.grid.mx as int, ctx.grid.my as int, ctx.grid.mz as int),
    {
        let mx = ctx.grid.mx;
        let my = ctx.grid.my;
        let mz = ctx.grid.mz;
        let n = ctx.grid.state.len();
        let ghost st = ctx.grid.state@;
        let ghost node = *self;
        let (mut gens, mut frontier) = self.seed_search(ctx, starts);
        let mut head: usize = 0;
        while head < frontier.len()
            invariant
                ctx.wf(),
                st == ctx.grid.state@,
                node == *self,
                n == ctx.grid.state@.len(),
                mx == ctx.grid.mx && my == ctx.grid.my && mz == ctx.grid.mz,
                search_ok(node, st, gens@, frontier@, mx as int, my as int, mz as int, head as int),
                forall|k: int| 0 <= k < starts@.len() ==> {
                    let p = #[trigger] starts@[k];
                    &&& 0 <= p.0 < mx && 0 <= p.1 < my && 0 <= p.2 < mz
                    &&& in_wave(node.start, st[idx3(p.0 as int, p.1 as int, p.2 as int, mx as int, my as int)])
                },
                forall|j: int| 0 <= j < n && in_wave(node.start, #[trigger] st[j]) ==> exists|k: int|
                    0 <= k < starts@.len() && idx3(
                        (#[trigger] starts@[k]).0 as int,
                        starts@[k].1 as int,
                        starts@[k].2 as int,
                        mx as int,
                        my as int,
                    ) == j,
            decreases n - head,
        {
            proof {
                lemma_reached_bound(gens@, n as int, 0);
            }
            self.expand(ctx, &mut gens, &mut frontier, head);
            head = head + 1;
        }
        proof {
            assert forall|j: int|
                0 <= j < n && #[trigger] gens@[j] >= 0 && path_passes(node, st[j]) implies moves_done(
                    node,
                    st,
                    gens@,
                    j,
                    mx as int,
                    my as int,
                    mz as int,
                    cell_dirs(j, mx as int, my as int, mz as int, node.edges, node.vertices).len() as int,
                ) by {
                let q = choose|q: int| 0 <= q < frontier@.len() && fidx(#[trigger] frontier@[q], mx as int, my as int) == j;
            }
        }
        gens
    }

    /// One step of the search: give a generation to each cell that a move from queue
    /// entry `head` enters for the first time, and queue those a path passes through.
    #[verifier::rlimit(100)]
    fn expand(&self, ctx: &ExecutionContext, gens: &mut Vec<i32>, frontier: &mut Vec<(i32, i32, i32, i32)>, head: usize)
        requires
            ctx.wf(),
            search_ok(*self, ctx.grid.state@, old(gens)@, old(frontier)@, ctx.grid.mx as int, ctx.grid.my as int, ctx.grid.mz as int, head as int),
            head < old(frontier)@.len(),
        ensures
            search_ok(*self, ctx.grid.state@, final(gens)@, final(frontier)@, ctx.grid.mx as int, ctx.grid.my as int, ctx.grid.mz as int, head + 1),
    {
        let mx = ctx.grid.mx;
        let my = ctx.grid.my;
        let mz = ctx.grid.mz;
        let n = ctx.grid.state.len();
        let ghost st = ctx.grid.state@;
        let ghost node = *self;
            proof {
                lemma_reached_bound(gens@, n as int, 0);
            }
            let (t, x, y, z) = frontier[head];
            let ghost cur = idx3(x as int, y as int, z as int, mx as int, my as int);
            let dirs = directions(x, y, z, mx, my, mz, self.edges, self.vertices);
            proof {
                lemma_directions_ok(x as int, y as int, z as int, mx as int, my as int, mz as int, self.edges, self.vertices);
                lemma_cell_dirs(x as int, y as int, z as int, mx as int, my as int, mz as int, node.edges, node.vertices);
                lemma_idx3_bound(x as int, y as int, z as int, mx as int, my as int, mz as int);
                assert(fidx(frontier@[head as int], mx as int, my as int) == cur);
            }
            let mut k: usize = 0;
            while k < dirs.len()
                invariant
                    ctx.wf(),
                    st == ctx.grid.state@,
                    node == *self,
                    n == ctx.grid.state@.len(),
                    mx == ctx.grid.mx && my == ctx.grid.my && mz == ctx.grid.mz,
                    gens@.len() == n,
                    frontier_ok(frontier@, gens@, mx as int, my as int, mz as int),
                    forall|j: int| 0 <= j < n ==> #[trigger] gens@[j] < n,
                    head < frontier@.len(),
                    frontier@[head as int] == (t, x, y, z),
                    0 <= t <= head,
                    0 <= x < mx && 0 <= y < my && 0 <= z < mz,
                    cur == idx3(x as int, y as int, z as int, mx as int, my as int),
                    0 <= cur < n,
                    cur % (mx as int) == x && (cur / (mx as int)) % (my as int) == y && cur / ((mx as int) * (my as int)) == z,
                    cell_dirs(cur, mx as int, my as int, mz as int, node.edges, node.vertices) == dirs@,
                    forall|j: int| 0 <= j < dirs@.len() ==> dir_ok(#[trigger] dirs@[j], x as int, y as int, z as int, mx as int, my as int, mz as int),
                    k <= dirs@.len(),
                    forall|j: int| 0 <= j < n ==> (#[trigger] gens@[j] == 0 <==> in_wave(node.finish, st[j])),
                    walks_ok(node, st, gens@, mx as int, my as int, mz as int),
                    parents_ok(node, st, gens@, mx as int, my as int, mz as int),
                    queue_ok(node, st, gens@, frontier@, mx as int, my as int),
                    forall|q: int| 0 <= q < head ==> {
                        let j = fidx(#[trigger] frontier@[q], mx as int, my as int);
                        moves_done(node, st, gens@, j, mx as int, my as int, mz as int, cell_dirs(j, mx as int, my as int, mz as int, node.edges, node.vertices).len() as int)
                    },
                    moves_done(node, st, gens@, cur, mx as int, my as int, mz as int, k as int),
                decreases dirs@.len() - k,
            {
                let d = dirs[k];
                proof {
                    assert(dir_ok(dirs@[k as int], x as int, y as int, z as int, mx as int, my as int, mz as int));
                }
                let nx = x + d.0;
                let ny = y + d.1;
                let nz = z + d.2;
                proof {
                    lemma_idx3_bound(nx as int, ny as int, nz as int, mx as int, my as int, mz as int);
                }
                let ni = (nx as usize) + (ny as usize) * mx + (nz as usize) * (mx * my);
                proof {
                    assert(cell_move(cur, dirs@[k as int], mx as int, my as int) == ni);
                }
                let v = ctx.grid.state[ni];
                let ghost g0 = gens@;
                if gens[ni] == -1 && (self.substrate & (1u32 << v) != 0 || self.start & (1u32 << v) != 0) {
                    proof {
                        lemma_reached_bound(gens@, n as int, ni as int);
                    }
                    let ghost q0 = frontier@;
                    if self.substrate & (1u32 << v) != 0 {
                        frontier.push((t + 1, nx, ny, nz));
                    }
                    gens.set(ni, t + 1);
                    proof {
                        lemma_reached_update(g0, n as int, ni as int, (t + 1) as i32);
                        assert forall|q: int| 0 <= q < frontier@.len() implies {
                            let e = #[trigger] frontier@[q];
                            &&& 0 <= e.1 < mx && 0 <= e.2 < my && 0 <= e.3 < mz
                            &&& gens@[idx3(e.1 as int, e.2 as int, e.3 as int, mx as int, my as int)] == e.0
                            &&& 0 <= e.0 <= q
                        } by {
                            if q < q0.len() {
                                assert(frontier@[q] == q0[q]);
                                let e = q0[q];
                                lemma_idx3_bound(e.1 as int, e.2 as int, e.3 as int, mx as int, my as int, mz as int);
                                assert(g0[idx3(e.1 as int, e.2 as int, e.3 as int, mx as int, my as int)] >= 0);
                            }
                        }
                        lemma_walk_extend(node, st, g0, gens@, mx as int, my as int, mz as int, cur, ni as int, k as int);
                        lemma_parent_extend(node, st, g0, gens@, mx as int, my as int, mz as int, cur, ni as int, k as int);
                        lemma_queue_extend(node, st, g0, gens@, q0, frontier@, mx as int, my as int, ni as int);
                        assert forall|q: int| 0 <= q < head implies {
                            let j = fidx(#[trigger] frontier@[q], mx as int, my as int);
                            moves_done(node, st, gens@, j, mx as int, my as int, mz as int, cell_dirs(j, mx as int, my as int, mz as int, node.edges, node.vertices).len() as int)
                        } by {
                            assert(frontier@[q] == q0[q]);
                            let j = fidx(q0[q], mx as int, my as int);
                            lemma_moves_grow(node, st, g0, gens@, j, mx as int, my as int, mz as int, cell_dirs(j, mx as int, my as int, mz as int, node.edges, node.vertices).len() as int);
                        }
                        lemma_moves_grow(node, st, g0, gens@, cur, mx as int, my as int, mz as int, k as int);
                        assert(frontier@[head as int] == q0[head as int]);
                    }
                }
                proof {
                    assert(moves_done(node, st, gens@, cur, mx as int, my as int, mz as int, k + 1)) by {
                        let ds = cell_dirs(cur, mx as int, my as int, mz as int, node.edges, node.vertices);
                        assert forall|m: int|
                            0 <= m < k + 1 && m < ds.len() && 0 <= cell_move(cur, #[trigger] ds[m], mx as int, my as int) < st.len()
                                && path_enters(node, st[cell_move(cur, ds[m], mx as int, my as int)]) implies gens@[cell_move(cur, ds[m], mx as int, my as int)] >= 0 by {
                            if m == k {
                                assert(ds[m] == dirs@[k as int]);
                                assert(cell_move(cur, dirs@[k as int], mx as int, my as int) == ni);
                                assert(gens@[ni as int] >= -1);
                                assert(gens@[ni as int] >= 0);
                                assert(gens@[cell_move(cur, ds[m], mx as int, my as int)] >= 0);
                            } else {
                                assert(moves_done(node, st, gens@, cur, mx as int, my as int, mz as int, k as int));
                                assert(m < k);
                                assert(gens@[cell_move(cur, ds[m], mx as int, my as int)] >= 0);
                            }
                        }
                    }
                }
                k = k + 1;
            }
    }
}

impl PathNode {
    /// Draw the path: search generations from the finish cells, pick the start cell
    /// (nearest, or farthest with `longest`, ties broken by a local random draw), then
    /// walk down the generations writing `value` until a finish cell. Returns false when
    /// no start cell is reachable.
    #[verifier::loop_isolation(false)]
    pub fn go(&mut self, ctx: &mut ExecutionContext) -> (r: bool)
        requires
            old(self).wf(),
            old(ctx).wf(),
        ensures
            *final(self) == *old(self),
            final(ctx).wf(),
            final(ctx).grid.mx == old(ctx).grid.mx && final(ctx).grid.my == old(ctx).grid.my && final(ctx).grid.mz
                == old(ctx).grid.mz,
            final(ctx).grid.c == old(ctx).grid.c,
            final(ctx).first@ == old(ctx).first@,
            final(ctx).counter == old(ctx).counter,
            final(ctx).changes@.len() >= old(ctx).changes@.len(),
            final(ctx).changes@.subrange(0, old(ctx).changes@.len() as int) == old(ctx).changes@,
            final(ctx).grid.state@.len() == old(ctx).grid.state@.len(),
            forall|i: int|
                0 <= i < old(ctx).grid.state@.len() ==> #[trigger] final(ctx).grid.state@[i] == old(ctx).grid.state@[i]
                    || final(ctx).grid.state@[i] == old(self).value,
            !r ==> final(ctx).grid == old(ctx).grid && final(ctx).changes@ == old(ctx).changes@,
            r == path_exists(*old(self), old(ctx).grid.state@, old(ctx).grid.mx as int, old(ctx).grid.my as int, old(ctx).grid.mz as int),
            painted(*old(self), old(ctx).grid.state@, final(ctx).grid.state@, old(ctx).changes@, final(ctx).changes@),
            r && (old(self).longest || ends_apart(*old(self), old(ctx).grid.state@)) ==> path_drawn(
                *old(self),
                old(ctx).grid.state@,
                final(ctx).grid.state@,
                old(ctx).changes@,
                final(ctx).changes@,
                old(ctx).grid.mx as int,
                old(ctx).grid.my as int,
                old(ctx).grid.mz as int,
            ),
    {
        let mx = ctx.grid.mx;
        let my = ctx.grid.my;
        let mz = ctx.grid.mz;
        let n = ctx.grid.state.len();
        let mut starts: Vec<(i32, i32, i32)> = Vec::new();
        let gens = self.generations(ctx, &mut starts);
        proof {
            assert(ctx.changes@.subrange(0, ctx.changes@.len() as int) =~= ctx.changes@);
        }
        let ghost st = ctx.grid.state@;
        let ghost node = *self;
        let mut reachable = false;
        let mut k: usize = 0;
        while k < starts.len()
            invariant
                ctx.wf(),
                n == gens@.len(),
                k <= starts@.len(),
                reachable <==> exists|kk: int| 0 <= kk < k && gens@[sidx(#[trigger] starts@[kk], mx as int, my as int)] > 0,
            decreases starts@.len() - k,
        {
            let (px, py, pz) = starts[k];
            proof {
                lemma_idx3_bound(px as int, py as int, pz as int, mx as int, my as int, mz as int);
            }
            if gens[(px as usize) + (py as usize) * mx + (pz as usize) * (mx * my)] > 0 {
                reachable = true;
            }
            k = k + 1;
        }
        proof {
            if reachable {
                let kk = choose|kk: int| 0 <= kk < starts@.len() && gens@[sidx(#[trigger] starts@[kk], mx as int, my as int)] > 0;
                let sp = starts@[kk];
                let j = sidx(sp, mx as int, my as int);
                lemma_idx3_bound(sp.0 as int, sp.1 as int, sp.2 as int, mx as int, my as int, mz as int);
                assert(gens@[j] >= 0);
                let w = choose|w: Seq<int>| #[trigger] path_walk(node, st, mx as int, my as int, mz as int, w) && w.last() == j;
                assert(path_walk(node, st, mx as int, my as int, mz as int, w) && in_wave(node.start, st[w.last()]) && !in_wave(node.finish, st[w.last()]));
            } else {
                assert forall|w: Seq<int>| #[trigger] path_walk(node, st, mx as int, my as int, mz as int, w) implies !(in_wave(
                    node.start,
                    st[w.last()],
                ) && !in_wave(node.finish, st[w.last()])) by {
                    lemma_walk_complete(node, st, gens@, mx as int, my as int, mz as int, w);
                    if in_wave(node.start, st[w.last()]) && !in_wave(node.finish, st[w.last()]) {
                        let j = w.last();
                        assert(0 <= j < st.len()) by {
                            assert(w[w.len() - 1] == j);
                        }
                        let kk = choose|kk: int|
                            0 <= kk < starts@.len() && idx3(
                                (#[trigger] starts@[kk]).0 as int,
                                starts@[kk].1 as int,
                                starts@[kk].2 as int,
                                mx as int,
                                my as int,
                            ) == j;
                        assert(gens@[sidx(starts@[kk], mx as int, my as int)] > 0);
                    }
                }
            }
            assert(reachable == path_exists(node, st, mx as int, my as int, mz as int));
        }
        if !reachable {
            return false;
        }
        let seed = ctx.random.next_int();
        let mut local = DotNetRandom::from_seed(seed);
        let chosen = self.pick_start(ctx, &gens, &starts, &mut local);
        let (mut penx, mut peny, mut penz) = match chosen {
            Some(p) => p,
            None => {
                return false;
            },
        };
        let ghost path_grid = path_grid_ok(gens@, mx as int, my as int, mz as int);
        proof {
            assert(path_grid_ok(gens@, mx as int, my as int, mz as int));
        }
        proof {
            lemma_idx3_bound(penx as int, peny as int, penz as int, mx as int, my as int, mz as int);
            let s_idx = idx3(penx as int, peny as int, penz as int, mx as int, my as int);
            if ends_apart(node, st) {
                assert(!in_wave(node.finish, st[s_idx]));
            }
            if node.longest {
                let kk = choose|kk: int| 0 <= kk < starts@.len() && gens@[sidx(#[trigger] starts@[kk], mx as int, my as int)] > 0;
                let i = sidx(starts@[kk], mx as int, my as int);
                lemma_idx3_bound(starts@[kk].0 as int, starts@[kk].1 as int, starts@[kk].2 as int, mx as int, my as int, mz as int);
                assert(in_wave(node.start, st[i]) && gens@[i] >= 0);
                assert(gens@[i] <= gens@[s_idx]);
            }
        }
        self.draw_from(ctx, &gens, &mut local, penx, peny, penz);
        true
    }

    /// The start cell the path is drawn from: among start cells with a generation, one of
    /// the least generation (the greatest with `longest`), ties broken by draws of `local`.
    #[verifier::loop_isolation(false)]
    fn pick_start(&self, ctx: &ExecutionContext, gens: &Vec<i32>, starts: &Vec<(i32, i32, i32)>, local: &mut DotNetRandom) -> (r: Option<(i32, i32, i32)>)
        requires
            ctx.wf(),
            old(local).wf(),
            gens@.len() == ctx.grid.state@.len(),
            forall|i: int| 0 <= i < gens@.len() ==> #[trigger] gens@[i] >= -1 && gens@[i] < gens@.len(),
            forall|k: int| 0 <= k < starts@.len() ==> {
                let p = #[trigger] starts@[k];
                &&& 0 <= p.0 < ctx.grid.mx && 0 <= p.1 < ctx.grid.my && 0 <= p.2 < ctx.grid.mz
                &&& in_wave(self.start, ctx.grid.state@[idx3(p.0 as int, p.1 as int, p.2 as int, ctx.grid.mx as int, ctx.grid.my as int)])
            },
            forall|j: int| 0 <= j < gens@.len() && in_wave(self.start, #[trigger] ctx.grid.state@[j]) ==> exists|k: int|
                0 <= k < starts@.len() && idx3(
                    (#[trigger] starts@[k]).0 as int,
                    starts@[k].1 as int,
                    starts@[k].2 as int,
                    ctx.grid.mx as int,
                    ctx.grid.my as int,
                ) == j,
        ensures
            final(local).wf(),
            r matches Some(p) ==> {
                let s = idx3(p.0 as int, p.1 as int, p.2 as int, ctx.grid.mx as int, ctx.grid.my as int);
                &&& 0 <= p.0 < ctx.grid.mx && 0 <= p.1 < ctx.grid.my && 0 <= p.2 < ctx.grid.mz
                &&& in_wave(self.start, ctx.grid.state@[s])
                &&& gens@[s] >= 0
                &&& start_chosen(*self, ctx.grid.state@, gens@, s)
            },
            (exists|kk: int| 0 <= kk < starts@.len() && gens@[sidx(#[trigger] starts@[kk], ctx.grid.mx as int, ctx.grid.my as int)] > 0)
                ==> r is Some,
    {
        let mx = ctx.grid.mx;
        let my = ctx.grid.my;
        let mz = ctx.grid.mz;
        let n = ctx.grid.state.len();
        let ghost st = ctx.grid.state@;
        let ghost node = *self;
        let mut best_min: Option<(i32, i32, (i32, i32, i32))> = None;
        let mut best_max: Option<(i32, i32, (i32, i32, i32))> = None;
        let mut k: usize = 0;
        while k < starts.len()
            invariant
                ctx.wf(),
                local.wf(),
                n == gens@.len(),
                k <= starts@.len(),
                best_min matches Some(b) ==> 0 <= b.2.0 < mx && 0 <= b.2.1 < my && 0 <= b.2.2 < mz,
                best_max matches Some(b) ==> 0 <= b.2.0 < mx && 0 <= b.2.1 < my && 0 <= b.2.2 < mz,
                (exists|kk: int| 0 <= kk < k && gens@[sidx(#[trigger] starts@[kk], mx as int, my as int)] > 0) ==> best_min is Some
                    && best_max is Some,
                best_min matches Some(b) ==> gens@[sidx(b.2, mx as int, my as int)] >= 0 && in_wave(
                    node.start,
                    st[sidx(b.2, mx as int, my as int)],
                ) && b.0 == gens@[sidx(b.2, mx as int, my as int)],
                best_min is None ==> forall|kk: int|
                    0 <= kk < k ==> gens@[sidx(#[trigger] starts@[kk], mx as int, my as int)] == -1,
                best_min matches Some(b) ==> forall|kk: int|
                    0 <= kk < k && gens@[sidx(#[trigger] starts@[kk], mx as int, my as int)] != -1 ==> b.0 <= gens@[sidx(
                        starts@[kk],
                        mx as int,
                        my as int,
                    )],
                best_max matches Some(b) ==> gens@[sidx(b.2, mx as int, my as int)] >= 0 && in_wave(
                    node.start,
                    st[sidx(b.2, mx as int, my as int)],
                ) && b.0 == gens@[sidx(b.2, mx as int, my as int)],
                best_max matches Some(b) ==> forall|kk: int|
                    0 <= kk < k ==> gens@[sidx(#[trigger] starts@[kk], mx as int, my as int)] <= b.0,
            decreases starts@.len() - k,
        {
            let p = starts[k];
            proof {
                lemma_idx3_bound(p.0 as int, p.1 as int, p.2 as int, mx as int, my as int, mz as int);
            }
            let g = gens[(p.0 as usize) + (p.1 as usize) * mx + (p.2 as usize) * (mx * my)];
            if g != -1 {
                let s = local.next_sample();
                let min_better = match best_min {
                    None => (g as i64) < n as i64,
                    Some(b) => g < b.0 || (g == b.0 && s < b.1),
                };
                if min_better {
                    best_min = Some((g, s, p));
                }
                let max_better = match best_max {
                    None => true,
                    Some(b) => g > b.0 || (g == b.0 && s > b.1),
                };
                if max_better {
                    best_max = Some((g, s, p));
                }
            }
            k = k + 1;
        }
        let chosen = if self.longest {
            best_max
        } else {
            best_min
        };
        match chosen {
            Some(b) => {
                let p = b.2;
                proof {
                    let s_idx = sidx(p, mx as int, my as int);
                    assert forall|i: int|
                        0 <= i < st.len() && in_wave(node.start, #[trigger] st[i]) && gens@[i] >= 0 implies if node.longest {
                            gens@[i] <= gens@[s_idx]
                        } else {
                            gens@[s_idx] <= gens@[i]
                        } by {
                        let kk = choose|kk: int|
                            0 <= kk < starts@.len() && idx3(
                                (#[trigger] starts@[kk]).0 as int,
                                starts@[kk].1 as int,
                                starts@[kk].2 as int,
                                mx as int,
                                my as int,
                            ) == i;
                        assert(sidx(starts@[kk], mx as int, my as int) == i);
                    }
                }
                Some(p)
            },
            None => None,
        }
    }

    /// Walk down the generations from the chosen start cell (sx, sy, sz), writing the path
    /// value on each cell before the finish cell and logging it.
    #[verifier::rlimit(100)]
    fn draw_from(&self, ctx: &mut ExecutionContext, gens: &Vec<i32>, local: &mut DotNetRandom, sx: i32, sy: i32, sz: i32)
        requires
            old(ctx).wf(),
            old(local).wf(),
            self.wf(),
            gens_ok(*self, old(ctx).grid.state@, gens@, old(ctx).grid.mx as int, old(ctx).grid.my as int, old(ctx).grid.mz as int),
            path_grid_ok(gens@, old(ctx).grid.mx as int, old(ctx).grid.my as int, old(ctx).grid.mz as int),
            forall|i: int| 0 <= i < gens@.len() ==> #[trigger] gens@[i] >= -1 && gens@[i] < gens@.len(),
            0 <= sx < old(ctx).grid.mx && 0 <= sy < old(ctx).grid.my && 0 <= sz < old(ctx).grid.mz,
            gens@[idx3(sx as int, sy as int, sz as int, old(ctx).grid.mx as int, old(ctx).grid.my as int)] >= 0,
            in_wave(self.start, old(ctx).grid.state@[idx3(sx as int, sy as int, sz as int, old(ctx).grid.mx as int, old(ctx).grid.my as int)]),
            start_chosen(*self, old(ctx).grid.state@, gens@, idx3(sx as int, sy as int, sz as int, old(ctx).grid.mx as int, old(ctx).grid.my as int)),
        ensures
            final(ctx).wf(),
            final(local).wf(),
            final(ctx).grid.mx == old(ctx).grid.mx && final(ctx).grid.my == old(ctx).grid.my && final(ctx).grid.mz
                == old(ctx).grid.mz,
            final(ctx).grid.c == old(ctx).grid.c,
            final(ctx).first@ == old(ctx).first@,
            final(ctx).counter == old(ctx).counter,
            final(ctx).changes@.len() >= old(ctx).changes@.len(),
            final(ctx).changes@.subrange(0, old(ctx).changes@.len() as int) == old(ctx).changes@,
            final(ctx).grid.state@.len() == old(ctx).grid.state@.len(),
            forall|i: int|
                0 <= i < old(ctx).grid.state@.len() ==> #[trigger] final(ctx).grid.state@[i] == old(ctx).grid.state@[i]
                    || final(ctx).grid.state@[i] == self.value,
            painted(*self, old(ctx).grid.state@, final(ctx).grid.state@, old(ctx).changes@, final(ctx).changes@),
            gens@[idx3(sx as int, sy as int, sz as int, old(ctx).grid.mx as int, old(ctx).grid.my as int)] > 0 ==> path_drawn(
                *self,
                old(ctx).grid.state@,
                final(ctx).grid.state@,
                old(ctx).changes@,
                final(ctx).changes@,
                old(ctx).grid.mx as int,
                old(ctx).grid.my as int,
                old(ctx).grid.mz as int,
            ),
    {
        let mx = ctx.grid.mx;
        let my = ctx.grid.my;
        let mz = ctx.grid.mz;
        let n = ctx.grid.state.len();
        let ghost st = ctx.grid.state@;
        let ghost node = *self;
        let mut penx = sx;
        let mut peny = sy;
        let mut penz = sz;
        proof {
            assert(ctx.changes@.subrange(0, ctx.changes@.len() as int) =~= ctx.changes@);
            assert(painted(node, st, st, ctx.changes@, ctx.changes@));
        }
        let ghost s_idx = idx3(penx as int, peny as int, penz as int, mx as int, my as int);
        proof {
            lemma_idx3_bound(penx as int, peny as int, penz as int, mx as int, my as int, mz as int);
            if gens@[s_idx] > 0 {
                lemma_descent(node, st, gens@, mx as int, my as int, mz as int, penx as int, peny as int, penz as int);
            }
        }
        let (mut dirx, mut diry, mut dirz) = find_direction(
            penx,
            peny,
            penz,
            0,
            0,
            0,
            gens,
            mx,
            my,
            mz,
            self.inertia,
            self.edges,
            self.vertices,
            local,
        );
        let ghost px0 = penx as int;
        let ghost py0 = peny as int;
        let ghost pz0 = penz as int;
        penx = penx + dirx;
        peny = peny + diry;
        penz = penz + dirz;
        let ghost mut w: Seq<int> = seq![s_idx, idx3(penx as int, peny as int, penz as int, mx as int, my as int)];
        proof {
            if gens@[s_idx] > 0 {
                lemma_coords_of(px0, py0, pz0, mx as int, my as int, mz as int);
                lemma_coords_of(penx as int, peny as int, penz as int, mx as int, my as int, mz as int);
                assert(descends(w, gens@, mx as int, my as int)) by {
                    assert forall|t: int| 0 <= t < w.len() - 1 implies gens@[w[t + 1]] == gens@[#[trigger] w[t]] - 1 && near(
                        w[t],
                        w[t + 1],
                        mx as int,
                        my as int,
                    ) by {
                        assert(t == 0);
                    }
                }
                lemma_idx3_bound(penx as int, peny as int, penz as int, mx as int, my as int, mz as int);
                lemma_idx3_bound(px0, py0, pz0, mx as int, my as int, mz as int);
                assert(w[0] == s_idx && w[1] == w.last());
                assert(gens@[w.last()] >= 0);
                assert forall|t: int| 0 <= t < w.len() implies 0 <= #[trigger] w[t] < n by {
                    if t == 0 {
                        assert(w[t] == s_idx);
                    } else {
                        assert(w[t] == w.last());
                    }
                }
                assert(inner_cells(w) =~= Seq::<usize>::empty());
                assert(ctx.changes@ =~= old(ctx).changes@ + inner_cells(w));
                assert(ctx.grid.state@ =~= drawn_state(st, w, node.value)) by {
                    assert(w.subrange(1, w.len() - 1) =~= Seq::<int>::empty());
                }
            }
        }
        let ghost ctx0 = *ctx;
        proof {
            assert(ctx.changes@.subrange(0, old(ctx).changes@.len() as int) =~= old(ctx).changes@);
        }
        loop
            invariant
                ctx.wf(),
                local.wf(),
                n == gens@.len(),
                n == ctx.grid.state@.len(),
                path_grid_ok(gens@, mx as int, my as int, mz as int),
                forall|i: int| 0 <= i < gens@.len() ==> #[trigger] gens@[i] >= -1 && gens@[i] < gens@.len(),
                0 <= penx < mx && 0 <= peny < my && 0 <= penz < mz,
                -1 <= dirx <= 1 && -1 <= diry <= 1 && -1 <= dirz <= 1,
                mx == ctx.grid.mx && my == ctx.grid.my && mz == ctx.grid.mz,
                ctx.grid.c == old(ctx).grid.c,
                ctx.first@ == old(ctx).first@,
                ctx.counter == old(ctx).counter,
                ctx.changes@.len() >= old(ctx).changes@.len(),
                ctx.changes@.subrange(0, old(ctx).changes@.len() as int) == old(ctx).changes@,
                forall|i: int|
                    0 <= i < n ==> #[trigger] ctx.grid.state@[i] == old(ctx).grid.state@[i] || ctx.grid.state@[i] == self.value,
                self.wf(),
                *self == node,
                st == old(ctx).grid.state@,
                gens_ok(node, st, gens@, mx as int, my as int, mz as int),
                forall|i: int| 0 <= i < n && #[trigger] ctx.grid.state@[i] != st[i] ==> gens@[i] != 0,
                painted(node, st, ctx.grid.state@, old(ctx).changes@, ctx.changes@),
                gens@[s_idx] > 0 ==> {
                    &&& w.len() >= 2
                    &&& w.last() == idx3(penx as int, peny as int, penz as int, mx as int, my as int)
                    &&& forall|t: int| 0 <= t < w.len() ==> 0 <= #[trigger] w[t] < n
                    &&& in_wave(node.start, st[w[0]])
                    &&& w[0] == s_idx
                    &&& descends(w, gens@, mx as int, my as int)
                    &&& gens@[w.last()] >= 0
                    &&& ctx.changes@ == old(ctx).changes@ + inner_cells(w)
                    &&& ctx.grid.state@ == drawn_state(st, w, node.value)
                },
            ensures
                gens@[s_idx] > 0 ==> gens@[idx3(penx as int, peny as int, penz as int, mx as int, my as int)] == 0,
            decreases gens@[idx3(penx as int, peny as int, penz as int, mx as int, my as int)] + 1,
        {
            proof {
                lemma_idx3_bound(penx as int, peny as int, penz as int, mx as int, my as int, mz as int);
            }
            let i = (penx as usize) + (peny as usize) * mx + (penz as usize) * (mx * my);
            if gens[i] == 0 {
                break;
            }
            let ghost before = ctx.changes@;
            let ghost s0 = ctx.grid.state@;
            ctx.grid.state.set(i, self.value);
            ctx.record_change(i);
            proof {
                lemma_painted_write(node, st, s0, ctx.grid.state@, old(ctx).changes@, before, ctx.changes@, i);
                assert(ctx.changes@.subrange(0, old(ctx).changes@.len() as int) =~= old(ctx).changes@) by {
                    assert(before.subrange(0, old(ctx).changes@.len() as int) == old(ctx).changes@);
                }
                if gens@[s_idx] > 0 {
                    assert(gens@[i as int] > 0);
                    lemma_descent(node, st, gens@, mx as int, my as int, mz as int, penx as int, peny as int, penz as int);
                }
            }
            let d = find_direction(
                penx,
                peny,
                penz,
                dirx,
                diry,
                dirz,
                gens,
                mx,
                my,
                mz,
                self.inertia,
                self.edges,
                self.vertices,
                local,
            );
            if d.0 == 0 && d.1 == 0 && d.2 == 0 {
                proof {
                    if gens@[s_idx] > 0 {
                        assert(false);
                    }
                }
                break;
            }
            proof {
                assert(d != (0i32, 0i32, 0i32));
                let g = gens@[idx3(penx as int, peny as int, penz as int, mx as int, my as int)] as int;
                assert(is_step(gens@, d, penx as int, peny as int, penz as int, mx as int, my as int, mz as int, g));
                lemma_idx3_bound(penx + d.0, peny + d.1, penz + d.2, mx as int, my as int, mz as int);
                assert(gens@[idx3(penx + d.0, peny + d.1, penz + d.2, mx as int, my as int)] == g - 1);
            }
            let ghost qx = penx as int;
            let ghost qy = peny as int;
            let ghost qz = penz as int;
            dirx = d.0;
            diry = d.1;
            dirz = d.2;
            penx = penx + dirx;
            peny = peny + diry;
            penz = penz + dirz;
            proof {
                if gens@[s_idx] > 0 {
                    let w0 = w;
                    let nxt = idx3(penx as int, peny as int, penz as int, mx as int, my as int);
                    lemma_coords_of(qx, qy, qz, mx as int, my as int, mz as int);
                    lemma_coords_of(penx as int, peny as int, penz as int, mx as int, my as int, mz as int);
                    lemma_idx3_bound(penx as int, peny as int, penz as int, mx as int, my as int, mz as int);
                    w = w0.push(nxt);
                    assert(w0.last() == i as int);
                    assert(near(i as int, nxt, mx as int, my as int));
                    assert(descends(w, gens@, mx as int, my as int)) by {
                        assert forall|t: int| 0 <= t < w.len() - 1 implies gens@[w[t + 1]] == gens@[#[trigger] w[t]] - 1 && near(
                            w[t],
                            w[t + 1],
                            mx as int,
                            my as int,
                        ) by {
                            if t < w0.len() - 1 {
                                assert(w[t] == w0[t] && w[t + 1] == w0[t + 1]);
                            } else {
                                assert(w[t] == i as int && w[t + 1] == nxt);
                            }
                        }
                    }
                    assert forall|t: int| 0 <= t < w.len() implies 0 <= #[trigger] w[t] < n by {
                        if t < w0.len() {
                            assert(w[t] == w0[t]);
                        }
                    }
                    assert(inner_cells(w) =~= inner_cells(w0).push(i));
                    assert(ctx.changes@ =~= old(ctx).changes@ + inner_cells(w));
                    lemma_drawn_push(st, w0, nxt, node.value);
                    assert(w[0] == w0[0]);
                }
            }
        }
        proof {
            if gens@[s_idx] > 0 {
                assert(drawn_along(node, st, ctx.grid.state@, old(ctx).changes@, ctx.changes@, mx as int, my as int, mz as int, w, gens@));
            }
        }
    }

    /// The path node keeps no state between steps.
    pub fn reset(&mut self)
        ensures
            *final(self) == *old(self),
    {
    }
}


impl PathNode {
    /// What one step does: from this node and context to `after` and `ctx_after`, with
    /// result `r`.
    pub open spec fn go_done(self, ctx: ExecutionContext, after: Self, ctx_after: ExecutionContext, r: bool) -> bool {
        &&& after == self
        &&& ctx_after.wf()
        &&& ctx_after.grid.mx == ctx.grid.mx && ctx_after.grid.my == ctx.grid.my && ctx_after.grid.mz
                == ctx.grid.mz
        &&& ctx_after.grid.c == ctx.grid.c
        &&& ctx_after.first@ == ctx.first@
        &&& ctx_after.counter == ctx.counter
        &&& ctx_after.changes@.len() >= ctx.changes@.len()
        &&& ctx_after.changes@.subrange(0, ctx.changes@.len() as int) == ctx.changes@
        &&& ctx_after.grid.state@.len() == ctx.grid.state@.len()
        &&& forall|i: int|
                0 <= i < ctx.grid.state@.len() ==> #[trigger] ctx_after.grid.state@[i] == ctx.grid.state@[i]
                    || ctx_after.grid.state@[i] == self.value
        &&& !r ==> ctx_after.grid == ctx.grid && ctx_after.changes@ == ctx.changes@
        &&& r == path_exists(self, ctx.grid.state@, ctx.grid.mx as int, ctx.grid.my as int, ctx.grid.mz as int)
        &&& painted(self, ctx.grid.state@, ctx_after.grid.state@, ctx.changes@, ctx_after.changes@)
        &&& r && (self.longest || ends_apart(self, ctx.grid.state@)) ==> path_drawn(
            self,
            ctx.grid.state@,
            ctx_after.grid.state@,
            ctx.changes@,
            ctx_after.changes@,
            ctx.grid.mx as int,
            ctx.grid.my as int,
            ctx.grid.mz as int,
        )
    }

    /// What a reset does: from this node to `after`.
    pub open spec fn reset_done(self, after: Self) -> bool {
        &&& after == self
    }
}

impl Node for PathNode {
    open spec fn node_inv(&self) -> bool {
        self.wf()
    }

    fn go(&mut self, ctx: &mut ExecutionContext) -> (r: bool)
        ensures
            old(self).go_done(*old(ctx), *final(self), *final(ctx), r),
    {
        PathNode::go(self, ctx)
    }

    fn reset(&mut self)
        ensures
            old(self).reset_done(*final(self)),
    {
        PathNode::reset(self)
    }
}

} // verus!
