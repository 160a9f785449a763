//! Distance fields: breadth-first distances from target cells through substrate cells,
//! used to steer rule selection.
use vstd::prelude::*;
use crate::geom::{idx3, lemma_idx3_bound, lemma_idx3_injective, lemma_idx3_inverse};
use crate::grid::{lemma_nonempty_dims, lemma_plane_div_bound, MjGrid};
use crate::rule::{coord_of, MjRule};
use crate::vecs::filled_i32;

verus! {

/// A distance-field configuration.
#[derive(Debug, Clone, Copy)]
pub struct Field {
    /// Recompute the field on every step, not only the first.
    pub recompute: bool,
    /// Maximise the distance instead of minimising it.
    pub inversed: bool,
    /// Failure to compute is fatal for the node.
    pub essential: bool,
    /// Wave of the values that can be traversed.
    pub substrate: u32,
    /// Wave of the values at distance zero (targets).
    pub zero: u32,
}

/// Whether value `v` is in wave `w`.
pub open spec fn in_wave(w: u32, v: u8) -> bool {
    w & (1u32 << v) != 0
}

/// Whether two in-grid cells differ by one step along exactly one axis.
pub open spec fn adjacent(a: (int, int, int), b: (int, int, int)) -> bool {
    let dx = a.0 - b.0;
    let dy = a.1 - b.1;
    let dz = a.2 - b.2;
    ||| (dx == 1 || dx == -1) && dy == 0 && dz == 0
    ||| dx == 0 && (dy == 1 || dy == -1) && dz == 0
    ||| dx == 0 && dy == 0 && (dz == 1 || dz == -1)
}

/// Coordinates inside a grid of size (mx, my, mz).
pub open spec fn in_grid(c: (int, int, int), mx: int, my: int, mz: int) -> bool {
    0 <= c.0 < mx && 0 <= c.1 < my && 0 <= c.2 < mz
}

/// `s` with `e` appended when `c` holds.
pub open spec fn push_if(s: Seq<(i32, i32, i32)>, c: bool, e: (i32, i32, i32)) -> Seq<(i32, i32, i32)> {
    if c {
        s.push(e)
    } else {
        s
    }
}

/// The face neighbours of (x, y, z) inside the grid, in the order -x, +x, -y, +y, -z, +z.
pub open spec fn spec_neighbors(x: int, y: int, z: int, mx: int, my: int, mz: int) -> Seq<(i32, i32, i32)> {
    let s0 = push_if(Seq::empty(), x > 0, ((x - 1) as i32, y as i32, z as i32));
    let s1 = push_if(s0, x < mx - 1, ((x + 1) as i32, y as i32, z as i32));
    let s2 = push_if(s1, y > 0, (x as i32, (y - 1) as i32, z as i32));
    let s3 = push_if(s2, y < my - 1, (x as i32, (y + 1) as i32, z as i32));
    let s4 = push_if(s3, z > 0, (x as i32, y as i32, (z - 1) as i32));
    push_if(s4, z < mz - 1, (x as i32, y as i32, (z + 1) as i32))
}

/// An in-grid cell adjacent to (x, y, z).
pub open spec fn neighbor_of(n: (i32, i32, i32), x: int, y: int, z: int, mx: int, my: int, mz: int) -> bool {
    &&& in_grid((n.0 as int, n.1 as int, n.2 as int), mx, my, mz)
    &&& adjacent((n.0 as int, n.1 as int, n.2 as int), (x, y, z))
}

proof fn lemma_push_if(
    s: Seq<(i32, i32, i32)>,
    c: bool,
    e: (i32, i32, i32),
    x: int,
    y: int,
    z: int,
    mx: int,
    my: int,
    mz: int,
)
    requires
        forall|k: int| 0 <= k < s.len() ==> neighbor_of(#[trigger] s[k], x, y, z, mx, my, mz),
        c ==> neighbor_of(e, x, y, z, mx, my, mz),
    ensures
        forall|k: int| 0 <= k < push_if(s, c, e).len() ==> neighbor_of(#[trigger] push_if(s, c, e)[k], x, y, z, mx, my, mz),
        c ==> push_if(s, c, e).contains(e),
        forall|t: (i32, i32, i32)| s.contains(t) ==> #[trigger] push_if(s, c, e).contains(t),
{
    let s2 = push_if(s, c, e);
    if c {
        assert(s2[s.len() as int] == e);
        assert forall|t: (i32, i32, i32)| s.contains(t) implies #[trigger] s2.contains(t) by {
            let k = choose|k: int| 0 <= k < s.len() && s[k] == t;
            assert(s2[k] == t);
        }
        assert forall|k: int| 0 <= k < s2.len() implies neighbor_of(#[trigger] s2[k], x, y, z, mx, my, mz) by {
            if k < s.len() {
                assert(s2[k] == s[k]);
            }
        }
    }
}

/// The neighbour list holds exactly the adjacent in-grid cells.
pub proof fn lemma_neighbors(x: int, y: int, z: int, mx: int, my: int, mz: int)
    requires
        in_grid((x, y, z), mx, my, mz),
        mx <= i32::MAX,
        my <= i32::MAX,
        mz <= i32::MAX,
    ensures
        forall|k: int| 0 <= k < spec_neighbors(x, y, z, mx, my, mz).len() ==> {
            let n = #[trigger] spec_neighbors(x, y, z, mx, my, mz)[k];
            &&& in_grid((n.0 as int, n.1 as int, n.2 as int), mx, my, mz)
            &&& adjacent((n.0 as int, n.1 as int, n.2 as int), (x, y, z))
        },
        forall|a: int, b: int, c: int|
            #![trigger adjacent((a, b, c), (x, y, z))]
            in_grid((a, b, c), mx, my, mz) && adjacent((a, b, c), (x, y, z)) ==> spec_neighbors(
                x,
                y,
                z,
                mx,
                my,
                mz,
            ).contains((a as i32, b as i32, c as i32)),
{
    let e0 = ((x - 1) as i32, y as i32, z as i32);
    let e1 = ((x + 1) as i32, y as i32, z as i32);
    let e2 = (x as i32, (y - 1) as i32, z as i32);
    let e3 = (x as i32, (y + 1) as i32, z as i32);
    let e4 = (x as i32, y as i32, (z - 1) as i32);
    let e5 = (x as i32, y as i32, (z + 1) as i32);
    let s = Seq::<(i32, i32, i32)>::empty();
    let s0 = push_if(s, x > 0, e0);
    let s1 = push_if(s0, x < mx - 1, e1);
    let s2 = push_if(s1, y > 0, e2);
    let s3 = push_if(s2, y < my - 1, e3);
    let s4 = push_if(s3, z > 0, e4);
    let s5 = push_if(s4, z < mz - 1, e5);
    lemma_push_if(s, x > 0, e0, x, y, z, mx, my, mz);
    lemma_push_if(s0, x < mx - 1, e1, x, y, z, mx, my, mz);
    lemma_push_if(s1, y > 0, e2, x, y, z, mx, my, mz);
    lemma_push_if(s2, y < my - 1, e3, x, y, z, mx, my, mz);
    lemma_push_if(s3, z > 0, e4, x, y, z, mx, my, mz);
    lemma_push_if(s4, z < mz - 1, e5, x, y, z, mx, my, mz);
    assert(s5 == spec_neighbors(x, y, z, mx, my, mz));
    assert forall|k: int| 0 <= k < s5.len() implies {
        let n = #[trigger] s5[k];
        &&& in_grid((n.0 as int, n.1 as int, n.2 as int), mx, my, mz)
        &&& adjacent((n.0 as int, n.1 as int, n.2 as int), (x, y, z))
    } by {
        assert(neighbor_of(s5[k], x, y, z, mx, my, mz));
    }
    assert forall|a: int, b: int, c: int|
        #![trigger adjacent((a, b, c), (x, y, z))]
        in_grid((a, b, c), mx, my, mz) && adjacent((a, b, c), (x, y, z)) implies s5.contains(
        (a as i32, b as i32, c as i32),
    ) by {
        let t = (a as i32, b as i32, c as i32);
        if a == x - 1 {
            assert(t == e0);
            assert(s0.contains(t));
        } else if a == x + 1 {
            assert(t == e1);
            assert(s1.contains(t));
        } else if b == y - 1 {
            assert(t == e2);
            assert(s2.contains(t));
        } else if b == y + 1 {
            assert(t == e3);
            assert(s3.contains(t));
        } else if c == z - 1 {
            assert(t == e4);
            assert(s4.contains(t));
        } else {
            assert(t == e5);
        }
    }
}

/// The face neighbours of (x, y, z) inside a grid of size (mx, my, mz).
pub fn neighbors(x: i32, y: i32, z: i32, mx: usize, my: usize, mz: usize) -> (r: Vec<(i32, i32, i32)>)
    requires
        in_grid((x as int, y as int, z as int), mx as int, my as int, mz as int),
        mx <= i32::MAX,
        my <= i32::MAX,
        mz <= i32::MAX,
    ensures
        r@ == spec_neighbors(x as int, y as int, z as int, mx as int, my as int, mz as int),
{
    let mut result: Vec<(i32, i32, i32)> = Vec::new();
    let mxi = mx as i32;
    let myi = my as i32;
    let mzi = mz as i32;
    if x > 0 {
        result.push((x - 1, y, z));
    }
    if x < mxi - 1 {
        result.push((x + 1, y, z));
    }
    if y > 0 {
        result.push((x, y - 1, z));
    }
    if y < myi - 1 {
        result.push((x, y + 1, z));
    }
    if z > 0 {
        result.push((x, y, z - 1));
    }
    if z < mzi - 1 {
        result.push((x, y, z + 1));
    }
    assert(result@ =~= spec_neighbors(x as int, y as int, z as int, mx as int, my as int, mz as int));
    result
}

/// The result of a successful field computation: distance zero exactly on target cells,
/// every positive distance reached from a neighbour one closer through substrate, and no
/// shortcut left: a substrate neighbour of a reached cell is reached at most one step later.
pub open spec fn is_distance_field(grid: &MjGrid, f: Field, p: Seq<i32>) -> bool {
    let mx = grid.mx as int;
    let my = grid.my as int;
    let mz = grid.mz as int;
    let st = grid.state@;
    &&& p.len() == st.len()
    &&& forall|i: int| 0 <= i < p.len() ==> #[trigger] p[i] >= -1
    &&& forall|i: int| 0 <= i < p.len() ==> (#[trigger] p[i] == 0 <==> in_wave(f.zero, st[i]))
    &&& forall|a: (int, int, int)|
        in_grid(a, mx, my, mz) && #[trigger] p[idx3(a.0, a.1, a.2, mx, my)] > 0 ==> {
            &&& in_wave(f.substrate, st[idx3(a.0, a.1, a.2, mx, my)])
            &&& exists|b: (int, int, int)|
                in_grid(b, mx, my, mz) && adjacent(a, b) && #[trigger] p[idx3(b.0, b.1, b.2, mx, my)]
                    == p[idx3(a.0, a.1, a.2, mx, my)] - 1
        }
    &&& forall|a: (int, int, int), b: (int, int, int)|
        in_grid(a, mx, my, mz) && in_grid(b, mx, my, mz) && adjacent(a, b) && #[trigger] p[idx3(
            a.0,
            a.1,
            a.2,
            mx,
            my,
        )] >= 0 && in_wave(f.substrate, st[idx3(b.0, b.1, b.2, mx, my)]) ==> {
            let pb = #[trigger] p[idx3(b.0, b.1, b.2, mx, my)];
            0 <= pb <= p[idx3(a.0, a.1, a.2, mx, my)] + 1
        }
}

/// Whether some cell holds a target value.
pub open spec fn has_target(grid: &MjGrid, f: Field) -> bool {
    exists|i: int| 0 <= i < grid.state@.len() && in_wave(f.zero, #[trigger] grid.state@[i])
}

impl Field {
    /// A field with the given substrate and target waves, flags off.
    pub fn new(substrate: u32, zero: u32) -> (f: Self)
        ensures
            f.substrate == substrate,
            f.zero == zero,
            !f.recompute && !f.inversed && !f.essential,
    {
        Field { recompute: false, inversed: false, essential: false, substrate, zero }
    }

    /// Compute distances from target cells through substrate cells (breadth-first), into
    /// the first cells of `potential` (one per grid cell); the rest is left as it is.
    ///
    /// Returns false, leaving every grid cell at -1, when no cell is a target; otherwise
    /// fills them with the distance field (-1 for unreachable cells).
    pub fn compute(&self, potential: &mut Vec<i32>, grid: &MjGrid) -> (r: bool)
        requires
            grid.wf(),
            grid.cells_below(32),
            old(potential)@.len() >= grid.state@.len(),
            grid.state@.len() <= i32::MAX,
        ensures
            final(potential)@.len() == old(potential)@.len(),
            final(potential)@.skip(grid.state@.len() as int) == old(potential)@.skip(grid.state@.len() as int),
            r == has_target(grid, *self),
            !r ==> final(potential)@.take(grid.state@.len() as int) == Seq::new(grid.state@.len(), |i: int| -1i32),
            r ==> is_distance_field(grid, *self, final(potential)@.take(grid.state@.len() as int)),
            old(potential)@.len() == grid.state@.len() ==> final(potential)@ == final(potential)@.take(
                grid.state@.len() as int,
            ),
    {
        let mut rows = filled_i32(grid.state.len(), -1);
        let r = self.compute_rows(&mut rows, grid);
        crate::vecs::write_prefix(potential, &rows);
        proof {
            assert(final(potential)@.take(grid.state@.len() as int) =~= rows@);
            assert(final(potential)@.skip(grid.state@.len() as int) =~= old(potential)@.skip(
                grid.state@.len() as int,
            ));
        }
        r
    }

    /// The distance field of the grid into a buffer of one entry per cell.
    #[verifier::spinoff_prover]
    #[verifier::rlimit(40)]
    fn compute_rows(&self, potential: &mut Vec<i32>, grid: &MjGrid) -> (r: bool)
        requires
            grid.wf(),
            grid.cells_below(32),
            old(potential)@.len() == grid.state@.len(),
            grid.state@.len() <= i32::MAX,
        ensures
            r == has_target(grid, *self),
            !r ==> final(potential)@ == Seq::new(grid.state@.len(), |i: int| -1i32),
            r ==> is_distance_field(grid, *self, final(potential)@),
    {
        let n = grid.state.len();
        if n == 0 {
            *potential = Vec::new();
            assert(final(potential)@ =~= Seq::new(0, |i: int| -1i32));
            return false;
        }
        let mx = grid.mx;
        let my = grid.my;
        let mz = grid.mz;
        proof {
            lemma_nonempty_dims(mx as int, my as int, mz as int);
            lemma_idx3_bound(0, 0, 0, mx as int, my as int, mz as int);
            lemma_dims_below(mx as int, my as int, mz as int);
        }
        let plane = mx * my;
        let mut p = filled_i32(n, -1);
        let mut queue: Vec<(i32, i32, i32, i32)> = Vec::new();
        let mut i: usize = 0;
        let ghost st = grid.state@;
        proof {
            lemma_reached_none(p@, 0);
        }
        while i < n
            invariant
                grid.wf(),
                grid.cells_below(32),
                st == grid.state@,
                n == st.len(),
                n <= i32::MAX,
                mx == grid.mx && my == grid.my && mz == grid.mz,
                mx > 0 && my > 0 && mz > 0,
                mx <= n && my <= n && mz <= n,
                plane == mx * my,
                n == mx * my * mz,
                i <= n,
                p@.len() == n,
                queue@.len() == reached_count(p@, n as int),
                forall|k: int| 0 <= k < n ==> (#[trigger] p@[k] == 0 <==> (k < i && in_wave(self.zero, st[k]))),
                forall|k: int| 0 <= k < n ==> (#[trigger] p@[k] == 0 || p@[k] == -1),
                queue_ok(queue@, p@, mx as int, my as int, mz as int),
                forall|k: int| 0 <= k < queue@.len() ==> (#[trigger] queue@[k]).0 == 0,
                forall|k: int| 0 <= k < n ==> (p@[k] == 0 <==> #[trigger] in_queue(queue@, k, mx as int, my as int)),
            decreases n - i,
        {
            proof {
                lemma_idx3_inverse(i as int, mx as int, my as int);
                lemma_plane_div_bound(i as int, mx as int, my as int, mz as int);
            }
            let v = grid.state[i];
            if self.zero & (1u32 << v) != 0 {
                let x = (i % mx) as i32;
                let y = ((i / mx) % my) as i32;
                let z = (i / plane) as i32;
                let ghost oldq = queue@;
                let ghost oldp = p@;
                p.set(i, 0);
                queue.push((0, x, y, z));
                proof {
                    lemma_in_queue_push(oldq, (0i32, x, y, z), mx as int, my as int);
                    lemma_reached_update(oldp, n as int, i as int, 0i32);
                    assert forall|k: int| 0 <= k < queue@.len() implies {
                        let e = #[trigger] queue@[k];
                        &&& in_grid((e.1 as int, e.2 as int, e.3 as int), mx as int, my as int, mz as int)
                        &&& p@[cell_of(e, mx as int, my as int)] == e.0
                        &&& e.0 >= 0
                    } by {
                        if k < oldq.len() {
                            assert(queue@[k] == oldq[k]);
                            let ok = oldq[k];
                            lemma_idx3_bound(ok.1 as int, ok.2 as int, ok.3 as int, mx as int, my as int, mz as int);
                            assert(oldp[cell_of(oldq[k], mx as int, my as int)] == 0);
                            assert(oldp[i as int] == -1);
                        }
                    }
                }
            }
            i = i + 1;
        }
        if queue.len() == 0 {
            proof {
                assert forall|k: int| 0 <= k < n implies !in_wave(self.zero, st[k]) by {
                    if in_wave(self.zero, st[k]) {
                        assert(p@[k] == 0);
                        assert(in_queue(queue@, k, mx as int, my as int));
                    }
                }
            }
            *potential = p;
            proof {
                assert forall|k: int| 0 <= k < n implies p@[k] == -1i32 by {
                    if p@[k] == 0 {
                        assert(in_queue(queue@, k, mx as int, my as int));
                    }
                }
            }
            assert(final(potential)@ =~= Seq::new(grid.state@.len(), |i: int| -1i32));
            return false;
        }
        proof {
            let c0 = cell_of(queue@[0], mx as int, my as int);
            let e0 = queue@[0];
            lemma_idx3_bound(e0.1 as int, e0.2 as int, e0.3 as int, mx as int, my as int, mz as int);
            assert(p@[c0] == 0);
            assert(in_wave(self.zero, st[c0]));
            lemma_bfs_start(grid, *self, p@, queue@);
        }
        let mut head: usize = 0;
        while head < queue.len()
            invariant
                grid.wf(),
                grid.cells_below(32),
                st == grid.state@,
                n == st.len(),
                n <= i32::MAX,
                mx == grid.mx && my == grid.my && mz == grid.mz,
                mx > 0 && my > 0 && mz > 0,
                mx <= n && my <= n && mz <= n,
                plane == mx * my,
                n == mx * my * mz,
                bfs_inv(grid, *self, p@, queue@, head as int),
                p@.len() == n,
                head <= queue@.len(),
                has_target(grid, *self),
            decreases n - head,
        {
            proof {
                lemma_queue_bounds(grid, *self, p@, queue@, head as int);
            }
            let (t, x, y, z) = queue[head];
            let nbrs = neighbors(x, y, z, mx, my, mz);
            proof {
                lemma_neighbors(x as int, y as int, z as int, mx as int, my as int, mz as int);
            }
            let ghost q_start = queue@;
            let mut k: usize = 0;
            while k < nbrs.len()
                invariant
                    grid.wf(),
                    grid.cells_below(32),
                    st == grid.state@,
                    n == st.len(),
                    n <= i32::MAX,
                    mx == grid.mx && my == grid.my && mz == grid.mz,
                    mx > 0 && my > 0 && mz > 0,
                    mx <= n && my <= n && mz <= n,
                    plane == mx * my,
                    n == mx * my * mz,
                    bfs_inv(grid, *self, p@, queue@, head as int),
                    p@.len() == n,
                    head < q_start.len(),
                    q_start.len() <= queue@.len(),
                    queue@[head as int] == (t, x, y, z),
                    0 <= t <= head,
                    in_grid((x as int, y as int, z as int), mx as int, my as int, mz as int),
                    nbrs@ == spec_neighbors(x as int, y as int, z as int, mx as int, my as int, mz as int),
                    k <= nbrs@.len(),
                    forall|m: int| 0 <= m < k ==> #[trigger] neighbor_settled(grid, *self, p@, nbrs@[m], t as int),
                    has_target(grid, *self),
                decreases nbrs@.len() - k,
            {
                let (nx, ny, nz) = nbrs[k];
                proof {
                    lemma_idx3_bound(nx as int, ny as int, nz as int, mx as int, my as int, mz as int);
                }
                let ni = nx as usize + ny as usize * mx + nz as usize * plane;
                let v = grid.state[ni];
                let ghost p_before = p@;
                if p[ni] == -1 && self.substrate & (1u32 << v) != 0 {
                    proof {
                        lemma_queue_room(grid, *self, p@, queue@, head as int, ni as int);
                    }
                    let ghost oldq = queue@;
                    let ghost oldp = p@;
                    p.set(ni, t + 1);
                    queue.push((t + 1, nx, ny, nz));
                    proof {
                        lemma_visit(
                            grid,
                            *self,
                            oldp,
                            oldq,
                            head as int,
                            (nx as int, ny as int, nz as int),
                            (x as int, y as int, z as int),
                            t,
                        );
                    }
                }
                proof {
                    lemma_settled_keep(grid, *self, p_before, p@, nbrs@, k as int, t as int);
                    lemma_settled_now(grid, *self, p@, queue@, head as int, nbrs@[k as int], t as int);
                }
                k = k + 1;
            }
            proof {
                lemma_close_head(grid, *self, p@, queue@, head as int, nbrs@);
            }
            head = head + 1;
        }
        proof {
            lemma_finish(grid, *self, p@, queue@);
        }
        *potential = p;
        true
    }
}

/// Flat index of the cell of a queue entry.
pub open spec fn cell_of(e: (i32, i32, i32, i32), mx: int, my: int) -> int {
    idx3(e.1 as int, e.2 as int, e.3 as int, mx, my)
}

/// Whether cell `i` is the cell of some queue entry.
pub open spec fn in_queue(q: Seq<(i32, i32, i32, i32)>, i: int, mx: int, my: int) -> bool {
    exists|k: int| 0 <= k < q.len() && cell_of(#[trigger] q[k], mx, my) == i
}

/// Queue entries are in-grid cells whose distance is recorded with them.
pub open spec fn queue_ok(q: Seq<(i32, i32, i32, i32)>, p: Seq<i32>, mx: int, my: int, mz: int) -> bool {
    forall|k: int| 0 <= k < q.len() ==> {
        let e = #[trigger] q[k];
        &&& in_grid((e.1 as int, e.2 as int, e.3 as int), mx, my, mz)
        &&& p[cell_of(e, mx, my)] == e.0
        &&& e.0 >= 0
    }
}

/// Distances along the queue never decrease, and the unprocessed part spans at most two
/// consecutive distances.
pub open spec fn queue_sorted(q: Seq<(i32, i32, i32, i32)>, head: int) -> bool {
    &&& forall|a: int, b: int| 0 <= a <= b < q.len() ==> (#[trigger] q[a]).0 <= (#[trigger] q[b]).0
    &&& head < q.len() ==> forall|b: int| head <= b < q.len() ==> (#[trigger] q[b]).0 <= q[head].0 + 1
}

/// Each reached non-target cell is substrate and has a neighbour one step closer.
pub open spec fn parents_ok(grid: &MjGrid, f: Field, p: Seq<i32>) -> bool {
    let mx = grid.mx as int;
    let my = grid.my as int;
    let mz = grid.mz as int;
    forall|a: (int, int, int)|
        in_grid(a, mx, my, mz) && #[trigger] p[idx3(a.0, a.1, a.2, mx, my)] > 0 ==> {
            &&& in_wave(f.substrate, grid.state@[idx3(a.0, a.1, a.2, mx, my)])
            &&& exists|b: (int, int, int)|
                in_grid(b, mx, my, mz) && adjacent(a, b) && #[trigger] p[idx3(b.0, b.1, b.2, mx, my)]
                    == p[idx3(a.0, a.1, a.2, mx, my)] - 1
        }
}

/// Every processed cell has each substrate neighbour reached at most one step later.
pub open spec fn closed_ok(grid: &MjGrid, f: Field, p: Seq<i32>, q: Seq<(i32, i32, i32, i32)>, head: int) -> bool {
    let mx = grid.mx as int;
    let my = grid.my as int;
    let mz = grid.mz as int;
    forall|k: int, b: (int, int, int)|
        0 <= k < head && in_grid(b, mx, my, mz) && #[trigger] adjacent(
            b,
            ((q[k].1) as int, (q[k].2) as int, (q[k].3) as int),
        ) && in_wave(f.substrate, grid.state@[idx3(b.0, b.1, b.2, mx, my)]) ==> {
            let pb = #[trigger] p[idx3(b.0, b.1, b.2, mx, my)];
            0 <= pb <= q[k].0 + 1
        }
}

proof fn lemma_in_queue_push(q: Seq<(i32, i32, i32, i32)>, e: (i32, i32, i32, i32), mx: int, my: int)
    ensures
        forall|i: int| #[trigger] in_queue(q.push(e), i, mx, my) <==> (in_queue(q, i, mx, my) || i == cell_of(e, mx, my)),
{
    let q2 = q.push(e);
    assert forall|i: int| #[trigger] in_queue(q2, i, mx, my) <==> (in_queue(q, i, mx, my) || i == cell_of(e, mx, my)) by {
        if in_queue(q2, i, mx, my) {
            let k = choose|k: int| 0 <= k < q2.len() && cell_of(#[trigger] q2[k], mx, my) == i;
            if k < q.len() {
                assert(q2[k] == q[k]);
            }
        }
        if in_queue(q, i, mx, my) {
            let k = choose|k: int| 0 <= k < q.len() && cell_of(#[trigger] q[k], mx, my) == i;
            assert(q2[k] == q[k]);
        }
        if i == cell_of(e, mx, my) {
            assert(q2[q.len() as int] == e);
        }
    }
}


/// Number of cells among the first `k` that have been reached.
pub open spec fn reached_count(p: Seq<i32>, k: int) -> int
    decreases k,
{
    if k <= 0 {
        0
    } else {
        reached_count(p, k - 1) + if p[k - 1] >= 0 { 1int } else { 0int }
    }
}

proof fn lemma_reached_none(p: Seq<i32>, k: int)
    requires
        0 <= k <= p.len(),
        forall|j: int| 0 <= j < p.len() ==> p[j] == -1,
    ensures
        reached_count(p, p.len() as int) == 0,
    decreases p.len() - k,
{
    lemma_reached_none_prefix(p, p.len() as int);
}

pub proof fn lemma_reached_none_prefix(p: Seq<i32>, k: int)
    requires
        0 <= k <= p.len(),
        forall|j: int| 0 <= j < p.len() ==> p[j] == -1,
    ensures
        reached_count(p, k) == 0,
    decreases k,
{
    if k > 0 {
        lemma_reached_none_prefix(p, k - 1);
    }
}

pub proof fn lemma_reached_bound(p: Seq<i32>, k: int, i: int)
    requires
        0 <= k <= p.len(),
    ensures
        0 <= reached_count(p, k) <= k,
        0 <= i < k && p[i] < 0 ==> reached_count(p, k) < k,
    decreases k,
{
    if k > 0 {
        lemma_reached_bound(p, k - 1, i);
    }
}

pub proof fn lemma_reached_update(p: Seq<i32>, k: int, i: int, v: i32)
    requires
        0 <= k <= p.len(),
        0 <= i < p.len(),
        p[i] < 0,
        v >= 0,
    ensures
        reached_count(p.update(i, v), k) == reached_count(p, k) + if i < k { 1int } else { 0int },
    decreases k,
{
    if k > 0 {
        lemma_reached_update(p, k - 1, i, v);
    }
}

/// Each dimension of a non-empty grid is at most its number of cells.
proof fn lemma_dims_below(mx: int, my: int, mz: int)
    requires
        mx > 0,
        my > 0,
        mz > 0,
    ensures
        mx <= mx * my * mz,
        my <= mx * my * mz,
        mz <= mx * my * mz,
{
    assert(mx <= mx * my * mz && my <= mx * my * mz && mz <= mx * my * mz) by (nonlinear_arith)
        requires
            mx > 0,
            my > 0,
            mz > 0,
    ;
}

/// The invariant of the breadth-first search once `head` entries have been processed.
#[verifier::opaque]
pub open spec fn bfs_inv(grid: &MjGrid, f: Field, p: Seq<i32>, q: Seq<(i32, i32, i32, i32)>, head: int) -> bool {
    let mx = grid.mx as int;
    let my = grid.my as int;
    let mz = grid.mz as int;
    let n = grid.state@.len() as int;
    &&& p.len() == n
    &&& 0 <= head <= q.len()
    &&& q.len() == reached_count(p, n)
    &&& queue_ok(q, p, mx, my, mz)
    &&& queue_sorted(q, head)
    &&& forall|k: int| 0 <= k < q.len() ==> (#[trigger] q[k]).0 <= k
    &&& forall|j: int| 0 <= j < n ==> (p[j] >= 0 <==> #[trigger] in_queue(q, j, mx, my))
    &&& forall|j: int| 0 <= j < n ==> #[trigger] p[j] >= -1
    &&& forall|j: int| 0 <= j < n ==> (#[trigger] p[j] == 0 <==> in_wave(f.zero, grid.state@[j]))
    &&& parents_ok(grid, f, p)
    &&& closed_ok(grid, f, p, q, head)
}

/// A neighbour of a cell at distance `t` is settled when, if it is substrate, it has been
/// reached at distance at most `t + 1`.
pub open spec fn neighbor_settled(grid: &MjGrid, f: Field, p: Seq<i32>, nb: (i32, i32, i32), t: int) -> bool {
    let j = idx3(nb.0 as int, nb.1 as int, nb.2 as int, grid.mx as int, grid.my as int);
    &&& 0 <= j < p.len()
    &&& in_wave(f.substrate, grid.state@[j]) ==> 0 <= p[j] <= t + 1
}

proof fn lemma_bfs_start(grid: &MjGrid, f: Field, p: Seq<i32>, q: Seq<(i32, i32, i32, i32)>)
    requires
        grid.wf(),
        grid.mx > 0 && grid.my > 0 && grid.mz > 0,
        p.len() == grid.state@.len(),
        q.len() == reached_count(p, p.len() as int),
        queue_ok(q, p, grid.mx as int, grid.my as int, grid.mz as int),
        forall|k: int| 0 <= k < q.len() ==> (#[trigger] q[k]).0 == 0,
        forall|k: int| 0 <= k < p.len() ==> (#[trigger] p[k] == 0 <==> in_wave(f.zero, grid.state@[k])),
        forall|k: int| 0 <= k < p.len() ==> (#[trigger] p[k] == 0 || p[k] == -1),
        forall|k: int| 0 <= k < p.len() ==> (p[k] == 0 <==> #[trigger] in_queue(q, k, grid.mx as int, grid.my as int)),
    ensures
        bfs_inv(grid, f, p, q, 0),
{
    reveal(bfs_inv);
    let mx = grid.mx as int;
    let my = grid.my as int;
    assert forall|j: int| 0 <= j < p.len() implies (p[j] >= 0 <==> #[trigger] in_queue(q, j, mx, my)) by {
        assert(p[j] == 0 || p[j] == -1);
    }
    assert forall|j: int| 0 <= j < p.len() implies #[trigger] p[j] >= -1 by {
        assert(p[j] == 0 || p[j] == -1);
    }
    assert forall|a: (int, int, int)|
        in_grid(a, mx, my, grid.mz as int) && #[trigger] p[idx3(a.0, a.1, a.2, mx, my)] > 0 implies false by {
        lemma_idx3_bound(a.0, a.1, a.2, mx, my, grid.mz as int);
        assert(p[idx3(a.0, a.1, a.2, mx, my)] == 0 || p[idx3(a.0, a.1, a.2, mx, my)] == -1);
    }
}

proof fn lemma_queue_bounds(grid: &MjGrid, f: Field, p: Seq<i32>, q: Seq<(i32, i32, i32, i32)>, head: int)
    requires
        bfs_inv(grid, f, p, q, head),
        head < q.len(),
    ensures
        q.len() <= grid.state@.len(),
        0 <= q[head].0 <= head,
        in_grid((q[head].1 as int, q[head].2 as int, q[head].3 as int), grid.mx as int, grid.my as int, grid.mz as int),
{
    reveal(bfs_inv);
    lemma_reached_bound(p, p.len() as int, 0);
}

proof fn lemma_queue_room(grid: &MjGrid, f: Field, p: Seq<i32>, q: Seq<(i32, i32, i32, i32)>, head: int, i: int)
    requires
        bfs_inv(grid, f, p, q, head),
        0 <= i < p.len(),
        p[i] == -1,
    ensures
        q.len() < grid.state@.len(),
{
    reveal(bfs_inv);
    lemma_reached_bound(p, p.len() as int, i);
}

/// Reaching a new substrate neighbour at distance `t + 1` keeps the invariant.
proof fn lemma_visit(
    grid: &MjGrid,
    f: Field,
    p: Seq<i32>,
    q: Seq<(i32, i32, i32, i32)>,
    head: int,
    nb: (int, int, int),
    cur: (int, int, int),
    t: i32,
)
    requires
        bfs_inv(grid, f, p, q, head),
        grid.wf(),
        grid.mx > 0 && grid.my > 0 && grid.mz > 0,
        grid.mx <= i32::MAX && grid.my <= i32::MAX && grid.mz <= i32::MAX,
        head < q.len(),
        q[head] == (t, cur.0 as i32, cur.1 as i32, cur.2 as i32),
        0 <= t < i32::MAX,
        in_grid(cur, grid.mx as int, grid.my as int, grid.mz as int),
        in_grid(nb, grid.mx as int, grid.my as int, grid.mz as int),
        adjacent(nb, cur),
        p[idx3(nb.0, nb.1, nb.2, grid.mx as int, grid.my as int)] == -1,
        in_wave(f.substrate, grid.state@[idx3(nb.0, nb.1, nb.2, grid.mx as int, grid.my as int)]),
    ensures
        ({
            let ni = idx3(nb.0, nb.1, nb.2, grid.mx as int, grid.my as int);
            let p2 = p.update(ni, (t + 1) as i32);
            let q2 = q.push(((t + 1) as i32, nb.0 as i32, nb.1 as i32, nb.2 as i32));
            &&& bfs_inv(grid, f, p2, q2, head)
            &&& q2[head] == q[head]
        }),
{
    reveal(bfs_inv);
    let mx = grid.mx as int;
    let my = grid.my as int;
    let mz = grid.mz as int;
    let n = p.len() as int;
    let ni = idx3(nb.0, nb.1, nb.2, mx, my);
    let t1 = (t + 1) as i32;
    let e = (t1, nb.0 as i32, nb.1 as i32, nb.2 as i32);
    let p2 = p.update(ni, t1);
    let q2 = q.push(e);
    lemma_idx3_bound(nb.0, nb.1, nb.2, mx, my, mz);
    lemma_idx3_bound(cur.0, cur.1, cur.2, mx, my, mz);
    let ci = idx3(cur.0, cur.1, cur.2, mx, my);
    assert(cell_of(q[head], mx, my) == ci);
    assert(p[ci] == t);
    assert(cell_of(e, mx, my) == ni);
    lemma_reached_update(p, n, ni, t1);
    lemma_in_queue_push(q, e, mx, my);
    // queue entries
    assert forall|k: int| 0 <= k < q2.len() implies {
        let e2 = #[trigger] q2[k];
        &&& in_grid((e2.1 as int, e2.2 as int, e2.3 as int), mx, my, mz)
        &&& p2[cell_of(e2, mx, my)] == e2.0
        &&& e2.0 >= 0
    } by {
        if k < q.len() {
            assert(q2[k] == q[k]);
            let ek = q[k];
            lemma_idx3_bound(ek.1 as int, ek.2 as int, ek.3 as int, mx, my, mz);
            assert(p[cell_of(q[k], mx, my)] >= 0);
        }
    }
    assert forall|a: int, b: int| 0 <= a <= b < q2.len() implies (#[trigger] q2[a]).0 <= (#[trigger] q2[b]).0 by {
        if a == b {
        } else if b == q.len() {
            if a >= head {
                assert(q[a].0 <= q[head].0 + 1);
            } else {
                assert(q[a].0 <= q[head].0);
            }
        } else {
            assert(q2[a] == q[a] && q2[b] == q[b]);
        }
    }
    assert forall|b: int| head <= b < q2.len() implies (#[trigger] q2[b]).0 <= q2[head].0 + 1 by {
        if b < q.len() {
            assert(q2[b] == q[b]);
        }
    }
    assert forall|k: int| 0 <= k < q2.len() implies (#[trigger] q2[k]).0 <= k by {
        if k < q.len() {
            assert(q2[k] == q[k]);
        } else {
            assert(q[head].0 <= head);
        }
    }
    assert forall|j: int| 0 <= j < n implies (p2[j] >= 0 <==> #[trigger] in_queue(q2, j, mx, my)) by {
        if j != ni {
            assert(p2[j] == p[j]);
            assert(in_queue(q, j, mx, my) <==> p[j] >= 0);
        }
    }
    assert forall|j: int| 0 <= j < n implies #[trigger] p2[j] >= -1 by {
        if j != ni {
            assert(p2[j] == p[j]);
        }
    }
    assert forall|j: int| 0 <= j < n implies (#[trigger] p2[j] == 0 <==> in_wave(f.zero, grid.state@[j])) by {
        if j != ni {
            assert(p2[j] == p[j]);
        } else {
            assert(p[ni] != 0);
        }
    }
    // parents
    assert forall|a: (int, int, int)|
        in_grid(a, mx, my, mz) && #[trigger] p2[idx3(a.0, a.1, a.2, mx, my)] > 0 implies {
        &&& in_wave(f.substrate, grid.state@[idx3(a.0, a.1, a.2, mx, my)])
        &&& exists|b: (int, int, int)|
            in_grid(b, mx, my, mz) && adjacent(a, b) && #[trigger] p2[idx3(b.0, b.1, b.2, mx, my)]
                == p2[idx3(a.0, a.1, a.2, mx, my)] - 1
    } by {
        let ai = idx3(a.0, a.1, a.2, mx, my);
        lemma_idx3_bound(a.0, a.1, a.2, mx, my, mz);
        if ai == ni {
            lemma_idx3_injective(a.0, a.1, a.2, nb.0, nb.1, nb.2, mx, my);
            assert(ci != ni);
            assert(p2[ci] == t);
            assert(in_grid(cur, mx, my, mz) && adjacent(a, cur) && p2[idx3(cur.0, cur.1, cur.2, mx, my)] == p2[ai] - 1);
        } else {
            assert(p2[ai] == p[ai]);
            assert(p[ai] > 0);
            assert(parents_ok(grid, f, p));
            assert(exists|b: (int, int, int)|
                in_grid(b, mx, my, mz) && adjacent(a, b) && #[trigger] p[idx3(b.0, b.1, b.2, mx, my)]
                    == p[idx3(a.0, a.1, a.2, mx, my)] - 1);
            let b = choose|b: (int, int, int)|
                in_grid(b, mx, my, mz) && adjacent(a, b) && #[trigger] p[idx3(b.0, b.1, b.2, mx, my)]
                    == p[idx3(a.0, a.1, a.2, mx, my)] - 1;
            let bi = idx3(b.0, b.1, b.2, mx, my);
            lemma_idx3_bound(b.0, b.1, b.2, mx, my, mz);
            assert(p[bi] >= 0);
            assert(bi != ni);
            assert(p2[bi] == p[bi]);
        }
    }
    // processed entries stay closed
    assert forall|k: int, b: (int, int, int)|
        0 <= k < head && in_grid(b, mx, my, mz) && #[trigger] adjacent(
            b,
            ((q2[k].1) as int, (q2[k].2) as int, (q2[k].3) as int),
        ) && in_wave(f.substrate, grid.state@[idx3(b.0, b.1, b.2, mx, my)]) implies {
        let pb = #[trigger] p2[idx3(b.0, b.1, b.2, mx, my)];
        0 <= pb <= q2[k].0 + 1
    } by {
        assert(q2[k] == q[k]);
        let bi = idx3(b.0, b.1, b.2, mx, my);
        lemma_idx3_bound(b.0, b.1, b.2, mx, my, mz);
        assert(adjacent(b, ((q[k].1) as int, (q[k].2) as int, (q[k].3) as int)));
        assert(closed_ok(grid, f, p, q, head));
        assert(0 <= p[bi] <= q[k].0 + 1);
        assert(bi != ni);
        assert(p2[bi] == p[bi]);
    }
    assert(q2[head] == q[head]);
}

/// After the neighbour at position `k` is handled, the earlier neighbours stay settled.
proof fn lemma_settled_keep(
    grid: &MjGrid,
    f: Field,
    p: Seq<i32>,
    p2: Seq<i32>,
    nbrs: Seq<(i32, i32, i32)>,
    k: int,
    t: int,
)
    requires
        p.len() == p2.len(),
        forall|j: int| 0 <= j < p.len() && p[j] >= 0 ==> #[trigger] p2[j] == p[j],
        forall|m: int| 0 <= m < k ==> #[trigger] neighbor_settled(grid, f, p, nbrs[m], t),
        0 <= k < nbrs.len(),
    ensures
        forall|m: int| 0 <= m < k ==> #[trigger] neighbor_settled(grid, f, p2, nbrs[m], t),
{
    assert forall|m: int| 0 <= m < k implies #[trigger] neighbor_settled(grid, f, p2, nbrs[m], t) by {
        assert(neighbor_settled(grid, f, p, nbrs[m], t));
        let nb = nbrs[m];
        let j = idx3(nb.0 as int, nb.1 as int, nb.2 as int, grid.mx as int, grid.my as int);
        if in_wave(f.substrate, grid.state@[j]) {
            assert(p2[j] == p[j]);
        }
    }
}

/// A handled neighbour is settled.
proof fn lemma_settled_now(
    grid: &MjGrid,
    f: Field,
    p: Seq<i32>,
    q: Seq<(i32, i32, i32, i32)>,
    head: int,
    nb: (i32, i32, i32),
    t: int,
)
    requires
        bfs_inv(grid, f, p, q, head),
        head < q.len(),
        q[head].0 == t,
        ({
            let j = idx3(nb.0 as int, nb.1 as int, nb.2 as int, grid.mx as int, grid.my as int);
            &&& 0 <= j < p.len()
            &&& (p[j] == -1 ==> !in_wave(f.substrate, grid.state@[j]))
        }),
    ensures
        neighbor_settled(grid, f, p, nb, t),
{
    reveal(bfs_inv);
    let mx = grid.mx as int;
    let my = grid.my as int;
    let j = idx3(nb.0 as int, nb.1 as int, nb.2 as int, mx, my);
    if in_wave(f.substrate, grid.state@[j]) {
        assert(p[j] >= -1);
        assert(p[j] >= 0);
        assert(in_queue(q, j, mx, my));
        let k = choose|k: int| 0 <= k < q.len() && cell_of(#[trigger] q[k], mx, my) == j;
        assert(p[j] == q[k].0);
        if k < head {
            assert(q[k].0 <= q[head].0);
        } else {
            assert(q[k].0 <= q[head].0 + 1);
        }
    }
}

/// Once every neighbour of the head entry is settled, the head entry is closed.
proof fn lemma_close_head(
    grid: &MjGrid,
    f: Field,
    p: Seq<i32>,
    q: Seq<(i32, i32, i32, i32)>,
    head: int,
    nbrs: Seq<(i32, i32, i32)>,
)
    requires
        bfs_inv(grid, f, p, q, head),
        head < q.len(),
        grid.mx > 0 && grid.my > 0 && grid.mz > 0,
        grid.mx <= i32::MAX && grid.my <= i32::MAX && grid.mz <= i32::MAX,
        in_grid((q[head].1 as int, q[head].2 as int, q[head].3 as int), grid.mx as int, grid.my as int, grid.mz as int),
        nbrs == spec_neighbors(
            q[head].1 as int,
            q[head].2 as int,
            q[head].3 as int,
            grid.mx as int,
            grid.my as int,
            grid.mz as int,
        ),
        forall|m: int| 0 <= m < nbrs.len() ==> #[trigger] neighbor_settled(grid, f, p, nbrs[m], q[head].0 as int),
    ensures
        bfs_inv(grid, f, p, q, head + 1),
{
    reveal(bfs_inv);
    let mx = grid.mx as int;
    let my = grid.my as int;
    let mz = grid.mz as int;
    let c = (q[head].1 as int, q[head].2 as int, q[head].3 as int);
    lemma_neighbors(c.0, c.1, c.2, mx, my, mz);
    assert forall|k: int, b: (int, int, int)|
        0 <= k < head + 1 && in_grid(b, mx, my, mz) && #[trigger] adjacent(
            b,
            ((q[k].1) as int, (q[k].2) as int, (q[k].3) as int),
        ) && in_wave(f.substrate, grid.state@[idx3(b.0, b.1, b.2, mx, my)]) implies {
        let pb = #[trigger] p[idx3(b.0, b.1, b.2, mx, my)];
        0 <= pb <= q[k].0 + 1
    } by {
        if k == head {
            assert(adjacent((b.0, b.1, b.2), (c.0, c.1, c.2)));
            assert(nbrs.contains((b.0 as i32, b.1 as i32, b.2 as i32)));
            let m = choose|m: int| 0 <= m < nbrs.len() && nbrs[m] == (b.0 as i32, b.1 as i32, b.2 as i32);
            assert(neighbor_settled(grid, f, p, nbrs[m], q[head].0 as int));
        }
    }
    assert forall|b: int| head + 1 <= b < q.len() implies (#[trigger] q[b]).0 <= q[head + 1].0 + 1 by {
        assert(q[b].0 <= q[head].0 + 1);
        assert(q[head].0 <= q[head + 1].0);
    }
}

/// When the queue is exhausted the invariant is the distance-field property.
proof fn lemma_finish(grid: &MjGrid, f: Field, p: Seq<i32>, q: Seq<(i32, i32, i32, i32)>)
    requires
        bfs_inv(grid, f, p, q, q.len() as int),
        grid.wf(),
        grid.mx > 0 && grid.my > 0 && grid.mz > 0,
    ensures
        is_distance_field(grid, f, p),
{
    reveal(bfs_inv);
    let mx = grid.mx as int;
    let my = grid.my as int;
    let mz = grid.mz as int;
    assert forall|a: (int, int, int), b: (int, int, int)|
        in_grid(a, mx, my, mz) && in_grid(b, mx, my, mz) && adjacent(a, b) && #[trigger] p[idx3(
            a.0,
            a.1,
            a.2,
            mx,
            my,
        )] >= 0 && in_wave(f.substrate, grid.state@[idx3(b.0, b.1, b.2, mx, my)]) implies {
        let pb = #[trigger] p[idx3(b.0, b.1, b.2, mx, my)];
        0 <= pb <= p[idx3(a.0, a.1, a.2, mx, my)] + 1
    } by {
        let ai = idx3(a.0, a.1, a.2, mx, my);
        lemma_idx3_bound(a.0, a.1, a.2, mx, my, mz);
        assert(in_queue(q, ai, mx, my));
        let k = choose|k: int| 0 <= k < q.len() && cell_of(#[trigger] q[k], mx, my) == ai;
        let e = q[k];
        assert(in_grid((e.1 as int, e.2 as int, e.3 as int), mx, my, mz));
        lemma_idx3_injective(a.0, a.1, a.2, e.1 as int, e.2 as int, e.3 as int, mx, my);
        assert(adjacent(b, (e.1 as int, e.2 as int, e.3 as int)));
        assert(p[ai] == e.0);
    }
}

/// Whether input cell `di` of the rule is rewritten to a value its input does not accept.
pub open spec fn cell_changes(rule: &MjRule, di: int) -> bool {
    let nv = rule.output@[di];
    nv != 0xff && rule.input@[di] & (1u32 << nv) == 0
}

/// Every rewritten cell of the rule placed at (x, y, z) has a potential row for its
/// present value and one for its new value, both long enough to reach it.
pub open spec fn rows_cover(
    state: Seq<u8>,
    rule: &MjRule,
    x: int,
    y: int,
    z: int,
    pots: Seq<Vec<i32>>,
    mx: int,
    my: int,
) -> bool {
    forall|di: int|
        0 <= di < rule.input@.len() && #[trigger] cell_changes(rule, di) ==> {
            let i = input_cell_index(mx, my, rule, x, y, z, di);
            &&& (state[i] as int) < pots.len()
            &&& i < pots[state[i] as int]@.len()
            &&& i < pots[rule.output@[di] as int]@.len()
        }
}

/// Rows of the grid's length for every value, and values that index a row, cover every
/// placement of a rule inside the grid.
pub proof fn lemma_rows_cover(
    state: Seq<u8>,
    rule: &MjRule,
    x: int,
    y: int,
    z: int,
    pots: Seq<Vec<i32>>,
    mx: int,
    my: int,
)
    requires
        rule.wf(),
        rule.same_size(),
        rule.outputs_below(pots.len() as int),
        mx > 0,
        my > 0,
        0 <= x && x + rule.imx <= mx,
        0 <= y && y + rule.imy <= my,
        0 <= z && (z + rule.imz) * (mx * my) <= state.len(),
        forall|i: int| 0 <= i < state.len() ==> (#[trigger] state[i]) < pots.len(),
        forall|v: int| 0 <= v < pots.len() ==> (#[trigger] pots[v])@.len() == state.len(),
    ensures
        rows_cover(state, rule, x, y, z, pots, mx, my),
{
    let mz = z + rule.imz;
    assert(mx * my * mz == mz * (mx * my)) by (nonlinear_arith);
    assert forall|di: int| 0 <= di < rule.input@.len() && #[trigger] cell_changes(rule, di) implies {
        let i = input_cell_index(mx, my, rule, x, y, z, di);
        &&& (state[i] as int) < pots.len()
        &&& i < pots[state[i] as int]@.len()
        &&& i < pots[rule.output@[di] as int]@.len()
    } by {
        lemma_idx3_inverse(di, rule.imx as int, rule.imy as int);
        lemma_plane_div_bound(di, rule.imx as int, rule.imy as int, rule.imz as int);
        let d = coord_of(di, rule.imx as int, rule.imy as int);
        lemma_idx3_bound(x + d.0, y + d.1, z + d.2, mx, my, mz);
    }
}

/// Grid index under input cell `di` of the rule placed at (x, y, z).
pub open spec fn input_cell_index(mx: int, my: int, rule: &MjRule, x: int, y: int, z: int, di: int) -> int {
    let d = coord_of(di, rule.imx as int, rule.imy as int);
    idx3(x + d.0, y + d.1, z + d.2, mx, my)
}

/// Whether value `v` has an inversed field.
pub open spec fn field_inversed(fields: Option<&[Option<Field>]>, v: int) -> bool {
    match fields {
        Some(fs) => 0 <= v < fs@.len() && fs@[v] is Some && fs@[v]->0.inversed,
        None => false,
    }
}

/// Change of potential from rewriting input cell `di`.
pub open spec fn delta_term(
    state: Seq<u8>,
    rule: &MjRule,
    x: int,
    y: int,
    z: int,
    fields: Option<&[Option<Field>]>,
    pots: Seq<Vec<i32>>,
    mx: int,
    my: int,
    di: int,
) -> int {
    let i = input_cell_index(mx, my, rule, x, y, z, di);
    let nv = rule.output@[di] as int;
    let ov = state[i] as int;
    let np = pots[nv]@[i] as int;
    let op = pots[ov]@[i] as int;
    np - op + (if field_inversed(fields, ov) { 2 * op } else { 0 }) - (if field_inversed(fields, nv) {
        2 * np
    } else {
        0
    })
}

/// Sum of the potential changes over the first `k` input cells.
pub open spec fn delta_upto(
    state: Seq<u8>,
    rule: &MjRule,
    x: int,
    y: int,
    z: int,
    fields: Option<&[Option<Field>]>,
    pots: Seq<Vec<i32>>,
    mx: int,
    my: int,
    k: int,
) -> int
    decreases k,
{
    if k <= 0 {
        0
    } else {
        delta_upto(state, rule, x, y, z, fields, pots, mx, my, k - 1) + if cell_changes(rule, k - 1) {
            delta_term(state, rule, x, y, z, fields, pots, mx, my, k - 1)
        } else {
            0
        }
    }
}

/// Some rewritten cell among the first `k` gets a value whose potential there is -1.
pub open spec fn blocked_upto(
    state: Seq<u8>,
    rule: &MjRule,
    x: int,
    y: int,
    z: int,
    pots: Seq<Vec<i32>>,
    mx: int,
    my: int,
    k: int,
) -> bool {
    exists|di: int|
        0 <= di < k && #[trigger] cell_changes(rule, di) && pots[rule.output@[di] as int]@[input_cell_index(
            mx,
            my,
            rule,
            x,
            y,
            z,
            di,
        )] == -1
}

/// Change in total potential if the rule were applied at (x, y, z): `None` when a rewritten
/// cell would get a value whose potential there is -1 (unreachable).
pub fn delta_pointwise(
    state: &[u8],
    rule: &MjRule,
    x: i32,
    y: i32,
    z: i32,
    fields: Option<&[Option<Field>]>,
    potentials: &[Vec<i32>],
    mx: usize,
    my: usize,
) -> (r: Option<i32>)
    requires
        rule.wf(),
        rule.same_size(),
        rule.outputs_below(potentials@.len() as int),
        rule.outputs_below(32),
        mx > 0,
        my > 0,
        0 <= x && x + rule.imx <= mx,
        0 <= y && y + rule.imy <= my,
        0 <= z && (z + rule.imz) * (mx * my) <= state@.len(),
        rows_cover(state@, rule, x as int, y as int, z as int, potentials@, mx as int, my as int),
        !blocked_upto(state@, rule, x as int, y as int, z as int, potentials@, mx as int, my as int, rule.input@.len() as int)
            ==> i32::MIN <= delta_upto(
            state@,
            rule,
            x as int,
            y as int,
            z as int,
            fields,
            potentials@,
            mx as int,
            my as int,
            rule.input@.len() as int,
        ) <= i32::MAX,
    ensures
        r == (if blocked_upto(state@, rule, x as int, y as int, z as int, potentials@, mx as int, my as int, rule.input@.len() as int) {
            None
        } else {
            Some(delta_upto(state@, rule, x as int, y as int, z as int, fields, potentials@, mx as int, my as int, rule.input@.len() as int) as i32)
        }),
{
    match delta_pointwise_wide(state, rule, x, y, z, fields, potentials, mx, my) {
        Some(sum) => Some(sum as i32),
        None => None,
    }
}

/// Change in total potential if the rule were applied at (x, y, z), in a wide integer:
/// `None` when a rewritten
/// cell would get a value whose potential there is -1 (unreachable).
pub fn delta_pointwise_wide(
    state: &[u8],
    rule: &MjRule,
    x: i32,
    y: i32,
    z: i32,
    fields: Option<&[Option<Field>]>,
    potentials: &[Vec<i32>],
    mx: usize,
    my: usize,
) -> (r: Option<i128>)
    requires
        rule.wf(),
        rule.same_size(),
        rule.outputs_below(potentials@.len() as int),
        rule.outputs_below(32),
        mx > 0,
        my > 0,
        0 <= x && x + rule.imx <= mx,
        0 <= y && y + rule.imy <= my,
        0 <= z && (z + rule.imz) * (mx * my) <= state@.len(),
        rows_cover(state@, rule, x as int, y as int, z as int, potentials@, mx as int, my as int),
    ensures
        r == (if blocked_upto(state@, rule, x as int, y as int, z as int, potentials@, mx as int, my as int, rule.input@.len() as int) {
            None
        } else {
            Some(delta_upto(state@, rule, x as int, y as int, z as int, fields, potentials@, mx as int, my as int, rule.input@.len() as int) as i128)
        }),
{
    let ghost pots = potentials@;
    let ghost mz = z + rule.imz;
    proof {
        lemma_idx3_bound(0, 0, 0, rule.imx as int, rule.imy as int, rule.imz as int);
        lemma_idx3_bound(x as int, y as int, z as int, mx as int, my as int, mz);
        assert(mx * my * mz == mz * (mx * my)) by (nonlinear_arith);
    }
    let ilen = rule.input.len();
    let slen = state.len();
    let plane = rule.imx * rule.imy;
    let gplane = mx * my;
    let xu = x as usize;
    let yu = y as usize;
    let zu = z as usize;
    let mut sum: i128 = 0;
    let mut di: usize = 0;
    while di < rule.input.len()
        invariant
            rule.wf(),
            rule.same_size(),
            rule.outputs_below(pots.len() as int),
            rule.outputs_below(32),
            pots == potentials@,
            slen == state@.len(),
            mx > 0 && my > 0,
            mz == z + rule.imz,
            0 <= x && x + rule.imx <= mx,
            0 <= y && y + rule.imy <= my,
            0 <= z && mz * (mx * my) <= state@.len(),
            xu == x && yu == y && zu == z,
            plane == rule.imx * rule.imy,
            gplane == mx * my,
            rows_cover(state@, rule, x as int, y as int, z as int, pots, mx as int, my as int),
            -(di * 0x8_0000_0000) <= sum <= di * 0x8_0000_0000,
            ilen == rule.input@.len(),
            di <= rule.input@.len(),
            !blocked_upto(state@, rule, x as int, y as int, z as int, pots, mx as int, my as int, di as int),
            sum == delta_upto(state@, rule, x as int, y as int, z as int, fields, pots, mx as int, my as int, di as int),
        decreases rule.input@.len() - di,
    {
        proof {
            lemma_idx3_inverse(di as int, rule.imx as int, rule.imy as int);
            lemma_plane_div_bound(di as int, rule.imx as int, rule.imy as int, rule.imz as int);
            let d = coord_of(di as int, rule.imx as int, rule.imy as int);
            lemma_idx3_bound(x + d.0, y + d.1, z + d.2, mx as int, my as int, mz);
            assert(mx * my * mz == mz * (mx * my)) by (nonlinear_arith);
        }
        let new_value = rule.output[di];
        let dx = di % rule.imx;
        let dy = (di / rule.imx) % rule.imy;
        let dz = di / plane;
        if new_value != 0xff && rule.input[di] & (1u32 << new_value) == 0 {
            let i = (xu + dx) + (yu + dy) * mx + (zu + dz) * gplane;
            assert(i == input_cell_index(mx as int, my as int, rule, x as int, y as int, z as int, di as int));
            assert(cell_changes(rule, di as int));
            let new_potential = potentials[new_value as usize][i];
            if new_potential == -1 {
                assert(cell_changes(rule, di as int));
                return None;
            }
            let old_value = state[i];
            let old_potential = potentials[old_value as usize][i];
            let mut term: i128 = new_potential as i128 - old_potential as i128;
            if let Some(fs) = fields {
                if (old_value as usize) < fs.len() {
                    if let Some(old_field) = &fs[old_value as usize] {
                        if old_field.inversed {
                            term = term + 2 * old_potential as i128;
                        }
                    }
                }
                if (new_value as usize) < fs.len() {
                    if let Some(new_field) = &fs[new_value as usize] {
                        if new_field.inversed {
                            term = term - 2 * new_potential as i128;
                        }
                    }
                }
            }
            assert(term == delta_term(state@, rule, x as int, y as int, z as int, fields, pots, mx as int, my as int, di as int));
            proof {
                assert(!blocked_upto(state@, rule, x as int, y as int, z as int, pots, mx as int, my as int, di + 1)) by {
                    if blocked_upto(state@, rule, x as int, y as int, z as int, pots, mx as int, my as int, di + 1) {
                        let w = choose|w: int|
                            0 <= w < di + 1 && #[trigger] cell_changes(rule, w) && pots[rule.output@[w] as int]@[input_cell_index(
                                mx as int,
                                my as int,
                                rule,
                                x as int,
                                y as int,
                                z as int,
                                w,
                            )] == -1;
                        assert(w < di);
                    }
                }
                assert(-0x8_0000_0000 < term < 0x8_0000_0000);
                assert((di + 1) * 0x8_0000_0000 == di * 0x8_0000_0000 + 0x8_0000_0000) by (nonlinear_arith);
            }
            sum = sum + term;
        } else {
            proof {
                assert(!cell_changes(rule, di as int));
                assert(!blocked_upto(state@, rule, x as int, y as int, z as int, pots, mx as int, my as int, di + 1)) by {
                    if blocked_upto(state@, rule, x as int, y as int, z as int, pots, mx as int, my as int, di + 1) {
                        let w = choose|w: int|
                            0 <= w < di + 1 && #[trigger] cell_changes(rule, w) && pots[rule.output@[w] as int]@[input_cell_index(
                                mx as int,
                                my as int,
                                rule,
                                x as int,
                                y as int,
                                z as int,
                                w,
                            )] == -1;
                        assert(w < di);
                    }
                }
                assert((di + 1) * 0x8_0000_0000 == di * 0x8_0000_0000 + 0x8_0000_0000) by (nonlinear_arith);
            }
        }
        di = di + 1;
    }
    Some(sum)
}


} // verus!
