//! Symmetries and rule patterns of polar grids (rings of cells around a center).
use vstd::prelude::*;
use crate::convolution_node::spec_trim;
use crate::text::{decimal, decimal_string, first_index, spec_split, spec_utf8_len};
use std::collections::hash_map::DefaultHasher;
use std::hash::{Hash, Hasher};

verus! {

/// Neighbors of a polar cell, as (ring, angle) pairs.
#[derive(Debug, Clone, Copy)]
pub struct PolarNeighbors {
    /// Neighbor in the decreasing angle direction (wraps around).
    pub theta_minus: (u8, u16),
    /// Neighbor in the increasing angle direction (wraps around).
    pub theta_plus: (u8, u16),
    /// Inner neighbor (none on the innermost ring).
    pub r_minus: Option<(u8, u16)>,
    /// Outer neighbor (none on the outermost ring).
    pub r_plus: Option<(u8, u16)>,
}

/// The symmetries of a polar neighborhood: mirror across the radial line (angle flip),
/// swap of inner and outer (radial flip), both, or neither.
#[derive(Debug, Clone, Copy, PartialEq, Eq, Structural)]
pub enum PolarSymmetry {
    Identity,
    ThetaFlip,
    RFlip,
    BothFlip,
}

/// Whether a symmetry flips the radial direction.
pub open spec fn flips_r(s: PolarSymmetry) -> bool {
    s is RFlip || s is BothFlip
}

/// Whether a symmetry flips the angle.
pub open spec fn flips_theta(s: PolarSymmetry) -> bool {
    s is ThetaFlip || s is BothFlip
}

/// The symmetry flipping the radial direction when `r` and the angle when `t`.
pub open spec fn symmetry_of(r: bool, t: bool) -> PolarSymmetry {
    if r && t {
        PolarSymmetry::BothFlip
    } else if r {
        PolarSymmetry::RFlip
    } else if t {
        PolarSymmetry::ThetaFlip
    } else {
        PolarSymmetry::Identity
    }
}

/// An offset flipped when `flip` holds.
pub open spec fn flip_if(flip: bool, d: int) -> int {
    if flip {
        -d
    } else {
        d
    }
}

/// A polar rule's input: the center value and the values required of the neighbors
/// (`None` for any value).
#[derive(Debug, Clone, Copy, PartialEq, Eq, Structural, Default)]
pub struct PolarPattern {
    /// Value of the center cell.
    pub center: u8,
    /// Required value of the decreasing-angle neighbor.
    pub theta_minus: Option<u8>,
    /// Required value of the increasing-angle neighbor.
    pub theta_plus: Option<u8>,
    /// Required value of the inner neighbor.
    pub r_minus: Option<u8>,
    /// Required value of the outer neighbor.
    pub r_plus: Option<u8>,
}

/// A pattern transformed by a symmetry: an angle flip swaps the angle neighbors, a
/// radial flip swaps the inner and outer neighbors.
pub open spec fn spec_transform(p: PolarPattern, s: PolarSymmetry) -> PolarPattern {
    PolarPattern {
        center: p.center,
        theta_minus: if flips_theta(s) {
            p.theta_plus
        } else {
            p.theta_minus
        },
        theta_plus: if flips_theta(s) {
            p.theta_minus
        } else {
            p.theta_plus
        },
        r_minus: if flips_r(s) {
            p.r_plus
        } else {
            p.r_minus
        },
        r_plus: if flips_r(s) {
            p.r_minus
        } else {
            p.r_plus
        },
    }
}

/// The symmetries in their listing order.
pub open spec fn symmetry_list() -> Seq<PolarSymmetry> {
    seq![PolarSymmetry::Identity, PolarSymmetry::ThetaFlip, PolarSymmetry::RFlip, PolarSymmetry::BothFlip]
}

/// The distinct transforms of `p` under the first `k` symmetries, in order of first
/// appearance.
pub open spec fn variants_upto(p: PolarPattern, k: int) -> Seq<PolarPattern>
    decreases k,
{
    if k <= 0 {
        Seq::empty()
    } else {
        let prev = variants_upto(p, k - 1);
        let t = spec_transform(p, symmetry_list()[k - 1]);
        if prev.contains(t) {
            prev
        } else {
            prev.push(t)
        }
    }
}

impl PolarSymmetry {
    /// The four symmetries: identity, angle flip, radial flip, both.
    pub fn all() -> (r: [Self; 4])
        ensures
            r@ == symmetry_list(),
    {
        let r = [PolarSymmetry::Identity, PolarSymmetry::ThetaFlip, PolarSymmetry::RFlip, PolarSymmetry::BothFlip];
        assert(r@ =~= symmetry_list());
        r
    }

    /// The offset (dr, dtheta) under this symmetry.
    pub fn transform(&self, dr: i8, dtheta: i8) -> (r: (i8, i8))
        requires
            dr != i8::MIN,
            dtheta != i8::MIN,
        ensures
            r.0 == flip_if(flips_r(*self), dr as int),
            r.1 == flip_if(flips_theta(*self), dtheta as int),
    {
        match self {
            PolarSymmetry::Identity => (dr, dtheta),
            PolarSymmetry::ThetaFlip => (dr, -dtheta),
            PolarSymmetry::RFlip => (-dr, dtheta),
            PolarSymmetry::BothFlip => (-dr, -dtheta),
        }
    }

    /// This symmetry followed by `other`.
    pub fn compose(&self, other: Self) -> (r: Self)
        ensures
            r == symmetry_of(flips_r(*self) != flips_r(other), flips_theta(*self) != flips_theta(other)),
    {
        match (*self, other) {
            (PolarSymmetry::Identity, x) => x,
            (x, PolarSymmetry::Identity) => x,
            (PolarSymmetry::ThetaFlip, PolarSymmetry::ThetaFlip) => PolarSymmetry::Identity,
            (PolarSymmetry::RFlip, PolarSymmetry::RFlip) => PolarSymmetry::Identity,
            (PolarSymmetry::BothFlip, PolarSymmetry::BothFlip) => PolarSymmetry::Identity,
            (PolarSymmetry::ThetaFlip, PolarSymmetry::RFlip) => PolarSymmetry::BothFlip,
            (PolarSymmetry::RFlip, PolarSymmetry::ThetaFlip) => PolarSymmetry::BothFlip,
            (PolarSymmetry::ThetaFlip, PolarSymmetry::BothFlip) => PolarSymmetry::RFlip,
            (PolarSymmetry::BothFlip, PolarSymmetry::ThetaFlip) => PolarSymmetry::RFlip,
            (PolarSymmetry::RFlip, PolarSymmetry::BothFlip) => PolarSymmetry::ThetaFlip,
            (PolarSymmetry::BothFlip, PolarSymmetry::RFlip) => PolarSymmetry::ThetaFlip,
        }
    }

    /// The inverse symmetry: each symmetry undoes itself.
    pub fn inverse(&self) -> (r: Self)
        ensures
            r == *self,
    {
        *self
    }
}

/// Composition of symmetries is the composition of their offset maps, every symmetry is
/// its own inverse, and composition is commutative and associative with the identity as
/// neutral element.
pub proof fn lemma_symmetry_group(a: PolarSymmetry, b: PolarSymmetry, c: PolarSymmetry, dr: int, dt: int)
    ensures
        flip_if(flips_r(symmetry_of(flips_r(a) != flips_r(b), flips_theta(a) != flips_theta(b))), dr) == flip_if(
            flips_r(b),
            flip_if(flips_r(a), dr),
        ),
        flip_if(flips_theta(symmetry_of(flips_r(a) != flips_r(b), flips_theta(a) != flips_theta(b))), dt) == flip_if(
            flips_theta(b),
            flip_if(flips_theta(a), dt),
        ),
        symmetry_of(flips_r(a) != flips_r(a), flips_theta(a) != flips_theta(a)) == PolarSymmetry::Identity,
        symmetry_of(flips_r(a) != flips_r(b), flips_theta(a) != flips_theta(b)) == symmetry_of(
            flips_r(b) != flips_r(a),
            flips_theta(b) != flips_theta(a),
        ),
        symmetry_of(flips_r(a) != false, flips_theta(a) != false) == a,
        ({
            let ab = symmetry_of(flips_r(a) != flips_r(b), flips_theta(a) != flips_theta(b));
            let bc = symmetry_of(flips_r(b) != flips_r(c), flips_theta(b) != flips_theta(c));
            symmetry_of(flips_r(ab) != flips_r(c), flips_theta(ab) != flips_theta(c)) == symmetry_of(
                flips_r(a) != flips_r(bc),
                flips_theta(a) != flips_theta(bc),
            )
        }),
{
}

/// Transforming a pattern twice by the same symmetry gives it back.
pub proof fn lemma_transform_involution(p: PolarPattern, s: PolarSymmetry)
    ensures
        spec_transform(spec_transform(p, s), s) == p,
{
}

impl PolarPattern {
    /// A pattern requiring only the center value.
    pub fn center_only(center: u8) -> (r: Self)
        ensures
            r == (PolarPattern { center, theta_minus: None, theta_plus: None, r_minus: None, r_plus: None }),
    {
        PolarPattern { center, theta_minus: None, theta_plus: None, r_minus: None, r_plus: None }
    }

    /// The pattern under a symmetry.
    pub fn transform(&self, symmetry: PolarSymmetry) -> (r: Self)
        ensures
            r == spec_transform(*self, symmetry),
    {
        match symmetry {
            PolarSymmetry::Identity => *self,
            PolarSymmetry::ThetaFlip => PolarPattern {
                center: self.center,
                theta_minus: self.theta_plus,
                theta_plus: self.theta_minus,
                r_minus: self.r_minus,
                r_plus: self.r_plus,
            },
            PolarSymmetry::RFlip => PolarPattern {
                center: self.center,
                theta_minus: self.theta_minus,
                theta_plus: self.theta_plus,
                r_minus: self.r_plus,
                r_plus: self.r_minus,
            },
            PolarSymmetry::BothFlip => PolarPattern {
                center: self.center,
                theta_minus: self.theta_plus,
                theta_plus: self.theta_minus,
                r_minus: self.r_plus,
                r_plus: self.r_minus,
            },
        }
    }

    /// The distinct transforms of the pattern under the four symmetries, in symmetry order.
    pub fn all_variants(&self) -> (r: Vec<Self>)
        ensures
            r@ == variants_upto(*self, 4),
    {
        let syms = PolarSymmetry::all();
        let mut variants: Vec<PolarPattern> = Vec::new();
        let mut k: usize = 0;
        while k < 4
            invariant
                k <= 4,
                syms@ == symmetry_list(),
                variants@ == variants_upto(*self, k as int),
            decreases 4 - k,
        {
            let t = self.transform(syms[k]);
            let mut seen = false;
            let mut j: usize = 0;
            while j < variants.len()
                invariant
                    j <= variants@.len(),
                    seen <==> exists|q: int| 0 <= q < j && variants@[q] == t,
                decreases variants@.len() - j,
            {
                if variants[j] == t {
                    seen = true;
                }
                j = j + 1;
            }
            if !seen {
                variants.push(t);
            }
            k = k + 1;
        }
        variants
    }
}

/// A polar rewrite rule: where the input matches, the center becomes `output`.
#[derive(Debug, Clone, Copy)]
pub struct PolarRule {
    /// The input pattern.
    pub input: PolarPattern,
    /// The value written to the center.
    pub output: u8,
}

impl PolarRule {
    /// The rule for each distinct symmetry variant of the input, same output.
    pub fn with_all_symmetries(&self) -> (r: Vec<Self>)
        ensures
            r@.len() == variants_upto(self.input, 4).len(),
            forall|i: int|
                0 <= i < r@.len() ==> (#[trigger] r@[i]).input == variants_upto(self.input, 4)[i] && r@[i].output
                    == self.output,
    {
        let vs = self.input.all_variants();
        let mut r: Vec<PolarRule> = Vec::new();
        let mut i: usize = 0;
        while i < vs.len()
            invariant
                i <= vs@.len(),
                vs@ == variants_upto(self.input, 4),
                r@.len() == i,
                forall|k: int| 0 <= k < i ==> (#[trigger] r@[k]).input == vs@[k] && r@[k].output == self.output,
            decreases vs@.len() - i,
        {
            r.push(PolarRule { input: vs[i], output: self.output });
            i = i + 1;
        }
        r
    }
}


/// A polar grid: `r_depth` rings of `theta_divisions` cells each, the same number on every
/// ring, so that cell (r, theta) lies exactly between (r - 1, theta) and (r + 1, theta).
/// Ring `r` has radius `r_min + r`.
#[derive(Debug)]
pub struct PolarMjGrid {
    /// Radius of the innermost ring.
    pub r_min: u32,
    /// Number of rings.
    pub r_depth: u16,
    /// Number of cells on every ring.
    pub theta_divisions: u16,
    /// The cell values: `rings[r][theta]`.
    pub rings: Vec<Vec<u8>>,
}

/// `Hash::hash` of a ring (its length, then its bytes) into `hasher`. What the hasher
/// holds afterwards is not stated.
#[verifier::external_body]
fn hash_ring(ring: &Vec<u8>, hasher: &mut DefaultHasher) {
    ring.hash(hasher);
}

/// The first `k` cells of a grid, ring by ring, as (ring, angle, value) with the ring
/// taken as an 8-bit index.
pub open spec fn cells_upto(g: &PolarMjGrid, k: int) -> Seq<(u8, u16, u8)>
    decreases k,
{
    if k <= 0 {
        Seq::empty()
    } else {
        let td = g.theta_divisions as int;
        let j = k - 1;
        cells_upto(g, k - 1).push((((j / td) % 256) as u8, (j % td) as u16, g.rings@[j / td]@[j % td]))
    }
}

/// Every cell of a grid (see `cells_upto`).
pub open spec fn polar_cells(g: &PolarMjGrid) -> Seq<(u8, u16, u8)> {
    cells_upto(g, g.r_depth as int * g.theta_divisions as int)
}

/// The cells of `s` with a non-zero value, in order.
pub open spec fn nonzero_cells(s: Seq<(u8, u16, u8)>) -> Seq<(u8, u16, u8)>
    decreases s.len(),
{
    if s.len() == 0 {
        Seq::empty()
    } else if s.last().2 != 0 {
        nonzero_cells(s.drop_last()).push(s.last())
    } else {
        nonzero_cells(s.drop_last())
    }
}

/// The number of non-zero values of a ring.
pub open spec fn ring_nonzero(ring: Seq<u8>) -> nat
    decreases ring.len(),
{
    if ring.len() == 0 {
        0
    } else {
        ring_nonzero(ring.drop_last()) + if ring.last() != 0 {
            1nat
        } else {
            0nat
        }
    }
}

/// The number of non-zero values of the first `k` rings.
pub open spec fn rings_nonzero(rings: Seq<Vec<u8>>, k: int) -> nat
    decreases k,
{
    if k <= 0 {
        0
    } else {
        rings_nonzero(rings, k - 1) + ring_nonzero(rings[k - 1]@)
    }
}

/// The neighbors of (r, theta) on a grid of `depth` rings of `td` cells: the cells before
/// and after it on its ring (wrapping), and the cells at the same angle on the rings inside
/// and outside it (none past the innermost or outermost ring).
pub open spec fn spec_neighbors(td: u16, depth: u16, r: u8, theta: u16) -> PolarNeighbors {
    let d = td as int;
    PolarNeighbors {
        theta_minus: (r, ((theta as int % d + d - 1) % d) as u16),
        theta_plus: (r, ((theta as int % d + 1) % d) as u16),
        r_minus: if r > 0 {
            Some(((r - 1) as u8, (theta as int % d) as u16))
        } else {
            None
        },
        r_plus: if (r as int) < depth - 1 {
            Some(((r + 1) as u8, (theta as int % d) as u16))
        } else {
            None
        },
    }
}

/// Radial neighbors are aligned both ways: the inner neighbor of a cell's outer neighbor
/// is the cell itself (its angle taken on the ring), at the same angle.
pub proof fn lemma_radial_neighbors_aligned(td: u16, depth: u16, r: u8, theta: u16)
    requires
        td > 0,
        r < 255,
        (r as int) + 1 < depth,
    ensures
        spec_neighbors(td, depth, r, theta).r_plus == Some(((r + 1) as u8, (theta as int % td as int) as u16)),
        spec_neighbors(td, depth, (r + 1) as u8, (theta as int % td as int) as u16).r_minus == Some(
            (r, (theta as int % td as int) as u16),
        ),
{
    let t = theta as int % td as int;
    vstd::arithmetic::div_mod::lemma_mod_twice(theta as int, td as int);
    assert(t % (td as int) == t);
    assert(0 <= t < td);
    assert(((t as u16) as int) == t);
    assert((((r + 1) as u8) - 1) as u8 == r);
}

impl PolarMjGrid {
    /// Every ring exists and has `theta_divisions` cells, and there is at least one cell
    /// per ring.
    pub open spec fn wf(&self) -> bool {
        &&& self.theta_divisions > 0
        &&& self.rings@.len() == self.r_depth
        &&& forall|r: int| 0 <= r < self.rings@.len() ==> (#[trigger] self.rings@[r])@.len() == self.theta_divisions
    }

    /// The value at (r, theta), the angle taken modulo the ring's cells.
    pub open spec fn cell(&self, r: int, theta: int) -> u8 {
        self.rings@[r]@[theta % (self.theta_divisions as int)]
    }

    /// A grid of `r_depth` rings of `theta_divisions` cells, all zero.
    pub fn with_theta_divisions(r_min: u32, r_depth: u16, theta_divisions: u16) -> (g: Self)
        requires
            theta_divisions > 0,
        ensures
            g.wf(),
            g.r_min == r_min && g.r_depth == r_depth && g.theta_divisions == theta_divisions,
            forall|r: int, t: int| 0 <= r < r_depth && 0 <= t < theta_divisions ==> #[trigger] g.rings@[r]@[t] == 0,
    {
        let mut rings: Vec<Vec<u8>> = Vec::new();
        let mut k: u16 = 0;
        while k < r_depth
            invariant
                k <= r_depth,
                rings@.len() == k,
                forall|r: int| 0 <= r < k ==> (#[trigger] rings@[r])@ == Seq::new(theta_divisions as nat, |i: int| 0u8),
            decreases r_depth - k,
        {
            rings.push(crate::vecs::filled_u8(theta_divisions as usize, 0));
            k = k + 1;
        }
        PolarMjGrid { r_min, r_depth, theta_divisions, rings }
    }

    /// The number of cells on ring `r` (the same on every ring).
    pub fn theta_divisions(&self, r: u8) -> (d: u16)
        ensures
            d == self.theta_divisions,
    {
        self.theta_divisions
    }

    /// The radius of ring `r`.
    pub fn r_actual(&self, r: u8) -> (a: u32)
        requires
            self.r_min + r <= u32::MAX,
        ensures
            a == self.r_min + r,
    {
        self.r_min + r as u32
    }

    /// The value at (r, theta); the angle wraps around the ring.
    pub fn get(&self, r: u8, theta: u16) -> (v: u8)
        requires
            self.wf(),
            r < self.r_depth,
        ensures
            v == self.cell(r as int, theta as int),
    {
        let ring = &self.rings[r as usize];
        ring[(theta as usize) % ring.len()]
    }

    /// Write `value` at (r, theta); the angle wraps around the ring.
    pub fn set(&mut self, r: u8, theta: u16, value: u8)
        requires
            old(self).wf(),
            r < old(self).r_depth,
        ensures
            final(self).wf(),
            final(self).r_min == old(self).r_min && final(self).r_depth == old(self).r_depth,
            final(self).theta_divisions == old(self).theta_divisions,
            final(self).rings@.len() == old(self).rings@.len(),
            final(self).rings@[r as int]@ == old(self).rings@[r as int]@.update(
                theta as int % (old(self).theta_divisions as int),
                value,
            ),
            forall|q: int| 0 <= q < old(self).rings@.len() && q != r ==> #[trigger] final(self).rings@[q] == old(self).rings@[q],
    {
        let mut ring = self.rings[r as usize].clone();
        proof {
            assert(ring@ == old(self).rings@[r as int]@);
        }
        let idx = (theta as usize) % ring.len();
        ring.set(idx, value);
        self.rings.set(r as usize, ring);
        proof {
            assert forall|q: int| 0 <= q < self.rings@.len() implies (#[trigger] self.rings@[q])@.len() == self.theta_divisions by {
                if q != r {
                    assert(self.rings@[q] == old(self).rings@[q]);
                }
            }
        }
    }

    /// The four neighbors of (r, theta): the cells before and after it on its ring
    /// (wrapping), and the cells at the same angle on the rings inside and outside it
    /// (none past the innermost or outermost ring).
    pub fn neighbors(&self, r: u8, theta: u16) -> (n: PolarNeighbors)
        requires
            self.theta_divisions > 0,
            self.r_depth > 0,
            (theta as int % self.theta_divisions as int) + self.theta_divisions <= u16::MAX,
            r < 255 || self.r_depth <= 256,
        ensures
            n == spec_neighbors(self.theta_divisions, self.r_depth, r, theta),
    {
        let td = self.theta_divisions;
        let tw = theta % td;
        assert(tw as int == theta as int % td as int);
        PolarNeighbors {
            theta_minus: (r, (tw + td - 1) % td),
            theta_plus: (r, (tw + 1) % td),
            r_minus: if r > 0 {
                Some((r - 1, tw))
            } else {
                None
            },
            r_plus: if (r as u16) < self.r_depth - 1 {
                Some((r + 1, tw))
            } else {
                None
            },
        }
    }

    /// The number of cells: the rings' lengths added up.
    pub fn total_voxels(&self) -> (n: usize)
        requires
            self.wf(),
        ensures
            n == self.r_depth * self.theta_divisions,
    {
        let mut total: usize = 0;
        let mut k: usize = 0;
        while k < self.rings.len()
            invariant
                self.wf(),
                k <= self.rings@.len(),
                total == k * self.theta_divisions,
            decreases self.rings@.len() - k,
        {
            proof {
                assert(self.rings@[k as int]@.len() == self.theta_divisions);
                assert((k + 1) * self.theta_divisions <= 65535 * 65535) by (nonlinear_arith)
                    requires
                        k < self.rings@.len(),
                        self.rings@.len() == self.r_depth,
                        self.r_depth <= 65535,
                        self.theta_divisions <= 65535,
                ;
                assert((k + 1) * self.theta_divisions == k * self.theta_divisions + self.theta_divisions) by (nonlinear_arith);
            }
            total = total + self.rings[k].len();
            k = k + 1;
        }
        total
    }

    /// The number of non-zero cells.
    pub fn count_nonzero(&self) -> (n: usize)
        requires
            self.wf(),
        ensures
            n == rings_nonzero(self.rings@, self.rings@.len() as int),
    {
        let mut total: usize = 0;
        let mut k: usize = 0;
        while k < self.rings.len()
            invariant
                self.wf(),
                k <= self.rings@.len(),
                total == rings_nonzero(self.rings@, k as int),
                total <= k * self.theta_divisions,
            decreases self.rings@.len() - k,
        {
            let ring = &self.rings[k];
            let mut c: usize = 0;
            let mut i: usize = 0;
            while i < ring.len()
                invariant
                    i <= ring@.len(),
                    c == ring_nonzero(ring@.take(i as int)),
                    c <= i,
                decreases ring@.len() - i,
            {
                proof {
                    assert(ring@.take(i + 1).drop_last() =~= ring@.take(i as int));
                }
                if ring[i] != 0 {
                    c = c + 1;
                }
                i = i + 1;
            }
            proof {
                assert(ring@.take(ring@.len() as int) =~= ring@);
                assert(ring@.len() == self.theta_divisions);
                assert((k + 1) * self.theta_divisions <= 65535 * 65535) by (nonlinear_arith)
                    requires
                        k < self.rings@.len(),
                        self.rings@.len() == self.r_depth,
                        self.r_depth <= 65535,
                        self.theta_divisions <= 65535,
                ;
                assert((k + 1) * self.theta_divisions == k * self.theta_divisions + self.theta_divisions) by (nonlinear_arith);
            }
            total = total + c;
            k = k + 1;
        }
        total
    }

    /// Every cell as (ring, angle, value), ring by ring and by angle within a ring; the
    /// ring taken as an 8-bit index.
    pub fn iter(&self) -> (r: Vec<(u8, u16, u8)>)
        requires
            self.wf(),
        ensures
            r@ == polar_cells(self),
    {
        let td = self.theta_divisions;
        let mut out: Vec<(u8, u16, u8)> = Vec::new();
        let mut k: usize = 0;
        while k < self.rings.len()
            invariant
                self.wf(),
                td == self.theta_divisions,
                k <= self.rings@.len(),
                out@ == cells_upto(self, k as int * td as int),
            decreases self.rings@.len() - k,
        {
            let ring = &self.rings[k];
            let mut t: u16 = 0;
            while t < td
                invariant
                    self.wf(),
                    td == self.theta_divisions,
                    k < self.rings@.len(),
                    *ring == self.rings@[k as int],
                    t <= td,
                    out@ == cells_upto(self, k as int * td as int + t as int),
                decreases td - t,
            {
                proof {
                    let j = k as int * td as int + t as int;
                    vstd::arithmetic::div_mod::lemma_fundamental_div_mod_converse(j, td as int, k as int, t as int);
                    assert(ring@.len() == td);
                }
                #[verifier::truncate]
                let rr = k as u8;
                out.push((rr, t, ring[t as usize]));
                proof {
                    let j = k as int * td as int + t as int;
                    assert(rr as int == (k as int) % 256) by (bit_vector)
                        requires
                            rr == k as u8,
                    ;
                }
                t = t + 1;
            }
            proof {
                assert((k as int + 1) * td as int == k as int * td as int + td as int) by (nonlinear_arith);
            }
            k = k + 1;
        }
        proof {
            assert(self.rings@.len() * td as int == self.r_depth as int * self.theta_divisions as int);
        }
        out
    }

    /// The cells with a non-zero value, in the order of `iter`.
    pub fn iter_nonzero(&self) -> (r: Vec<(u8, u16, u8)>)
        requires
            self.wf(),
        ensures
            r@ == nonzero_cells(polar_cells(self)),
    {
        let all = self.iter();
        let mut out: Vec<(u8, u16, u8)> = Vec::new();
        let mut i: usize = 0;
        while i < all.len()
            invariant
                i <= all@.len(),
                out@ == nonzero_cells(all@.take(i as int)),
            decreases all@.len() - i,
        {
            proof {
                assert(all@.take(i + 1).drop_last() =~= all@.take(i as int));
            }
            if all[i].2 != 0 {
                out.push(all[i]);
            }
            i = i + 1;
        }
        proof {
            assert(all@.take(all@.len() as int) =~= all@);
        }
        out
    }

    /// A checksum of the cell values: std's default hasher fed each ring in turn.
    pub fn checksum(&self) -> (h: u64) {
        let mut hasher = DefaultHasher::new();
        let mut k: usize = 0;
        while k < self.rings.len()
            invariant
                k <= self.rings@.len(),
            decreases self.rings@.len() - k,
        {
            hash_ring(&self.rings[k], &mut hasher);
            k = k + 1;
        }
        hasher.finish()
    }

    /// Set every cell to zero.
    pub fn clear(&mut self)
        requires
            old(self).wf(),
        ensures
            final(self).wf(),
            final(self).r_min == old(self).r_min && final(self).r_depth == old(self).r_depth,
            final(self).theta_divisions == old(self).theta_divisions,
            forall|r: int, t: int|
                0 <= r < final(self).r_depth && 0 <= t < final(self).theta_divisions ==> #[trigger] final(self).rings@[r]@[t] == 0,
    {
        let n = self.rings.len();
        let td = self.theta_divisions;
        let mut k: usize = 0;
        while k < n
            invariant
                n == self.rings@.len(),
                n == self.r_depth,
                td == self.theta_divisions,
                self.wf(),
                self.r_min == old(self).r_min && self.r_depth == old(self).r_depth,
                self.theta_divisions == old(self).theta_divisions,
                k <= n,
                forall|r: int, t: int| 0 <= r < k && 0 <= t < td ==> #[trigger] self.rings@[r]@[t] == 0,
            decreases n - k,
        {
            let ghost before = self.rings@;
            self.rings.set(k, crate::vecs::filled_u8(td as usize, 0));
            proof {
                assert forall|r: int| 0 <= r < self.rings@.len() implies (#[trigger] self.rings@[r])@.len() == self.theta_divisions by {
                    if r != k {
                        assert(self.rings@[r] == before[r]);
                    }
                }
                assert forall|r: int, t: int| 0 <= r < k + 1 && 0 <= t < td implies #[trigger] self.rings@[r]@[t] == 0 by {
                    if r != k {
                        assert(self.rings@[r] == before[r]);
                    }
                }
            }
            k = k + 1;
        }
    }
}

/// Whether a required neighbor value holds: no requirement, or the neighbor exists and
/// holds it.
pub open spec fn neighbor_ok(req: Option<u8>, nb: Option<u8>) -> bool {
    match req {
        None => true,
        Some(v) => nb == Some(v),
    }
}

/// Whether pattern `p` matches grid `g` at (r, theta): the center holds `p.center` and each
/// required neighbor exists and holds its value.
pub open spec fn spec_pattern_matches(p: PolarPattern, g: &PolarMjGrid, r: int, theta: int) -> bool {
    let td = g.theta_divisions as int;
    let t = theta % td;
    &&& g.cell(r, theta) == p.center
    &&& neighbor_ok(p.theta_minus, Some(g.cell(r, (t + td - 1) % td)))
    &&& neighbor_ok(p.theta_plus, Some(g.cell(r, (t + 1) % td)))
    &&& neighbor_ok(p.r_minus, if r > 0 { Some(g.cell(r - 1, t)) } else { None })
    &&& neighbor_ok(p.r_plus, if r < g.r_depth - 1 { Some(g.cell(r + 1, t)) } else { None })
}

impl PolarPattern {
    /// Whether the pattern matches the grid at (r, theta) (see `spec_pattern_matches`).
    pub fn matches(&self, grid: &PolarMjGrid, r: u8, theta: u16) -> (b: bool)
        requires
            grid.wf(),
            r < grid.r_depth,
            (theta as int % grid.theta_divisions as int) + grid.theta_divisions <= u16::MAX,
            r < 255 || grid.r_depth <= 256,
        ensures
            b == spec_pattern_matches(*self, grid, r as int, theta as int),
    {
        if grid.get(r, theta) != self.center {
            return false;
        }
        let nb = grid.neighbors(r, theta);
        let ghost td = grid.theta_divisions as int;
        proof {
            let t = theta as int % td;
            vstd::arithmetic::div_mod::lemma_mod_twice(t + td - 1, td);
            vstd::arithmetic::div_mod::lemma_mod_twice(t + 1, td);
            vstd::arithmetic::div_mod::lemma_mod_twice(theta as int, td);
        }
        if let Some(v) = self.theta_minus {
            if grid.get(nb.theta_minus.0, nb.theta_minus.1) != v {
                return false;
            }
        }
        if let Some(v) = self.theta_plus {
            if grid.get(nb.theta_plus.0, nb.theta_plus.1) != v {
                return false;
            }
        }
        if let Some(required) = self.r_minus {
            match nb.r_minus {
                None => {
                    return false;
                },
                Some((nr, nt)) => {
                    if grid.get(nr, nt) != required {
                        return false;
                    }
                },
            }
        }
        if let Some(required) = self.r_plus {
            match nb.r_plus {
                None => {
                    return false;
                },
                Some((nr, nt)) => {
                    if grid.get(nr, nt) != required {
                        return false;
                    }
                },
            }
        }
        true
    }
}

impl PolarRule {
    /// Whether the rule's input matches the grid at (r, theta).
    pub fn matches(&self, grid: &PolarMjGrid, r: u8, theta: u16) -> (b: bool)
        requires
            grid.wf(),
            r < grid.r_depth,
            (theta as int % grid.theta_divisions as int) + grid.theta_divisions <= u16::MAX,
            r < 255 || grid.r_depth <= 256,
        ensures
            b == spec_pattern_matches(self.input, grid, r as int, theta as int),
    {
        self.input.matches(grid, r, theta)
    }

    /// Write the rule's output at (r, theta), without checking the input.
    pub fn apply(&self, grid: &mut PolarMjGrid, r: u8, theta: u16)
        requires
            old(grid).wf(),
            r < old(grid).r_depth,
        ensures
            final(grid).wf(),
            final(grid).r_min == old(grid).r_min && final(grid).r_depth == old(grid).r_depth,
            final(grid).theta_divisions == old(grid).theta_divisions,
            final(grid).rings@.len() == old(grid).rings@.len(),
            final(grid).rings@[r as int]@ == old(grid).rings@[r as int]@.update(
                theta as int % (old(grid).theta_divisions as int),
                self.output,
            ),
            forall|q: int| 0 <= q < old(grid).rings@.len() && q != r ==> #[trigger] final(grid).rings@[q] == old(grid).rings@[q],
    {
        grid.set(r, theta, self.output);
    }
}


/// The (rule, ring, angle) tried at position `k` of a step's scan: rings outermost, then
/// angles, then rules.
pub open spec fn polar_candidate(td: int, nr: int, k: int) -> (int, int, int) {
    (k % nr, (k / nr) / td, (k / nr) % td)
}

/// The matches among the first `k` candidates of a scan, in scan order.
pub open spec fn polar_matches_upto(g: &PolarMjGrid, rules: Seq<PolarRule>, k: int) -> Seq<(int, int, int)>
    decreases k,
{
    if k <= 0 {
        Seq::empty()
    } else {
        let prev = polar_matches_upto(g, rules, k - 1);
        let c = polar_candidate(g.theta_divisions as int, rules.len() as int, k - 1);
        if spec_pattern_matches(rules[c.0].input, g, c.1, c.2) {
            prev.push(c)
        } else {
            prev
        }
    }
}

/// The rings a step scans: the ring count taken as an 8-bit index.
pub open spec fn scanned_rings(g: &PolarMjGrid) -> int {
    g.r_depth as int % 256
}

/// Every (rule, ring, angle) whose rule matches, in scan order.
pub open spec fn polar_matches(g: &PolarMjGrid, rules: Seq<PolarRule>) -> Seq<(int, int, int)> {
    polar_matches_upto(g, rules, scanned_rings(g) * (g.theta_divisions as int) * rules.len())
}

/// Matches as values.
pub open spec fn match_view(m: Seq<(usize, u8, u16)>) -> Seq<(int, int, int)> {
    Seq::new(m.len(), |i: int| (m[i].0 as int, m[i].1 as int, m[i].2 as int))
}

/// The generator's next state: a 64-bit linear congruential step.
pub open spec fn lcg_next(s: u64) -> u64 {
    ((s as int * 6364136223846793005 + 1) % 0x1_0000_0000_0000_0000) as u64
}

/// A grid after writing `v` at (r, theta): only that cell of that ring changes.
pub open spec fn grid_written(before: &PolarMjGrid, after: &PolarMjGrid, r: int, theta: int, v: u8) -> bool {
    &&& after.wf()
    &&& after.r_min == before.r_min && after.r_depth == before.r_depth
    &&& after.theta_divisions == before.theta_divisions
    &&& after.rings@.len() == before.rings@.len()
    &&& after.rings@[r]@ == before.rings@[r]@.update(theta % (before.theta_divisions as int), v)
    &&& forall|q: int| 0 <= q < before.rings@.len() && q != r ==> #[trigger] after.rings@[q] == before.rings@[q]
}

/// The rendering color of value character `c` at position `i` (past the first): fixed
/// colors for the usual letters, else the `i + 1`-th entry of a small palette, else gray.
pub open spec fn polar_color(c: char, i: int) -> Seq<u8> {
    if c == 'W' || c == 'w' {
        seq![255u8, 241u8, 232u8, 255u8]
    } else if c == 'R' || c == 'r' {
        seq![255u8, 0u8, 77u8, 255u8]
    } else if c == 'G' || c == 'g' {
        seq![0u8, 228u8, 54u8, 255u8]
    } else if c == 'B' || c == 'b' {
        seq![0u8, 0u8, 0u8, 255u8]
    } else if c == 'U' || c == 'u' {
        seq![41u8, 173u8, 255u8, 255u8]
    } else if c == 'Y' || c == 'y' {
        seq![255u8, 236u8, 39u8, 255u8]
    } else if c == 'O' || c == 'o' {
        seq![255u8, 163u8, 0u8, 255u8]
    } else if c == 'P' || c == 'p' {
        seq![126u8, 37u8, 83u8, 255u8]
    } else if i + 1 == 2 {
        seq![255u8, 0u8, 77u8, 255u8]
    } else if i + 1 == 3 {
        seq![0u8, 228u8, 54u8, 255u8]
    } else if i + 1 == 4 {
        seq![41u8, 173u8, 255u8, 255u8]
    } else if i + 1 == 5 {
        seq![255u8, 236u8, 39u8, 255u8]
    } else if i + 1 == 6 {
        seq![255u8, 163u8, 0u8, 255u8]
    } else if i + 1 == 7 {
        seq![131u8, 118u8, 156u8, 255u8]
    } else if i + 1 == 1 {
        seq![255u8, 255u8, 255u8, 255u8]
    } else {
        seq![128u8, 128u8, 128u8, 255u8]
    }
}

/// The rendering color of value character `c` at position `i` (see `polar_color`).
fn polar_color_of(c: char, i: usize) -> (r: [u8; 4])
    ensures
        r@ == polar_color(c, i as int),
{
    let r: [u8; 4] = match c {
        'W' | 'w' => [255, 241, 232, 255],
        'R' | 'r' => [255, 0, 77, 255],
        'G' | 'g' => [0, 228, 54, 255],
        'B' | 'b' => [0, 0, 0, 255],
        'U' | 'u' => [41, 173, 255, 255],
        'Y' | 'y' => [255, 236, 39, 255],
        'O' | 'o' => [255, 163, 0, 255],
        'P' | 'p' => [126, 37, 83, 255],
        _ => {
            let palette: [[u8; 4]; 8] = [
                [0, 0, 0, 0],
                [255, 255, 255, 255],
                [255, 0, 77, 255],
                [0, 228, 54, 255],
                [41, 173, 255, 255],
                [255, 236, 39, 255],
                [255, 163, 0, 255],
                [131, 118, 156, 255],
            ];
            if i < 7 {
                palette[i + 1]
            } else {
                [128, 128, 128, 255]
            }
        },
    };
    assert(r@ =~= polar_color(c, i as int));
    r
}

/// The rules after adding `rule`: the earlier rules, then the rule, or with `expand` each of
/// its distinct symmetry variants in symmetry order.
pub open spec fn rules_added(before: Seq<PolarRule>, after: Seq<PolarRule>, rule: PolarRule, expand: bool) -> bool {
    &&& after.subrange(0, before.len() as int) == before
    &&& expand ==> after.len() == before.len() + variants_upto(rule.input, 4).len() && forall|i: int|
        0 <= i < variants_upto(rule.input, 4).len() ==> (#[trigger] after[before.len() + i]).input == variants_upto(
            rule.input,
            4,
        )[i] && after[before.len() + i].output == rule.output
    &&& !expand ==> after == before.push(rule)
}

/// A model on a polar grid: rules, and a seeded generator that picks one match per step.
#[derive(Debug)]
pub struct PolarModel {
    /// The model's name.
    pub name: String,
    /// The value characters, such as `BW`.
    pub values: String,
    /// The grid.
    pub grid: PolarMjGrid,
    /// The rules, symmetry variants included.
    pub rules: Vec<PolarRule>,
    /// The seed a reset restores.
    pub seed: u64,
    /// The number of steps that applied a rule.
    pub step: usize,
    /// The generator's state.
    pub rng_state: u64,
}

impl PolarModel {
    /// The grid is consistent and its rings are small enough for neighbor angles.
    pub open spec fn wf(&self) -> bool {
        &&& self.grid.wf()
        &&& self.grid.theta_divisions <= 32768
    }

    /// A model named `name` with values `values` on an empty grid of `r_depth` rings of
    /// `theta_divisions` cells from radius `r_min`; no rules, seed 0.
    pub fn new(name: &str, values: &str, r_min: u32, r_depth: u16, theta_divisions: u16) -> (m: Self)
        requires
            0 < theta_divisions <= 32768,
        ensures
            m.wf(),
            m.name@ == name@ && m.values@ == values@,
            m.grid.r_min == r_min && m.grid.r_depth == r_depth && m.grid.theta_divisions == theta_divisions,
            forall|r: int, t: int| 0 <= r < r_depth && 0 <= t < theta_divisions ==> #[trigger] m.grid.rings@[r]@[t] == 0,
            m.rules@.len() == 0,
            m.seed == 0 && m.step == 0 && m.rng_state == 0,
    {
        PolarModel {
            name: name.to_owned(),
            values: values.to_owned(),
            grid: PolarMjGrid::with_theta_divisions(r_min, r_depth, theta_divisions),
            rules: Vec::new(),
            seed: 0,
            step: 0,
            rng_state: 0,
        }
    }

    /// Set the seed and restart the generator from it.
    pub fn set_seed(&mut self, seed: u64)
        ensures
            final(self).seed == seed && final(self).rng_state == seed,
            final(self).grid == old(self).grid && final(self).rules == old(self).rules,
            final(self).step == old(self).step,
            final(self).name == old(self).name && final(self).values == old(self).values,
    {
        self.seed = seed;
        self.rng_state = seed;
    }

    /// Add a rule, or with `expand_symmetries` each of its distinct symmetry variants.
    pub fn add_rule(&mut self, rule: PolarRule, expand_symmetries: bool)
        ensures
            rules_added(old(self).rules@, final(self).rules@, rule, expand_symmetries),
            final(self).grid == old(self).grid,
            final(self).seed == old(self).seed && final(self).rng_state == old(self).rng_state,
            final(self).step == old(self).step,
            final(self).name == old(self).name && final(self).values == old(self).values,
    {
        let ghost r0 = self.rules@;
        if expand_symmetries {
            let mut vs = rule.with_all_symmetries();
            self.rules.append(&mut vs);
        } else {
            self.rules.push(rule);
        }
        proof {
            assert(self.rules@.subrange(0, r0.len() as int) =~= r0);
        }
    }

    /// The generator's next value.
    fn next_random(&mut self) -> (v: u64)
        ensures
            v == lcg_next(old(self).rng_state),
            final(self).rng_state == v,
            final(self).grid == old(self).grid && final(self).rules == old(self).rules,
            final(self).seed == old(self).seed && final(self).step == old(self).step,
            final(self).name == old(self).name && final(self).values == old(self).values,
    {
        let x: u128 = (self.rng_state as u128) * 6364136223846793005u128 + 1;
        let v = (x % 0x1_0000_0000_0000_0000u128) as u64;
        self.rng_state = v;
        v
    }

    /// Clear the grid, zero the step count and restart the generator from the seed.
    pub fn reset(&mut self)
        requires
            old(self).wf(),
        ensures
            final(self).wf(),
            final(self).grid.r_min == old(self).grid.r_min && final(self).grid.r_depth == old(self).grid.r_depth,
            final(self).grid.theta_divisions == old(self).grid.theta_divisions,
            forall|r: int, t: int|
                0 <= r < final(self).grid.r_depth && 0 <= t < final(self).grid.theta_divisions ==> #[trigger] final(self).grid.rings@[r]@[t] == 0,
            final(self).step == 0,
            final(self).rng_state == old(self).seed,
            final(self).seed == old(self).seed && final(self).rules == old(self).rules,
            final(self).name == old(self).name && final(self).values == old(self).values,
    {
        self.grid.clear();
        self.step = 0;
        self.rng_state = self.seed;
    }

    /// Every (rule, ring, angle) at which a rule matches, in scan order.
    fn find_matches(&self) -> (ms: Vec<(usize, u8, u16)>)
        requires
            self.wf(),
        ensures
            match_view(ms@) == polar_matches(&self.grid, self.rules@),
            forall|i: int| 0 <= i < ms@.len() ==> (#[trigger] ms@[i]).0 < self.rules@.len() && (ms@[i].1 as int) < scanned_rings(&self.grid),
    {
        let nr = self.rules.len();
        let td = self.grid.theta_divisions;
        let depth = self.grid.r_depth;
        #[verifier::truncate]
        let rings = depth as u8;
        let ghost g = self.grid;
        let ghost rs = self.rules@;
        let mut ms: Vec<(usize, u8, u16)> = Vec::new();
        let mut r: u8 = 0;
        assert((r as int) * (td as int) * (nr as int) == 0) by (nonlinear_arith)
            requires
                r == 0,
        ;
        assert(match_view(ms@) =~= polar_matches_upto(&g, rs, 0));
        assert(rings as u16 == depth % 256) by (bit_vector)
            requires
                rings == depth as u8,
        ;
        while r < rings
            invariant
                self.wf(),
                nr == rs.len() && td == g.theta_divisions,
                rs == self.rules@ && g == self.grid,
                rings as int == scanned_rings(&g),
                r <= rings,
                match_view(ms@) == polar_matches_upto(&g, rs, (r as int) * (td as int) * (nr as int)),
                forall|i: int| 0 <= i < ms@.len() ==> (#[trigger] ms@[i]).0 < nr && (ms@[i].1 as int) < r,
            decreases rings - r,
        {
            let mut theta: u16 = 0;
            while theta < td
                invariant
                    self.wf(),
                    nr == rs.len() && td == g.theta_divisions,
                    rs == self.rules@ && g == self.grid,
                    rings as int == scanned_rings(&g),
                    r < rings,
                    theta <= td,
                    match_view(ms@) == polar_matches_upto(&g, rs, ((r as int) * (td as int) + theta as int) * (nr as int)),
                    forall|i: int| 0 <= i < ms@.len() ==> (#[trigger] ms@[i]).0 < nr && (ms@[i].1 as int) <= r,
                decreases td - theta,
            {
                let mut k: usize = 0;
                while k < nr
                    invariant
                        self.wf(),
                        nr == rs.len() && td == g.theta_divisions,
                        rs == self.rules@ && g == self.grid,
                        rings as int == scanned_rings(&g),
                        r < rings,
                        theta < td,
                        k <= nr,
                        match_view(ms@) == polar_matches_upto(
                            &g,
                            rs,
                            ((r as int) * (td as int) + theta as int) * (nr as int) + k,
                        ),
                        forall|i: int| 0 <= i < ms@.len() ==> (#[trigger] ms@[i]).0 < nr && (ms@[i].1 as int) <= r,
                    decreases nr - k,
                {
                    let ghost lin = ((r as int) * (td as int) + theta as int) * (nr as int) + k;
                    proof {
                        let q = (r as int) * (td as int) + theta as int;
                        vstd::arithmetic::div_mod::lemma_fundamental_div_mod_converse(lin, nr as int, q, k as int);
                        vstd::arithmetic::div_mod::lemma_fundamental_div_mod_converse(q, td as int, r as int, theta as int);
                        assert(polar_candidate(td as int, nr as int, lin) == (k as int, r as int, theta as int));
                        assert(r < 255u8 || g.r_depth <= 256) by {
                            assert(rings as int == g.r_depth as int % 256);
                        }
                        assert(r < g.r_depth) by {
                            assert(rings as int == g.r_depth as int % 256);
                        }
                    }
                    let ghost m0 = ms@;
                    if self.rules[k].matches(&self.grid, r, theta) {
                        ms.push((k, r, theta));
                        proof {
                            assert(match_view(ms@) =~= match_view(m0).push((k as int, r as int, theta as int)));
                        }
                    }
                    k = k + 1;
                }
                proof {
                    assert(((r as int) * (td as int) + theta as int) * (nr as int) + nr as int == ((r as int) * (td as int)
                        + (theta + 1) as int) * (nr as int)) by (nonlinear_arith);
                }
                theta = theta + 1;
            }
            proof {
                assert(((r as int) * (td as int) + td as int) * (nr as int) == ((r + 1) as int) * (td as int) * (nr as int))
                    by (nonlinear_arith);
                assert((r as int) * (td as int) * (nr as int) == ((r as int) * (td as int) + 0) * (nr as int));
            }
            r = r + 1;
        }
        ms
    }

    /// One step: among every match of every rule, in scan order, the generator picks one
    /// and its rule's output is written there. Returns false, changing nothing, when no rule
    /// matches.
    pub fn step(&mut self) -> (progress: bool)
        requires
            old(self).wf(),
            old(self).step < usize::MAX,
        ensures
            final(self).wf(),
            final(self).rules == old(self).rules && final(self).seed == old(self).seed,
            final(self).name == old(self).name && final(self).values == old(self).values,
            ({
                let ms = polar_matches(&old(self).grid, old(self).rules@);
                if ms.len() == 0 {
                    &&& !progress
                    &&& final(self).grid == old(self).grid
                    &&& final(self).rng_state == old(self).rng_state
                    &&& final(self).step == old(self).step
                } else {
                    let x = lcg_next(old(self).rng_state);
                    let m = ms[(x as int) % (ms.len() as int)];
                    &&& progress
                    &&& final(self).rng_state == x
                    &&& final(self).step == old(self).step + 1
                    &&& grid_written(&old(self).grid, &final(self).grid, m.1, m.2, old(self).rules@[m.0].output)
                }
            }),
    {
        let ms = self.find_matches();
        if ms.len() == 0 {
            return false;
        }
        let x = self.next_random();
        let idx = (x % (ms.len() as u64)) as usize;
        let (rule_idx, r, theta) = ms[idx];
        proof {
            assert(match_view(ms@)[idx as int] == (rule_idx as int, r as int, theta as int));
            assert(r < self.grid.r_depth) by {
                assert((r as int) < (self.grid.r_depth as int) % 256);
            }
        }
        let rule = self.rules[rule_idx];
        rule.apply(&mut self.grid, r, theta);
        self.step = self.step + 1;
        true
    }

    /// Step until no rule matches or `max_steps` steps have applied a rule; returns the
    /// number of steps taken.
    pub fn run(&mut self, max_steps: usize) -> (n: usize)
        requires
            old(self).wf(),
            old(self).step + max_steps <= usize::MAX,
        ensures
            final(self).wf(),
            n <= max_steps,
            final(self).step == old(self).step + n,
            n < max_steps ==> polar_matches(&final(self).grid, final(self).rules@).len() == 0,
            final(self).rules == old(self).rules && final(self).seed == old(self).seed,
            final(self).grid.r_depth == old(self).grid.r_depth,
            final(self).grid.theta_divisions == old(self).grid.theta_divisions,
    {
        let mut steps: usize = 0;
        while steps < max_steps
            invariant
                self.wf(),
                steps <= max_steps,
                self.step == old(self).step + steps,
                old(self).step + max_steps <= usize::MAX,
                self.rules == old(self).rules && self.seed == old(self).seed,
                self.grid.r_depth == old(self).grid.r_depth,
                self.grid.theta_divisions == old(self).grid.theta_divisions,
            decreases max_steps - steps,
        {
            if !self.step() {
                return steps;
            }
            steps = steps + 1;
        }
        steps
    }

    /// Rendering colors: transparent for value 0, then one color per further value
    /// character (see `polar_color`).
    pub fn colors(&self) -> (r: Vec<[u8; 4]>)
        ensures
            r@.len() == if self.values@.len() == 0 { 1 } else { self.values@.len() as int },
            r@[0]@ == seq![0u8, 0u8, 0u8, 0u8],
            forall|i: int| 1 <= i < self.values@.len() ==> (#[trigger] r@[i])@ == polar_color(self.values@[i], i),
    {
        let cs = crate::vecs::str_chars(self.values.as_str());
        let mut colors: Vec<[u8; 4]> = Vec::new();
        colors.push([0, 0, 0, 0]);
        let mut i: usize = 1;
        while i < cs.len()
            invariant
                cs@ == self.values@,
                1 <= i,
                i <= cs@.len() || cs@.len() == 0,
                cs@.len() == 0 ==> i == 1,
                colors@.len() == i,
                colors@[0]@ == seq![0u8, 0u8, 0u8, 0u8],
                forall|k: int| 1 <= k < i ==> (#[trigger] colors@[k])@ == polar_color(self.values@[k], k),
            decreases cs@.len() - i,
        {
            let c = polar_color_of(cs[i], i);
            colors.push(c);
            i = i + 1;
        }
        assert(cs@.len() == 0 ==> i == 1);
        assert(cs@.len() > 0 ==> i == cs@.len());
        colors
    }

    /// Write `value` at (r, theta).
    pub fn seed_cell(&mut self, r: u8, theta: u16, value: u8)
        requires
            old(self).wf(),
            r < old(self).grid.r_depth,
        ensures
            final(self).wf(),
            grid_written(&old(self).grid, &final(self).grid, r as int, theta as int, value),
            final(self).rules == old(self).rules && final(self).seed == old(self).seed,
            final(self).rng_state == old(self).rng_state && final(self).step == old(self).step,
    {
        self.grid.set(r, theta, value);
    }

    /// Write `value` on every cell of ring `r`.
    pub fn fill_ring(&mut self, r: u8, value: u8)
        requires
            old(self).wf(),
            r < old(self).grid.r_depth,
        ensures
            final(self).wf(),
            final(self).grid.r_min == old(self).grid.r_min && final(self).grid.r_depth == old(self).grid.r_depth,
            final(self).grid.theta_divisions == old(self).grid.theta_divisions,
            final(self).grid.rings@[r as int]@ == Seq::new(old(self).grid.theta_divisions as nat, |i: int| value),
            forall|q: int|
                0 <= q < old(self).grid.rings@.len() && q != r ==> #[trigger] final(self).grid.rings@[q] == old(self).grid.rings@[q],
            final(self).rules == old(self).rules && final(self).seed == old(self).seed,
            final(self).rng_state == old(self).rng_state && final(self).step == old(self).step,
    {
        let divs = self.grid.theta_divisions(r);
        let mut theta: u16 = 0;
        while theta < divs
            invariant
                self.wf(),
                divs == self.grid.theta_divisions,
                r < self.grid.r_depth,
                theta <= divs,
                self.grid.r_min == old(self).grid.r_min && self.grid.r_depth == old(self).grid.r_depth,
                self.grid.theta_divisions == old(self).grid.theta_divisions,
                self.grid.rings@.len() == old(self).grid.rings@.len(),
                forall|t: int| 0 <= t < theta ==> #[trigger] self.grid.rings@[r as int]@[t] == value,
                forall|q: int|
                    0 <= q < old(self).grid.rings@.len() && q != r ==> #[trigger] self.grid.rings@[q] == old(self).grid.rings@[q],
                self.rules == old(self).rules && self.seed == old(self).seed,
                self.rng_state == old(self).rng_state && self.step == old(self).step,
            decreases divs - theta,
        {
            let ghost before = self.grid.rings@[r as int]@;
            self.grid.set(r, theta, value);
            proof {
                vstd::arithmetic::div_mod::lemma_small_mod(theta as nat, divs as nat);
                assert forall|t: int| 0 <= t < theta + 1 implies #[trigger] self.grid.rings@[r as int]@[t] == value by {
                    if t != theta {
                        assert(self.grid.rings@[r as int]@[t] == before[t]);
                    }
                }
            }
            theta = theta + 1;
        }
        assert(self.grid.rings@[r as int]@ =~= Seq::new(old(self).grid.theta_divisions as nat, |i: int| value));
    }

    /// Write `value` on every cell of the innermost ring.
    pub fn seed_inner_ring(&mut self, value: u8)
        requires
            old(self).wf(),
            old(self).grid.r_depth > 0,
        ensures
            final(self).wf(),
            final(self).grid.rings@[0]@ == Seq::new(old(self).grid.theta_divisions as nat, |i: int| value),
            forall|q: int| 0 < q < old(self).grid.rings@.len() ==> #[trigger] final(self).grid.rings@[q] == old(self).grid.rings@[q],
            final(self).rules == old(self).rules && final(self).seed == old(self).seed,
            final(self).rng_state == old(self).rng_state && final(self).step == old(self).step,
    {
        self.fill_ring(0, value);
    }
}


/// The first position from `k` where `->` starts, or -1.
pub open spec fn arrow_from(s: Seq<char>, k: int) -> int
    decreases s.len() - k,
{
    if k < 0 || k + 1 >= s.len() {
        -1
    } else if s[k] == '-' && s[k + 1] == '>' {
        k
    } else {
        arrow_from(s, k + 1)
    }
}

/// A value written in a rule: a number from 0 to 255, or the single-byte character at
/// that position of `values` (the position taken modulo 256); otherwise a message.
pub open spec fn polar_value(values: Seq<char>, s: Seq<char>) -> Result<u8, Seq<char>> {
    let n = crate::convolution_node::spec_parse_usize(s);
    if n is Some && n->0 <= 255 {
        Ok(n->0 as u8)
    } else if spec_utf8_len(s) == 1 {
        let k = first_index(values, s[0]);
        if k >= 0 {
            Ok((k % 256) as u8)
        } else {
            Err("Unknown character '"@ + s + "' (values='"@ + values + "')"@)
        }
    } else {
        Err("Cannot parse value '"@ + s + "'"@)
    }
}

/// A neighbor requirement written in a rule: `*` or `-` for none, else a value.
pub open spec fn polar_optional(values: Seq<char>, s: Seq<char>) -> Result<Option<u8>, Seq<char>> {
    if s == "*"@ || s == "-"@ {
        Ok(None)
    } else {
        match polar_value(values, s) {
            Ok(v) => Ok(Some(v)),
            Err(m) => Err(m),
        }
    }
}

/// The rule written as `center;theta-,theta+,r-,r+ -> output`, pieces trimmed, or the
/// message of the first fault.
pub open spec fn polar_rule_text(values: Seq<char>, s: Seq<char>) -> Result<PolarRule, Seq<char>> {
    let p = arrow_from(s, 0);
    if p < 0 || arrow_from(s, p + 2) >= 0 {
        Err("Invalid rule format: expected 'input -> output', got '"@ + s + "'"@)
    } else {
        let input = spec_trim(s.subrange(0, p));
        let output = spec_trim(s.subrange(p + 2, s.len() as int));
        match polar_value(values, output) {
            Err(m) => Err(m),
            Ok(out) => {
                let parts = spec_split(input, ';');
                if parts.len() != 2 {
                    Err("Invalid input format: expected 'center;neighbors', got '"@ + input + "'"@)
                } else {
                    match polar_value(values, spec_trim(parts[0])) {
                        Err(m) => Err(m),
                        Ok(center) => {
                            let nb = spec_split(spec_trim(parts[1]), ',');
                            if nb.len() != 4 {
                                Err("Invalid neighbors: expected 4 (theta-,theta+,r-,r+), got "@ + decimal(nb.len()))
                            } else {
                                match (
                                    polar_optional(values, spec_trim(nb[0])),
                                    polar_optional(values, spec_trim(nb[1])),
                                    polar_optional(values, spec_trim(nb[2])),
                                    polar_optional(values, spec_trim(nb[3])),
                                ) {
                                    (Err(m), _, _, _) => Err(m),
                                    (Ok(_), Err(m), _, _) => Err(m),
                                    (Ok(_), Ok(_), Err(m), _) => Err(m),
                                    (Ok(_), Ok(_), Ok(_), Err(m)) => Err(m),
                                    (Ok(a), Ok(b), Ok(c), Ok(d)) => Ok(
                                        PolarRule {
                                            input: PolarPattern { center, theta_minus: a, theta_plus: b, r_minus: c, r_plus: d },
                                            output: out,
                                        },
                                    ),
                                }
                            }
                        },
                    }
                }
            },
        }
    }
}

/// The first position from `k` where `->` starts, if any.
fn find_arrow(s: &Vec<char>, k: usize) -> (r: Option<usize>)
    requires
        k <= s@.len(),
    ensures
        r matches Some(p) ==> arrow_from(s@, k as int) == p,
        r is None ==> arrow_from(s@, k as int) == -1,
    decreases s@.len() - k,
{
    if k >= s.len() || s.len() - k < 2 {
        None
    } else if s[k] == '-' && s[k + 1] == '>' {
        Some(k)
    } else {
        find_arrow(s, k + 1)
    }
}

/// A result with its message as a value.
pub open spec fn msg_view<T>(r: Result<T, String>) -> Result<T, Seq<char>> {
    match r {
        Ok(v) => Ok(v),
        Err(m) => Err(m@),
    }
}

/// A single character has one UTF-8 byte exactly when its width is one; other lengths
/// never do.
proof fn lemma_one_byte(s: Seq<char>)
    ensures
        spec_utf8_len(s) == 1 <==> (s.len() == 1 && crate::text::spec_char_width(s[0]) == 1),
{
    if s.len() >= 2 {
        crate::text::lemma_utf8_len_ge(s);
    } else if s.len() == 1 {
        assert(s.drop_last() =~= Seq::<char>::empty());
        assert(spec_utf8_len(s.drop_last()) == 0);
        assert(s.last() == s[0]);
    }
}

impl PolarModel {
    /// A value written in a rule (see `polar_value`).
    fn parse_value(&self, s: &Vec<char>) -> (r: Result<u8, String>)
        ensures
            msg_view(r) == polar_value(self.values@, s@),
    {
        match crate::convolution_node::parse_usize(s) {
            Some(v) => {
                if v <= 255 {
                    return Ok(v as u8);
                }
                assert(!(crate::convolution_node::spec_parse_usize(s@) is Some && crate::convolution_node::spec_parse_usize(s@)->0 <= 255));
            },
            None => {},
        }
        proof {
            lemma_one_byte(s@);
        }
        if s.len() == 1 && crate::text::char_width(s[0]) == 1 {
            let vs = crate::vecs::str_chars(self.values.as_str());
            let vl = vs.len();
            proof {
                assert(vs@ == self.values@);
                assert(spec_utf8_len(s@) == 1);
                crate::text::lemma_first_index(vs@, s@[0]);
            }
            match crate::text::find_char(&vs, s[0]) {
                Some(k) => {
                    assert(first_index(self.values@, s@[0]) == k as int);
                    Ok((k % 256) as u8)
                },
                None => Err(
                    String::from_str("Unknown character '").concat(crate::text::chars_to_string(s.as_slice()).as_str()).concat(
                        "' (values='",
                    ).concat(self.values.as_str()).concat("')"),
                ),
            }
        } else {
            Err(String::from_str("Cannot parse value '").concat(crate::text::chars_to_string(s.as_slice()).as_str()).concat("'"))
        }
    }

    /// A neighbor requirement written in a rule (see `polar_optional`).
    fn parse_optional_value(&self, s: &Vec<char>) -> (r: Result<Option<u8>, String>)
        ensures
            msg_view(r) == polar_optional(self.values@, s@),
    {
        proof {
            reveal_strlit("*");
            reveal_strlit("-");
        }
        if s.len() == 1 && (s[0] == '*' || s[0] == '-') {
            proof {
                if s[0] == '*' {
                    assert(s@ =~= "*"@);
                } else {
                    assert(s@ =~= "-"@);
                }
            }
            return Ok(None);
        }
        proof {
            assert(s@ != "*"@ && s@ != "-"@) by {
                if s@ == "*"@ {
                    assert(s@[0] == '*');
                }
                if s@ == "-"@ {
                    assert(s@[0] == '-');
                }
            }
        }
        let v = self.parse_value(s)?;
        Ok(Some(v))
    }

    /// The rule a string writes (see `polar_rule_text`).
    fn parse_rule(&self, rule_str: &str) -> (r: Result<PolarRule, String>)
        ensures
            msg_view(r) == polar_rule_text(self.values@, rule_str@),
    {
        let cs = crate::vecs::str_chars(rule_str);
        let n = cs.len();
        let bad_format = Err(
            String::from_str("Invalid rule format: expected 'input -> output', got '").concat(rule_str).concat("'"),
        );
        let p = match find_arrow(&cs, 0) {
            Some(p) => p,
            None => {
                return bad_format;
            },
        };
        proof {
            assert(0 <= p && p + 1 < cs@.len()) by {
                lemma_arrow_bound(cs@, 0);
            }
        }
        assert(p + 2 <= n);
        if find_arrow(&cs, p + 2).is_some() {
            return bad_format;
        }
        let input = crate::convolution_node::trim_chars(&crate::text::sub_chars(&cs, 0, p));
        let output = crate::convolution_node::trim_chars(&crate::text::sub_chars(&cs, p + 2, cs.len()));
        let out = self.parse_value(&output)?;
        let parts = crate::text::split_chars(&input, ';');
        if parts.len() != 2 {
            return Err(
                String::from_str("Invalid input format: expected 'center;neighbors', got '").concat(
                    crate::text::chars_to_string(input.as_slice()).as_str(),
                ).concat("'"),
            );
        }
        let center = self.parse_value(&crate::convolution_node::trim_chars(&parts[0]))?;
        let nb = crate::text::split_chars(&crate::convolution_node::trim_chars(&parts[1]), ',');
        if nb.len() != 4 {
            return Err(
                String::from_str("Invalid neighbors: expected 4 (theta-,theta+,r-,r+), got ").concat(
                    decimal_string(nb.len()).as_str(),
                ),
            );
        }
        let a = self.parse_optional_value(&crate::convolution_node::trim_chars(&nb[0]))?;
        let b = self.parse_optional_value(&crate::convolution_node::trim_chars(&nb[1]))?;
        let c = self.parse_optional_value(&crate::convolution_node::trim_chars(&nb[2]))?;
        let d = self.parse_optional_value(&crate::convolution_node::trim_chars(&nb[3]))?;
        Ok(PolarRule { input: PolarPattern { center, theta_minus: a, theta_plus: b, r_minus: c, r_plus: d }, output: out })
    }

    /// Parse a rule written as `center;theta-,theta+,r-,r+ -> output` (values as numbers or
    /// characters, `*` or `-` for no requirement) and add it as `add_rule` does; the message
    /// of the first fault otherwise, with the model unchanged.
    pub fn add_rule_str(&mut self, rule_str: &str, expand_symmetries: bool) -> (r: Result<(), String>)
        ensures
            final(self).grid == old(self).grid,
            final(self).seed == old(self).seed && final(self).rng_state == old(self).rng_state,
            final(self).step == old(self).step,
            final(self).name == old(self).name && final(self).values == old(self).values,
            match polar_rule_text(old(self).values@, rule_str@) {
                Err(m) => r matches Err(e) && e@ == m && final(self).rules == old(self).rules,
                Ok(rule) => r is Ok && rules_added(old(self).rules@, final(self).rules@, rule, expand_symmetries),
            },
    {
        let rule = self.parse_rule(rule_str)?;
        self.add_rule(rule, expand_symmetries);
        Ok(())
    }
}

/// The first `->` found is inside the text.
proof fn lemma_arrow_bound(s: Seq<char>, k: int)
    ensures
        arrow_from(s, k) >= 0 ==> k <= arrow_from(s, k) && arrow_from(s, k) + 1 < s.len(),
    decreases s.len() - k,
{
    if k >= 0 && k + 1 < s.len() && !(s[k] == '-' && s[k + 1] == '>') {
        lemma_arrow_bound(s, k + 1);
    }
}

} // verus!
