//! Matching a rule's input pattern against a grid, and writing its output pattern.
use vstd::prelude::*;
use crate::geom::{idx3, lemma_idx3_bound, lemma_idx3_injective, lemma_idx3_inverse};
use crate::grid::{lemma_plane_div_bound, MjGrid};
use crate::rule::{coord_of, MjRule};

verus! {

/// The rule's input block placed at (x, y, z) lies inside a grid of the given size.
pub open spec fn input_fits(rule: &MjRule, x: int, y: int, z: int, mx: int, my: int, mz: int) -> bool {
    &&& 0 <= x && 0 <= y && 0 <= z
    &&& x + rule.imx <= mx && y + rule.imy <= my && z + rule.imz <= mz
}

/// The rule's output block placed at (x, y, z) lies inside a grid of the given size.
pub open spec fn output_fits(rule: &MjRule, x: int, y: int, z: int, mx: int, my: int, mz: int) -> bool {
    &&& 0 <= x && 0 <= y && 0 <= z
    &&& x + rule.omx <= mx && y + rule.omy <= my && z + rule.omz <= mz
}

/// Whether input cell `di` of the rule accepts the grid value under it at (x, y, z).
pub open spec fn input_cell_ok(state: Seq<u8>, mx: int, my: int, rule: &MjRule, x: int, y: int, z: int, di: int) -> bool {
    let d = coord_of(di, rule.imx as int, rule.imy as int);
    let v = state[idx3(x + d.0, y + d.1, z + d.2, mx, my)];
    rule.input@[di] & (1u32 << v) != 0
}

/// Every input cell of the rule accepts the grid value under it at (x, y, z).
pub open spec fn pattern_matches(state: Seq<u8>, mx: int, my: int, rule: &MjRule, x: int, y: int, z: int) -> bool {
    forall|di: int| 0 <= di < rule.input@.len() ==> #[trigger] input_cell_ok(state, mx, my, rule, x, y, z, di)
}

/// The rule matches the grid at (x, y, z): it fits and every input cell accepts its value.
pub open spec fn spec_matches(grid: &MjGrid, rule: &MjRule, x: int, y: int, z: int) -> bool {
    &&& input_fits(rule, x, y, z, grid.mx as int, grid.my as int, grid.mz as int)
    &&& pattern_matches(grid.state@, grid.mx as int, grid.my as int, rule, x, y, z)
}

/// Offset index, within the output block placed at (x, y, z), of grid cell `i`; -1 outside.
pub open spec fn footprint_offset(i: int, mx: int, my: int, rule: &MjRule, x: int, y: int, z: int) -> int {
    let cx = i % mx;
    let cy = (i / mx) % my;
    let cz = i / (mx * my);
    if x <= cx < x + rule.omx && y <= cy < y + rule.omy && z <= cz < z + rule.omz {
        idx3(cx - x, cy - y, cz - z, rule.omx as int, rule.omy as int)
    } else {
        -1
    }
}

/// The state after writing the first `k` output cells of the rule at (x, y, z).
pub open spec fn applied_upto(state: Seq<u8>, mx: int, my: int, rule: &MjRule, x: int, y: int, z: int, k: int) -> Seq<u8> {
    Seq::new(
        state.len(),
        |i: int|
            {
                let o = footprint_offset(i, mx, my, rule, x, y, z);
                if 0 <= o < k && rule.output@[o] != 0xff {
                    rule.output@[o]
                } else {
                    state[i]
                }
            },
    )
}

/// The state after writing the rule's output at (x, y, z); 0xff cells are left unchanged.
pub open spec fn spec_apply(state: Seq<u8>, mx: int, my: int, rule: &MjRule, x: int, y: int, z: int) -> Seq<u8> {
    applied_upto(state, mx, my, rule, x, y, z, rule.output@.len() as int)
}

/// Grid cell under output cell `di` of a rule placed at (x, y, z).
pub open spec fn output_cell_index(mx: int, my: int, rule: &MjRule, x: int, y: int, z: int, di: int) -> int {
    let d = coord_of(di, rule.omx as int, rule.omy as int);
    idx3(x + d.0, y + d.1, z + d.2, mx, my)
}

/// The grid cell under output cell `di` is in the grid and has footprint offset `di`; no
/// other cell has that offset.
pub proof fn lemma_output_cell(mx: int, my: int, mz: int, rule: &MjRule, x: int, y: int, z: int, di: int)
    requires
        rule.wf(),
        output_fits(rule, x, y, z, mx, my, mz),
        0 <= di < rule.output@.len(),
    ensures
        0 <= output_cell_index(mx, my, rule, x, y, z, di) < mx * my * mz,
        footprint_offset(output_cell_index(mx, my, rule, x, y, z, di), mx, my, rule, x, y, z) == di,
        forall|i: int|
            0 <= i < mx * my * mz && i != output_cell_index(mx, my, rule, x, y, z, di)
                ==> footprint_offset(i, mx, my, rule, x, y, z) != di,
{
    let omx = rule.omx as int;
    let omy = rule.omy as int;
    let omz = rule.omz as int;
    lemma_idx3_inverse(di, omx, omy);
    lemma_plane_div_bound(di, omx, omy, omz);
    let d = coord_of(di, omx, omy);
    let j = output_cell_index(mx, my, rule, x, y, z, di);
    lemma_idx3_bound(x + d.0, y + d.1, z + d.2, mx, my, mz);
    lemma_idx3_inverse(j, mx, my);
    lemma_idx3_injective(j % mx, (j / mx) % my, j / (mx * my), x + d.0, y + d.1, z + d.2, mx, my);
    assert forall|i: int|
        0 <= i < mx * my * mz && i != j implies footprint_offset(i, mx, my, rule, x, y, z) != di by {
        if footprint_offset(i, mx, my, rule, x, y, z) == di {
            lemma_idx3_inverse(i, mx, my);
            let cx = i % mx;
            let cy = (i / mx) % my;
            let cz = i / (mx * my);
            lemma_idx3_injective(cx - x, cy - y, cz - z, d.0 as int, d.1 as int, d.2 as int, omx, omy);
        }
    }
}

impl MjGrid {
    /// Whether the rule matches at (x, y, z): the input block fits in the grid and every
    /// input wave accepts the value beneath it.
    pub fn matches(&self, rule: &MjRule, x: i32, y: i32, z: i32) -> (r: bool)
        requires
            self.wf(),
            rule.wf(),
            self.cells_below(32),
        ensures
            r == spec_matches(self, rule, x as int, y as int, z as int),
    {
        if x < 0 || y < 0 || z < 0 {
            return false;
        }
        let xu = x as usize;
        let yu = y as usize;
        let zu = z as usize;
        if xu > self.mx || rule.imx > self.mx - xu || yu > self.my || rule.imy > self.my - yu || zu
            > self.mz || rule.imz > self.mz - zu {
            return false;
        }
        let n = self.state.len();
        let ilen = rule.input.len();
        proof {
            lemma_idx3_bound(0, 0, 0, rule.imx as int, rule.imy as int, rule.imz as int);
            lemma_idx3_bound(xu as int, yu as int, zu as int, self.mx as int, self.my as int, self.mz as int);
        }
        let plane = rule.imx * rule.imy;
        let gplane = self.mx * self.my;
        let mut di: usize = 0;
        while di < rule.input.len()
            invariant
                self.wf(),
                rule.wf(),
                self.cells_below(32),
                n == self.state@.len(),
                input_fits(rule, x as int, y as int, z as int, self.mx as int, self.my as int, self.mz as int),
                plane == rule.imx * rule.imy,
                gplane == self.mx * self.my,
                xu == x && yu == y && zu == z,
                di <= rule.input@.len(),
                forall|k: int| 0 <= k < di ==> #[trigger] input_cell_ok(self.state@, self.mx as int, self.my as int, rule, x as int, y as int, z as int, k),
            decreases rule.input@.len() - di,
        {
            proof {
                lemma_idx3_inverse(di as int, rule.imx as int, rule.imy as int);
                lemma_plane_div_bound(di as int, rule.imx as int, rule.imy as int, rule.imz as int);
                let d = coord_of(di as int, rule.imx as int, rule.imy as int);
                lemma_idx3_bound(x + d.0, y + d.1, z + d.2, self.mx as int, self.my as int, self.mz as int);
            }
            let dx = di % rule.imx;
            let dy = (di / rule.imx) % rule.imy;
            let dz = di / plane;
            proof {
                let d = coord_of(di as int, rule.imx as int, rule.imy as int);
                assert(dx == d.0 && dy == d.1 && dz == d.2);
            }
            let gi = (xu + dx) + (yu + dy) * self.mx + (zu + dz) * gplane;
            let v = self.state[gi];
            if rule.input[di] & (1u32 << v) == 0 {
                assert(!input_cell_ok(self.state@, self.mx as int, self.my as int, rule, x as int, y as int, z as int, di as int));
                return false;
            }
            di = di + 1;
        }
        true
    }

    /// Write the rule's output at (x, y, z); 0xff output cells leave the grid unchanged.
    pub fn apply(&mut self, rule: &MjRule, x: usize, y: usize, z: usize)
        requires
            old(self).wf(),
            rule.wf(),
            output_fits(rule, x as int, y as int, z as int, old(self).mx as int, old(self).my as int, old(self).mz as int),
        ensures
            final(self).wf(),
            final(self).state@ == spec_apply(old(self).state@, old(self).mx as int, old(self).my as int, rule, x as int, y as int, z as int),
            final(self).mask@ == old(self).mask@,
            final(self).mx == old(self).mx,
            final(self).my == old(self).my,
            final(self).mz == old(self).mz,
            final(self).c == old(self).c,
            final(self).characters@ == old(self).characters@,
            final(self).waves@ == old(self).waves@,
    {
        let ghost old_state = self.state@;
        let n = self.state.len();
        let olen = rule.output.len();
        proof {
            lemma_idx3_bound(0, 0, 0, rule.omx as int, rule.omy as int, rule.omz as int);
            lemma_idx3_bound(x as int, y as int, z as int, self.mx as int, self.my as int, self.mz as int);
            assert(applied_upto(old_state, self.mx as int, self.my as int, rule, x as int, y as int, z as int, 0) =~= old_state);
        }
        let plane = rule.omx * rule.omy;
        let gplane = self.mx * self.my;
        let mut di: usize = 0;
        while di < rule.output.len()
            invariant
                self.wf(),
                rule.wf(),
                n == self.state@.len(),
                self.mask@ == old(self).mask@,
                self.mx == old(self).mx,
                self.my == old(self).my,
                self.mz == old(self).mz,
                self.c == old(self).c,
                self.characters@ == old(self).characters@,
                self.waves@ == old(self).waves@,
                output_fits(rule, x as int, y as int, z as int, self.mx as int, self.my as int, self.mz as int),
                plane == rule.omx * rule.omy,
                gplane == self.mx * self.my,
                di <= rule.output@.len(),
                self.state@ == applied_upto(old_state, self.mx as int, self.my as int, rule, x as int, y as int, z as int, di as int),
            decreases rule.output@.len() - di,
        {
            proof {
                lemma_idx3_inverse(di as int, rule.omx as int, rule.omy as int);
                lemma_plane_div_bound(di as int, rule.omx as int, rule.omy as int, rule.omz as int);
                let d = coord_of(di as int, rule.omx as int, rule.omy as int);
                lemma_idx3_bound(x + d.0, y + d.1, z + d.2, self.mx as int, self.my as int, self.mz as int);
                lemma_output_cell(self.mx as int, self.my as int, self.mz as int, rule, x as int, y as int, z as int, di as int);
            }
            let ghost before = self.state@;
            let out_value = rule.output[di];
            let dx = di % rule.omx;
            let dy = (di / rule.omx) % rule.omy;
            let dz = di / plane;
            let gi = (x + dx) + (y + dy) * self.mx + (z + dz) * gplane;
            if out_value != 0xff {
                self.state[gi] = out_value;
            }
            di = di + 1;
            assert(self.state@ =~= applied_upto(old_state, self.mx as int, self.my as int, rule, x as int, y as int, z as int, di as int));
        }
    }
}

} // verus!
