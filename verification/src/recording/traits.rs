//! What a grid offers to be recorded and rendered, and the default color palette.
use vstd::prelude::*;
use crate::grid::MjGrid;
use crate::recording::grid_type::{spec_total_cells, GridType};
use crate::text::chars_to_string;
use crate::vecs::str_chars;

verus! {

/// Number of bytes of one frame of a grid type (one per cell), when it fits in `usize`.
pub fn frame_size(g: &GridType) -> (r: Option<usize>)
    ensures
        r matches Some(n) ==> n == spec_total_cells(*g),
        r is None ==> spec_total_cells(*g) > usize::MAX,
{
    let (a, b, c): (usize, usize, usize) = match g {
        GridType::Cartesian2D { width, height } => (*width as usize, *height as usize, 1),
        GridType::Cartesian3D { width, height, depth } => (*width as usize, *height as usize, *depth as usize),
        GridType::Polar2D { r_depth, theta_divisions, .. } => (*r_depth as usize, *theta_divisions as usize, 1),
        GridType::Polar3D { r_depth, theta_divisions, phi_divisions, .. } => (
            *r_depth as usize,
            *theta_divisions as usize,
            *phi_divisions as usize,
        ),
    };
    assert(spec_total_cells(*g) == a * b * c);
    if c == 0 {
        assert(a * b * c == 0) by (nonlinear_arith)
            requires
                c == 0,
        ;
        return Some(0);
    }
    match a.checked_mul(b) {
        Some(ab) => ab.checked_mul(c),
        None => {
            assert(a * b * c >= a * b) by (nonlinear_arith)
                requires
                    a >= 0,
                    b >= 0,
                    c >= 1,
            ;
            None
        },
    }
}

/// A grid that can be recorded frame by frame: its geometry, its palette and its state as
/// one byte per cell.
pub trait RecordableGrid {
    /// The geometry and dimensions.
    spec fn spec_grid_type(&self) -> GridType;

    /// The palette characters.
    spec fn spec_palette(&self) -> Seq<char>;

    /// The state, one byte per cell.
    spec fn spec_state(&self) -> Seq<u8>;

    /// The geometry and dimensions.
    fn grid_type(&self) -> (r: GridType)
        ensures
            r == self.spec_grid_type(),
    ;

    /// The palette (value characters in order).
    fn palette(&self) -> (r: String)
        ensures
            r@ == self.spec_palette(),
    ;

    /// The state, one byte per cell.
    fn state_to_bytes(&self) -> (r: Vec<u8>)
        ensures
            r@ == self.spec_state(),
    ;

    /// Replace the state by `bytes`; false (and nothing changed) when the length differs.
    fn state_from_bytes(&mut self, bytes: &[u8]) -> (r: bool)
        ensures
            r <==> bytes@.len() == old(self).spec_state().len(),
            r ==> final(self).spec_state() == bytes@,
    ;

    /// Number of bytes of one frame (the cell count of the geometry; `usize::MAX` when that
    /// does not fit).
    fn bytes_per_frame(&self) -> (r: usize)
        default_ensures
            spec_total_cells(self.spec_grid_type()) <= usize::MAX ==> r == spec_total_cells(self.spec_grid_type()),
    {
        match frame_size(&self.grid_type()) {
            Some(n) => n,
            None => usize::MAX,
        }
    }
}

/// Colored voxels of a 3D grid.
#[derive(Debug)]
pub struct VoxelData {
    /// Dimensions (x, y, z).
    pub dimensions: (u32, u32, u32),
    /// Values, indexed `x + y * mx + z * mx * my`.
    pub values: Vec<u8>,
}

/// A grid that can be turned into voxel data.
pub trait Renderable3D: RecordableGrid {
    /// The voxels of the grid, given the color of each value.
    fn render_to_voxels(&self, colors: &[[u8; 4]]) -> VoxelData;
}

/// The geometry of a grid: 2D when its depth is 1, else 3D (dimensions as 32-bit values).
pub open spec fn mj_grid_type(g: &MjGrid) -> GridType {
    if g.mz == 1 {
        GridType::Cartesian2D { width: g.mx as u32, height: g.my as u32 }
    } else {
        GridType::Cartesian3D { width: g.mx as u32, height: g.my as u32, depth: g.mz as u32 }
    }
}

impl RecordableGrid for MjGrid {
    open spec fn spec_grid_type(&self) -> GridType {
        mj_grid_type(self)
    }

    open spec fn spec_palette(&self) -> Seq<char> {
        self.characters@
    }

    open spec fn spec_state(&self) -> Seq<u8> {
        self.state@
    }

    fn grid_type(&self) -> (r: GridType) {
        if self.mz == 1 {
            GridType::Cartesian2D { width: #[verifier::truncate] (self.mx as u32), height: #[verifier::truncate] (self.my as u32) }
        } else {
            GridType::Cartesian3D {
                width: #[verifier::truncate] (self.mx as u32),
                height: #[verifier::truncate] (self.my as u32),
                depth: #[verifier::truncate] (self.mz as u32),
            }
        }
    }

    fn palette(&self) -> (r: String) {
        chars_to_string(self.characters.as_slice())
    }

    fn state_to_bytes(&self) -> (r: Vec<u8>) {
        let mut r: Vec<u8> = Vec::new();
        let mut i: usize = 0;
        while i < self.state.len()
            invariant
                i <= self.state@.len(),
                r@ == self.state@.take(i as int),
            decreases self.state@.len() - i,
        {
            r.push(self.state[i]);
            i = i + 1;
            assert(r@ =~= self.state@.take(i as int));
        }
        assert(self.state@.take(self.state@.len() as int) =~= self.state@);
        r
    }

    fn state_from_bytes(&mut self, bytes: &[u8]) -> (r: bool) {
        if bytes.len() != self.state.len() {
            return false;
        }
        let mut i: usize = 0;
        while i < bytes.len()
            invariant
                i <= bytes@.len(),
                self.state@.len() == bytes@.len(),
                forall|k: int| 0 <= k < i ==> self.state@[k] == bytes@[k],
            decreases bytes@.len() - i,
        {
            self.state.set(i, bytes[i]);
            i = i + 1;
        }
        assert(self.state@ =~= bytes@);
        true
    }
}

impl Renderable3D for MjGrid {
    fn render_to_voxels(&self, colors: &[[u8; 4]]) -> (r: VoxelData)
        ensures
            r.dimensions == (self.mx as u32, self.my as u32, self.mz as u32),
            r.values@ == self.state@,
    {
        let values = self.state_to_bytes();
        VoxelData {
            dimensions: (
                #[verifier::truncate] (self.mx as u32),
                #[verifier::truncate] (self.my as u32),
                #[verifier::truncate] (self.mz as u32),
            ),
            values,
        }
    }
}

/// Whether a palette character has a color of its own (else a gray by its position).
pub open spec fn named_color(c: char) -> bool {
    c == 'B' || c == 'X' || c == 'W' || c == 'R' || c == 'G' || c == 'M' || c == 'Y' || c == 'C' || c == 'O' || c
        == 'P' || c == 'N'
}

/// Whether the gray of every unnamed palette character can be computed in 32 bits.
pub open spec fn grays_fit(p: Seq<char>) -> bool {
    forall|i: int| 0 <= i < p.len() && !named_color(#[trigger] p[i]) ==> i * 37 + 100 <= u32::MAX
}

/// The default color of palette character `c` at position `i`: fixed colors for the usual
/// letters (black and `X` transparent), otherwise a gray level that depends on `i`.
pub open spec fn default_color(c: char, i: int) -> Seq<u8> {
    if c == 'B' || c == 'X' {
        seq![0u8, 0u8, 0u8, 0u8]
    } else if c == 'W' {
        seq![255u8, 255u8, 255u8, 255u8]
    } else if c == 'R' {
        seq![255u8, 80u8, 80u8, 255u8]
    } else if c == 'G' {
        seq![80u8, 200u8, 80u8, 255u8]
    } else if c == 'M' {
        seq![255u8, 80u8, 255u8, 255u8]
    } else if c == 'Y' {
        seq![255u8, 200u8, 50u8, 255u8]
    } else if c == 'C' {
        seq![80u8, 200u8, 255u8, 255u8]
    } else if c == 'O' {
        seq![255u8, 140u8, 40u8, 255u8]
    } else if c == 'P' {
        seq![180u8, 100u8, 255u8, 255u8]
    } else if c == 'N' {
        seq![100u8, 80u8, 60u8, 255u8]
    } else {
        let v = ((i * 37 + 100) % 200 + 55) as u8;
        seq![v, v, v, 255u8]
    }
}

/// The default color of palette character `c` at position `i`.
fn color_for(c: char, i: usize) -> (r: [u8; 4])
    requires
        !named_color(c) ==> i * 37 + 100 <= u32::MAX,
    ensures
        r@ == default_color(c, i as int),
{
    let r: [u8; 4] = match c {
        'B' | 'X' => [0, 0, 0, 0],
        'W' => [255, 255, 255, 255],
        'R' => [255, 80, 80, 255],
        'G' => [80, 200, 80, 255],
        'M' => [255, 80, 255, 255],
        'Y' => [255, 200, 50, 255],
        'C' => [80, 200, 255, 255],
        'O' => [255, 140, 40, 255],
        'P' => [180, 100, 255, 255],
        'N' => [100, 80, 60, 255],
        _ => {
            let v = ((i as u32 * 37 + 100) % 200 + 55) as u8;
            [v, v, v, 255]
        },
    };
    assert(r@ =~= default_color(c, i as int));
    r
}

/// One default color per palette character, in order.
pub fn default_colors_for_palette(palette: &str) -> (r: Vec<[u8; 4]>)
    requires
        grays_fit(palette@),
    ensures
        r@.len() == palette@.len(),
        forall|i: int| 0 <= i < palette@.len() ==> (#[trigger] r@[i])@ == default_color(palette@[i], i),
{
    let cs = str_chars(palette);
    let mut r: Vec<[u8; 4]> = Vec::new();
    let mut i: usize = 0;
    while i < cs.len()
        invariant
            cs@ == palette@,
            i <= cs@.len(),
            grays_fit(palette@),
            r@.len() == i,
            forall|k: int| 0 <= k < i ==> (#[trigger] r@[k])@ == default_color(palette@[k], k),
        decreases cs@.len() - i,
    {
        r.push(color_for(cs[i], i));
        i = i + 1;
    }
    r
}

} // verus!
