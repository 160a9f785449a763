//! A read-only view of a grid's first layer as material identifiers.
use vstd::prelude::*;
use crate::grid::MjGrid;

verus! {

/// A 2D grid of material identifiers.
pub trait VoxelGrid2D {
    /// Width in cells.
    fn width(&self) -> usize;

    /// Height in cells.
    fn height(&self) -> usize;

    /// Material at (x, y); 0 outside the grid.
    fn get(&self, x: usize, y: usize) -> u32;
}

/// The material given to `ch` by the last pair of `mapping` that names it, if any.
pub open spec fn lookup_material(mapping: Seq<(char, u32)>, ch: char) -> Option<u32>
    decreases mapping.len(),
{
    if mapping.len() == 0 {
        None
    } else if mapping.last().0 == ch {
        Some(mapping.last().1)
    } else {
        lookup_material(mapping.drop_last(), ch)
    }
}

/// The material of value `i`, whose character is `ch`: its mapped material, else `i + 1`.
pub open spec fn material_for(mapping: Seq<(char, u32)>, ch: char, i: int) -> u32 {
    match lookup_material(mapping, ch) {
        Some(m) => m,
        None => (i + 1) as u32,
    }
}

/// A view of a grid that reads cells as material identifiers.
pub struct MjGridView<'a> {
    /// The grid.
    pub grid: &'a MjGrid,
    /// Material of each value.
    pub value_to_material: Vec<u32>,
}

/// The material of `ch` in `mapping` (the last pair naming it wins).
fn find_material(mapping: &[(char, u32)], ch: char) -> (r: Option<u32>)
    ensures
        r == lookup_material(mapping@, ch),
{
    let mut k = mapping.len();
    assert(mapping@.take(k as int) =~= mapping@);
    while k > 0
        invariant
            k <= mapping@.len(),
            lookup_material(mapping@, ch) == lookup_material(mapping@.take(k as int), ch),
        decreases k,
    {
        let (c, m) = mapping[k - 1];
        assert(mapping@.take(k as int).drop_last() =~= mapping@.take(k - 1));
        if c == ch {
            return Some(m);
        }
        k = k - 1;
    }
    None
}

impl<'a> MjGridView<'a> {
    /// A view of `grid` where each value's character is read through `char_to_material`
    /// (pairs of character and material; the last pair for a character wins), and a value
    /// whose character has no material reads as its index plus one.
    pub fn new(grid: &'a MjGrid, char_to_material: &[(char, u32)]) -> (v: Self)
        requires
            grid.wf(),
        ensures
            v.grid == grid,
            v.value_to_material@.len() == grid.characters@.len(),
            forall|i: int|
                0 <= i < grid.characters@.len() ==> v.value_to_material@[i] == material_for(
                    char_to_material@,
                    #[trigger] grid.characters@[i],
                    i,
                ),
    {
        let mut table: Vec<u32> = Vec::new();
        let mut i: usize = 0;
        while i < grid.characters.len()
            invariant
                grid.wf(),
                i <= grid.characters@.len(),
                table@.len() == i,
                forall|k: int|
                    0 <= k < i ==> table@[k] == material_for(char_to_material@, #[trigger] grid.characters@[k], k),
            decreases grid.characters@.len() - i,
        {
            let m = match find_material(char_to_material, grid.characters[i]) {
                Some(m) => m,
                None => (i as u32) + 1,
            };
            table.push(m);
            i = i + 1;
        }
        MjGridView { grid, value_to_material: table }
    }

    /// A view where value `i` reads as material `i + 1`.
    pub fn with_default_mapping(grid: &'a MjGrid) -> (v: Self)
        requires
            grid.wf(),
        ensures
            v.grid == grid,
            v.value_to_material@.len() == grid.characters@.len(),
            forall|i: int| 0 <= i < grid.characters@.len() ==> v.value_to_material@[i] == (i + 1) as u32,
    {
        let empty: Vec<(char, u32)> = Vec::new();
        let v = MjGridView::new(grid, empty.as_slice());
        assert forall|i: int| 0 <= i < grid.characters@.len() implies v.value_to_material@[i] == (i + 1) as u32 by {
            assert(lookup_material(empty@, grid.characters@[i]) is None);
        }
        v
    }

    /// The viewed grid.
    pub fn grid(&self) -> (r: &MjGrid)
        ensures
            r == self.grid,
    {
        self.grid
    }
}

impl<'a> VoxelGrid2D for MjGridView<'a> {
    fn width(&self) -> (r: usize)
        ensures
            r == self.grid.mx,
    {
        self.grid.mx
    }

    fn height(&self) -> (r: usize)
        ensures
            r == self.grid.my,
    {
        self.grid.my
    }

    fn get(&self, x: usize, y: usize) -> (r: u32)
        ensures
            self.grid.wf() ==> r == (if x < self.grid.mx && y < self.grid.my && 0 < self.grid.mz {
                let v = self.grid.state@[self.grid.at(x as int, y as int, 0)] as int;
                if v < self.value_to_material@.len() {
                    self.value_to_material@[v]
                } else {
                    0u32
                }
            } else {
                0u32
            }),
    {
        if x >= self.grid.mx || y >= self.grid.my || self.grid.mz == 0 {
            return 0;
        }
        let n = self.grid.state.len();
        proof {
            if self.grid.wf() {
                crate::geom::lemma_idx3_bound(x as int, y as int, 0, self.grid.mx as int, self.grid.my as int, self.grid.mz as int);
                assert(y * self.grid.mx + x < n);
            }
        }
        let idx = match y.checked_mul(self.grid.mx) {
            Some(row) => match row.checked_add(x) {
                Some(i) => i,
                None => {
                    return 0;
                },
            },
            None => {
                return 0;
            },
        };
        if idx >= self.grid.state.len() {
            return 0;
        }
        proof {
            if self.grid.wf() {
                crate::geom::lemma_idx3_bound(x as int, y as int, 0, self.grid.mx as int, self.grid.my as int, self.grid.mz as int);
            }
        }
        let v = self.grid.state[idx] as usize;
        if v < self.value_to_material.len() {
            self.value_to_material[v]
        } else {
            0
        }
    }
}

} // verus!
