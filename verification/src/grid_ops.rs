//! Flat-index access to a grid, independent of its coordinate system.
use vstd::prelude::*;
use crate::grid::{spec_wave, MjGrid};

verus! {

/// Operations on a grid through flat cell indices: its size, its cells, its claim mask
/// and its value alphabet.
pub trait MjGridOps {
    /// Consistency the operations rely on.
    spec fn ops_wf(&self) -> bool;

    /// The cell values, by flat index.
    spec fn ops_state(&self) -> Seq<u8>;

    /// The claim mask, by flat index.
    spec fn ops_mask(&self) -> Seq<bool>;

    /// Number of cells.
    fn len(&self) -> (r: usize)
        ensures
            r == self.ops_state().len(),
    ;

    /// Whether the grid has no cells.
    fn is_empty(&self) -> (r: bool)
        ensures
            r == (self.ops_state().len() == 0),
    {
        self.len() == 0
    }

    /// Whether the grid is two-dimensional.
    fn is_2d(&self) -> bool;

    /// Value of cell `idx`.
    fn get_state(&self, idx: usize) -> (r: u8)
        requires
            idx < self.ops_state().len(),
        ensures
            r == self.ops_state()[idx as int],
    ;

    /// Set cell `idx` to `value`.
    fn set_state(&mut self, idx: usize, value: u8)
        requires
            idx < old(self).ops_state().len(),
        ensures
            final(self).ops_state() == old(self).ops_state().update(idx as int, value),
            final(self).ops_mask() == old(self).ops_mask(),
    ;

    /// All cell values.
    fn state(&self) -> (r: &[u8])
        ensures
            r@ == self.ops_state(),
    ;

    /// All cell values, for writing.
    fn state_mut(&mut self) -> (r: &mut [u8])
        ensures
            r@ == old(self).ops_state(),
            final(r)@ == final(self).ops_state(),
    ;

    /// Number of values.
    fn num_values(&self) -> u8;

    /// Value index of a character.
    fn value_for_char(&self, ch: char) -> Option<u8>
        requires
            self.ops_wf(),
    ;

    /// Character of a value index.
    fn char_for_value(&self, val: u8) -> Option<char>;

    /// Wave of a symbol.
    fn wave_for_char(&self, ch: char) -> Option<u32>;

    /// Union of the waves of the value characters of a string.
    fn wave(&self, chars: &str) -> u32
        requires
            self.ops_wf(),
    ;

    /// Mask of cell `idx`.
    fn get_mask(&self, idx: usize) -> (r: bool)
        requires
            idx < self.ops_mask().len(),
        ensures
            r == self.ops_mask()[idx as int],
    ;

    /// Set the mask of cell `idx`.
    fn set_mask(&mut self, idx: usize, value: bool)
        requires
            idx < old(self).ops_mask().len(),
        ensures
            final(self).ops_mask() == old(self).ops_mask().update(idx as int, value),
            final(self).ops_state() == old(self).ops_state(),
    ;

    /// Clear the whole mask.
    fn clear_mask(&mut self)
        requires
            old(self).ops_wf(),
        ensures
            final(self).ops_mask() == Seq::new(old(self).ops_mask().len(), |i: int| false),
            final(self).ops_state() == old(self).ops_state(),
    ;

    /// The three dimensions of the grid.
    fn dimensions(&self) -> (usize, usize, usize);
}

impl MjGridOps for MjGrid {
    open spec fn ops_wf(&self) -> bool {
        self.wf()
    }

    open spec fn ops_state(&self) -> Seq<u8> {
        self.state@
    }

    open spec fn ops_mask(&self) -> Seq<bool> {
        self.mask@
    }

    fn len(&self) -> (r: usize) {
        self.state.len()
    }

    fn is_2d(&self) -> (r: bool)
        ensures
            r == (self.mz == 1),
    {
        self.mz == 1
    }

    fn get_state(&self, idx: usize) -> (r: u8) {
        self.state[idx]
    }

    fn set_state(&mut self, idx: usize, value: u8) {
        self.state.set(idx, value);
    }

    fn state(&self) -> (r: &[u8]) {
        self.state.as_slice()
    }

    fn state_mut(&mut self) -> (r: &mut [u8]) {
        self.state.as_mut_slice()
    }

    fn num_values(&self) -> (r: u8)
        ensures
            r == self.c,
    {
        self.c
    }

    fn value_for_char(&self, ch: char) -> (r: Option<u8>)
        ensures
            r == self.spec_value_for_char(ch),
    {
        MjGrid::value_for_char(self, ch)
    }

    fn char_for_value(&self, val: u8) -> (r: Option<char>)
        ensures
            r == (if (val as int) < self.characters@.len() {
                Some(self.characters@[val as int])
            } else {
                None
            }),
    {
        MjGrid::char_for_value(self, val)
    }

    fn wave_for_char(&self, ch: char) -> (r: Option<u32>)
        ensures
            r == self.spec_wave_for_char(ch),
    {
        MjGrid::wave_for_char(self, ch)
    }

    fn wave(&self, chars: &str) -> (r: u32)
        ensures
            r == spec_wave(self.characters@, chars@),
    {
        MjGrid::wave(self, chars)
    }

    fn get_mask(&self, idx: usize) -> (r: bool) {
        self.mask[idx]
    }

    fn set_mask(&mut self, idx: usize, value: bool) {
        self.mask.set(idx, value);
    }

    fn clear_mask(&mut self) {
        MjGrid::clear_mask(self)
    }

    fn dimensions(&self) -> (r: (usize, usize, usize))
        ensures
            r == (self.mx, self.my, self.mz),
    {
        (self.mx, self.my, self.mz)
    }
}

} // verus!
