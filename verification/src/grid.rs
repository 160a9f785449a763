//! The voxel grid: a flat array of value indices with character/wave mappings.
use vstd::prelude::*;
use crate::geom::{idx3, lemma_idx3_bound, lemma_idx3_inverse};
use crate::text::{
    char_width, first_dup_index, first_index, first_key_index, is_whitespace,
    lemma_first_dup_index, lemma_first_index, lemma_first_key_index, lemma_utf8_len_ge,
    spec_is_whitespace, spec_utf8_len, spec_without_whitespace,
};
use crate::vecs::{copy_vec, fill_bool, fill_u8, filled_bool, filled_u8, str_chars};

verus! {

/// Error type for grid construction.
#[derive(Debug, Clone, PartialEq)]
pub enum GridError {
    /// Duplicate character found in values string.
    DuplicateCharacter(char),
}

impl GridError {
    /// Human-readable description.
    pub fn message(&self) -> (r: String)
        ensures
            match *self {
                GridError::DuplicateCharacter(c) => r@ == "duplicate character '"@ + seq![c]
                    + "' in values string"@,
            },
    {
        match self {
            GridError::DuplicateCharacter(c) => {
                let mut s = String::from_str("duplicate character '");
                s.append(char_string(*c).as_str());
                s.append("' in values string");
                s
            },
        }
    }
}

/// A string holding one character.
#[verifier::external_body]
pub(crate) fn char_string(c: char) -> (r: String)
    ensures
        r@ == seq![c],
{
    c.to_string()
}

/// The value index of a character in a character table.
pub open spec fn value_of(chars: Seq<char>, ch: char) -> Option<u8> {
    let k = first_index(chars, ch);
    if k >= 0 {
        Some(k as u8)
    } else {
        None
    }
}

/// The wave bit contributed by one character.
pub open spec fn wave_bit(chars: Seq<char>, ch: char) -> u32 {
    match value_of(chars, ch) {
        Some(v) => 1u32 << v,
        None => 0u32,
    }
}

/// The wave of a string: the union of the bits of its known characters.
pub open spec fn spec_wave(chars: Seq<char>, s: Seq<char>) -> u32
    decreases s.len(),
{
    if s.len() == 0 {
        0u32
    } else {
        spec_wave(chars, s.drop_last()) | wave_bit(chars, s.last())
    }
}

/// The wave registered for a symbol in a wave table.
pub open spec fn wave_lookup(waves: Seq<(char, u32)>, ch: char) -> Option<u32> {
    let k = first_key_index(waves, ch);
    if k >= 0 {
        Some(waves[k].1)
    } else {
        None
    }
}

/// Keys of a wave table.
pub open spec fn wave_keys(waves: Seq<(char, u32)>) -> Seq<char> {
    waves.map_values(|p: (char, u32)| p.0)
}

/// A wave table after inserting (or overwriting) one symbol.
pub open spec fn wave_table_insert(waves: Seq<(char, u32)>, ch: char, w: u32) -> Seq<(char, u32)> {
    let k = first_key_index(waves, ch);
    if k >= 0 {
        waves.update(k, (ch, w))
    } else {
        waves.push((ch, w))
    }
}

/// The wave table built from a values string: one bit per value, then the wildcard.
pub open spec fn initial_waves(chars: Seq<char>, c: u8) -> Seq<(char, u32)> {
    wave_table_insert(
        Seq::new(chars.len(), |i: int| (chars[i], 1u32 << (i as u8))),
        '*',
        ((1u32 << c) - 1) as u32,
    )
}

/// Mask of the first `c` value bits.
pub open spec fn all_values_mask(c: u8) -> u32 {
    ((1u32 << c) - 1) as u32
}

/// A 3D grid of value indices, with value/character/wave mappings.
///
/// Cell (x, y, z) is stored at index `x + y * mx + z * mx * my`.
#[derive(Debug, Clone)]
pub struct MjGrid {
    /// Flat array of value indices.
    pub state: Vec<u8>,
    /// Claim mask used while applying several matches in one step.
    pub mask: Vec<bool>,
    /// Width.
    pub mx: usize,
    /// Height.
    pub my: usize,
    /// Depth.
    pub mz: usize,
    /// Number of values (byte length of the values string).
    pub c: u8,
    /// Character of each value index.
    pub characters: Vec<char>,
    /// Wave bitmask of each symbol: value characters, the wildcard and unions.
    pub waves: Vec<(char, u32)>,
}

impl MjGrid {
    /// Internal consistency of a grid.
    pub open spec fn wf(&self) -> bool {
        &&& self.state@.len() == self.mx * self.my * self.mz
        &&& self.mask@.len() == self.state@.len()
        &&& self.characters@.len() <= self.c
        &&& self.c < 32
        &&& self.characters@.no_duplicates()
        &&& wave_keys(self.waves@).no_duplicates()
    }

    /// Every cell holds a value below `n`.
    pub open spec fn cells_below(&self, n: int) -> bool {
        forall|i: int| 0 <= i < self.state@.len() ==> self.state@[i] < n
    }

    /// The spec-level value index of a character.
    pub open spec fn spec_value_for_char(&self, ch: char) -> Option<u8> {
        value_of(self.characters@, ch)
    }

    /// The spec-level wave of a symbol.
    pub open spec fn spec_wave_for_char(&self, ch: char) -> Option<u32> {
        wave_lookup(self.waves@, ch)
    }

    /// Flat index of (x, y, z) in this grid.
    pub open spec fn at(&self, x: int, y: int, z: int) -> int {
        idx3(x, y, z, self.mx as int, self.my as int)
    }

    /// Two grids hold the same cells, mask, size, values and symbols.
    pub open spec fn same_as(&self, other: &Self) -> bool {
        &&& self.state@ == other.state@
        &&& self.mask@ == other.mask@
        &&& self.mx == other.mx && self.my == other.my && self.mz == other.mz
        &&& self.c == other.c
        &&& self.characters@ == other.characters@
        &&& self.waves@ == other.waves@
    }

    /// Whether the grid is consistent (`wf`).
    pub fn check_wf(&self) -> (r: bool)
        ensures
            r == self.wf(),
    {
        let sl = self.state.len();
        let n = match self.mx.checked_mul(self.my) {
            Some(a) => a.checked_mul(self.mz),
            None => {
                if self.mz == 0 {
                    proof {
                        assert(self.mx * self.my * self.mz == 0) by (nonlinear_arith)
                            requires
                                self.mz == 0,
                        ;
                    }
                    Some(0)
                } else {
                    proof {
                        assert(self.mx * self.my * self.mz >= self.mx * self.my) by (nonlinear_arith)
                            requires
                                self.mz >= 1,
                                self.mx * self.my >= 0,
                        ;
                    }
                    None
                }
            },
        };
        match n {
            Some(n) => {
                if self.state.len() != n {
                    return false;
                }
            },
            None => {
                return false;
            },
        }
        if self.mask.len() != self.state.len() || self.characters.len() > self.c as usize || self.c >= 32 {
            return false;
        }
        let k = self.characters.len();
        let mut i: usize = 0;
        while i < k
            invariant
                k == self.characters@.len(),
                i <= k,
                forall|a: int, b: int| 0 <= a < i && 0 <= b < k && a != b ==> self.characters@[a] != self.characters@[b],
            decreases k - i,
        {
            let mut j: usize = 0;
            while j < k
                invariant
                    k == self.characters@.len(),
                    i < k,
                    j <= k,
                    forall|a: int, b: int| 0 <= a < i && 0 <= b < k && a != b ==> self.characters@[a] != self.characters@[b],
                    forall|b: int| 0 <= b < j && b != i ==> self.characters@[i as int] != self.characters@[b],
                decreases k - j,
            {
                if j != i && self.characters[i] == self.characters[j] {
                    return false;
                }
                j = j + 1;
            }
            i = i + 1;
        }
        let w = self.waves.len();
        let mut i: usize = 0;
        while i < w
            invariant
                w == self.waves@.len(),
                i <= w,
                forall|a: int, b: int| 0 <= a < i && 0 <= b < w && a != b ==> self.waves@[a].0 != self.waves@[b].0,
            decreases w - i,
        {
            let mut j: usize = 0;
            while j < w
                invariant
                    w == self.waves@.len(),
                    i < w,
                    j <= w,
                    forall|a: int, b: int| 0 <= a < i && 0 <= b < w && a != b ==> self.waves@[a].0 != self.waves@[b].0,
                    forall|b: int| 0 <= b < j && b != i ==> self.waves@[i as int].0 != self.waves@[b].0,
                decreases w - j,
            {
                if j != i && self.waves[i].0 == self.waves[j].0 {
                    proof {
                        assert(wave_keys(self.waves@)[i as int] == wave_keys(self.waves@)[j as int]);
                    }
                    return false;
                }
                j = j + 1;
            }
            i = i + 1;
        }
        proof {
            assert(wave_keys(self.waves@).no_duplicates());
        }
        true
    }

    /// A copy of the grid.
    pub fn copy(&self) -> (r: Self)
        ensures
            r.same_as(self),
    {
        MjGrid {
            state: copy_vec(&self.state),
            mask: copy_vec(&self.mask),
            mx: self.mx,
            my: self.my,
            mz: self.mz,
            c: self.c,
            characters: copy_vec(&self.characters),
            waves: copy_vec(&self.waves),
        }
    }

    /// A new grid filled with zeros, without value mappings.
    pub fn new(mx: usize, my: usize, mz: usize) -> (g: Self)
        requires
            mx * my * mz <= usize::MAX,
        ensures
            g.wf(),
            g.mx == mx,
            g.my == my,
            g.mz == mz,
            g.c == 0,
            g.state@ == Seq::new((mx * my * mz) as nat, |i: int| 0u8),
            g.mask@ == Seq::new((mx * my * mz) as nat, |i: int| false),
            g.characters@ == Seq::<char>::empty(),
            g.waves@ == Seq::<(char, u32)>::empty(),
    {
        let size = if mz == 0 {
            assert(mx * my * mz == 0) by (nonlinear_arith)
                requires
                    mz == 0,
            ;
            0
        } else {
            assert(mx * my <= usize::MAX) by (nonlinear_arith)
                requires
                    mx * my * mz <= usize::MAX,
                    mx >= 0,
                    my >= 0,
                    mz >= 1,
            ;
            mx * my * mz
        };
        MjGrid {
            state: filled_u8(size, 0),
            mask: filled_bool(size, false),
            mx,
            my,
            mz,
            c: 0,
            characters: Vec::new(),
            waves: Vec::new(),
        }
    }

    /// A grid with value mappings from a string like "BWR"; panics on a duplicate.
    pub fn with_values(mx: usize, my: usize, mz: usize, values_str: &str) -> (g: Self)
        requires
            mx * my * mz <= usize::MAX,
            spec_utf8_len(spec_without_whitespace(values_str@)) < 32,
            spec_without_whitespace(values_str@).no_duplicates(),
        ensures
            g.built_from(mx, my, mz, values_str@),
            g.wf(),
    {
        proof {
            lemma_first_dup_index(spec_without_whitespace(values_str@));
        }
        match Self::try_with_values(mx, my, mz, values_str) {
            Ok(g) => g,
            Err(_) => {
                assert(false);
                MjGrid::new(mx, my, mz)
            },
        }
    }

    /// A grid with value mappings, or an error naming the first repeated character.
    ///
    /// Whitespace is removed; value `i` is the `i`-th remaining character with wave `1 << i`;
    /// the wildcard `*` gets the wave of all values.
    pub fn try_with_values(mx: usize, my: usize, mz: usize, values_str: &str) -> (r: Result<
        Self,
        GridError,
    >)
        requires
            mx * my * mz <= usize::MAX,
            spec_utf8_len(spec_without_whitespace(values_str@)) < 32,
        ensures
            r is Err <==> spec_values_error(values_str@) is Some,
            r matches Err(e) ==> spec_values_error(values_str@) == Some(e),
            r matches Ok(g) ==> g.wf() && g.built_from(mx, my, mz, values_str@),
    {
        let all = str_chars(values_str);
        let mut kept: Vec<char> = Vec::new();
        let mut width: usize = 0;
        let mut i: usize = 0;
        while i < all.len()
            invariant
                i <= all@.len(),
                all@ == values_str@,
                kept@ == spec_without_whitespace(all@.take(i as int)),
                width == spec_utf8_len(kept@),
                width < 32,
                spec_utf8_len(spec_without_whitespace(values_str@)) < 32,
            decreases all@.len() - i,
        {
            proof {
                assert(all@.take(i + 1).drop_last() =~= all@.take(i as int));
                lemma_without_whitespace_prefix_len(all@, i as int + 1);
                lemma_without_whitespace_utf8_mono(all@, i as int + 1, all@.len() as int);
                assert(all@.take(all@.len() as int) =~= all@);
            }
            let ch = all[i];
            if !is_whitespace(ch) {
                kept.push(ch);
                width = width + char_width(ch);
                proof {
                    assert(kept@.drop_last() =~= spec_without_whitespace(all@.take(i as int)));
                }
            }
            i = i + 1;
        }
        assert(all@.take(i as int) =~= values_str@);
        proof {
            lemma_utf8_len_ge(kept@);
        }
        let mut grid = MjGrid::new(mx, my, mz);
        grid.c = width as u8;
        let mut table: Vec<(char, u32)> = Vec::new();
        let mut k: usize = 0;
        while k < kept.len()
            invariant
                k <= kept@.len(),
                kept@.len() < 32,
                kept@ == spec_without_whitespace(values_str@),
                kept@.take(k as int).no_duplicates(),
                table@ == Seq::new(k as nat, |j: int| (kept@[j], 1u32 << (j as u8))),
            decreases kept@.len() - k,
        {
            let ch = kept[k];
            let mut j: usize = 0;
            while j < k
                invariant
                    j <= k < kept@.len(),
                    table@ == Seq::new(k as nat, |t: int| (kept@[t], 1u32 << (t as u8))),
                    forall|t: int| 0 <= t < j ==> kept@[t] != ch,
                    ch == kept@[k as int],
                    kept@.take(k as int).no_duplicates(),
                    kept@ == spec_without_whitespace(values_str@),
                decreases k - j,
            {
                if table[j].0 == ch {
                    proof {
                        lemma_first_dup_index(kept@);
                        lemma_first_dup_of_prefix(kept@, k as int, j as int);
                    }
                    return Err(GridError::DuplicateCharacter(ch));
                }
                j = j + 1;
            }
            proof {
                lemma_extend_no_dup(kept@, k as int);
            }
            table.push((ch, 1u32 << (k as u8)));
            k = k + 1;
            assert(table@ =~= Seq::new(k as nat, |j: int| (kept@[j], 1u32 << (j as u8))));
        }
        assert(kept@.take(k as int) =~= kept@);
        proof {
            lemma_first_dup_index(kept@);
            lemma_table_keys(kept@);
        }
        let cbits = grid.c;
        assert(cbits < 32);
        assert(1u32 << cbits >= 1) by (bit_vector)
            requires
                cbits < 32,
        ;
        let wildcard: u32 = (1u32 << cbits) - 1;
        table_insert(&mut table, '*', wildcard);
        grid.characters = kept;
        grid.waves = table;
        Ok(grid)
    }

    /// Whether a values string (whitespace ignored) is shorter than 32 bytes, as grids
    /// need.
    pub fn values_fit(values_str: &str) -> (r: bool)
        ensures
            r == (spec_utf8_len(spec_without_whitespace(values_str@)) < 32),
    {
        let all = str_chars(values_str);
        let mut width: usize = 0;
        let mut i: usize = 0;
        proof {
            assert(all@.take(0) =~= Seq::<char>::empty());
        }
        while i < all.len()
            invariant
                i <= all@.len(),
                all@ == values_str@,
                width == spec_utf8_len(spec_without_whitespace(all@.take(i as int))),
                width < 32,
            decreases all@.len() - i,
        {
            proof {
                lemma_without_whitespace_prefix_len(all@, i as int + 1);
            }
            let ch = all[i];
            proof {
                let w = spec_without_whitespace(all@.take(i as int));
                assert(w.push(ch).drop_last() =~= w);
            }
            if !is_whitespace(ch) {
                width = width + char_width(ch);
                if width >= 32 {
                    proof {
                        lemma_without_whitespace_utf8_mono(all@, i as int + 1, all@.len() as int);
                        assert(all@.take(all@.len() as int) =~= all@);
                    }
                    return false;
                }
            }
            i = i + 1;
        }
        assert(all@.take(i as int) =~= values_str@);
        true
    }

    /// The value index of a character.
    pub fn value_for_char(&self, ch: char) -> (r: Option<u8>)
        requires
            self.wf(),
        ensures
            r == self.spec_value_for_char(ch),
    {
        proof {
            lemma_first_index(self.characters@, ch);
        }
        let mut i: usize = 0;
        while i < self.characters.len()
            invariant
                i <= self.characters@.len(),
                self.characters@.len() < 32,
                forall|j: int| 0 <= j < i ==> self.characters@[j] != ch,
                -1 <= first_index(self.characters@, ch) < self.characters@.len(),
                first_index(self.characters@, ch) >= 0 ==> self.characters@[first_index(
                    self.characters@,
                    ch,
                )] == ch,
                forall|j: int|
                    0 <= j < self.characters@.len() && (first_index(self.characters@, ch) == -1
                        || j < first_index(self.characters@, ch)) ==> self.characters@[j] != ch,
            decreases self.characters@.len() - i,
        {
            if self.characters[i] == ch {
                return Some(i as u8);
            }
            i = i + 1;
        }
        None
    }

    /// The character of a value index.
    pub fn char_for_value(&self, val: u8) -> (r: Option<char>)
        ensures
            r == (if (val as int) < self.characters@.len() {
                Some(self.characters@[val as int])
            } else {
                None
            }),
    {
        if (val as usize) < self.characters.len() {
            Some(self.characters[val as usize])
        } else {
            None
        }
    }

    /// The wave of a symbol (value character, wildcard or union).
    pub fn wave_for_char(&self, ch: char) -> (r: Option<u32>)
        ensures
            r == self.spec_wave_for_char(ch),
    {
        table_get(&self.waves, ch)
    }

    /// The wave of a string: the union of the bits of its known value characters.
    ///
    /// For values "BW": wave("B") = 1, wave("W") = 2, wave("BW") = 3.
    pub fn wave(&self, chars: &str) -> (r: u32)
        requires
            self.wf(),
        ensures
            r == spec_wave(self.characters@, chars@),
    {
        let cs = str_chars(chars);
        let mut sum: u32 = 0;
        let mut i: usize = 0;
        while i < cs.len()
            invariant
                self.wf(),
                i <= cs@.len(),
                cs@ == chars@,
                sum == spec_wave(self.characters@, cs@.take(i as int)),
            decreases cs@.len() - i,
        {
            assert(cs@.take(i + 1).drop_last() =~= cs@.take(i as int));
            match self.value_for_char(cs[i]) {
                Some(idx) => {
                    proof {
                        lemma_first_index(self.characters@, cs@[i as int]);
                    }
                    sum = sum | (1u32 << idx);
                },
                None => {
                    assert(sum | 0u32 == sum) by (bit_vector);
                },
            }
            i = i + 1;
        }
        assert(cs@.take(i as int) =~= chars@);
        sum
    }

    /// Flat index of (x, y, z), or `None` when out of bounds.
    pub fn index(&self, x: usize, y: usize, z: usize) -> (r: Option<usize>)
        requires
            self.wf(),
        ensures
            r is Some <==> (x < self.mx && y < self.my && z < self.mz),
            r matches Some(i) ==> i as int == self.at(x as int, y as int, z as int) && i
                < self.state@.len(),
    {
        let n = self.state.len();
        if x < self.mx && y < self.my && z < self.mz {
            proof {
                lemma_idx3_bound(
                    x as int,
                    y as int,
                    z as int,
                    self.mx as int,
                    self.my as int,
                    self.mz as int,
                );
            }
            Some(x + y * self.mx + z * (self.mx * self.my))
        } else {
            None
        }
    }

    /// Flat index of signed coordinates, or `None` when out of bounds (negatives included).
    pub fn coord_to_index(&self, x: i32, y: i32, z: i32) -> (r: Option<usize>)
        requires
            self.wf(),
        ensures
            r is Some <==> (0 <= x < self.mx && 0 <= y < self.my && 0 <= z < self.mz),
            r matches Some(i) ==> i as int == self.at(x as int, y as int, z as int) && i
                < self.state@.len(),
    {
        if x >= 0 && y >= 0 && z >= 0 {
            self.index(x as usize, y as usize, z as usize)
        } else {
            None
        }
    }

    /// Flat index of signed coordinates that the caller knows to be in bounds.
    pub fn coord_to_index_unchecked(&self, x: i32, y: i32, z: i32) -> (r: usize)
        requires
            self.wf(),
            0 <= x < self.mx,
            0 <= y < self.my,
            0 <= z < self.mz,
        ensures
            r == self.at(x as int, y as int, z as int),
            r < self.state@.len(),
    {
        let n = self.state.len();
        proof {
            lemma_idx3_bound(x as int, y as int, z as int, self.mx as int, self.my as int, self.mz as int);
        }
        x as usize + y as usize * self.mx + z as usize * (self.mx * self.my)
    }

    /// Coordinates of a flat index.
    pub fn index_to_coord(&self, idx: usize) -> (r: (i32, i32, i32))
        requires
            self.wf(),
            idx < self.state@.len(),
            self.mx <= i32::MAX,
            self.my <= i32::MAX,
            self.mz <= i32::MAX,
        ensures
            r.0 == idx % self.mx,
            r.1 == (idx / self.mx) % self.my,
            r.2 == (idx as int) / (self.mx * self.my),
            0 <= r.0 < self.mx,
            0 <= r.1 < self.my,
            0 <= r.2 < self.mz,
            self.at(r.0 as int, r.1 as int, r.2 as int) == idx,
    {
        proof {
            lemma_nonempty_dims(self.mx as int, self.my as int, self.mz as int);
            lemma_idx3_inverse(idx as int, self.mx as int, self.my as int);
            lemma_plane_div_bound(idx as int, self.mx as int, self.my as int, self.mz as int);
            lemma_idx3_bound(0, 0, 0, self.mx as int, self.my as int, self.mz as int);
            assert(self.mx * self.my > 0) by (nonlinear_arith)
                requires
                    self.mx > 0,
                    self.my > 0,
            ;
        }
        let n = self.state.len();
        let x = (idx % self.mx) as i32;
        let y = ((idx / self.mx) % self.my) as i32;
        let z = (idx / (self.mx * self.my)) as i32;
        (x, y, z)
    }

    /// The value at (x, y, z), or `None` when out of bounds.
    pub fn get(&self, x: usize, y: usize, z: usize) -> (r: Option<u8>)
        requires
            self.wf(),
        ensures
            r == (if x < self.mx && y < self.my && z < self.mz {
                Some(self.state@[self.at(x as int, y as int, z as int)])
            } else {
                None
            }),
    {
        match self.index(x, y, z) {
            Some(i) => Some(self.state[i]),
            None => None,
        }
    }

    /// Set the value at (x, y, z); returns false (and changes nothing) when out of bounds.
    pub fn set(&mut self, x: usize, y: usize, z: usize, value: u8) -> (r: bool)
        requires
            old(self).wf(),
        ensures
            final(self).wf(),
            r == (x < old(self).mx && y < old(self).my && z < old(self).mz),
            r ==> final(self).state@ == old(self).state@.update(
                old(self).at(x as int, y as int, z as int),
                value,
            ),
            !r ==> final(self).state@ == old(self).state@,
            final(self).mask@ == old(self).mask@,
            final(self).mx == old(self).mx,
            final(self).my == old(self).my,
            final(self).mz == old(self).mz,
            final(self).c == old(self).c,
            final(self).characters@ == old(self).characters@,
            final(self).waves@ == old(self).waves@,
    {
        match self.index(x, y, z) {
            Some(i) => {
                self.state[i] = value;
                true
            },
            None => false,
        }
    }

    /// Set every cell to 0 and clear the mask.
    pub fn clear(&mut self)
        requires
            old(self).wf(),
        ensures
            final(self).wf(),
            final(self).state@ == Seq::new(old(self).state@.len(), |i: int| 0u8),
            final(self).mask@ == Seq::new(old(self).mask@.len(), |i: int| false),
            final(self).mx == old(self).mx,
            final(self).my == old(self).my,
            final(self).mz == old(self).mz,
            final(self).c == old(self).c,
            final(self).characters@ == old(self).characters@,
            final(self).waves@ == old(self).waves@,
    {
        fill_u8(&mut self.state, 0);
        fill_bool(&mut self.mask, false);
    }

    /// Clear only the claim mask.
    pub fn clear_mask(&mut self)
        requires
            old(self).wf(),
        ensures
            final(self).wf(),
            final(self).state@ == old(self).state@,
            final(self).mask@ == Seq::new(old(self).mask@.len(), |i: int| false),
            final(self).mx == old(self).mx,
            final(self).my == old(self).my,
            final(self).mz == old(self).mz,
            final(self).c == old(self).c,
            final(self).characters@ == old(self).characters@,
            final(self).waves@ == old(self).waves@,
    {
        fill_bool(&mut self.mask, false);
    }

    /// Number of cells with a non-zero value.
    pub fn count_nonzero(&self) -> (r: usize)
        ensures
            r == self.state@.filter(|v: u8| v != 0).len(),
    {
        let mut count: usize = 0;
        let mut i: usize = 0;
        while i < self.state.len()
            invariant
                i <= self.state@.len(),
                count == self.state@.take(i as int).filter(|v: u8| v != 0).len(),
                count <= i,
            decreases self.state@.len() - i,
        {
            proof {
                assert(self.state@.take(i + 1) =~= self.state@.take(i as int).push(
                    self.state@[i as int],
                ));
                self.state@.take(i as int).lemma_filter_push(
                    self.state@[i as int],
                    |v: u8| v != 0,
                );
            }
            if self.state[i] != 0 {
                count = count + 1;
            }
            i = i + 1;
        }
        assert(self.state@.take(i as int) =~= self.state@);
        count
    }

    /// All non-zero cells with their coordinates, in index order.
    pub fn iter_nonzero(&self) -> (r: Vec<(usize, usize, usize, u8)>)
        requires
            self.wf(),
        ensures
            r@ == self.cells_with_coords().filter(
                |t: (usize, usize, usize, u8)| t.3 != 0,
            ),
    {
        if self.state.len() == 0 {
            proof {
                let cells = self.cells_with_coords();
                assert(cells =~= Seq::<(usize, usize, usize, u8)>::empty());
                cells.lemma_filter_len(|t: (usize, usize, usize, u8)| t.3 != 0);
            }
            return Vec::new();
        }
        proof {
            lemma_nonempty_dims(self.mx as int, self.my as int, self.mz as int);
            assert(self.mx * self.my <= self.mx * self.my * self.mz) by (nonlinear_arith)
                requires
                    self.mz >= 1,
            ;
            assert(self.mx * self.my > 0) by (nonlinear_arith)
                requires
                    self.mx > 0,
                    self.my > 0,
            ;
        }
        let mut r: Vec<(usize, usize, usize, u8)> = Vec::new();
        let mut i: usize = 0;
        while i < self.state.len()
            invariant
                self.wf(),
                self.mx > 0,
                self.my > 0,
                self.mx * self.my <= self.state@.len(),
                self.mx * self.my > 0,
                i <= self.state@.len(),
                r@ == self.cells_with_coords().take(i as int).filter(
                    |t: (usize, usize, usize, u8)| t.3 != 0,
                ),
            decreases self.state@.len() - i,
        {
            let ghost cells = self.cells_with_coords();
            proof {
                assert(cells.take(i + 1) =~= cells.take(i as int).push(cells[i as int]));
                cells.take(i as int).lemma_filter_push(
                    cells[i as int],
                    |t: (usize, usize, usize, u8)| t.3 != 0,
                );
            }
            let v = self.state[i];
            if v != 0 {
                let x = i % self.mx;
                let y = (i / self.mx) % self.my;
                let z = i / (self.mx * self.my);
                r.push((x, y, z, v));
            }
            i = i + 1;
        }
        assert(self.cells_with_coords().take(i as int) =~= self.cells_with_coords());
        r
    }

    /// Every cell with its coordinates and value, in index order.
    pub open spec fn cells_with_coords(&self) -> Seq<(usize, usize, usize, u8)> {
        Seq::new(
            self.state@.len(),
            |i: int|
                (
                    (i % (self.mx as int)) as usize,
                    ((i / (self.mx as int)) % (self.my as int)) as usize,
                    (i / (self.mx as int * self.my as int)) as usize,
                    self.state@[i],
                ),
        )
    }
}

/// A non-empty grid has positive dimensions.
pub proof fn lemma_nonempty_dims(mx: int, my: int, mz: int)
    requires
        mx >= 0,
        my >= 0,
        mz >= 0,
        mx * my * mz > 0,
    ensures
        mx > 0,
        my > 0,
        mz > 0,
{
    if mx == 0 {
        assert(mx * my * mz == 0) by (nonlinear_arith)
            requires
                mx == 0,
        ;
    }
    if my == 0 {
        assert(mx * my * mz == 0) by (nonlinear_arith)
            requires
                my == 0,
        ;
    }
    if mz == 0 {
        assert(mx * my * mz == 0) by (nonlinear_arith)
            requires
                mz == 0,
        ;
    }
}

/// The plane number of an in-range index is below the depth.
pub proof fn lemma_plane_div_bound(i: int, mx: int, my: int, mz: int)
    requires
        0 <= i < mx * my * mz,
        mx > 0,
        my > 0,
    ensures
        i / (mx * my) < mz,
{
    assert(mx * my > 0) by (nonlinear_arith)
        requires
            mx > 0,
            my > 0,
    ;
    assert(mx * my * mz == (mx * my) * mz) by (nonlinear_arith);
    vstd::arithmetic::div_mod::lemma_multiply_divide_lt(i, mx * my, mz);
    assert(mx * my * mz == mz * (mx * my)) by (nonlinear_arith);
}

/// Removing whitespace from a longer prefix keeps the shorter result as a prefix.
proof fn lemma_without_whitespace_prefix_len(s: Seq<char>, k: int)
    requires
        0 < k <= s.len(),
    ensures
        spec_without_whitespace(s.take(k)) == (if spec_is_whitespace(s[k - 1]) {
            spec_without_whitespace(s.take(k - 1))
        } else {
            spec_without_whitespace(s.take(k - 1)).push(s[k - 1])
        }),
{
    assert(s.take(k).drop_last() =~= s.take(k - 1));
}

/// Removing whitespace from a prefix gives no more UTF-8 bytes than from a longer prefix.
proof fn lemma_without_whitespace_utf8_mono(s: Seq<char>, i: int, n: int)
    requires
        0 <= i <= n <= s.len(),
    ensures
        spec_utf8_len(spec_without_whitespace(s.take(i))) <= spec_utf8_len(
            spec_without_whitespace(s.take(n)),
        ),
    decreases n - i,
{
    if i < n {
        lemma_without_whitespace_utf8_mono(s, i + 1, n);
        lemma_without_whitespace_prefix_len(s, i + 1);
        let a = spec_without_whitespace(s.take(i));
        if !spec_is_whitespace(s[i]) {
            assert(a.push(s[i]).drop_last() =~= a);
        }
    }
}

/// A repeated character first found in a prefix is the first repeat of the whole.
proof fn lemma_first_dup_of_prefix(s: Seq<char>, k: int, j: int)
    requires
        0 <= j < k < s.len(),
        s.take(k).no_duplicates(),
        s[j] == s[k],
    ensures
        first_dup_index(s) == k,
    decreases s.len(),
{
    let t = s.drop_last();
    lemma_first_dup_index(s.take(k));
    if k < s.len() - 1 {
        assert(t.take(k) =~= s.take(k));
        lemma_first_dup_of_prefix(t, k, j);
    } else {
        assert(t =~= s.take(k));
        assert(t.contains(s.last())) by {
            assert(t[j] == s.last());
        }
    }
}

/// Extending a duplicate-free prefix by a character not in it keeps it duplicate-free.
proof fn lemma_extend_no_dup(s: Seq<char>, k: int)
    requires
        0 <= k < s.len(),
        s.take(k).no_duplicates(),
        forall|t: int| 0 <= t < k ==> s[t] != s[k],
    ensures
        s.take(k + 1).no_duplicates(),
{
    let t = s.take(k + 1);
    assert forall|a: int, b: int| 0 <= a < k + 1 && 0 <= b < k + 1 && a != b implies #[trigger] t[a]
        != #[trigger] t[b] by {
        if a < k && b < k {
            assert(s.take(k)[a] == s[a] && s.take(k)[b] == s[b]);
        }
    }
}

/// The table built from distinct characters has distinct keys.
proof fn lemma_table_keys(chars: Seq<char>)
    requires
        chars.no_duplicates(),
    ensures
        wave_keys(Seq::new(chars.len(), |i: int| (chars[i], 1u32 << (i as u8)))) == chars,
{
    assert(wave_keys(Seq::new(chars.len(), |i: int| (chars[i], 1u32 << (i as u8)))) =~= chars);
}

/// Look up a symbol in a wave table.
pub(crate) fn table_get(table: &Vec<(char, u32)>, ch: char) -> (r: Option<u32>)
    ensures
        r == wave_lookup(table@, ch),
{
    proof {
        lemma_first_key_index(table@, ch);
    }
    let mut i: usize = 0;
    while i < table.len()
        invariant
            i <= table@.len(),
            forall|j: int| 0 <= j < i ==> table@[j].0 != ch,
            -1 <= first_key_index(table@, ch) < table@.len(),
            first_key_index(table@, ch) >= 0 ==> table@[first_key_index(table@, ch)].0 == ch,
            forall|j: int|
                0 <= j < table@.len() && (first_key_index(table@, ch) == -1 || j
                    < first_key_index(table@, ch)) ==> table@[j].0 != ch,
        decreases table@.len() - i,
    {
        if table[i].0 == ch {
            return Some(table[i].1);
        }
        i = i + 1;
    }
    None
}

/// Insert or overwrite a symbol in a wave table.
pub(crate) fn table_insert(table: &mut Vec<(char, u32)>, ch: char, w: u32)
    requires
        wave_keys(old(table)@).no_duplicates(),
    ensures
        final(table)@ == wave_table_insert(old(table)@, ch, w),
        wave_keys(final(table)@).no_duplicates(),
{
    proof {
        lemma_first_key_index(table@, ch);
    }
    let mut i: usize = 0;
    while i < table.len()
        invariant
            table@ == old(table)@,
            wave_keys(old(table)@).no_duplicates(),
            i <= table@.len(),
            forall|j: int| 0 <= j < i ==> table@[j].0 != ch,
            -1 <= first_key_index(table@, ch) < table@.len(),
            first_key_index(table@, ch) >= 0 ==> table@[first_key_index(table@, ch)].0 == ch,
            forall|j: int|
                0 <= j < table@.len() && (first_key_index(table@, ch) == -1 || j
                    < first_key_index(table@, ch)) ==> table@[j].0 != ch,
        decreases table@.len() - i,
    {
        if table[i].0 == ch {
            table.set(i, (ch, w));
            assert(wave_keys(table@) =~= wave_keys(old(table)@));
            assert(wave_keys(table@).no_duplicates());
            return;
        }
        i = i + 1;
    }
    table.push((ch, w));
    assert(wave_keys(table@) =~= wave_keys(old(table)@).push(ch));
    assert forall|a: int, b: int|
        0 <= a < wave_keys(table@).len() && 0 <= b < wave_keys(table@).len() && a != b implies wave_keys(
        table@,
    )[a] != wave_keys(table@)[b] by {
        if a < old(table)@.len() && b < old(table)@.len() {
            assert(wave_keys(old(table)@)[a] == wave_keys(table@)[a]);
            assert(wave_keys(old(table)@)[b] == wave_keys(table@)[b]);
        }
    }
}

/// The error, if any, of building a grid from a values string.
pub open spec fn spec_values_error(values: Seq<char>) -> Option<GridError> {
    let kept = spec_without_whitespace(values);
    let d = first_dup_index(kept);
    if d >= 0 {
        Some(GridError::DuplicateCharacter(kept[d]))
    } else {
        None
    }
}

impl MjGrid {
    /// This grid is the one built from a values string for the given dimensions.
    pub open spec fn built_from(&self, mx: usize, my: usize, mz: usize, values: Seq<char>) -> bool {
        let kept = spec_without_whitespace(values);
        let c = spec_utf8_len(kept) as u8;
        let n = (mx * my * mz) as nat;
        &&& self.state@ == Seq::new(n, |i: int| 0u8)
        &&& self.mask@ == Seq::new(n, |i: int| false)
        &&& self.mx == mx
        &&& self.my == my
        &&& self.mz == mz
        &&& self.c == c
        &&& self.characters@ == kept
        &&& self.waves@ == initial_waves(kept, c)
    }
}

} // verus!
