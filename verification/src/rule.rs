//! Rewrite rules: an input pattern of waves and an output pattern of values.
use vstd::prelude::*;
use crate::geom::{idx3, lemma_idx3_bound, lemma_idx3_inverse};
use crate::grid::{all_values_mask, value_of, wave_lookup, MjGrid};
use crate::grid::lemma_plane_div_bound;
use crate::pattern::{
    layers_cell, layers_dims, parse_pattern, pattern_cells_match, pattern_layers,
    spec_parse_pattern_ok, RuleParseError,
};
use crate::text::{lemma_first_index, lemma_first_key_index};

verus! {

/// A probability kept as an exact fraction `num / den`.
#[derive(Debug, Clone, Copy, PartialEq, Eq)]
pub struct Probability {
    pub num: u64,
    pub den: u64,
}

impl Probability {
    /// Probability one.
    pub fn one() -> (p: Probability)
        ensures
            p.num == 1 && p.den == 1,
    {
        Probability { num: 1, den: 1 }
    }

    /// A fraction with a positive denominator.
    pub open spec fn valid(self) -> bool {
        self.den > 0
    }
}

/// Coordinates of flat index `i` in a pattern of width `mx` and height `my`.
pub open spec fn coord_of(i: int, mx: int, my: int) -> (i32, i32, i32) {
    ((i % mx) as i32, ((i / mx) % my) as i32, (i / (mx * my)) as i32)
}

/// The offsets, in flat order, of the pattern cells whose index satisfies `pred`.
pub open spec fn shifts_where(n: int, mx: int, my: int, pred: spec_fn(int) -> bool) -> Seq<
    (i32, i32, i32),
> {
    Seq::new(n as nat, |i: int| i).filter(pred).map_values(|i: int| coord_of(i, mx, my))
}

/// Whether input cell `i` accepts value `v`.
pub open spec fn input_pred(input: Seq<u32>, v: int) -> spec_fn(int) -> bool {
    |i: int| input[i] & (1u32 << (v as u32)) != 0
}

/// Whether output cell `i` writes value `v`.
pub open spec fn output_pred(output: Seq<u8>, v: int) -> spec_fn(int) -> bool {
    |i: int| output[i] == v
}

/// Offsets of the input cells accepting value `v`.
pub open spec fn input_shift_table(input: Seq<u32>, mx: int, my: int, v: int) -> Seq<(i32, i32, i32)> {
    shifts_where(input.len() as int, mx, my, input_pred(input, v))
}

/// Offsets of the output cells writing value `v`.
pub open spec fn output_shift_table(output: Seq<u8>, mx: int, my: int, v: int) -> Seq<(i32, i32, i32)> {
    shifts_where(output.len() as int, mx, my, output_pred(output, v))
}

/// Index of the lowest set bit of `w` at or above `k`, or 32.
pub open spec fn lowest_bit_from(w: u32, k: int) -> int
    decreases 32 - k,
{
    if k >= 32 || k < 0 {
        32
    } else if w & (1u32 << (k as u32)) != 0 {
        k
    } else {
        lowest_bit_from(w, k + 1)
    }
}

/// The byte that stands for an input wave when propagating potentials: the single value
/// it allows, or 0xff for the full wildcard.
pub open spec fn binput_of(w: u32, c: u8) -> u8 {
    if w == all_values_mask(c) {
        0xffu8
    } else {
        lowest_bit_from(w, 0) as u8
    }
}

/// A rewrite rule.
///
/// `input[x + y * imx + z * imx * imy]` is the wave of values accepted at offset (x, y, z);
/// `output[...]` is the value written there, 0xff meaning "leave unchanged".
#[derive(Debug, Clone)]
pub struct MjRule {
    pub input: Vec<u32>,
    pub imx: usize,
    pub imy: usize,
    pub imz: usize,
    pub output: Vec<u8>,
    pub omx: usize,
    pub omy: usize,
    pub omz: usize,
    /// Single-value form of the input, used when propagating potentials.
    pub binput: Vec<u8>,
    /// For each value, the input offsets that accept it.
    pub ishifts: Vec<Vec<(i32, i32, i32)>>,
    /// For each value, the output offsets that write it (empty when sizes differ).
    pub oshifts: Vec<Vec<(i32, i32, i32)>>,
    /// Probability that a match is applied by a parallel node.
    pub p: Probability,
}

impl MjRule {
    /// Internal consistency of a rule.
    pub open spec fn wf(&self) -> bool {
        &&& 1 <= self.imx <= i32::MAX
        &&& 1 <= self.imy <= i32::MAX
        &&& 1 <= self.imz <= i32::MAX
        &&& 1 <= self.omx <= i32::MAX
        &&& 1 <= self.omy <= i32::MAX
        &&& 1 <= self.omz <= i32::MAX
        &&& self.input@.len() == self.imx * self.imy * self.imz
        &&& self.output@.len() == self.omx * self.omy * self.omz
        &&& self.binput@.len() == self.input@.len()
        &&& forall|c: int, k: int|
            0 <= c < self.ishifts@.len() && 0 <= k < self.ishifts@[c]@.len() ==> {
                let s = #[trigger] self.ishifts@[c]@[k];
                &&& 0 <= s.0 < self.imx
                &&& 0 <= s.1 < self.imy
                &&& 0 <= s.2 < self.imz
            }
        &&& forall|c: int, k: int|
            0 <= c < self.oshifts@.len() && 0 <= k < self.oshifts@[c]@.len() ==> {
                let s = #[trigger] self.oshifts@[c]@[k];
                &&& 0 <= s.0 < self.imx
                &&& 0 <= s.1 < self.imy
                &&& 0 <= s.2 < self.imz
            }
        &&& self.p.valid()
    }

    /// Every written output value is below `n`.
    pub open spec fn outputs_below(&self, n: int) -> bool {
        forall|i: int| 0 <= i < self.output@.len() ==> self.output@[i] == 0xff || self.output@[i] < n
    }

    /// Input and output patterns have the same size.
    pub open spec fn same_size(&self) -> bool {
        self.imx == self.omx && self.imy == self.omy && self.imz == self.omz
    }

    /// The rule built from patterns: binput, and the shift tables for `c` values.
    pub open spec fn built_from_patterns(
        &self,
        input: Seq<u32>,
        imx: usize,
        imy: usize,
        imz: usize,
        output: Seq<u8>,
        omx: usize,
        omy: usize,
        omz: usize,
        c: u8,
        p: Probability,
    ) -> bool {
        &&& self.input@ == input
        &&& self.output@ == output
        &&& self.imx == imx && self.imy == imy && self.imz == imz
        &&& self.omx == omx && self.omy == omy && self.omz == omz
        &&& self.p == p
        &&& self.binput@ == Seq::new(input.len(), |i: int| binput_of(input[i], c))
        &&& self.ishifts@.len() == c
        &&& forall|v: int|
            0 <= v < c ==> (#[trigger] self.ishifts@[v])@ == input_shift_table(
                input,
                imx as int,
                imy as int,
                v,
            )
        &&& (imx == omx && imy == omy && imz == omz) ==> self.oshifts@.len() == c
        &&& !(imx == omx && imy == omy && imz == omz) ==> self.oshifts@.len() == 0
        &&& forall|v: int|
            0 <= v < self.oshifts@.len() ==> (#[trigger] self.oshifts@[v])@ == output_shift_table(
                output,
                omx as int,
                omy as int,
                v,
            )
    }

    /// Build a rule from its patterns, computing binput and shift tables for `c` values.
    pub fn from_patterns(
        input: Vec<u32>,
        imx: usize,
        imy: usize,
        imz: usize,
        output: Vec<u8>,
        omx: usize,
        omy: usize,
        omz: usize,
        c: u8,
        p: Probability,
    ) -> (r: MjRule)
        requires
            1 <= imx <= i32::MAX,
            1 <= imy <= i32::MAX,
            1 <= imz <= i32::MAX,
            1 <= omx <= i32::MAX,
            1 <= omy <= i32::MAX,
            1 <= omz <= i32::MAX,
            input@.len() == imx * imy * imz,
            output@.len() == omx * omy * omz,
            c < 32,
            p.valid(),
        ensures
            r.wf(),
            r.built_from_patterns(input@, imx, imy, imz, output@, omx, omy, omz, c, p),
    {
        let mut binput: Vec<u8> = Vec::new();
        let mut i: usize = 0;
        while i < input.len()
            invariant
                i <= input@.len(),
                c < 32,
                binput@ == Seq::new(i as nat, |k: int| binput_of(input@[k], c)),
            decreases input@.len() - i,
        {
            let b = binput_value(input[i], c);
            binput.push(b);
            i = i + 1;
            assert(binput@ =~= Seq::new(i as nat, |k: int| binput_of(input@[k], c)));
        }
        let mut ishifts: Vec<Vec<(i32, i32, i32)>> = Vec::new();
        let mut v: u8 = 0;
        while v < c
            invariant
                v <= c < 32,
                1 <= imx <= i32::MAX,
                1 <= imy <= i32::MAX,
                1 <= imz <= i32::MAX,
                input@.len() == imx * imy * imz,
                ishifts@.len() == v,
                forall|w: int|
                    0 <= w < v ==> (#[trigger] ishifts@[w])@ == input_shift_table(
                        input@,
                        imx as int,
                        imy as int,
                        w,
                    ),
                forall|w: int, k: int|
                    0 <= w < v && 0 <= k < ishifts@[w]@.len() ==> {
                        let s = #[trigger] ishifts@[w]@[k];
                        &&& 0 <= s.0 < imx
                        &&& 0 <= s.1 < imy
                        &&& 0 <= s.2 < imz
                    },
            decreases c - v,
        {
            let list = input_shifts(&input, imx, imy, imz, v);
            ishifts.push(list);
            v = v + 1;
        }
        let mut oshifts: Vec<Vec<(i32, i32, i32)>> = Vec::new();
        if imx == omx && imy == omy && imz == omz {
            let mut v: u8 = 0;
            while v < c
                invariant
                    v <= c < 32,
                    1 <= omx <= i32::MAX,
                    1 <= omy <= i32::MAX,
                    1 <= omz <= i32::MAX,
                    imx == omx && imy == omy && imz == omz,
                    output@.len() == omx * omy * omz,
                    oshifts@.len() == v,
                    forall|w: int|
                        0 <= w < v ==> (#[trigger] oshifts@[w])@ == output_shift_table(
                            output@,
                            omx as int,
                            omy as int,
                            w,
                        ),
                    forall|w: int, k: int|
                        0 <= w < v && 0 <= k < oshifts@[w]@.len() ==> {
                            let s = #[trigger] oshifts@[w]@[k];
                            &&& 0 <= s.0 < imx
                            &&& 0 <= s.1 < imy
                            &&& 0 <= s.2 < imz
                        },
                decreases c - v,
            {
                let list = output_shifts(&output, omx, omy, omz, v);
                oshifts.push(list);
                v = v + 1;
            }
        }
        MjRule { input, imx, imy, imz, output, omx, omy, omz, binput, ishifts, oshifts, p }
    }

    /// Parse a rule from input and output pattern strings, using the grid's symbols.
    #[verifier::loop_isolation(false)]
    ///
    /// Input characters map to waves (so `*` accepts every value); output characters map
    /// to values, `*` meaning "leave unchanged".
    pub fn parse(input: &str, output: &str, grid: &MjGrid) -> (r: Result<MjRule, RuleParseError>)
        requires
            grid.wf(),
        ensures
            r is Ok <==> spec_rule_parse_error(input@, output@, grid) is None,
            r matches Err(e) ==> spec_rule_parse_error(input@, output@, grid) == Some(e),
            r matches Ok(rule) ==> {
                &&& rule.wf()
                &&& rule.ishifts@.len() == grid.c
                &&& rule.parsed_from(input@, output@, grid)
                &&& rule.outputs_below(grid.c as int)
                &&& rule.same_size()
            },
    {
        let (icells, imx, imy, imz) = match parse_pattern(input) {
            Ok(t) => t,
            Err(e) => return Err(e),
        };
        let (ocells, omx, omy, omz) = match parse_pattern(output) {
            Ok(t) => t,
            Err(e) => return Err(e),
        };
        if imx == 0 || imy == 0 || imz == 0 {
            return Err(RuleParseError::EmptyPattern);
        }
        if imx != omx || imy != omy || imz != omz {
            return Err(RuleParseError::SizeMismatch);
        }
        if imx > 0x7fff_ffff || imy > 0x7fff_ffff || imz > 0x7fff_ffff {
            return Err(RuleParseError::TooLarge);
        }
        proof {
            lemma_cells_eq(input@, icells@, imx as int, imy as int, imz as int);
            lemma_cells_eq(output@, ocells@, omx as int, omy as int, omz as int);
        }
        let mut waves: Vec<u32> = Vec::new();
        let mut i: usize = 0;
        while i < icells.len()
            invariant
                i <= icells@.len(),
                waves@ == Seq::new(i as nat, |k: int| wave_lookup(grid.waves@, icells@[k])->0),
                forall|k: int| 0 <= k < i ==> wave_lookup(grid.waves@, icells@[k]) is Some,
            decreases icells@.len() - i,
        {
            match grid.wave_for_char(icells[i]) {
                Some(w) => waves.push(w),
                None => {
                    proof {
                        lemma_first_unknown_input(grid.waves@, icells@, i as int);
                    }
                    return Err(RuleParseError::UnknownCharacter(icells[i]));
                },
            }
            i = i + 1;
            assert(waves@ =~= Seq::new(i as nat, |k: int| wave_lookup(grid.waves@, icells@[k])->0));
        }
        proof {
            lemma_no_unknown_input(grid.waves@, icells@);
        }
        let mut values: Vec<u8> = Vec::new();
        let mut i: usize = 0;
        while i < ocells.len()
            invariant
                grid.wf(),
                i <= ocells@.len(),
                values@ == Seq::new(i as nat, |k: int| output_value(grid.characters@, ocells@[k])),
                forall|k: int|
                    0 <= k < i ==> ocells@[k] == '*' || value_of(grid.characters@, ocells@[k]) is Some,
                forall|k: int| 0 <= k < i ==> values@[k] == 0xff || values@[k] < grid.c,
            decreases ocells@.len() - i,
        {
            let ch = ocells[i];
            if ch == '*' {
                values.push(0xff);
            } else {
                match grid.value_for_char(ch) {
                    Some(v) => {
                        proof {
                            lemma_first_index(grid.characters@, ch);
                        }
                        values.push(v);
                    },
                    None => {
                        proof {
                            lemma_first_unknown_output(grid.characters@, ocells@, i as int);
                        }
                        return Err(RuleParseError::UnknownCharacter(ch));
                    },
                }
            }
            i = i + 1;
            assert(values@ =~= Seq::new(
                i as nat,
                |k: int| output_value(grid.characters@, ocells@[k]),
            ));
        }
        proof {
            lemma_no_unknown_output(grid.characters@, ocells@);
        }
        proof {
            let li = pattern_layers(input@);
            let lo = pattern_layers(output@);
            assert forall|x: int, y: int, z: int|
                0 <= x < imx && 0 <= y < imy && 0 <= z < imz implies {
                    &&& Some(waves@[idx3(x, y, z, imx as int, imy as int)]) == wave_lookup(
                        grid.waves@,
                        layers_cell(li, x, y, z),
                    )
                    &&& values@[idx3(x, y, z, imx as int, imy as int)] == output_value(
                        grid.characters@,
                        layers_cell(lo, x, y, z),
                    )
                } by {
                lemma_idx3_bound(x, y, z, imx as int, imy as int, imz as int);
                let k = idx3(x, y, z, imx as int, imy as int);
                assert(icells@[k] == layers_cell(li, x, y, z));
                assert(ocells@[k] == layers_cell(lo, x, y, z));
                assert(wave_lookup(grid.waves@, icells@[k]) is Some);
            }
        }
        let rule = MjRule::from_patterns(
            waves,
            imx,
            imy,
            imz,
            values,
            omx,
            omy,
            omz,
            grid.c,
            Probability::one(),
        );
        Ok(rule)
    }

    /// This rule was parsed from the given pattern strings with the grid's symbols.
    pub open spec fn parsed_from(&self, input: Seq<char>, output: Seq<char>, grid: &MjGrid) -> bool {
        let li = pattern_layers(input);
        let lo = pattern_layers(output);
        let (mx, my, mz) = layers_dims(li);
        &&& self.imx == mx && self.imy == my && self.imz == mz
        &&& self.omx == mx && self.omy == my && self.omz == mz
        &&& forall|x: int, y: int, z: int|
            0 <= x < mx && 0 <= y < my && 0 <= z < mz ==> {
                &&& Some(self.input@[idx3(x, y, z, mx, my)]) == wave_lookup(
                    grid.waves@,
                    layers_cell(li, x, y, z),
                )
                &&& self.output@[idx3(x, y, z, mx, my)] == output_value(
                    grid.characters@,
                    layers_cell(lo, x, y, z),
                )
            }
        &&& self.p == Probability { num: 1, den: 1 }
    }
}

/// The output byte of a pattern character: 0xff for `*`, else its value index.
pub open spec fn output_value(chars: Seq<char>, ch: char) -> u8 {
    if ch == '*' {
        0xffu8
    } else {
        match value_of(chars, ch) {
            Some(v) => v,
            None => 0u8,
        }
    }
}

/// Index of the first input character with no wave, or -1.
pub open spec fn first_unknown_input(waves: Seq<(char, u32)>, s: Seq<char>) -> int
    decreases s.len(),
{
    if s.len() == 0 {
        -1
    } else {
        let k = first_unknown_input(waves, s.drop_last());
        if k >= 0 {
            k
        } else if wave_lookup(waves, s.last()) is None {
            s.len() - 1
        } else {
            -1
        }
    }
}

/// Index of the first output character that is neither `*` nor a value, or -1.
pub open spec fn first_unknown_output(chars: Seq<char>, s: Seq<char>) -> int
    decreases s.len(),
{
    if s.len() == 0 {
        -1
    } else {
        let k = first_unknown_output(chars, s.drop_last());
        if k >= 0 {
            k
        } else if s.last() != '*' && value_of(chars, s.last()) is None {
            s.len() - 1
        } else {
            -1
        }
    }
}

/// The flat characters of a rectangular pattern.
pub open spec fn spec_pattern_cells(s: Seq<char>) -> Seq<char> {
    let l = pattern_layers(s);
    let (mx, my, mz) = layers_dims(l);
    Seq::new(
        (mx * my * mz) as nat,
        |i: int| layers_cell(l, i % mx, (i / mx) % my, i / (mx * my)),
    )
}

/// The error, if any, of parsing a rule from two pattern strings.
pub open spec fn spec_rule_parse_error(input: Seq<char>, output: Seq<char>, grid: &MjGrid) -> Option<
    RuleParseError,
> {
    let li = pattern_layers(input);
    let lo = pattern_layers(output);
    let (imx, imy, imz) = layers_dims(li);
    let (omx, omy, omz) = layers_dims(lo);
    if spec_parse_pattern_ok(input) is Err {
        Some(spec_parse_pattern_ok(input)->Err_0)
    } else if spec_parse_pattern_ok(output) is Err {
        Some(spec_parse_pattern_ok(output)->Err_0)
    } else if imx == 0 || imy == 0 || imz == 0 {
        Some(RuleParseError::EmptyPattern)
    } else if imx != omx || imy != omy || imz != omz {
        Some(RuleParseError::SizeMismatch)
    } else if imx > i32::MAX || imy > i32::MAX || imz > i32::MAX {
        Some(RuleParseError::TooLarge)
    } else if first_unknown_input(grid.waves@, spec_pattern_cells(input)) >= 0 {
        Some(
            RuleParseError::UnknownCharacter(
                spec_pattern_cells(input)[first_unknown_input(
                    grid.waves@,
                    spec_pattern_cells(input),
                )],
            ),
        )
    } else if first_unknown_output(grid.characters@, spec_pattern_cells(output)) >= 0 {
        Some(
            RuleParseError::UnknownCharacter(
                spec_pattern_cells(output)[first_unknown_output(
                    grid.characters@,
                    spec_pattern_cells(output),
                )],
            ),
        )
    } else {
        None
    }
}

/// Cells listed in flat order are the flat characters of the pattern.
pub(crate) proof fn lemma_cells_eq(s: Seq<char>, cells: Seq<char>, mx: int, my: int, mz: int)
    requires
        (mx, my, mz) == layers_dims(pattern_layers(s)),
        pattern_cells_match(pattern_layers(s), cells, mx, my, mz),
        mx >= 1,
        my >= 1,
    ensures
        cells == spec_pattern_cells(s),
{
    let l = pattern_layers(s);
    assert forall|i: int| 0 <= i < cells.len() implies cells[i] == spec_pattern_cells(s)[i] by {
        lemma_idx3_inverse(i, mx, my);
        lemma_plane_div_bound(i, mx, my, mz);
    }
    assert(cells =~= spec_pattern_cells(s));
}

pub(crate) proof fn lemma_first_unknown_input(waves: Seq<(char, u32)>, s: Seq<char>, i: int)
    requires
        0 <= i < s.len(),
        wave_lookup(waves, s[i]) is None,
        forall|k: int| 0 <= k < i ==> wave_lookup(waves, s[k]) is Some,
    ensures
        first_unknown_input(waves, s) == i,
    decreases s.len(),
{
    if i < s.len() - 1 {
        lemma_first_unknown_input(waves, s.drop_last(), i);
    } else {
        lemma_no_unknown_input(waves, s.drop_last());
    }
}

pub(crate) proof fn lemma_no_unknown_input(waves: Seq<(char, u32)>, s: Seq<char>)
    requires
        forall|k: int| 0 <= k < s.len() ==> wave_lookup(waves, s[k]) is Some,
    ensures
        first_unknown_input(waves, s) == -1,
    decreases s.len(),
{
    if s.len() > 0 {
        lemma_no_unknown_input(waves, s.drop_last());
    }
}

pub(crate) proof fn lemma_first_unknown_output(chars: Seq<char>, s: Seq<char>, i: int)
    requires
        0 <= i < s.len(),
        s[i] != '*' && value_of(chars, s[i]) is None,
        forall|k: int| 0 <= k < i ==> s[k] == '*' || value_of(chars, s[k]) is Some,
    ensures
        first_unknown_output(chars, s) == i,
    decreases s.len(),
{
    if i < s.len() - 1 {
        lemma_first_unknown_output(chars, s.drop_last(), i);
    } else {
        lemma_no_unknown_output(chars, s.drop_last());
    }
}

pub(crate) proof fn lemma_no_unknown_output(chars: Seq<char>, s: Seq<char>)
    requires
        forall|k: int| 0 <= k < s.len() ==> s[k] == '*' || value_of(chars, s[k]) is Some,
    ensures
        first_unknown_output(chars, s) == -1,
    decreases s.len(),
{
    if s.len() > 0 {
        lemma_no_unknown_output(chars, s.drop_last());
    }
}

/// The binput byte of one input wave.
fn binput_value(w: u32, c: u8) -> (r: u8)
    requires
        c < 32,
    ensures
        r == binput_of(w, c),
{
    assert(1u32 << c >= 1) by (bit_vector)
        requires
            c < 32,
    ;
    let full: u32 = (1u32 << c) - 1;
    assert(full == all_values_mask(c));
    if w == full {
        return 0xff;
    }
    let mut k: u32 = 0;
    while k < 32
        invariant
            k <= 32,
            w != all_values_mask(c),
            lowest_bit_from(w, 0) == lowest_bit_from(w, k as int),
        decreases 32 - k,
    {
        if w & (1u32 << k) != 0 {
            assert(lowest_bit_from(w, k as int) == k as int);
            return k as u8;
        }
        assert(lowest_bit_from(w, k as int) == lowest_bit_from(w, k + 1));
        k = k + 1;
    }
    assert(lowest_bit_from(w, 32) == 32);
    32
}

/// Offsets of the input cells accepting value `v`, in flat order.
fn input_shifts(input: &Vec<u32>, imx: usize, imy: usize, imz: usize, v: u8) -> (r: Vec<
    (i32, i32, i32),
>)
    requires
        v < 32,
        1 <= imx <= i32::MAX,
        1 <= imy <= i32::MAX,
        1 <= imz <= i32::MAX,
        input@.len() == imx * imy * imz,
    ensures
        r@ == input_shift_table(input@, imx as int, imy as int, v as int),
        forall|k: int|
            0 <= k < r@.len() ==> {
                let s = #[trigger] r@[k];
                &&& 0 <= s.0 < imx
                &&& 0 <= s.1 < imy
                &&& 0 <= s.2 < imz
            },
{
    let ghost pred = input_pred(input@, v as int);
    let mut r: Vec<(i32, i32, i32)> = Vec::new();
    let mut i: usize = 0;
    while i < input.len()
        invariant
            v < 32,
            1 <= imx <= i32::MAX,
            1 <= imy <= i32::MAX,
            1 <= imz <= i32::MAX,
            input@.len() == imx * imy * imz,
            i <= input@.len(),
            pred == input_pred(input@, v as int),
            r@ == shifts_where(i as int, imx as int, imy as int, pred),
            forall|k: int|
                0 <= k < r@.len() ==> {
                    let s = #[trigger] r@[k];
                    &&& 0 <= s.0 < imx
                    &&& 0 <= s.1 < imy
                    &&& 0 <= s.2 < imz
                },
        decreases input@.len() - i,
    {
        proof {
            lemma_shifts_where_step(i as int, imx as int, imy as int, pred);
        }
        if input[i] & (1u32 << v) != 0 {
            let t = shift_of(i, imx, imy, imz);
            r.push(t);
        }
        i = i + 1;
    }
    r
}

/// Offsets of the output cells writing value `v`, in flat order.
fn output_shifts(output: &Vec<u8>, omx: usize, omy: usize, omz: usize, v: u8) -> (r: Vec<
    (i32, i32, i32),
>)
    requires
        1 <= omx <= i32::MAX,
        1 <= omy <= i32::MAX,
        1 <= omz <= i32::MAX,
        output@.len() == omx * omy * omz,
    ensures
        r@ == output_shift_table(output@, omx as int, omy as int, v as int),
        forall|k: int|
            0 <= k < r@.len() ==> {
                let s = #[trigger] r@[k];
                &&& 0 <= s.0 < omx
                &&& 0 <= s.1 < omy
                &&& 0 <= s.2 < omz
            },
{
    let ghost pred = output_pred(output@, v as int);
    let mut r: Vec<(i32, i32, i32)> = Vec::new();
    let mut i: usize = 0;
    while i < output.len()
        invariant
            1 <= omx <= i32::MAX,
            1 <= omy <= i32::MAX,
            1 <= omz <= i32::MAX,
            output@.len() == omx * omy * omz,
            i <= output@.len(),
            pred == output_pred(output@, v as int),
            r@ == shifts_where(i as int, omx as int, omy as int, pred),
            forall|k: int|
                0 <= k < r@.len() ==> {
                    let s = #[trigger] r@[k];
                    &&& 0 <= s.0 < omx
                    &&& 0 <= s.1 < omy
                    &&& 0 <= s.2 < omz
                },
        decreases output@.len() - i,
    {
        proof {
            lemma_shifts_where_step(i as int, omx as int, omy as int, pred);
        }
        if output[i] == v {
            let t = shift_of(i, omx, omy, omz);
            r.push(t);
        }
        i = i + 1;
    }
    r
}

/// Offset (x, y, z) of flat index `i` in a pattern.
fn shift_of(i: usize, mx: usize, my: usize, mz: usize) -> (r: (i32, i32, i32))
    requires
        1 <= mx <= i32::MAX,
        1 <= my <= i32::MAX,
        1 <= mz <= i32::MAX,
        i < mx * my * mz,
        mx * my * mz <= usize::MAX,
    ensures
        r == coord_of(i as int, mx as int, my as int),
        0 <= r.0 < mx,
        0 <= r.1 < my,
        0 <= r.2 < mz,
{
    proof {
        lemma_idx3_inverse(i as int, mx as int, my as int);
        lemma_plane_div_bound(i as int, mx as int, my as int, mz as int);
        lemma_idx3_bound(0, 0, 0, mx as int, my as int, mz as int);
        assert(mx * my > 0) by (nonlinear_arith)
            requires
                mx >= 1,
                my >= 1,
        ;
        assert(mx * my <= mx * my * mz) by (nonlinear_arith)
            requires
                mx * my > 0,
                mz >= 1,
        ;
    }
    let plane = mx * my;
    ((i % mx) as i32, ((i / mx) % my) as i32, (i / plane) as i32)
}

/// `shifts_where` over one more index.
proof fn lemma_shifts_where_step(i: int, mx: int, my: int, pred: spec_fn(int) -> bool)
    requires
        0 <= i,
    ensures
        shifts_where(i + 1, mx, my, pred) == (if pred(i) {
            shifts_where(i, mx, my, pred).push(coord_of(i, mx, my))
        } else {
            shifts_where(i, mx, my, pred)
        }),
{
    let a = Seq::new(i as nat, |k: int| k);
    assert(Seq::new((i + 1) as nat, |k: int| k) =~= a.push(i));
    a.lemma_filter_push(i, pred);
    let f = |k: int| coord_of(k, mx, my);
    if pred(i) {
        assert(a.filter(pred).push(i).map_values(f) =~= a.filter(pred).map_values(f).push(
            coord_of(i, mx, my),
        ));
    }
}

} // verus!
