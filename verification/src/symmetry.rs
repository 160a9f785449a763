//! Subgroups of the eight symmetries of the square.
use vstd::prelude::*;

verus! {

/// A subgroup of the symmetries of the square, listed in the order identity, reflection,
/// rotation, rotation then reflection, half turn, half turn then reflection, three quarter
/// turns, three quarter turns then reflection.
#[derive(Debug, Clone, Copy, PartialEq, Eq, Structural)]
pub enum SquareSubgroup {
    /// Only the identity.
    Trivial,
    /// Identity and the reflection in x.
    ReflectX,
    /// Identity and the reflection in y.
    ReflectY,
    /// Both reflections and the half turn.
    ReflectXY,
    /// The rotations.
    Rotate,
    /// All eight.
    All,
}

/// Which of the eight symmetries a subgroup keeps.
pub open spec fn spec_mask(g: SquareSubgroup) -> Seq<bool> {
    match g {
        SquareSubgroup::Trivial => seq![true, false, false, false, false, false, false, false],
        SquareSubgroup::ReflectX => seq![true, true, false, false, false, false, false, false],
        SquareSubgroup::ReflectY => seq![true, false, false, false, false, true, false, false],
        SquareSubgroup::ReflectXY => seq![true, true, false, false, true, true, false, false],
        SquareSubgroup::Rotate => seq![true, false, true, false, true, false, true, false],
        SquareSubgroup::All => seq![true, true, true, true, true, true, true, true],
    }
}

impl SquareSubgroup {
    /// Which of the eight symmetries the subgroup keeps.
    pub fn mask(&self) -> (r: [bool; 8])
        ensures
            r@ == spec_mask(*self),
    {
        let r = match self {
            SquareSubgroup::Trivial => [true, false, false, false, false, false, false, false],
            SquareSubgroup::ReflectX => [true, true, false, false, false, false, false, false],
            SquareSubgroup::ReflectY => [true, false, false, false, false, true, false, false],
            SquareSubgroup::ReflectXY => [true, true, false, false, true, true, false, false],
            SquareSubgroup::Rotate => [true, false, true, false, true, false, true, false],
            SquareSubgroup::All => [true, true, true, true, true, true, true, true],
        };
        assert(r@ =~= spec_mask(*self));
        r
    }
}

/// The subgroup whose mask is `s`, when `s` is one of the known masks; all eight
/// otherwise (and for fewer than eight flags).
pub open spec fn spec_subgroup_of(s: Seq<bool>) -> SquareSubgroup {
    if s.len() < 8 {
        SquareSubgroup::All
    } else if s == spec_mask(SquareSubgroup::Trivial) {
        SquareSubgroup::Trivial
    } else if s == spec_mask(SquareSubgroup::ReflectX) {
        SquareSubgroup::ReflectX
    } else if s == spec_mask(SquareSubgroup::ReflectY) {
        SquareSubgroup::ReflectY
    } else if s == spec_mask(SquareSubgroup::ReflectXY) {
        SquareSubgroup::ReflectXY
    } else if s == spec_mask(SquareSubgroup::Rotate) {
        SquareSubgroup::Rotate
    } else {
        SquareSubgroup::All
    }
}

/// Whether `s` equals the eight flags `m`.
fn flags_equal(s: &[bool], m: &[bool; 8]) -> (r: bool)
    ensures
        r == (s@ == m@),
{
    if s.len() != 8 {
        return false;
    }
    let mut i: usize = 0;
    while i < 8
        invariant
            i <= 8,
            s@.len() == 8,
            m@.len() == 8,
            forall|k: int| 0 <= k < i ==> s@[k] == m@[k],
        decreases 8 - i,
    {
        if s[i] != m[i] {
            return false;
        }
        i = i + 1;
    }
    assert(s@ =~= m@);
    true
}

/// The subgroup named by a list of symmetry flags.
pub fn bool_slice_to_subgroup(symmetry: &[bool]) -> (r: SquareSubgroup)
    ensures
        r == spec_subgroup_of(symmetry@),
{
    if symmetry.len() < 8 {
        return SquareSubgroup::All;
    }
    if flags_equal(symmetry, &SquareSubgroup::Trivial.mask()) {
        SquareSubgroup::Trivial
    } else if flags_equal(symmetry, &SquareSubgroup::ReflectX.mask()) {
        SquareSubgroup::ReflectX
    } else if flags_equal(symmetry, &SquareSubgroup::ReflectY.mask()) {
        SquareSubgroup::ReflectY
    } else if flags_equal(symmetry, &SquareSubgroup::ReflectXY.mask()) {
        SquareSubgroup::ReflectXY
    } else if flags_equal(symmetry, &SquareSubgroup::Rotate.mask()) {
        SquareSubgroup::Rotate
    } else {
        SquareSubgroup::All
    }
}

} // verus!
