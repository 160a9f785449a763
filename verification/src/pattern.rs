//! Parsing of rule pattern strings: layers separated by spaces, rows by slashes.
use vstd::prelude::*;
use crate::geom::{idx3, lemma_idx3_bound};
use crate::text::{lemma_split_nonempty, spec_split, split_chars};
use crate::vecs::str_chars;

verus! {

/// Errors from parsing a rule.
#[derive(Debug, Clone, PartialEq)]
pub enum RuleParseError {
    /// The pattern string is empty, or a dimension is zero.
    EmptyPattern,
    /// Rows or layers of a pattern differ in size.
    NonRectangular,
    /// A character has no meaning in the grid.
    UnknownCharacter(char),
    /// Input and output patterns differ in size.
    SizeMismatch,
    /// A pattern dimension does not fit in a 32-bit signed coordinate.
    TooLarge,
}

/// The layers of a pattern: split on spaces, then each layer on slashes.
pub open spec fn pattern_layers(s: Seq<char>) -> Seq<Seq<Seq<char>>> {
    spec_split(s, ' ').map_values(|l: Seq<char>| spec_split(l, '/'))
}

/// Every layer has as many rows as the first, and every row as many characters as the
/// first row of the first layer.
pub open spec fn layers_rectangular(l: Seq<Seq<Seq<char>>>) -> bool {
    &&& l.len() >= 1
    &&& l[0].len() >= 1
    &&& forall|z: int| 0 <= z < l.len() ==> (#[trigger] l[z]).len() == l[0].len()
    &&& forall|z: int, y: int|
        0 <= z < l.len() && 0 <= y < l[z].len() ==> (#[trigger] l[z][y]).len() == l[0][0].len()
}

/// Width, height and depth of a rectangular pattern.
pub open spec fn layers_dims(l: Seq<Seq<Seq<char>>>) -> (int, int, int) {
    (l[0][0].len() as int, l[0].len() as int, l.len() as int)
}

/// The character at (x, y, z): the first layer written is the top (largest z).
pub open spec fn layers_cell(l: Seq<Seq<Seq<char>>>, x: int, y: int, z: int) -> char {
    l[l.len() - 1 - z][y][x]
}

/// The outcome of parsing a pattern string.
pub open spec fn spec_parse_pattern_ok(s: Seq<char>) -> Result<(), RuleParseError> {
    if s.len() == 0 {
        Err(RuleParseError::EmptyPattern)
    } else if !layers_rectangular(pattern_layers(s)) {
        Err(RuleParseError::NonRectangular)
    } else {
        Ok(())
    }
}

/// `cells` holds the characters of a rectangular pattern in flat (x, y, z) order.
pub open spec fn pattern_cells_match(
    l: Seq<Seq<Seq<char>>>,
    cells: Seq<char>,
    mx: int,
    my: int,
    mz: int,
) -> bool {
    &&& cells.len() == mx * my * mz
    &&& forall|x: int, y: int, z: int|
        0 <= x < mx && 0 <= y < my && 0 <= z < mz ==> cells[idx3(x, y, z, mx, my)]
            == layers_cell(l, x, y, z)
}

/// Parse a pattern string into its characters in flat order and its dimensions.
///
/// "AB/CD EF/GH" has two layers of two rows; the last layer is z = 0.
pub fn parse_pattern(s: &str) -> (r: Result<(Vec<char>, usize, usize, usize), RuleParseError>)
    ensures
        r is Ok <==> spec_parse_pattern_ok(s@) is Ok,
        r matches Err(e) ==> spec_parse_pattern_ok(s@) == Err::<(), RuleParseError>(e),
        r matches Ok((cells, mx, my, mz)) ==> {
            &&& (mx as int, my as int, mz as int) == layers_dims(pattern_layers(s@))
            &&& pattern_cells_match(pattern_layers(s@), cells@, mx as int, my as int, mz as int)
        },
{
    let chars = str_chars(s);
    if chars.len() == 0 {
        return Err(RuleParseError::EmptyPattern);
    }
    let layer_strs = split_chars(&chars, ' ');
    let ghost l = pattern_layers(s@);
    proof {
        lemma_split_nonempty(s@, ' ');
    }
    let mut layers: Vec<Vec<Vec<char>>> = Vec::new();
    let mut k: usize = 0;
    while k < layer_strs.len()
        invariant
            k <= layer_strs@.len(),
            layer_strs@.len() == l.len(),
            chars@ == s@,
            l == pattern_layers(s@),
            forall|i: int| 0 <= i < layer_strs@.len() ==> (#[trigger] layer_strs@[i])@ == spec_split(
                s@,
                ' ',
            )[i],
            layers@.len() == k,
            forall|i: int| 0 <= i < k ==> (#[trigger] layers@[i])@.len() == l[i].len(),
            forall|i: int| 0 <= i < k ==> (#[trigger] layers@[i])@.len() >= 1,
            forall|i: int, j: int|
                0 <= i < k && 0 <= j < l[i].len() ==> (#[trigger] layers@[i]@[j])@ == l[i][j],
        decreases layer_strs@.len() - k,
    {
        let rows = split_chars(&layer_strs[k], '/');
        proof {
            lemma_split_nonempty(layer_strs@[k as int]@, '/');
        }
        layers.push(rows);
        k = k + 1;
    }
    let mz = layers.len();
    assert(layers@[0]@.len() >= 1);
    assert(l[0].len() >= 1);
    let my = layers[0].len();
    let mx = layers[0][0].len();
    let mut z: usize = 0;
    while z < mz
        invariant
            z <= mz,
            s@.len() > 0,
            l == pattern_layers(s@),
            l[0].len() >= 1,
            mz == l.len(),
            my == l[0].len(),
            mx == l[0][0].len(),
            layers@.len() == l.len(),
            forall|i: int| 0 <= i < mz ==> (#[trigger] layers@[i])@.len() == l[i].len(),
            forall|i: int, j: int|
                0 <= i < mz && 0 <= j < l[i].len() ==> (#[trigger] layers@[i]@[j])@ == l[i][j],
            forall|i: int| 0 <= i < z ==> (#[trigger] l[i]).len() == my,
            forall|i: int, j: int| 0 <= i < z && 0 <= j < l[i].len() ==> (#[trigger] l[i][j]).len() == mx,
        decreases mz - z,
    {
        if layers[z].len() != my {
            assert(l[z as int].len() != l[0].len());
            return Err(RuleParseError::NonRectangular);
        }
        let mut y: usize = 0;
        while y < my
            invariant
                z < mz,
                y <= my,
                s@.len() > 0,
                l == pattern_layers(s@),
                l[0].len() >= 1,
                mz == l.len(),
                my == l[0].len(),
                mx == l[0][0].len(),
                layers@.len() == l.len(),
                layers@[z as int]@.len() == my,
                forall|i: int| 0 <= i < mz ==> (#[trigger] layers@[i])@.len() == l[i].len(),
                forall|i: int, j: int|
                    0 <= i < mz && 0 <= j < l[i].len() ==> (#[trigger] layers@[i]@[j])@ == l[i][j],
                forall|j: int| 0 <= j < y ==> (#[trigger] l[z as int][j]).len() == mx,
            decreases my - y,
        {
            if layers[z][y].len() != mx {
                assert(l[z as int][y as int].len() != l[0][0].len());
                return Err(RuleParseError::NonRectangular);
            }
            y = y + 1;
        }
        z = z + 1;
    }
    assert(layers_rectangular(l));
    let mut cells: Vec<char> = Vec::new();
    let mut z: usize = 0;
    while z < mz
        invariant
            z <= mz,
            mz == l.len(),
            my == l[0].len(),
            mx == l[0][0].len(),
            layers_rectangular(l),
            layers@.len() == l.len(),
            forall|i: int, j: int|
                0 <= i < mz && 0 <= j < l[i].len() ==> (#[trigger] layers@[i]@[j])@ == l[i][j],
            forall|i: int| 0 <= i < mz ==> (#[trigger] layers@[i])@.len() == l[i].len(),
            cells@.len() == z * (mx * my),
            forall|x: int, y: int, zz: int|
                0 <= x < mx && 0 <= y < my && 0 <= zz < z ==> cells@[idx3(x, y, zz, mx as int, my as int)]
                    == layers_cell(l, x, y, zz),
        decreases mz - z,
    {
        let layer = &layers[mz - 1 - z];
        let mut y: usize = 0;
        while y < my
            invariant
                z < mz,
                y <= my,
                mz == l.len(),
                my == l[0].len(),
                mx == l[0][0].len(),
                layers_rectangular(l),
                layer@.len() == my,
                layer == layers@[mz - 1 - z],
                forall|j: int| 0 <= j < my ==> (#[trigger] layer@[j])@ == l[mz - 1 - z][j],
                cells@.len() == z * (mx * my) + y * mx,
                forall|x: int, yy: int, zz: int|
                    0 <= x < mx && 0 <= yy < my && 0 <= zz < z ==> cells@[idx3(x, yy, zz, mx as int, my as int)]
                        == layers_cell(l, x, yy, zz),
                forall|x: int, yy: int|
                    0 <= x < mx && 0 <= yy < y ==> cells@[idx3(x, yy, z as int, mx as int, my as int)]
                        == layers_cell(l, x, yy, z as int),
            decreases my - y,
        {
            let row = &layer[y];
            assert(row@.len() == mx) by {
                assert(l[mz - 1 - z][y as int].len() == mx);
            }
            let mut x: usize = 0;
            while x < mx
                invariant
                    z < mz,
                    y < my,
                    x <= mx,
                    mz == l.len(),
                    row@.len() == mx,
                    row@ == l[mz - 1 - z][y as int],
                    cells@.len() == z * (mx * my) + y * mx + x,
                    forall|xx: int, yy: int, zz: int|
                        0 <= xx < mx && 0 <= yy < my && 0 <= zz < z ==> cells@[idx3(xx, yy, zz, mx as int, my as int)]
                            == layers_cell(l, xx, yy, zz),
                    forall|xx: int, yy: int|
                        0 <= xx < mx && 0 <= yy < y ==> cells@[idx3(xx, yy, z as int, mx as int, my as int)]
                            == layers_cell(l, xx, yy, z as int),
                    forall|xx: int| 0 <= xx < x ==> cells@[idx3(xx, y as int, z as int, mx as int, my as int)]
                        == layers_cell(l, xx, y as int, z as int),
                decreases mx - x,
            {
                proof {
                    lemma_idx3_bound(x as int, y as int, z as int, mx as int, my as int, mz as int);
                    assert forall|xx: int, yy: int, zz: int|
                        0 <= xx < mx && 0 <= yy < my && 0 <= zz < z implies idx3(xx, yy, zz, mx as int, my as int)
                            < cells@.len() by {
                        lemma_idx3_bound(xx, yy, zz, mx as int, my as int, z as int);
                        assert(mx * my * z == z * (mx * my)) by (nonlinear_arith);
                    }
                    assert forall|xx: int, yy: int|
                        0 <= xx < mx && 0 <= yy < y implies idx3(xx, yy, z as int, mx as int, my as int)
                            < cells@.len() by {
                        assert(yy * mx + mx <= y * mx) by (nonlinear_arith)
                            requires yy + 1 <= y, mx >= 0;
                    }
                }
                let ghost old_len = cells@.len();
                cells.push(row[x]);
                assert(old_len == idx3(x as int, y as int, z as int, mx as int, my as int));
                assert(cells@[old_len as int] == row@[x as int]);
                assert(row@[x as int] == l[mz - 1 - z][y as int][x as int]);
                assert(layers_cell(l, x as int, y as int, z as int) == l[mz - 1 - z][y as int][x as int]);
                assert(cells@[idx3(x as int, y as int, z as int, mx as int, my as int)] == layers_cell(
                    l,
                    x as int,
                    y as int,
                    z as int,
                ));
                x = x + 1;
            }
            proof {
                assert(z * (mx * my) + y * mx + mx == z * (mx * my) + (y + 1) * mx) by (nonlinear_arith);
            }
            y = y + 1;
        }
        proof {
            assert(z * (mx * my) + my * mx == (z + 1) * (mx * my)) by (nonlinear_arith);
        }
        z = z + 1;
    }
    proof {
        assert(mz * (mx * my) == mx * my * mz) by (nonlinear_arith);
    }
    Ok((cells, mx, my, mz))
}

} // verus!
