//! Building a model (grid and node tree) from its XML description.
use vstd::prelude::*;
use crate::context::grid_ok;
use crate::field::Field;
use crate::grid::{initial_waves, spec_values_error, spec_wave, value_of, wave_lookup, wave_table_insert, MjGrid};
use crate::helper::{
    decoded_rgba, half_cell, legend_chars, load_resource, ordinal_at, packed_pixels, split_rule_image, uniques_of,
};
use crate::map_node::{div_trunc, spec_parse_scale, trunc_div, MapNode, ScaleFactor};
use crate::node::{MarkovNode, NodeBox, SequenceNode};
use crate::observation::{rows_len, rule_values_below, Observation};
use crate::one_node::OneNode;
use crate::all_node::AllNode;
use crate::convolution_node::{ConvolutionNode, ConvolutionRule};
use crate::parallel_node::ParallelNode;
use crate::path_node::PathNode;
use crate::pattern::{layers_dims, parse_pattern, pattern_layers, spec_parse_pattern_ok};
use crate::rule::{
    first_unknown_input, first_unknown_output, lemma_cells_eq, lemma_first_unknown_input,
    lemma_first_unknown_output, lemma_no_unknown_input, lemma_no_unknown_output, output_value,
    spec_pattern_cells, spec_rule_parse_error, MjRule, Probability,
};
use crate::rule_node::{rules_ok, RuleNodeData};
use crate::rule_symmetry::{kept_images, rule_ok, rule_symmetries, shape_of, shapes_of, RuleShape};
use crate::symmetry::{bool_slice_to_subgroup, spec_mask, spec_subgroup_of};
use crate::text::{is_whitespace, push_char, spec_is_whitespace, spec_utf8_len, spec_without_whitespace};
use crate::vecs::{filled_i32, str_chars};
use crate::xml::{attr_lookup, build_tree, lemma_attr_view, parse_xml, str_eq, tree_attr, tree_of, xml_tokens, XmlElement, XmlTree};

verus! {

/// Why a model could not be loaded.
#[derive(Debug, Clone)]
pub enum LoadError {
    /// A file could not be found or read.
    FileNotFound(String),
    /// The text is not well-formed XML.
    XmlError(String),
    /// A required attribute is absent.
    MissingAttribute { element: String, attribute: String },
    /// An attribute has a value that cannot be used.
    InvalidAttribute { element: String, attribute: String, value: String, reason: String },
    /// The element names no known node.
    UnknownNodeType(String),
    /// The symmetry name is not known for the grid's dimension.
    UnknownSymmetry(String),
    /// A rule could not be built.
    RuleError(String),
    /// A character has no meaning in the grid.
    UnknownCharacter { character: char, context: String },
    /// The grid could not be built.
    GridError(String),
    /// A resource (image, voxel file) could not be used.
    ResourceError(String),
    /// A known node kind that this library does not run.
    Unsupported(String),
}

/// The text that describes a load error.
pub open spec fn load_error_text(e: LoadError) -> Seq<char> {
    match e {
        LoadError::FileNotFound(p) => "file not found: "@ + p@,
        LoadError::XmlError(m) => "XML error: "@ + m@,
        LoadError::MissingAttribute { element, attribute } => "missing attribute '"@ + attribute@ + "' in <"@
            + element@ + ">"@,
        LoadError::InvalidAttribute { element, attribute, value, reason } => "invalid value '"@ + value@
            + "' for attribute '"@ + attribute@ + "' in <"@ + element@ + ">: "@ + reason@,
        LoadError::UnknownNodeType(n) => "unknown node type: "@ + n@,
        LoadError::UnknownSymmetry(n) => "unknown symmetry: "@ + n@,
        LoadError::RuleError(m) => "rule error: "@ + m@,
        LoadError::UnknownCharacter { character, context } => "unknown character '"@ + seq![character] + "' in "@
            + context@,
        LoadError::GridError(m) => "grid error: "@ + m@,
        LoadError::ResourceError(m) => "resource error: "@ + m@,
        LoadError::Unsupported(n) => "unsupported node type: "@ + n@,
    }
}

impl LoadError {
    /// A description of the error.
    pub fn message(&self) -> (r: String)
        ensures
            r@ == load_error_text(*self),
    {
        match self {
            LoadError::FileNotFound(p) => String::from_str("file not found: ").concat(p.as_str()),
            LoadError::XmlError(m) => String::from_str("XML error: ").concat(m.as_str()),
            LoadError::MissingAttribute { element, attribute } => String::from_str("missing attribute '").concat(
                attribute.as_str(),
            ).concat("' in <").concat(element.as_str()).concat(">"),
            LoadError::InvalidAttribute { element, attribute, value, reason } => String::from_str(
                "invalid value '",
            ).concat(value.as_str()).concat("' for attribute '").concat(attribute.as_str()).concat("' in <").concat(
                element.as_str(),
            ).concat(">: ").concat(reason.as_str()),
            LoadError::UnknownNodeType(n) => String::from_str("unknown node type: ").concat(n.as_str()),
            LoadError::UnknownSymmetry(n) => String::from_str("unknown symmetry: ").concat(n.as_str()),
            LoadError::RuleError(m) => String::from_str("rule error: ").concat(m.as_str()),
            LoadError::UnknownCharacter { character, context } => {
                let mut s = String::from_str("unknown character '");
                push_char(&mut s, *character);
                s.concat("' in ").concat(context.as_str())
            },
            LoadError::GridError(m) => String::from_str("grid error: ").concat(m.as_str()),
            LoadError::ResourceError(m) => String::from_str("resource error: ").concat(m.as_str()),
            LoadError::Unsupported(n) => String::from_str("unsupported node type: ").concat(n.as_str()),
        }
    }
}

/// A loaded model: its root node, its grid and whether runs start from a center seed.
pub struct LoadedModel {
    /// The root of the node tree.
    pub root: NodeBox,
    /// The grid, sized and with its values.
    pub grid: MjGrid,
    /// Whether a reset puts value 1 in the center cell.
    pub origin: bool,
}

/// Resource files of a model (path below the resources folder, such as
/// `rules/Name.png`, and contents) and the rule folder named by the model.
struct LoadContext<'a> {
    /// The available resource files.
    pub resources: &'a [(String, Vec<u8>)],
    /// The folder of the model's rule files, if any.
    pub folder: Option<String>,
}

/// The names of the node elements.
pub open spec fn node_name(name: Seq<char>) -> bool {
    name == "one"@ || name == "all"@ || name == "prl"@ || name == "markov"@ || name == "sequence"@ || name
        == "path"@ || name == "map"@ || name == "convolution"@ || name == "convchain"@ || name == "wfc"@
}

/// Whether a name is one of the node elements.
fn is_node_name(name: &str) -> (r: bool)
    ensures
        r == node_name(name@),
{
    str_eq(name, "one") || str_eq(name, "all") || str_eq(name, "prl") || str_eq(name, "markov") || str_eq(
        name,
        "sequence",
    ) || str_eq(name, "path") || str_eq(name, "map") || str_eq(name, "convolution") || str_eq(name, "convchain")
        || str_eq(name, "wfc")
}

/// The symmetry flags a symmetry name stands for: eight flags (the square) in 2D,
/// forty-eight (the cube) in 3D.
pub open spec fn spec_symmetry(is_2d: bool, name: Seq<char>) -> Option<Seq<bool>> {
    if is_2d {
        if name == "()"@ {
            Some(spec_mask(crate::symmetry::SquareSubgroup::Trivial))
        } else if name == "(x)"@ {
            Some(spec_mask(crate::symmetry::SquareSubgroup::ReflectX))
        } else if name == "(y)"@ {
            Some(spec_mask(crate::symmetry::SquareSubgroup::ReflectY))
        } else if name == "(x)(y)"@ {
            Some(spec_mask(crate::symmetry::SquareSubgroup::ReflectXY))
        } else if name == "(xy+)"@ {
            Some(spec_mask(crate::symmetry::SquareSubgroup::Rotate))
        } else if name == "(xy)"@ {
            Some(spec_mask(crate::symmetry::SquareSubgroup::All))
        } else {
            None
        }
    } else {
        if name == "()"@ {
            Some(Seq::new(48, |l: int| l == 0))
        } else if name == "(x)"@ {
            Some(Seq::new(48, |l: int| l == 0 || l == 1))
        } else if name == "(z)"@ {
            Some(Seq::new(48, |l: int| l == 0 || l == 17))
        } else if name == "(xy)"@ {
            Some(Seq::new(48, |l: int| l < 8))
        } else if name == "(xyz+)"@ {
            Some(Seq::new(48, |l: int| l % 2 == 0))
        } else if name == "(xyz)"@ {
            Some(Seq::new(48, |l: int| true))
        } else {
            None
        }
    }
}

/// Forty-eight flags, set where `pred` holds of the position.
fn flags48(kind: u8) -> (r: Vec<bool>)
    ensures
        r@.len() == 48,
        forall|l: int|
            0 <= l < 48 ==> r@[l] == (if kind == 0 {
                l == 0
            } else if kind == 1 {
                l == 0 || l == 1
            } else if kind == 2 {
                l == 0 || l == 17
            } else if kind == 3 {
                l < 8
            } else if kind == 4 {
                l % 2 == 0
            } else {
                true
            }),
{
    let mut r: Vec<bool> = Vec::new();
    let mut l: usize = 0;
    while l < 48
        invariant
            l <= 48,
            r@.len() == l,
            forall|q: int|
                0 <= q < l ==> r@[q] == (if kind == 0 {
                    q == 0
                } else if kind == 1 {
                    q == 0 || q == 1
                } else if kind == 2 {
                    q == 0 || q == 17
                } else if kind == 3 {
                    q < 8
                } else if kind == 4 {
                    q % 2 == 0
                } else {
                    true
                }),
        decreases 48 - l,
    {
        let b = if kind == 0 {
            l == 0
        } else if kind == 1 {
            l == 0 || l == 1
        } else if kind == 2 {
            l == 0 || l == 17
        } else if kind == 3 {
            l < 8
        } else if kind == 4 {
            l % 2 == 0
        } else {
            true
        };
        r.push(b);
        l = l + 1;
    }
    r
}

/// An owned copy of a string.
fn owned(s: &str) -> (r: String)
    ensures
        r@ == s@,
{
    s.to_owned()
}

/// The flags of a symmetry name, or `UnknownSymmetry` with the name.
pub fn get_symmetry(is_2d: bool, name: &str) -> (r: Result<Vec<bool>, LoadError>)
    ensures
        r matches Ok(v) ==> spec_symmetry(is_2d, name@) == Some(v@),
        r is Err ==> spec_symmetry(is_2d, name@) is None,
        r matches Err(e) ==> e matches LoadError::UnknownSymmetry(n) && n@ == name@,
{
    if is_2d {
        let g = if str_eq(name, "()") {
            crate::symmetry::SquareSubgroup::Trivial
        } else if str_eq(name, "(x)") {
            crate::symmetry::SquareSubgroup::ReflectX
        } else if str_eq(name, "(y)") {
            crate::symmetry::SquareSubgroup::ReflectY
        } else if str_eq(name, "(x)(y)") {
            crate::symmetry::SquareSubgroup::ReflectXY
        } else if str_eq(name, "(xy+)") {
            crate::symmetry::SquareSubgroup::Rotate
        } else if str_eq(name, "(xy)") {
            crate::symmetry::SquareSubgroup::All
        } else {
            return Err(LoadError::UnknownSymmetry(owned(name)));
        };
        let m = g.mask();
        let mut v: Vec<bool> = Vec::new();
        let mut i: usize = 0;
        while i < 8
            invariant
                i <= 8,
                m@ == spec_mask(g),
                v@ == m@.take(i as int),
            decreases 8 - i,
        {
            v.push(m[i]);
            i = i + 1;
            assert(v@ =~= m@.take(i as int));
        }
        assert(m@.take(8) =~= m@);
        Ok(v)
    } else {
        let kind: u8 = if str_eq(name, "()") {
            0
        } else if str_eq(name, "(x)") {
            1
        } else if str_eq(name, "(z)") {
            2
        } else if str_eq(name, "(xy)") {
            3
        } else if str_eq(name, "(xyz+)") {
            4
        } else if str_eq(name, "(xyz)") {
            5
        } else {
            return Err(LoadError::UnknownSymmetry(owned(name)));
        };
        let v = flags48(kind);
        proof {
            let target = spec_symmetry(false, name@)->0;
            assert(v@ =~= target);
        }
        Ok(v)
    }
}

/// All symmetries: eight flags in 2D, forty-eight in 3D.
pub fn default_symmetry(is_2d: bool) -> (r: Vec<bool>)
    ensures
        r@ == Seq::new(if is_2d { 8nat } else { 48nat }, |i: int| true),
{
    let n: usize = if is_2d { 8 } else { 48 };
    let mut v: Vec<bool> = Vec::new();
    let mut i: usize = 0;
    while i < n
        invariant
            i <= n,
            v@ == Seq::new(i as nat, |k: int| true),
        decreases n - i,
    {
        v.push(true);
        i = i + 1;
        assert(v@ =~= Seq::new(i as nat, |k: int| true));
    }
    v
}

/// Whether a string reads `true`, ignoring ASCII case.
pub open spec fn is_true(s: Seq<char>) -> bool {
    &&& s.len() == 4
    &&& (s[0] == 't' || s[0] == 'T')
    &&& (s[1] == 'r' || s[1] == 'R')
    &&& (s[2] == 'u' || s[2] == 'U')
    &&& (s[3] == 'e' || s[3] == 'E')
}

/// Whether the attribute `key` of `elem` reads `true` (ignoring ASCII case); false when
/// absent.
pub fn flag(elem: &XmlElement, key: &str) -> (r: bool)
    ensures
        r == (crate::xml::attr_lookup(elem.attrs@, key@) matches Some(v) && is_true(v)),
{
    match elem.attr(key) {
        None => false,
        Some(v) => {
            let cs = str_chars(v.as_str());
            cs.len() == 4 && (cs[0] == 't' || cs[0] == 'T') && (cs[1] == 'r' || cs[1] == 'R') && (cs[2] == 'u'
                || cs[2] == 'U') && (cs[3] == 'e' || cs[3] == 'E')
        },
    }
}

/// The first character of a string, if any.
fn first_char(s: &str) -> (r: Option<char>)
    ensures
        s@.len() > 0 ==> r == Some(s@[0]),
        s@.len() == 0 ==> r is None,
{
    let cs = str_chars(s);
    if cs.len() > 0 {
        Some(cs[0])
    } else {
        None
    }
}

/// Ten to the power `n`.
pub open spec fn pow10(n: nat) -> int
    decreases n,
{
    if n == 0 {
        1
    } else {
        10 * pow10((n - 1) as nat)
    }
}

proof fn lemma_pow10_mono(a: nat, b: nat)
    requires
        a <= b,
    ensures
        1 <= pow10(a) <= pow10(b),
    decreases b,
{
    if b > a {
        lemma_pow10_mono(a, (b - 1) as nat);
    } else if a > 0 {
        lemma_pow10_mono((a - 1) as nat, (a - 1) as nat);
    }
}

proof fn lemma_pow10_bound(j: nat)
    requires
        j < 18,
    ensures
        pow10(j + 1) == 10 * pow10(j),
        1 <= pow10(j) < pow10(j + 1) <= 1_000_000_000_000_000_000,
{
    lemma_pow10_mono(j + 1, 18);
    lemma_pow10_mono(j, j);
    assert(pow10(18) == 1_000_000_000_000_000_000) by {
        reveal_with_fuel(pow10, 19);
    }
}

/// The decimal value of a string of ASCII digits, when it has 1 to 18 of them.
pub open spec fn digits_number(s: Seq<char>) -> Option<int> {
    if 1 <= s.len() <= 18 && crate::map_node::all_digits(s) {
        Some(crate::map_node::digits_value(s))
    } else {
        None
    }
}

/// Parse 1 to 18 ASCII digits.
fn parse_digits(cs: &Vec<char>) -> (r: Option<u64>)
    ensures
        r matches Some(v) ==> digits_number(cs@) == Some(v as int),
        r is None ==> digits_number(cs@) is None,
{
    if cs.len() == 0 || cs.len() > 18 {
        return None;
    }
    let mut v: u64 = 0;
    let mut i: usize = 0;
    proof {
        assert(cs@.take(0) =~= Seq::<char>::empty());
    }
    while i < cs.len()
        invariant
            1 <= cs@.len() <= 18,
            i <= cs@.len(),
            crate::map_node::all_digits(cs@.take(i as int)),
            v == crate::map_node::digits_value(cs@.take(i as int)),
            v < pow10(i as nat),
        decreases cs@.len() - i,
    {
        let c = cs[i];
        if !('0' <= c && c <= '9') {
            proof {
                assert(!crate::map_node::is_digit(cs@[i as int]));
            }
            return None;
        }
        proof {
            assert(cs@.take(i + 1).drop_last() =~= cs@.take(i as int));
            lemma_pow10_bound(i as nat);
        }
        v = v * 10 + (c as u64 - '0' as u64);
        i = i + 1;
    }
    assert(cs@.take(cs@.len() as int) =~= cs@);
    Some(v)
}

/// The step count an attribute value denotes, as `str::parse::<usize>` reads it; 0 when
/// absent or malformed.
pub open spec fn count_value(s: Option<Seq<char>>) -> int {
    match s {
        Some(t) => match crate::convolution_node::spec_parse_usize(t) {
            Some(v) => v,
            None => 0,
        },
        None => 0,
    }
}

/// A step count, as `str::parse::<usize>` reads it; 0 when absent or malformed.
fn parse_count(s: Option<&String>) -> (r: usize)
    ensures
        r == count_value(
            match s {
                Some(t) => Some(t@),
                None => None,
            },
        ),
{
    match s {
        None => 0,
        Some(t) => {
            let cs = str_chars(t.as_str());
            match crate::convolution_node::parse_usize(&cs) {
                Some(v) => v,
                None => 0,
            }
        },
    }
}

/// A probability written `d`, `d.f` or `.f` in decimal digits (at most 18 in all), as an
/// exact fraction; 1 when absent or written otherwise.
fn parse_probability(s: Option<&String>) -> (r: Probability)
    ensures
        r.valid(),
{
    let one = Probability::one();
    let t = match s {
        None => {
            return one;
        },
        Some(t) => t,
    };
    let cs = str_chars(t.as_str());
    match crate::text::find_char(&cs, '.') {
        None => match parse_digits(&cs) {
            Some(v) => Probability { num: v, den: 1 },
            None => one,
        },
        Some(k) => {
            proof {
                crate::text::lemma_first_index(cs@, '.');
            }
            let n = cs.len();
            if k >= n {
                return one;
            }
            let int_part = crate::text::sub_chars(&cs, 0, k);
            let frac = crate::text::sub_chars(&cs, k + 1, n);
            let mut all = int_part;
            let mut i: usize = 0;
            while i < frac.len()
                invariant
                    i <= frac@.len(),
                decreases frac@.len() - i,
            {
                all.push(frac[i]);
                i = i + 1;
            }
            if frac.len() > 18 {
                return one;
            }
            let mut den: u64 = 1;
            let mut j: usize = 0;
            while j < frac.len()
                invariant
                    j <= frac@.len() <= 18,
                    1 <= den <= pow10(j as nat),
                decreases frac@.len() - j,
            {
                proof {
                    lemma_pow10_bound(j as nat);
                }
                den = den * 10;
                j = j + 1;
            }
            match parse_digits(&all) {
                Some(v) => Probability { num: v, den },
                None => one,
            }
        },
    }
}

/// The rule node elements' kinds.
pub open spec fn rule_node_name(name: Seq<char>) -> bool {
    name == "one"@ || name == "all"@ || name == "prl"@
}

/// A rule with its probability replaced.
fn with_probability(rule: MjRule, p: Probability) -> (r: MjRule)
    requires
        p.valid(),
    ensures
        r.input == rule.input && r.output == rule.output && r.binput == rule.binput,
        r.imx == rule.imx && r.imy == rule.imy && r.imz == rule.imz,
        r.omx == rule.omx && r.omy == rule.omy && r.omz == rule.omz,
        r.ishifts == rule.ishifts && r.oshifts == rule.oshifts,
        r.p == p,
{
    MjRule { p, ..rule }
}

/// The rules a rule and symmetry flags stand for: the distinct images of the rule under
/// the square's symmetries (2D, flags read as a subgroup) or the cube's (3D, the first 48
/// flags, all of them when every flag is set or none is given).
pub fn apply_symmetry(rule: MjRule, symmetry: &[bool], is_2d: bool) -> (r: Vec<MjRule>)
    requires
        rule_ok(&rule),
    ensures
        forall|i: int| 0 <= i < r@.len() ==> rule_ok(&#[trigger] r@[i]) && r@[i].ishifts@.len() == rule.ishifts@.len(),
        rule.same_size() ==> forall|i: int| 0 <= i < r@.len() ==> (#[trigger] r@[i]).same_size(),
        forall|v: int|
            rule.outputs_below(v) ==> forall|i: int| 0 <= i < r@.len() ==> (#[trigger] r@[i]).outputs_below(v),
        shapes_of(r@) == kept_images(
            shape_of(&rule),
            symmetry_mask(symmetry@, is_2d),
            if is_2d { 8int } else { 48int },
        ),
        forall|i: int| 0 <= i < r@.len() ==> (#[trigger] r@[i]).p == rule.p,
{
    if is_2d {
        let g = bool_slice_to_subgroup(symmetry);
        let m = g.mask();
        rule_symmetries(&rule, &m, 8)
    } else {
        let mut all_set = true;
        let mut i: usize = 0;
        while i < symmetry.len()
            invariant
                i <= symmetry@.len(),
                all_set == forall|k: int| 0 <= k < i ==> symmetry@[k],
            decreases symmetry@.len() - i,
        {
            if !symmetry[i] {
                all_set = false;
            }
            i = i + 1;
        }
        if symmetry.len() < 48 && (all_set || symmetry.len() == 0) {
            let m = default_symmetry(false);
            rule_symmetries(&rule, m.as_slice(), 48)
        } else {
            rule_symmetries(&rule, symmetry, 48)
        }
    }
}

/// The symmetries a rule is copied under: in 2D the mask of the square subgroup the flags
/// name; in 3D all forty-eight when fewer than forty-eight flags are given and none is
/// false, else the flags as given.
pub open spec fn symmetry_mask(symmetry: Seq<bool>, is_2d: bool) -> Seq<bool> {
    if is_2d {
        spec_mask(spec_subgroup_of(symmetry))
    } else if symmetry.len() < 48 && forall|k: int| 0 <= k < symmetry.len() ==> symmetry[k] {
        Seq::new(48, |k: int| true)
    } else {
        symmetry
    }
}

/// Rules usable by the engine with `c` values.
pub open spec fn loaded_rules(rules: Seq<MjRule>, c: int) -> bool {
    &&& rules_ok(rules)
    &&& forall|i: int| 0 <= i < rules.len() ==> rule_ok(&#[trigger] rules[i]) && rules[i].outputs_below(c)
        && rules[i].ishifts@.len() == c
}

/// Append `more` to `rules`.
fn extend_rules(rules: &mut Vec<MjRule>, more: Vec<MjRule>, c: u8)
    requires
        loaded_rules(old(rules)@, c as int),
        forall|i: int| 0 <= i < more@.len() ==> rule_ok(&#[trigger] more@[i]) && more@[i].outputs_below(c as int)
            && more@[i].ishifts@.len() == c && more@[i].same_size(),
        c < 32,
    ensures
        loaded_rules(final(rules)@, c as int),
        final(rules)@.len() == old(rules)@.len() + more@.len(),
        final(rules)@ == old(rules)@ + more@,
{
    let mut more = more;
    let ghost a = rules@;
    let ghost b = more@;
    rules.append(&mut more);
    assert forall|i: int| 0 <= i < rules@.len() implies rule_ok(&#[trigger] rules@[i]) && rules@[i].outputs_below(c as int)
        && rules@[i].ishifts@.len() == c && rules@[i].same_size() by {
        if i >= a.len() {
            assert(rules@[i] == b[i - a.len()]);
        }
    }
}

/// Map rules usable into a grid of `c` values.
pub open spec fn loaded_map_rules(rules: Seq<MjRule>, c: int) -> bool {
    forall|i: int| 0 <= i < rules.len() ==> rule_ok(&#[trigger] rules[i]) && rules[i].outputs_below(c as int)
}

/// Append map rules `more` to `rules`.
fn extend_map_rules(rules: &mut Vec<MjRule>, more: Vec<MjRule>, c: u8)
    requires
        loaded_map_rules(old(rules)@, c as int),
        loaded_map_rules(more@, c as int),
    ensures
        loaded_map_rules(final(rules)@, c as int),
        final(rules)@.len() == old(rules)@.len() + more@.len(),
{
    let mut more = more;
    let ghost a = rules@;
    let ghost b = more@;
    rules.append(&mut more);
    assert forall|i: int| 0 <= i < rules@.len() implies rule_ok(&#[trigger] rules@[i]) && rules@[i].outputs_below(c as int) by {
        if i >= a.len() {
            assert(rules@[i] == b[i - a.len()]);
        }
    }
}

/// The rule with input `icells` (symbols of the source grid) and output `ocells` (values
/// of the target grid, `*` for unchanged), with the given sizes; refused, naming the
/// pattern, when a character is unknown.
fn patterns_rule(
    icells: &Vec<char>,
    imx: usize,
    imy: usize,
    imz: usize,
    ocells: &Vec<char>,
    omx: usize,
    omy: usize,
    omz: usize,
    source: &MjGrid,
    target: &MjGrid,
    p: Probability,
    in_context: String,
    out_context: String,
) -> (r: Result<MjRule, LoadError>)
    requires
        source.wf(),
        target.wf(),
        p.valid(),
        1 <= imx <= i32::MAX,
        1 <= imy <= i32::MAX,
        1 <= imz <= i32::MAX,
        1 <= omx <= i32::MAX,
        1 <= omy <= i32::MAX,
        1 <= omz <= i32::MAX,
        icells@.len() == imx * imy * imz,
        ocells@.len() == omx * omy * omz,
    ensures
        r matches Ok(rule) ==> rule_ok(&rule) && rule.outputs_below(target.c as int) && rule.ishifts@.len()
            == target.c && rule.imx == imx && rule.imy == imy && rule.imz == imz && rule.omx == omx && rule.omy == omy
            && rule.omz == omz,
        r is Ok <==> first_unknown_input(source.waves@, icells@) < 0 && first_unknown_output(
            target.characters@,
            ocells@,
        ) < 0,
        r matches Ok(rule) ==> rule.built_from_patterns(
            Seq::new(icells@.len(), |k: int| wave_lookup(source.waves@, icells@[k])->0),
            imx,
            imy,
            imz,
            Seq::new(ocells@.len(), |k: int| output_value(target.characters@, ocells@[k])),
            omx,
            omy,
            omz,
            target.c,
            p,
        ),
        first_unknown_input(source.waves@, icells@) >= 0 ==> (r matches Err(
            LoadError::UnknownCharacter { character, context },
        ) && character == icells@[first_unknown_input(source.waves@, icells@)] && context@ == in_context@),
        first_unknown_input(source.waves@, icells@) < 0 && first_unknown_output(target.characters@, ocells@) >= 0
            ==> (r matches Err(LoadError::UnknownCharacter { character, context }) && character
            == ocells@[first_unknown_output(target.characters@, ocells@)] && context@ == out_context@),
{
    let mut waves: Vec<u32> = Vec::new();
    let mut i: usize = 0;
    while i < icells.len()
        invariant
            i <= icells@.len(),
            waves@ == Seq::new(i as nat, |k: int| wave_lookup(source.waves@, icells@[k])->0),
            forall|k: int| 0 <= k < i ==> wave_lookup(source.waves@, icells@[k]) is Some,
        decreases icells@.len() - i,
    {
        match source.wave_for_char(icells[i]) {
            Some(w) => waves.push(w),
            None => {
                proof {
                    lemma_first_unknown_input(source.waves@, icells@, i as int);
                }
                return Err(LoadError::UnknownCharacter { character: icells[i], context: in_context });
            },
        }
        i = i + 1;
        assert(waves@ =~= Seq::new(i as nat, |k: int| wave_lookup(source.waves@, icells@[k])->0));
    }
    proof {
        lemma_no_unknown_input(source.waves@, icells@);
    }
    let mut values: Vec<u8> = Vec::new();
    let mut j: usize = 0;
    while j < ocells.len()
        invariant
            target.wf(),
            first_unknown_input(source.waves@, icells@) == -1,
            j <= ocells@.len(),
            values@ == Seq::new(j as nat, |k: int| output_value(target.characters@, ocells@[k])),
            forall|k: int| 0 <= k < j ==> ocells@[k] == '*' || value_of(target.characters@, ocells@[k]) is Some,
            forall|k: int| 0 <= k < j ==> values@[k] == 0xff || values@[k] < target.c,
        decreases ocells@.len() - j,
    {
        let ch = ocells[j];
        if ch == '*' {
            values.push(0xff);
        } else {
            match target.value_for_char(ch) {
                Some(v) => {
                    proof {
                        crate::text::lemma_first_index(target.characters@, ch);
                    }
                    values.push(v);
                },
                None => {
                    proof {
                        lemma_first_unknown_output(target.characters@, ocells@, j as int);
                    }
                    return Err(LoadError::UnknownCharacter { character: ch, context: out_context });
                },
            }
        }
        j = j + 1;
        assert(values@ =~= Seq::new(j as nat, |k: int| output_value(target.characters@, ocells@[k])));
    }
    proof {
        lemma_no_unknown_output(target.characters@, ocells@);
    }
    Ok(MjRule::from_patterns(waves, imx, imy, imz, values, omx, omy, omz, target.c, p))
}

/// The patterns of a map rule: input waves from the source grid, output values from the
/// target grid (`*` leaves a cell unchanged).
fn map_rule(
    input: &str,
    output: &str,
    source: &MjGrid,
    target: &MjGrid,
    p: Probability,
) -> (r: Result<MjRule, LoadError>)
    requires
        source.wf(),
        target.wf(),
        p.valid(),
    ensures
        r matches Ok(rule) ==> rule_ok(&rule) && rule.outputs_below(target.c as int) && rule.ishifts@.len()
            == target.c,
        r is Ok <==> map_rule_ok(input@, output@, source, target),
        r matches Ok(rule) ==> {
            let (imx, imy, imz) = layers_dims(pattern_layers(input@));
            let (omx, omy, omz) = layers_dims(pattern_layers(output@));
            let icells = spec_pattern_cells(input@);
            let ocells = spec_pattern_cells(output@);
            rule.built_from_patterns(
                Seq::new(icells.len(), |k: int| wave_lookup(source.waves@, icells[k])->0),
                imx as usize,
                imy as usize,
                imz as usize,
                Seq::new(ocells.len(), |k: int| output_value(target.characters@, ocells[k])),
                omx as usize,
                omy as usize,
                omz as usize,
                target.c,
                p,
            )
        },
{
    let (icells, imx, imy, imz) = match parse_pattern(input) {
        Ok(t) => t,
        Err(_) => {
            return Err(LoadError::RuleError(owned("malformed map rule input")));
        },
    };
    let (ocells, omx, omy, omz) = match parse_pattern(output) {
        Ok(t) => t,
        Err(_) => {
            return Err(LoadError::RuleError(owned("malformed map rule output")));
        },
    };
    if imx == 0 || imy == 0 || imz == 0 || omx == 0 || omy == 0 || omz == 0 || imx > 0x7fff_ffff || imy
        > 0x7fff_ffff || imz > 0x7fff_ffff || omx > 0x7fff_ffff || omy > 0x7fff_ffff || omz > 0x7fff_ffff {
        return Err(LoadError::RuleError(owned("malformed map rule")));
    }
    assert(imx * imy <= icells@.len() && omx * omy <= ocells@.len()) by (nonlinear_arith)
        requires
            icells@.len() == imx * imy * imz,
            ocells@.len() == omx * omy * omz,
            imz >= 1,
            omz >= 1,
            imx >= 0,
            imy >= 0,
            omx >= 0,
            omy >= 0,
    ;
    assert(icells@.len() <= usize::MAX && ocells@.len() <= usize::MAX) by {
        assert(icells@.len() == icells.len() && ocells@.len() == ocells.len());
    }
    let isize = match imx.checked_mul(imy) {
        Some(a) => a.checked_mul(imz),
        None => None,
    };
    let osize = match omx.checked_mul(omy) {
        Some(a) => a.checked_mul(omz),
        None => None,
    };
    match (isize, osize) {
        (Some(a), Some(b)) => {
            if icells.len() != a || ocells.len() != b {
                return Err(LoadError::RuleError(owned("malformed map rule")));
            }
        },
        _ => {
            return Err(LoadError::RuleError(owned("malformed map rule")));
        },
    }
    proof {
        lemma_cells_eq(input@, icells@, imx as int, imy as int, imz as int);
        lemma_cells_eq(output@, ocells@, omx as int, omy as int, omz as int);
    }
    patterns_rule(
        &icells,
        imx,
        imy,
        imz,
        &ocells,
        omx,
        omy,
        omz,
        source,
        target,
        p,
        owned("map rule input pattern"),
        owned("map rule output pattern"),
    )
}

/// Whether a map rule can be built from these patterns: both parse, every dimension is
/// between 1 and `i32::MAX`, every input character has a wave in the source grid and
/// every output character is `*` or a value of the target grid.
pub open spec fn map_rule_ok(input: Seq<char>, output: Seq<char>, source: &MjGrid, target: &MjGrid) -> bool {
    let (imx, imy, imz) = layers_dims(pattern_layers(input));
    let (omx, omy, omz) = layers_dims(pattern_layers(output));
    &&& spec_parse_pattern_ok(input) is Ok
    &&& spec_parse_pattern_ok(output) is Ok
    &&& 1 <= imx <= i32::MAX && 1 <= imy <= i32::MAX && 1 <= imz <= i32::MAX
    &&& 1 <= omx <= i32::MAX && 1 <= omy <= i32::MAX && 1 <= omz <= i32::MAX
    &&& first_unknown_input(source.waves@, spec_pattern_cells(input)) < 0
    &&& first_unknown_output(target.characters@, spec_pattern_cells(output)) < 0
}

/// The index of the first resource at `path`, or -1.
pub open spec fn resource_index(res: Seq<(String, Vec<u8>)>, path: Seq<char>) -> int
    decreases res.len(),
{
    if res.len() == 0 {
        -1
    } else {
        let k = resource_index(res.drop_last(), path);
        if k >= 0 {
            k
        } else if res.last().0@ == path {
            res.len() - 1
        } else {
            -1
        }
    }
}

/// One half of a rule image of `full_mx` by `my` cells: the left half (the input) or the
/// right half (the output), in flat order.
pub open spec fn image_half(chars: Seq<char>, full_mx: int, my: int, right: bool) -> Seq<char> {
    Seq::new(((full_mx / 2) * my) as nat, |k: int| half_cell(chars, full_mx, my, k, right))
}

/// Whether a rule can be read from the rule image at `path` among `resources`: the image
/// is there and decodes, the legend names all its colors, it has a cell per pixel, an
/// even width and 32-bit halves, and every character of its halves is known to `grid`
/// (`*` allowed on the output half).
pub open spec fn rule_file_ok(
    resources: Seq<(String, Vec<u8>)>,
    path: Seq<char>,
    legend: Seq<char>,
    grid: &MjGrid,
) -> bool {
    let i = resource_index(resources, path);
    &&& i >= 0
    &&& decoded_rgba(resources[i].1@) matches Some(d) && {
        let px = packed_pixels(d.0);
        let chars = legend_chars(Seq::new(px.len(), |j: int| ordinal_at(px, j)), legend);
        &&& uniques_of(px).len() <= legend.len()
        &&& d.1 * d.2 <= usize::MAX
        &&& chars.len() >= d.1 * d.2
        &&& d.1 % 2 == 0
        &&& 1 <= d.1 / 2 <= i32::MAX
        &&& 1 <= d.2 <= i32::MAX
        &&& first_unknown_input(grid.waves@, image_half(chars, d.1 as int, d.2 as int, false)) < 0
        &&& first_unknown_output(grid.characters@, image_half(chars, d.1 as int, d.2 as int, true)) < 0
    }
}

/// The path of a rule image below the resources folder: `rules/`, the model's folder (if
/// any) and `/`, the name, and `.png`.
pub open spec fn rule_file_path(folder: Option<String>, name: Seq<char>) -> Seq<char> {
    match folder {
        Some(f) => "rules/"@ + f@ + "/"@ + name + ".png"@,
        None => "rules/"@ + name + ".png"@,
    }
}

/// The rule a rule image stands for: the image file `name` (PNG in 2D) from the rule
/// folder, its colors named by `legend`, split into input (left) and output (right).
fn rule_from_file(name: &str, legend: &str, grid: &MjGrid, ctx: &LoadContext, is_2d: bool, p: Probability) -> (r: Result<
    MjRule,
    LoadError,
>)
    requires
        grid.wf(),
        p.valid(),
    ensures
        r matches Ok(rule) ==> rule_ok(&rule) && rule.outputs_below(grid.c as int) && rule.ishifts@.len() == grid.c
            && rule.same_size(),
        !is_2d ==> r matches Err(LoadError::ResourceError(_)),
        is_2d && (forall|k: int|
            0 <= k < ctx.resources@.len() ==> (#[trigger] ctx.resources@[k]).0@ != rule_file_path(ctx.folder, name@))
            ==> (r matches Err(LoadError::FileNotFound(p)) && p@ == rule_file_path(ctx.folder, name@)),
        is_2d ==> (r is Ok <==> rule_file_ok(ctx.resources@, rule_file_path(ctx.folder, name@), legend@, grid)),
{
    if !is_2d {
        return Err(LoadError::ResourceError(owned("voxel rule files are not read here")));
    }
    let mut path = owned("rules/");
    match &ctx.folder {
        Some(f) => {
            path.append(f.as_str());
            path.append("/");
        },
        None => {},
    }
    path.append(name);
    path.append(".png");
    let mut found: Option<usize> = None;
    let mut k: usize = 0;
    while k < ctx.resources.len()
        invariant
            k <= ctx.resources@.len(),
            found matches Some(f) ==> f < ctx.resources@.len() && ctx.resources@[f as int].0@ == path@,
            path@ == rule_file_path(ctx.folder, name@),
            found matches Some(f) ==> f == resource_index(ctx.resources@.take(k as int), path@),
            found is None ==> resource_index(ctx.resources@.take(k as int), path@) < 0,
        decreases ctx.resources@.len() - k,
    {
        proof {
            assert(ctx.resources@.take(k + 1).drop_last() =~= ctx.resources@.take(k as int));
            assert(ctx.resources@.take(k + 1).last() == ctx.resources@[k as int]);
        }
        if found.is_none() && str_eq(ctx.resources[k].0.as_str(), path.as_str()) {
            found = Some(k);
        }
        k = k + 1;
    }
    proof {
        assert(ctx.resources@.take(ctx.resources@.len() as int) =~= ctx.resources@);
    }
    let idx = match found {
        Some(f) => f,
        None => {
            return Err(LoadError::FileNotFound(path));
        },
    };
    let (chars, full_mx, my, mz) = match load_resource(ctx.resources[idx].1.as_slice(), legend, is_2d) {
        Ok(t) => t,
        Err(_) => {
            return Err(LoadError::ResourceError(path));
        },
    };
    match full_mx.checked_mul(my) {
        Some(a) => match a.checked_mul(mz) {
            Some(total) => {
                if chars.len() < total {
                    return Err(LoadError::ResourceError(path));
                }
            },
            None => {
                return Err(LoadError::ResourceError(path));
            },
        },
        None => {
            return Err(LoadError::ResourceError(path));
        },
    }
    let (input, output, mx, my2, mz2) = match split_rule_image(chars.as_slice(), full_mx, my, mz) {
        Ok(t) => t,
        Err(_) => {
            return Err(LoadError::ResourceError(path));
        },
    };
    if mx == 0 || my2 == 0 || mz2 == 0 || mx > 0x7fff_ffff || my2 > 0x7fff_ffff || mz2 > 0x7fff_ffff {
        return Err(LoadError::ResourceError(path));
    }
    let in_context = String::from_str("input pattern from file '").concat(name).concat("'");
    let out_context = String::from_str("output pattern from file '").concat(name).concat("'");
    proof {
        assert(mx * my2 * mz2 == mx * my2);
        assert(input@ =~= image_half(chars@, full_mx as int, my as int, false));
        assert(output@ =~= image_half(chars@, full_mx as int, my as int, true));
    }
    patterns_rule(&input, mx, my2, mz2, &output, mx, my2, mz2, grid, grid, p, in_context, out_context)
}

/// The rules of a rule node: from its `file` or inline `in`/`out` attributes, then from
/// its `rule` children, each with its probability and symmetries; refused when there are
/// none.
/// The rules of an element that writes its one rule inline (`in` and `out`, no `file`, no
/// `rule` children): the images of the rule its patterns spell under the element's
/// symmetry, each with the element's probability.
pub open spec fn inline_rules_loaded(elem: XmlElement, grid: &MjGrid, symmetry: Seq<bool>, rules: Seq<MjRule>) -> bool {
    let is_2d = grid.mz == 1;
    (attr_lookup(elem.attrs@, "file"@) is None && attr_lookup(elem.attrs@, "in"@) is Some && attr_lookup(
        elem.attrs@,
        "out"@,
    ) is Some && forall|k: int| 0 <= k < elem.children@.len() ==> (#[trigger] elem.children@[k]).name@ != "rule"@)
        ==> exists|b: MjRule|
        #[trigger] b.parsed_from(attr_lookup(elem.attrs@, "in"@)->0, attr_lookup(elem.attrs@, "out"@)->0, grid)
            && shapes_of(rules) == kept_images(shape_of(&b), symmetry_mask(symmetry, is_2d), symmetry_count(is_2d))
}

fn node_rules(elem: &XmlElement, grid: &MjGrid, symmetry: &[bool], ctx: &LoadContext) -> (r: Result<Vec<MjRule>, LoadError>)
    requires
        grid.wf(),
    ensures
        r matches Ok(rules) ==> loaded_rules(rules@, grid.c as int) && rules@.len() > 0,
        r is Ok <==> rules_read_ok(*elem, grid, symmetry@, ctx.resources@, ctx.folder),
        r is Ok ==> inline_rules_loaded(*elem, grid, symmetry@, r->Ok_0@),
{
    let is_2d = grid.mz == 1;
    let ghost c = grid.c as int;
    let ghost own = names_own_rule(*elem);
    let ghost n = symmetry_count(is_2d);
    let mut rules: Vec<MjRule> = Vec::new();
    if let Some(file) = elem.attr("file") {
        let legend = match elem.attr("legend") {
            Some(l) => l,
            None => {
                return Err(LoadError::MissingAttribute { element: owned("rule node"), attribute: owned("legend") });
            },
        };
        let p = parse_probability(elem.attr("p"));
        let base = rule_from_file(file.as_str(), legend.as_str(), grid, ctx, is_2d, p)?;
        let vs = apply_symmetry(base, symmetry, is_2d);
        proof {
            lemma_kept_images_nonempty(shape_of(&base), symmetry_mask(symmetry@, is_2d), n);
            assert(vs@.len() == shapes_of(vs@).len());
        }
        extend_rules(&mut rules, vs, grid.c);
    } else {
        match (elem.attr("in"), elem.attr("out")) {
            (Some(i), Some(o)) => {
                let p = parse_probability(elem.attr("p"));
                let parsed = MjRule::parse(i.as_str(), o.as_str(), grid);
                let ghost b0 = parsed->Ok_0;
                let base = match parsed {
                    Ok(b) => with_probability(b, p),
                    Err(_) => {
                        return Err(LoadError::RuleError(owned("malformed rule")));
                    },
                };
                proof {
                    assert(base.outputs_below(grid.c as int));
                }
                let vs = apply_symmetry(base, symmetry, is_2d);
                proof {
                    lemma_kept_images_nonempty(shape_of(&base), symmetry_mask(symmetry@, is_2d), n);
                    assert(vs@.len() == shapes_of(vs@).len());
                }
                let ghost vsv = vs@;
                extend_rules(&mut rules, vs, grid.c);
                proof {
                    assert(rules@ =~= vsv);
                    assert(shape_of(&base) == shape_of(&b0));
                    assert(b0.parsed_from(i@, o@, grid));
                    assert(attr_lookup(elem.attrs@, "in"@)->0 == i@);
                    assert(attr_lookup(elem.attrs@, "out"@)->0 == o@);
                    assert(symmetry_count(is_2d) == if is_2d { 8int } else { 48int });
                    assert(shapes_of(rules@) == kept_images(shape_of(&b0), symmetry_mask(symmetry@, is_2d), symmetry_count(is_2d)));
                    assert(b0.parsed_from(attr_lookup(elem.attrs@, "in"@)->0, attr_lookup(elem.attrs@, "out"@)->0, grid));
                    assert(inline_rules_loaded(*elem, grid, symmetry@, rules@));
                }
            },
            _ => {},
        }
    }
    let ghost own_rules = rules@;
    assert(inline_rules_loaded(*elem, grid, symmetry@, own_rules));
    let mut k: usize = 0;
    while k < elem.children.len()
        invariant
            grid.wf(),
            c == grid.c as int,
            is_2d == (grid.mz == 1),
            k <= elem.children@.len(),
            loaded_rules(rules@, c),
            n == symmetry_count(is_2d),
            inline_rules_loaded(*elem, grid, symmetry@, own_rules),
            (forall|j: int| 0 <= j < k ==> (#[trigger] elem.children@[j]).name@ != "rule"@) ==> rules@ == own_rules,
            own == names_own_rule(*elem),
            own ==> rule_source_ok(*elem, grid, ctx.resources@, ctx.folder),
            forall|j: int|
                0 <= j < k && (#[trigger] elem.children@[j]).name@ == "rule"@ ==> {
                    &&& attr_lookup(elem.children@[j].attrs@, "symmetry"@) matches Some(name) ==> spec_symmetry(
                        is_2d,
                        name,
                    ) is Some
                    &&& rule_source_ok(elem.children@[j], grid, ctx.resources@, ctx.folder)
                },
            rules@.len() > 0 <==> ((own && keeps_some(symmetry_mask(symmetry@, is_2d), n)) || exists|j: int|
                0 <= j < k && (#[trigger] elem.children@[j]).name@ == "rule"@ && keeps_some(
                    symmetry_mask(child_symmetry(elem.children@[j], is_2d, symmetry@), is_2d),
                    n,
                )),
        decreases elem.children@.len() - k,
    {
        let ch = &elem.children[k];
        let ghost len0 = rules@.len();
        if ch.is("rule") {
            let rsym = match ch.attr("symmetry") {
                Some(s) => get_symmetry(is_2d, s.as_str())?,
                None => copy_flags(symmetry),
            };
            let p = parse_probability(ch.attr("p"));
            let base = if let Some(file) = ch.attr("file") {
                let legend = match ch.attr("legend") {
                    Some(l) => l,
                    None => {
                        return Err(LoadError::MissingAttribute { element: owned("rule"), attribute: owned("legend") });
                    },
                };
                rule_from_file(file.as_str(), legend.as_str(), grid, ctx, is_2d, p)?
            } else {
                let i = match ch.attr("in") {
                    Some(i) => i,
                    None => {
                        return Err(LoadError::MissingAttribute { element: owned("rule"), attribute: owned("in") });
                    },
                };
                let o = match ch.attr("out") {
                    Some(o) => o,
                    None => {
                        return Err(LoadError::MissingAttribute { element: owned("rule"), attribute: owned("out") });
                    },
                };
                match MjRule::parse(i.as_str(), o.as_str(), grid) {
                    Ok(b) => with_probability(b, p),
                    Err(_) => {
                        return Err(LoadError::RuleError(owned("malformed rule")));
                    },
                }
            };
            proof {
                assert(base.outputs_below(grid.c as int));
            }
            let vs = apply_symmetry(base, rsym.as_slice(), is_2d);
            proof {
                assert(rsym@ == child_symmetry(elem.children@[k as int], is_2d, symmetry@));
                lemma_kept_images_nonempty(shape_of(&base), symmetry_mask(rsym@, is_2d), n);
                assert(vs@.len() == shapes_of(vs@).len());
            }
            extend_rules(&mut rules, vs, grid.c);
        }
        proof {
            if exists|j: int|
                0 <= j < k + 1 && (#[trigger] elem.children@[j]).name@ == "rule"@ && keeps_some(
                    symmetry_mask(child_symmetry(elem.children@[j], is_2d, symmetry@), is_2d),
                    n,
                ) {
                let j = choose|j: int|
                    0 <= j < k + 1 && (#[trigger] elem.children@[j]).name@ == "rule"@ && keeps_some(
                        symmetry_mask(child_symmetry(elem.children@[j], is_2d, symmetry@), is_2d),
                        n,
                    );
                if j < k {
                    assert(rules@.len() >= len0);
                }
            }
        }
        k = k + 1;
    }
    if rules.len() == 0 {
        return Err(LoadError::RuleError(owned("no rules found in rule node")));
    }
    Ok(rules)
}

/// Whether a rule node and its `rule` children name no rule image file.
pub open spec fn no_rule_files(elem: XmlElement) -> bool {
    &&& attr_lookup(elem.attrs@, "file"@) is None
    &&& forall|k: int|
        0 <= k < elem.children@.len() && (#[trigger] elem.children@[k]).name@ == "rule"@ ==> attr_lookup(
            elem.children@[k].attrs@,
            "file"@,
        ) is None
}

/// Whether some of the first `count` symmetries are kept.
pub open spec fn keeps_some(mask: Seq<bool>, count: int) -> bool {
    exists|i: int| 0 <= i < count && i < mask.len() && #[trigger] mask[i]
}

/// The number of symmetries of the grid's dimension.
pub open spec fn symmetry_count(is_2d: bool) -> int {
    if is_2d {
        8
    } else {
        48
    }
}

/// The symmetry flags of a `rule` child: its own `symmetry`, else the node's.
pub open spec fn child_symmetry(ch: XmlElement, is_2d: bool, symmetry: Seq<bool>) -> Seq<bool> {
    match attr_lookup(ch.attrs@, "symmetry"@) {
        Some(name) => spec_symmetry(is_2d, name)->0,
        None => symmetry,
    }
}

/// Whether a `rule` child without a file can be read: a known symmetry if it names one,
/// `in` and `out`, and patterns that parse with the grid's symbols.
pub open spec fn inline_rule_child_ok(ch: XmlElement, grid: &MjGrid) -> bool {
    let is_2d = grid.mz == 1;
    ch.name@ == "rule"@ ==> {
        &&& attr_lookup(ch.attrs@, "symmetry"@) matches Some(name) ==> spec_symmetry(is_2d, name) is Some
        &&& attr_lookup(ch.attrs@, "in"@) matches Some(i) && attr_lookup(ch.attrs@, "out"@) matches Some(o)
            && spec_rule_parse_error(i, o, grid) is None
    }
}

/// Whether a rule node without rule files yields its rules: its own `in`/`out` rule (if
/// any) and every `rule` child can be read, and some of them keeps a symmetry.
pub open spec fn inline_rules_ok(elem: XmlElement, grid: &MjGrid, symmetry: Seq<bool>) -> bool {
    let is_2d = grid.mz == 1;
    let own = attr_lookup(elem.attrs@, "in"@) is Some && attr_lookup(elem.attrs@, "out"@) is Some;
    &&& own ==> spec_rule_parse_error(
        attr_lookup(elem.attrs@, "in"@)->0,
        attr_lookup(elem.attrs@, "out"@)->0,
        grid,
    ) is None
    &&& forall|k: int| 0 <= k < elem.children@.len() ==> inline_rule_child_ok(#[trigger] elem.children@[k], grid)
    &&& (own && keeps_some(symmetry_mask(symmetry, is_2d), symmetry_count(is_2d))) || exists|k: int|
        0 <= k < elem.children@.len() && (#[trigger] elem.children@[k]).name@ == "rule"@ && keeps_some(
            symmetry_mask(child_symmetry(elem.children@[k], is_2d, symmetry), is_2d),
            symmetry_count(is_2d),
        )
}

/// Whether the rule an element names can be read: from its rule image (with a legend,
/// in 2D) when it names a `file`, else from its `in` and `out` patterns.
pub open spec fn rule_source_ok(
    e: XmlElement,
    grid: &MjGrid,
    resources: Seq<(String, Vec<u8>)>,
    folder: Option<String>,
) -> bool {
    match attr_lookup(e.attrs@, "file"@) {
        Some(f) => attr_lookup(e.attrs@, "legend"@) matches Some(l) && grid.mz == 1 && rule_file_ok(
            resources,
            rule_file_path(folder, f),
            l,
            grid,
        ),
        None => attr_lookup(e.attrs@, "in"@) matches Some(i) && attr_lookup(e.attrs@, "out"@) matches Some(o)
            && spec_rule_parse_error(i, o, grid) is None,
    }
}

/// Whether an element of a rule node names a rule of the node itself.
pub open spec fn names_own_rule(e: XmlElement) -> bool {
    attr_lookup(e.attrs@, "file"@) is Some || (attr_lookup(e.attrs@, "in"@) is Some && attr_lookup(
        e.attrs@,
        "out"@,
    ) is Some)
}

/// Whether a rule node yields its rules: its own rule (if it names one) and every `rule`
/// child (with a known symmetry if it names one) can be read, and some of them keeps a
/// symmetry.
pub open spec fn rules_read_ok(
    elem: XmlElement,
    grid: &MjGrid,
    symmetry: Seq<bool>,
    resources: Seq<(String, Vec<u8>)>,
    folder: Option<String>,
) -> bool {
    let is_2d = grid.mz == 1;
    &&& names_own_rule(elem) ==> rule_source_ok(elem, grid, resources, folder)
    &&& forall|k: int|
        0 <= k < elem.children@.len() && (#[trigger] elem.children@[k]).name@ == "rule"@ ==> {
            &&& attr_lookup(elem.children@[k].attrs@, "symmetry"@) matches Some(name) ==> spec_symmetry(
                is_2d,
                name,
            ) is Some
            &&& rule_source_ok(elem.children@[k], grid, resources, folder)
        }
    &&& (names_own_rule(elem) && keeps_some(symmetry_mask(symmetry, is_2d), symmetry_count(is_2d))) || exists|
        k: int,
    |
        0 <= k < elem.children@.len() && (#[trigger] elem.children@[k]).name@ == "rule"@ && keeps_some(
            symmetry_mask(child_symmetry(elem.children@[k], is_2d, symmetry), is_2d),
            symmetry_count(is_2d),
        )
}

/// A rule node without rule files whose inline rules read yields its rules.
proof fn lemma_inline_rules_read(
    elem: XmlElement,
    grid: &MjGrid,
    symmetry: Seq<bool>,
    resources: Seq<(String, Vec<u8>)>,
    folder: Option<String>,
)
    requires
        no_rule_files(elem),
        inline_rules_ok(elem, grid, symmetry),
    ensures
        rules_read_ok(elem, grid, symmetry, resources, folder),
{
    assert forall|k: int|
        0 <= k < elem.children@.len() && (#[trigger] elem.children@[k]).name@ == "rule"@ implies {
        &&& attr_lookup(elem.children@[k].attrs@, "symmetry"@) matches Some(name) ==> spec_symmetry(
            grid.mz == 1,
            name,
        ) is Some
        &&& rule_source_ok(elem.children@[k], grid, resources, folder)
    } by {
        assert(inline_rule_child_ok(elem.children@[k], grid));
    }
}

/// The kept images of a rule are as many as the kept symmetries allow: some exactly when
/// some symmetry is kept.
proof fn lemma_kept_images_nonempty(s: RuleShape, mask: Seq<bool>, k: int)
    requires
        k >= 0,
    ensures
        kept_images(s, mask, k).len() > 0 <==> keeps_some(mask, k),
    decreases k,
{
    if k > 0 {
        lemma_kept_images_nonempty(s, mask, k - 1);
        if keeps_some(mask, k) && !keeps_some(mask, k - 1) {
            let i = choose|i: int| 0 <= i < k && i < mask.len() && #[trigger] mask[i];
            assert(i == k - 1);
        }
        if keeps_some(mask, k - 1) {
            let i = choose|i: int| 0 <= i < k - 1 && i < mask.len() && #[trigger] mask[i];
            assert(0 <= i < k && i < mask.len() && mask[i]);
        }
    }
}

/// A copy of symmetry flags.
fn copy_flags(s: &[bool]) -> (r: Vec<bool>)
    ensures
        r@ == s@,
{
    let mut r: Vec<bool> = Vec::new();
    let mut i: usize = 0;
    while i < s.len()
        invariant
            i <= s@.len(),
            r@ == s@.take(i as int),
        decreases s@.len() - i,
    {
        r.push(s[i]);
        i = i + 1;
        assert(r@ =~= s@.take(i as int));
    }
    assert(s@.take(s@.len() as int) =~= s@);
    r
}

/// The distance fields of a rule node, one per value, from its `field` children; `None`
/// when it has none.
fn node_fields(elem: &XmlElement, grid: &MjGrid) -> (r: Result<Option<Vec<Option<Field>>>, LoadError>)
    requires
        grid.wf(),
    ensures
        r matches Ok(Some(f)) ==> f@.len() == grid.c,
        r is Ok <==> forall|k: int| 0 <= k < elem.children@.len() ==> field_child_ok(#[trigger] elem.children@[k], grid),
        r matches Ok(None) ==> forall|k: int| 0 <= k < elem.children@.len() ==> (#[trigger] elem.children@[k]).name@ != "field"@,
        r matches Ok(Some(f)) ==> exists|k: int| 0 <= k < elem.children@.len() && (#[trigger] elem.children@[k]).name@ == "field"@,
        r matches Ok(Some(f)) ==> forall|v: int|
            0 <= v < f@.len() ==> (#[trigger] f@[v] is Some <==> exists|k: int|
                0 <= k < elem.children@.len() && elem.children@[k].name@ == "field"@ && #[trigger] field_target(
                    elem.children@[k],
                    grid,
                ) == v),
{
    let mut fields: Vec<Option<Field>> = Vec::new();
    let mut v: u8 = 0;
    while v < grid.c
        invariant
            v <= grid.c,
            fields@.len() == v,
            forall|q: int| 0 <= q < fields@.len() ==> fields@[q] is None,
        decreases grid.c - v,
    {
        fields.push(None);
        v = v + 1;
    }
    let mut found = false;
    let mut k: usize = 0;
    while k < elem.children.len()
        invariant
            grid.wf(),
            k <= elem.children@.len(),
            fields@.len() == grid.c,
            forall|j: int| 0 <= j < k ==> field_child_ok(#[trigger] elem.children@[j], grid),
            found == exists|j: int| 0 <= j < k && (#[trigger] elem.children@[j]).name@ == "field"@,
            forall|q: int|
                0 <= q < fields@.len() ==> (#[trigger] fields@[q] is Some <==> exists|j: int|
                    0 <= j < k && elem.children@[j].name@ == "field"@ && #[trigger] field_target(
                        elem.children@[j],
                        grid,
                    ) == q),
        decreases elem.children@.len() - k,
    {
        let ch = &elem.children[k];
        let ghost before = fields@;
        if ch.is("field") {
            let for_char = match ch.attr("for") {
                Some(s) => match first_char(s.as_str()) {
                    Some(c) => c,
                    None => {
                        return Err(LoadError::MissingAttribute { element: owned("field"), attribute: owned("for") });
                    },
                },
                None => {
                    return Err(LoadError::MissingAttribute { element: owned("field"), attribute: owned("for") });
                },
            };
            let idx = match grid.value_for_char(for_char) {
                Some(i) => i,
                None => {
                    return Err(LoadError::UnknownCharacter { character: for_char, context: owned("field for") });
                },
            };
            proof {
                crate::text::lemma_first_index(grid.characters@, for_char);
            }
            let on = match ch.attr("on") {
                Some(s) => s,
                None => {
                    return Err(LoadError::MissingAttribute { element: owned("field"), attribute: owned("on") });
                },
            };
            let substrate = grid.wave(on.as_str());
            let (zero, inversed) = match ch.attr("from") {
                Some(f) => (grid.wave(f.as_str()), true),
                None => match ch.attr("to") {
                    Some(t) => (grid.wave(t.as_str()), false),
                    None => {
                        return Err(LoadError::MissingAttribute { element: owned("field"), attribute: owned("to (or from)") });
                    },
                },
            };
            let mut field = Field::new(substrate, zero);
            field.recompute = flag(ch, "recompute");
            field.inversed = inversed;
            field.essential = flag(ch, "essential");
            fields.set(idx as usize, Some(field));
            found = true;
            proof {
                assert(field_child_ok(elem.children@[k as int], grid));
                assert(field_target(elem.children@[k as int], grid) == idx);
                assert forall|q: int| 0 <= q < fields@.len() implies (#[trigger] fields@[q] is Some <==> exists|j: int|
                    0 <= j < k + 1 && elem.children@[j].name@ == "field"@ && #[trigger] field_target(
                        elem.children@[j],
                        grid,
                    ) == q) by {
                    if q != idx {
                        assert(fields@[q] == before[q]);
                    }
                }
            }
        } else {
            proof {
                assert(field_child_ok(elem.children@[k as int], grid));
                assert forall|q: int| 0 <= q < fields@.len() implies (#[trigger] fields@[q] is Some <==> exists|j: int|
                    0 <= j < k + 1 && elem.children@[j].name@ == "field"@ && #[trigger] field_target(
                        elem.children@[j],
                        grid,
                    ) == q) by {
                    if exists|j: int|
                        0 <= j < k + 1 && elem.children@[j].name@ == "field"@ && #[trigger] field_target(
                            elem.children@[j],
                            grid,
                        ) == q {
                        let j = choose|j: int|
                            0 <= j < k + 1 && elem.children@[j].name@ == "field"@ && #[trigger] field_target(
                                elem.children@[j],
                                grid,
                            ) == q;
                        assert(j < k);
                    }
                }
            }
        }
        k = k + 1;
    }
    if found {
        Ok(Some(fields))
    } else {
        Ok(None)
    }
}

/// Whether a child of a rule node is usable as a field: anything but a `field` element,
/// or one whose `for` starts with a known value, with `on`, and with `from` or `to`.
pub open spec fn field_child_ok(ch: XmlElement, grid: &MjGrid) -> bool {
    ch.name@ == "field"@ ==> {
        &&& attr_lookup(ch.attrs@, "for"@) matches Some(f) && first_value(grid, f) is Some
        &&& attr_lookup(ch.attrs@, "on"@) is Some
        &&& attr_lookup(ch.attrs@, "from"@) is Some || attr_lookup(ch.attrs@, "to"@) is Some
    }
}

/// The value a `field` element is for.
pub open spec fn field_target(ch: XmlElement, grid: &MjGrid) -> int {
    first_value(grid, attr_lookup(ch.attrs@, "for"@)->0)->0 as int
}

/// The character an `observe` element starts from: the first of `from`, else of `value`.
pub open spec fn observe_from(ch: XmlElement) -> char {
    match attr_lookup(ch.attrs@, "from"@) {
        Some(f) => if f.len() > 0 {
            f[0]
        } else {
            attr_lookup(ch.attrs@, "value"@)->0[0]
        },
        None => attr_lookup(ch.attrs@, "value"@)->0[0],
    }
}

/// Whether a child of a rule node is usable as an observation: anything but an
/// `observe` element, or one whose `value` and `from` start with known values (`from`
/// below 32) and that has `to`.
pub open spec fn observe_child_ok(ch: XmlElement, grid: &MjGrid) -> bool {
    ch.name@ == "observe"@ ==> {
        &&& attr_lookup(ch.attrs@, "value"@) matches Some(v) && first_value(grid, v) is Some
        &&& attr_lookup(ch.attrs@, "to"@) is Some
        &&& grid.spec_value_for_char(observe_from(ch)) matches Some(fv) && fv < 32
    }
}

/// The value an `observe` element is for.
pub open spec fn observe_target(ch: XmlElement, grid: &MjGrid) -> int {
    first_value(grid, attr_lookup(ch.attrs@, "value"@)->0)->0 as int
}

/// The observations of a rule node, one per value, from its `observe` children; `None`
/// when it has none.
fn node_observations(elem: &XmlElement, grid: &MjGrid) -> (r: Result<Option<Vec<Option<Observation>>>, LoadError>)
    requires
        grid.wf(),
    ensures
        r matches Ok(Some(o)) ==> o@.len() == grid.c && forall|v: int|
            0 <= v < o@.len() && o@[v] is Some ==> (#[trigger] o@[v])->0.from < 32,
        r is Ok <==> forall|k: int| 0 <= k < elem.children@.len() ==> observe_child_ok(#[trigger] elem.children@[k], grid),
        r matches Ok(None) ==> forall|k: int| 0 <= k < elem.children@.len() ==> (#[trigger] elem.children@[k]).name@ != "observe"@,
        r matches Ok(Some(o)) ==> exists|k: int| 0 <= k < elem.children@.len() && (#[trigger] elem.children@[k]).name@ == "observe"@,
        r matches Ok(Some(o)) ==> forall|v: int|
            0 <= v < o@.len() ==> (#[trigger] o@[v] is Some <==> exists|k: int|
                0 <= k < elem.children@.len() && elem.children@[k].name@ == "observe"@ && #[trigger] observe_target(
                    elem.children@[k],
                    grid,
                ) == v),
{
    let mut obs: Vec<Option<Observation>> = Vec::new();
    let mut v: u8 = 0;
    while v < grid.c
        invariant
            v <= grid.c,
            obs@.len() == v,
            forall|q: int| 0 <= q < obs@.len() ==> obs@[q] is None,
        decreases grid.c - v,
    {
        obs.push(None);
        v = v + 1;
    }
    let mut found = false;
    let mut k: usize = 0;
    while k < elem.children.len()
        invariant
            grid.wf(),
            k <= elem.children@.len(),
            obs@.len() == grid.c,
            forall|q: int| 0 <= q < obs@.len() && obs@[q] is Some ==> (#[trigger] obs@[q])->0.from < 32,
            forall|j: int| 0 <= j < k ==> observe_child_ok(#[trigger] elem.children@[j], grid),
            found == exists|j: int| 0 <= j < k && (#[trigger] elem.children@[j]).name@ == "observe"@,
            forall|q: int|
                0 <= q < obs@.len() ==> (#[trigger] obs@[q] is Some <==> exists|j: int|
                    0 <= j < k && elem.children@[j].name@ == "observe"@ && #[trigger] observe_target(
                        elem.children@[j],
                        grid,
                    ) == q),
        decreases elem.children@.len() - k,
    {
        let ch = &elem.children[k];
        let ghost before = obs@;
        if ch.is("observe") {
            let value_char = match ch.attr("value") {
                Some(s) => match first_char(s.as_str()) {
                    Some(c) => c,
                    None => {
                        return Err(LoadError::MissingAttribute { element: owned("observe"), attribute: owned("value") });
                    },
                },
                None => {
                    return Err(LoadError::MissingAttribute { element: owned("observe"), attribute: owned("value") });
                },
            };
            let idx = match grid.value_for_char(value_char) {
                Some(i) => i,
                None => {
                    return Err(LoadError::UnknownCharacter { character: value_char, context: owned("observe value") });
                },
            };
            proof {
                crate::text::lemma_first_index(grid.characters@, value_char);
            }
            let from_char = match ch.attr("from") {
                Some(s) => match first_char(s.as_str()) {
                    Some(c) => c,
                    None => value_char,
                },
                None => value_char,
            };
            let to = match ch.attr("to") {
                Some(t) => t,
                None => {
                    return Err(LoadError::MissingAttribute { element: owned("observe"), attribute: owned("to") });
                },
            };
            let o = match Observation::new(from_char, to.as_str(), grid) {
                Some(o) => o,
                None => {
                    return Err(LoadError::UnknownCharacter { character: from_char, context: owned("observe from") });
                },
            };
            if o.from >= 32 {
                return Err(LoadError::UnknownCharacter { character: from_char, context: owned("observe from") });
            }
            obs.set(idx as usize, Some(o));
            found = true;
            proof {
                assert(observe_child_ok(elem.children@[k as int], grid));
                assert(observe_target(elem.children@[k as int], grid) == idx);
                assert forall|q: int| 0 <= q < obs@.len() implies (#[trigger] obs@[q] is Some <==> exists|j: int|
                    0 <= j < k + 1 && elem.children@[j].name@ == "observe"@ && #[trigger] observe_target(
                        elem.children@[j],
                        grid,
                    ) == q) by {
                    if q != idx {
                        assert(obs@[q] == before[q]);
                    }
                }
            }
        } else {
            proof {
                assert(observe_child_ok(elem.children@[k as int], grid));
                assert forall|q: int| 0 <= q < obs@.len() implies (#[trigger] obs@[q] is Some <==> exists|j: int|
                    0 <= j < k + 1 && elem.children@[j].name@ == "observe"@ && #[trigger] observe_target(
                        elem.children@[j],
                        grid,
                    ) == q) by {
                    if exists|j: int|
                        0 <= j < k + 1 && elem.children@[j].name@ == "observe"@ && #[trigger] observe_target(
                            elem.children@[j],
                            grid,
                        ) == q {
                        let j = choose|j: int|
                            0 <= j < k + 1 && elem.children@[j].name@ == "observe"@ && #[trigger] observe_target(
                                elem.children@[j],
                                grid,
                            ) == q;
                        assert(j < k);
                    }
                }
            }
        }
        k = k + 1;
    }
    if found {
        Ok(Some(obs))
    } else {
        Ok(None)
    }
}

/// Whether every rule's single-value input and output stay below `c` (or are wildcards).
fn rules_values_below(rules: &Vec<MjRule>, c: u8) -> (r: bool)
    ensures
        r == forall|i: int| 0 <= i < rules@.len() ==> rule_values_below(&#[trigger] rules@[i], c as int),
{
    let mut i: usize = 0;
    while i < rules.len()
        invariant
            i <= rules@.len(),
            forall|k: int| 0 <= k < i ==> rule_values_below(&#[trigger] rules@[k], c as int),
        decreases rules@.len() - i,
    {
        let rule = &rules[i];
        let mut j: usize = 0;
        while j < rule.binput.len()
            invariant
                i < rules@.len(),
                *rule == rules@[i as int],
                j <= rule.binput@.len(),
                forall|q: int| 0 <= q < j ==> #[trigger] rule.binput@[q] == 0xff || rule.binput@[q] < c,
            decreases rule.binput@.len() - j,
        {
            if rule.binput[j] != 0xff && rule.binput[j] >= c {
                assert(!(rule.binput@[j as int] == 0xff || rule.binput@[j as int] < c));
                return false;
            }
            j = j + 1;
        }
        let mut q: usize = 0;
        while q < rule.output.len()
            invariant
                i < rules@.len(),
                *rule == rules@[i as int],
                q <= rule.output@.len(),
                forall|t: int| 0 <= t < q ==> #[trigger] rule.output@[t] == 0xff || rule.output@[t] < c,
            decreases rule.output@.len() - q,
        {
            if rule.output[q] != 0xff && rule.output[q] >= c {
                assert(!(rule.output@[q as int] == 0xff || rule.output@[q as int] < c));
                return false;
            }
            q = q + 1;
        }
        i = i + 1;
    }
    true
}

/// The rule data of a rule node.
pub open spec fn rule_data_of(n: NodeBox) -> RuleNodeData {
    match n {
        NodeBox::One(o) => o.data,
        NodeBox::All(a) => a.data,
        NodeBox::Parallel(p) => p.data,
        _ => arbitrary(),
    }
}

/// The settings of rule data loaded from element `e`: the step limit of its `steps`
/// attribute, a distance field for each value that a `field` child targets and an
/// observation for each value that an `observe` child targets (none without such
/// children), and no step taken.
pub open spec fn rule_setup(e: XmlElement, grid: &MjGrid, d: RuleNodeData) -> bool {
    &&& d.steps == count_value(attr_lookup(e.attrs@, "steps"@))
    &&& d.counter == 0
    &&& d.last_matched_turn == -1
    &&& (d.fields is Some <==> exists|k: int| 0 <= k < e.children@.len() && (#[trigger] e.children@[k]).name@ == "field"@)
    &&& d.fields matches Some(f) ==> f@.len() == grid.c && forall|v: int|
        0 <= v < f@.len() ==> (#[trigger] f@[v] is Some <==> exists|k: int|
            0 <= k < e.children@.len() && e.children@[k].name@ == "field"@ && #[trigger] field_target(e.children@[k], grid) == v)
    &&& (d.observations is Some <==> exists|k: int|
        0 <= k < e.children@.len() && (#[trigger] e.children@[k]).name@ == "observe"@)
    &&& d.observations matches Some(o) ==> o@.len() == grid.c && forall|v: int|
        0 <= v < o@.len() ==> (#[trigger] o@[v] is Some <==> exists|k: int|
            0 <= k < e.children@.len() && e.children@[k].name@ == "observe"@ && #[trigger] observe_target(e.children@[k], grid) == v)
}

/// A rule node (`one`, `all` or `prl`): its rules, step limit, fields and observations.
fn rule_node(elem: &XmlElement, grid: &MjGrid, symmetry: &[bool], ctx: &LoadContext) -> (r: Result<NodeBox, LoadError>)
    requires
        grid_ok(grid),
        rule_node_name(elem.name@),
    ensures
        r matches Ok(n) ==> n.inv(),
        r matches Ok(n) ==> node_kind(elem.name@, n),
        r matches Ok(n) ==> rule_setup(*elem, grid, rule_data_of(n)),
        r matches Ok(n) ==> inline_rules_loaded(*elem, grid, symmetry@, rule_data_of(n).rules@),
        r is Ok ==> rules_read_ok(*elem, grid, symmetry@, ctx.resources@, ctx.folder),
        r is Ok ==> forall|k: int| 0 <= k < elem.children@.len() ==> field_child_ok(#[trigger] elem.children@[k], grid),
        r is Ok ==> forall|k: int| 0 <= k < elem.children@.len() ==> observe_child_ok(#[trigger] elem.children@[k], grid),
        rules_read_ok(*elem, grid, symmetry@, ctx.resources@, ctx.folder) && (forall|k: int|
            0 <= k < elem.children@.len() ==> field_child_ok(#[trigger] elem.children@[k], grid)) && (forall|k: int|
            0 <= k < elem.children@.len() ==> (#[trigger] elem.children@[k]).name@ != "observe"@) ==> r is Ok,
{
    let rules = node_rules(elem, grid, symmetry, ctx)?;
    let size = grid.state.len();
    let steps = parse_count(elem.attr("steps"));
    let fields = node_fields(elem, grid)?;
    let observations = node_observations(elem, grid)?;
    let mut data = match fields {
        Some(f) => RuleNodeData::with_fields(rules, size, f),
        None => RuleNodeData::new(rules, size),
    };
    data.steps = steps;
    if let Some(obs) = observations {
        if !rules_values_below(&data.rules, grid.c) {
            return Err(LoadError::RuleError(owned("rule values outside the grid")));
        }
        let c = grid.c as usize;
        let mut pots: Vec<Vec<i32>> = Vec::new();
        let mut v: usize = 0;
        while v < c
            invariant
                v <= c,
                pots@.len() == v,
                rows_len(pots@, size as int),
            decreases c - v,
        {
            pots.push(filled_i32(size, 0));
            v = v + 1;
        }
        data.potentials = Some(pots);
        data.future = Some(filled_i32(size, 0));
        data.observations = Some(obs);
        let ghost d = data.dims;
        assert(d.0 * d.1 * d.2 == size) by (nonlinear_arith)
            requires
                d == (size, 1usize, 1usize),
        ;
    }
    if elem.is("one") {
        Ok(NodeBox::One(OneNode { data }))
    } else if elem.is("all") {
        Ok(NodeBox::All(AllNode { data }))
    } else {
        Ok(NodeBox::Parallel(ParallelNode::with_data(data)))
    }
}

/// A path node from its attributes: `from`, `to` and `on` waves, the `color` written
/// (default the first character of `from`), and the inertia, longest, edges and vertices
/// flags.
fn path_node(elem: &XmlElement, grid: &MjGrid) -> (r: Result<NodeBox, LoadError>)
    requires
        grid.wf(),
    ensures
        r matches Ok(n) ==> n.inv() && n is Path,
        match (attr_lookup(elem.attrs@, "from"@), attr_lookup(elem.attrs@, "to"@), attr_lookup(elem.attrs@, "on"@)) {
            (Some(from), Some(to), Some(on)) => {
                &&& r is Ok <==> grid.spec_value_for_char(path_color(elem.attrs@)) is Some
                &&& r matches Ok(NodeBox::Path(n)) ==> {
                    &&& n.start == spec_wave(grid.characters@, from)
                    &&& n.finish == spec_wave(grid.characters@, to)
                    &&& n.substrate == spec_wave(grid.characters@, on)
                    &&& Some(n.value) == grid.spec_value_for_char(path_color(elem.attrs@))
                    &&& n.inertia == attr_true(elem.attrs@, "inertia"@)
                    &&& n.longest == attr_true(elem.attrs@, "longest"@)
                    &&& n.edges == attr_true(elem.attrs@, "edges"@)
                    &&& n.vertices == attr_true(elem.attrs@, "vertices"@)
                }
            },
            _ => r matches Err(LoadError::MissingAttribute { .. }),
        },
{
    let from = match elem.attr("from") {
        Some(s) => s,
        None => {
            return Err(LoadError::MissingAttribute { element: owned("path"), attribute: owned("from") });
        },
    };
    let to = match elem.attr("to") {
        Some(s) => s,
        None => {
            return Err(LoadError::MissingAttribute { element: owned("path"), attribute: owned("to") });
        },
    };
    let on = match elem.attr("on") {
        Some(s) => s,
        None => {
            return Err(LoadError::MissingAttribute { element: owned("path"), attribute: owned("on") });
        },
    };
    let start = grid.wave(from.as_str());
    let finish = grid.wave(to.as_str());
    let substrate = grid.wave(on.as_str());
    let color = match elem.attr("color") {
        Some(s) => match first_char(s.as_str()) {
            Some(c) => c,
            None => match first_char(from.as_str()) {
                Some(c) => c,
                None => 'B',
            },
        },
        None => match first_char(from.as_str()) {
            Some(c) => c,
            None => 'B',
        },
    };
    let value = match grid.value_for_char(color) {
        Some(v) => v,
        None => {
            return Err(LoadError::UnknownCharacter { character: color, context: owned("path color") });
        },
    };
    proof {
        crate::text::lemma_first_index(grid.characters@, color);
    }
    let mut node = PathNode::new(start, finish, substrate, value);
    node.inertia = flag(elem, "inertia");
    node.longest = flag(elem, "longest");
    node.edges = flag(elem, "edges");
    node.vertices = flag(elem, "vertices");
    Ok(NodeBox::Path(node))
}

/// The color of a path: the first character of `color`, else of `from`, else `B`.
pub open spec fn path_color(attrs: Seq<(String, String)>) -> char {
    let dflt = match attr_lookup(attrs, "from"@) {
        Some(f) => if f.len() > 0 {
            f[0]
        } else {
            'B'
        },
        None => 'B',
    };
    match attr_lookup(attrs, "color"@) {
        Some(c) => if c.len() > 0 {
            c[0]
        } else {
            dflt
        },
        None => dflt,
    }
}

/// Add the `union` elements of a subtree to the grid's symbols: each names a new symbol
/// (its first character) for the union of the waves of its values.
fn add_unions(elem: &XmlElement, grid: &mut MjGrid) -> (r: Result<(), LoadError>)
    requires
        old(grid).wf(),
    ensures
        final(grid).wf(),
        final(grid).state == old(grid).state,
        final(grid).mask == old(grid).mask,
        final(grid).mx == old(grid).mx && final(grid).my == old(grid).my && final(grid).mz == old(grid).mz,
        final(grid).c == old(grid).c,
        final(grid).characters == old(grid).characters,
        r is Ok <==> unions_of(*elem, old(grid).characters@, old(grid).waves@) is Some,
        r is Ok ==> unions_of(*elem, old(grid).characters@, old(grid).waves@) == Some(final(grid).waves@),
    decreases elem,
{
    let ghost w0 = grid.waves@;
    if elem.is("union") {
        let symbol = match elem.attr("symbol") {
            Some(s) => match first_char(s.as_str()) {
                Some(c) => c,
                None => {
                    return Err(LoadError::MissingAttribute { element: owned("union"), attribute: owned("symbol") });
                },
            },
            None => {
                return Err(LoadError::MissingAttribute { element: owned("union"), attribute: owned("symbol") });
            },
        };
        if grid.wave_for_char(symbol).is_some() {
            let mut v = String::new();
            push_char(&mut v, symbol);
            return Err(
                LoadError::InvalidAttribute {
                    element: owned("union"),
                    attribute: owned("symbol"),
                    value: v,
                    reason: owned("symbol already defined"),
                },
            );
        }
        let values = match elem.attr("values") {
            Some(s) => s,
            None => {
                return Err(LoadError::MissingAttribute { element: owned("union"), attribute: owned("values") });
            },
        };
        let w = grid.wave(values.as_str());
        crate::grid::table_insert(&mut grid.waves, symbol, w);
    }
    let ghost w1 = grid.waves@;
    proof {
        assert(own_union(*elem, old(grid).characters@, w0) == Some(w1));
    }
    let mut k: usize = 0;
    while k < elem.children.len()
        invariant
            k <= elem.children@.len(),
            grid.wf(),
            grid.state == old(grid).state,
            grid.mask == old(grid).mask,
            grid.mx == old(grid).mx && grid.my == old(grid).my && grid.mz == old(grid).mz,
            grid.c == old(grid).c,
            grid.characters == old(grid).characters,
            w0 == old(grid).waves@,
            own_union(*elem, old(grid).characters@, w0) == Some(w1),
            unions_children(*elem, k as int, old(grid).characters@, w1) == Some(grid.waves@),
        decreases elem.children@.len() - k,
    {
        proof {
            assert(decreases_to!(elem => elem.children));
            assert(decreases_to!(elem.children => elem.children@));
            assert(decreases_to!(elem.children@ => elem.children@[k as int]));
        }
        let ghost wk = grid.waves@;
        let res = add_unions(&elem.children[k], grid);
        match res {
            Err(e) => {
                proof {
                    assert(unions_of(elem.children@[k as int], old(grid).characters@, wk) is None);
                    assert(unions_children(*elem, k as int + 1, old(grid).characters@, w1) is None);
                    lemma_unions_children_none(*elem, k as int + 1, elem.children@.len() as int, old(grid).characters@, w1);
                    assert(unions_of(*elem, old(grid).characters@, w0) is None);
                }
                return Err(e);
            },
            Ok(()) => {},
        }
        k = k + 1;
    }
    Ok(())
}

/// The wave table after the `union` an element itself declares (if it is one): `None`
/// when the symbol is missing or already defined, or `values` is missing.
pub open spec fn own_union(e: XmlElement, chars: Seq<char>, waves: Seq<(char, u32)>) -> Option<Seq<(char, u32)>> {
    if e.name@ == "union"@ {
        match (attr_lookup(e.attrs@, "symbol"@), attr_lookup(e.attrs@, "values"@)) {
            (Some(sym), Some(vals)) => if sym.len() > 0 && wave_lookup(waves, sym[0]) is None {
                Some(wave_table_insert(waves, sym[0], spec_wave(chars, vals)))
            } else {
                None
            },
            _ => None,
        }
    } else {
        Some(waves)
    }
}

/// The wave table after the unions of a subtree, in document order (the element's own
/// first, then each child's subtree); `None` at the first union that cannot be added.
pub open spec fn unions_of(e: XmlElement, chars: Seq<char>, waves: Seq<(char, u32)>) -> Option<Seq<(char, u32)>>
    decreases e, e.children@.len() + 1,
{
    match own_union(e, chars, waves) {
        Some(w) => unions_children(e, e.children@.len() as int, chars, w),
        None => None,
    }
}

/// The wave table after the unions of the first `k` child subtrees of `e`.
pub open spec fn unions_children(e: XmlElement, k: int, chars: Seq<char>, waves: Seq<(char, u32)>) -> Option<
    Seq<(char, u32)>,
>
    decreases e, k,
{
    if k <= 0 || k > e.children@.len() {
        Some(waves)
    } else {
        match unions_children(e, k - 1, chars, waves) {
            Some(w) => {
                proof {
                    assert(decreases_to!(e => e.children));
                    assert(decreases_to!(e.children => e.children@));
                    assert(decreases_to!(e.children@ => e.children@[k - 1]));
                }
                unions_of(e.children@[k - 1], chars, w)
            },
            None => None,
        }
    }
}

/// Once a child subtree fails, the later ones do not recover.
proof fn lemma_unions_children_none(e: XmlElement, k: int, n: int, chars: Seq<char>, waves: Seq<(char, u32)>)
    requires
        1 <= k <= n <= e.children@.len(),
        unions_children(e, k, chars, waves) is None,
    ensures
        unions_children(e, n, chars, waves) is None,
    decreases n - k,
{
    if k < n {
        lemma_unions_children_none(e, k + 1, n, chars, waves);
    }
}

/// The element name of a node's kind.
pub open spec fn node_kind(name: Seq<char>, n: NodeBox) -> bool {
    match n {
        NodeBox::One(_) => name == "one"@,
        NodeBox::All(_) => name == "all"@,
        NodeBox::Parallel(_) => name == "prl"@,
        NodeBox::Path(_) => name == "path"@,
        NodeBox::Convolution(_) => name == "convolution"@,
        NodeBox::Mapping(_) => name == "map"@,
        NodeBox::Markov(_) => name == "markov"@,
        NodeBox::Sequence(_) => name == "sequence"@,
    }
}

/// The node elements this library runs.
pub open spec fn runnable_name(name: Seq<char>) -> bool {
    rule_node_name(name) || name == "path"@ || name == "map"@ || name == "markov"@ || name == "sequence"@ || name
        == "convolution"@
}

/// Scanning a text left to right: the words completed so far and the word in progress.
pub open spec fn word_scan(s: Seq<char>) -> (Seq<Seq<char>>, Seq<char>)
    decreases s.len(),
{
    if s.len() == 0 {
        (Seq::empty(), Seq::empty())
    } else {
        let (ws, cur) = word_scan(s.drop_last());
        let c = s.last();
        if spec_is_whitespace(c) {
            if cur.len() > 0 {
                (ws.push(cur), Seq::empty())
            } else {
                (ws, Seq::empty())
            }
        } else {
            (ws, cur.push(c))
        }
    }
}

/// The maximal runs of non-whitespace characters of a text, in order.
pub open spec fn spec_words(s: Seq<char>) -> Seq<Seq<char>> {
    let (ws, cur) = word_scan(s);
    if cur.len() > 0 {
        ws.push(cur)
    } else {
        ws
    }
}

/// The whitespace-separated words of a text, in order.
fn words(cs: &Vec<char>) -> (r: Vec<Vec<char>>)
    ensures
        r@.map_values(|w: Vec<char>| w@) == spec_words(cs@),
        forall|i: int| 0 <= i < r@.len() ==> (#[trigger] r@[i])@.len() > 0,
{
    let mut out: Vec<Vec<char>> = Vec::new();
    let mut cur: Vec<char> = Vec::new();
    let mut i: usize = 0;
    while i < cs.len()
        invariant
            i <= cs@.len(),
            out@.map_values(|w: Vec<char>| w@) == word_scan(cs@.take(i as int)).0,
            cur@ == word_scan(cs@.take(i as int)).1,
            forall|k: int| 0 <= k < out@.len() ==> (#[trigger] out@[k])@.len() > 0,
        decreases cs@.len() - i,
    {
        proof {
            assert(cs@.take(i + 1).drop_last() =~= cs@.take(i as int));
            assert(cs@.take(i + 1).last() == cs@[i as int]);
        }
        let c = cs[i];
        if is_whitespace(c) {
            if cur.len() > 0 {
                out.push(cur);
                cur = Vec::new();
            }
        } else {
            cur.push(c);
        }
        i = i + 1;
        assert(out@.map_values(|w: Vec<char>| w@) =~= word_scan(cs@.take(i as int)).0);
    }
    assert(cs@.take(cs@.len() as int) =~= cs@);
    if cur.len() > 0 {
        out.push(cur);
    }
    assert(out@.map_values(|w: Vec<char>| w@) =~= spec_words(cs@));
    out
}

/// A dimension scaled by a factor (rounded toward zero), when the denominator is not zero
/// and the product and quotient are 32-bit and not negative.
fn scaled_dim(f: ScaleFactor, dim: usize) -> (r: Option<usize>)
    requires
        dim <= i32::MAX,
    ensures
        r is Some <==> (f.denominator != 0 && i32::MIN <= dim * f.numerator <= i32::MAX && !(dim * f.numerator
            == i32::MIN && f.denominator == -1) && div_trunc(dim * f.numerator, f.denominator as int) >= 0),
        r matches Some(d) ==> f.denominator != 0 && d == div_trunc(dim * f.numerator, f.denominator as int),
{
    if f.denominator == 0 {
        return None;
    }
    let a: i64 = dim as i64;
    let b: i64 = f.numerator as i64;
    assert(-0x8000_0000_0000_0000 <= a * b <= 0x7fff_ffff_ffff_ffff) by (nonlinear_arith)
        requires
            0 <= a <= 0x7fff_ffff,
            -0x8000_0000 <= b <= 0x7fff_ffff,
    ;
    let p: i64 = a * b;
    if p < -0x8000_0000 || p > 0x7fff_ffff {
        return None;
    }
    if p == -0x8000_0000 && f.denominator == -1 {
        return None;
    }
    let q = trunc_div(p, f.denominator as i64);
    if q < 0 {
        return None;
    }
    Some(f.apply(dim))
}

/// Whether a grid of these dimensions is small enough for the engine's 32-bit
/// coordinates and indices: every dimension, the plane and the cell count fit `i32`.
pub(crate) fn engine_size_ok(mx: usize, my: usize, mz: usize) -> (r: bool)
    ensures
        r == (mx <= i32::MAX && my <= i32::MAX && mz <= i32::MAX && mx * my <= i32::MAX && mx * my * mz
            <= i32::MAX),
{
    if mx > 0x7fff_ffff || my > 0x7fff_ffff || mz > 0x7fff_ffff {
        return false;
    }
    let a: u64 = mx as u64;
    let b: u64 = my as u64;
    let c: u64 = mz as u64;
    assert(a * b <= 0x4000_0000_0000_0000) by (nonlinear_arith)
        requires
            a <= 0x7fff_ffff,
            b <= 0x7fff_ffff,
    ;
    let plane = a * b;
    if plane > 0x7fff_ffff {
        return false;
    }
    assert(plane * c <= 0x4000_0000_0000_0000) by (nonlinear_arith)
        requires
            plane <= 0x7fff_ffff,
            c <= 0x7fff_ffff,
    ;
    let cells = plane * c;
    cells <= 0x7fff_ffff
}

/// A fresh zero grid of the given dimensions with the values, characters and symbols of
/// `grid`.
fn copy_alphabet(grid: &MjGrid, mx: usize, my: usize, mz: usize) -> (g: MjGrid)
    requires
        grid.wf(),
        mx * my * mz <= usize::MAX,
    ensures
        g.wf(),
        g.mx == mx && g.my == my && g.mz == mz,
        g.state@ == Seq::new((mx * my * mz) as nat, |i: int| 0u8),
        g.c == grid.c,
        g.characters@ == grid.characters@,
        g.waves@ == grid.waves@,
{
    let mut g = MjGrid::new(mx, my, mz);
    let mut chars: Vec<char> = Vec::new();
    let mut i: usize = 0;
    while i < grid.characters.len()
        invariant
            i <= grid.characters@.len(),
            chars@ == grid.characters@.take(i as int),
        decreases grid.characters@.len() - i,
    {
        chars.push(grid.characters[i]);
        i = i + 1;
        assert(chars@ =~= grid.characters@.take(i as int));
    }
    assert(grid.characters@.take(grid.characters@.len() as int) =~= grid.characters@);
    let mut waves: Vec<(char, u32)> = Vec::new();
    let mut j: usize = 0;
    while j < grid.waves.len()
        invariant
            j <= grid.waves@.len(),
            waves@ == grid.waves@.take(j as int),
        decreases grid.waves@.len() - j,
    {
        waves.push(grid.waves[j]);
        j = j + 1;
        assert(waves@ =~= grid.waves@.take(j as int));
    }
    assert(grid.waves@.take(grid.waves@.len() as int) =~= grid.waves@);
    g.c = grid.c;
    g.characters = chars;
    g.waves = waves;
    g
}

/// `InvalidAttribute` for a `scale` component or value.
fn bad_scale(value: String, reason: &str) -> (r: LoadError)
    ensures
        r matches LoadError::InvalidAttribute { element, attribute, value: v, reason: why } && element@ == "map"@
            && attribute@ == "scale"@ && v@ == value@ && why@ == reason@,
{
    LoadError::InvalidAttribute { element: owned("map"), attribute: owned("scale"), value, reason: owned(reason) }
}

/// A scale component, or `InvalidAttribute` naming it.
fn scale_part(cs: &Vec<char>) -> (r: Result<ScaleFactor, LoadError>)
    ensures
        r matches Ok(f) ==> spec_parse_scale(cs@) == Some(f),
        r is Err <==> spec_parse_scale(cs@) is None,
        r matches Err(e) ==> (e matches LoadError::InvalidAttribute { element, attribute, value, reason }
            && element@ == "map"@ && attribute@ == "scale"@ && value@ == cs@ && reason@ == "invalid scale factor"@),
{
    match ScaleFactor::parse_chars(cs) {
        Some(f) => Ok(f),
        None => Err(bad_scale(crate::text::chars_to_string(cs.as_slice()), "invalid scale factor")),
    }
}

/// Whether a scale factor can scale `dim`: a nonzero denominator, a 32-bit product, and a
/// quotient that is 32-bit and not negative.
pub open spec fn scaled_ok(f: ScaleFactor, dim: usize) -> bool {
    &&& f.denominator != 0
    &&& i32::MIN <= dim * f.numerator <= i32::MAX
    &&& !(dim * f.numerator == i32::MIN && f.denominator == -1)
    &&& div_trunc(dim * f.numerator, f.denominator as int) >= 0
}

/// A dimension scaled by a factor, rounded toward zero.
pub open spec fn scaled(f: ScaleFactor, dim: usize) -> int {
    div_trunc(dim * f.numerator, f.denominator as int)
}

/// The `i`-th factor of a `scale` value.
pub open spec fn scale_factor(sc: Seq<char>, i: int) -> ScaleFactor {
    spec_parse_scale(spec_words(sc)[i])->0
}

/// Whether a `scale` value has three factors that scale the grid to a size the engine
/// takes.
pub open spec fn map_scale_ok(sc: Seq<char>, grid: &MjGrid) -> bool {
    let nx = scaled(scale_factor(sc, 0), grid.mx);
    let ny = scaled(scale_factor(sc, 1), grid.my);
    let nz = scaled(scale_factor(sc, 2), grid.mz);
    &&& spec_words(sc).len() == 3
    &&& forall|i: int| 0 <= i < 3 ==> spec_parse_scale(#[trigger] spec_words(sc)[i]) is Some
    &&& scaled_ok(scale_factor(sc, 0), grid.mx)
    &&& scaled_ok(scale_factor(sc, 1), grid.my)
    &&& scaled_ok(scale_factor(sc, 2), grid.mz)
    &&& nx <= i32::MAX && ny <= i32::MAX && nz <= i32::MAX && nx * ny <= i32::MAX && nx * ny * nz <= i32::MAX
}

/// Whether a map node names values of its own (a nonempty `values`).
pub open spec fn map_own_values(elem: XmlElement) -> bool {
    attr_lookup(elem.attrs@, "values"@) matches Some(v) && v.len() > 0
}

/// The characters of a map node's new grid: its own values, else the parent grid's.
pub open spec fn map_chars(elem: XmlElement, grid: &MjGrid) -> Seq<char> {
    if map_own_values(elem) {
        spec_without_whitespace(attr_lookup(elem.attrs@, "values"@)->0)
    } else {
        grid.characters@
    }
}

/// The wave table of a map node's new grid before its unions.
pub open spec fn map_waves(elem: XmlElement, grid: &MjGrid) -> Seq<(char, u32)> {
    if map_own_values(elem) {
        let kept = spec_without_whitespace(attr_lookup(elem.attrs@, "values"@)->0);
        initial_waves(kept, spec_utf8_len(kept) as u8)
    } else {
        grid.waves@
    }
}

/// A sufficient condition for a map element to load on `grid` with symmetry `symmetry`:
/// a usable `scale`, usable own values (if any), unions that can be added, readable
/// `rule` children of which some keeps a symmetry, and node children that load on every
/// grid with the new alphabet and depth.
pub open spec fn map_loads(elem: XmlElement, grid: &MjGrid, symmetry: Seq<bool>) -> bool
    decreases elem, 2int,
{
    let is_2d = grid.mz == 1;
    let sc = attr_lookup(elem.attrs@, "scale"@)->0;
    let chars = map_chars(elem, grid);
    &&& attr_lookup(elem.attrs@, "scale"@) is Some
    &&& map_scale_ok(sc, grid)
    &&& map_own_values(elem) ==> {
        let v = attr_lookup(elem.attrs@, "values"@)->0;
        spec_utf8_len(spec_without_whitespace(v)) < 32 && spec_values_error(v) is None
    }
    &&& unions_of(elem, chars, map_waves(elem, grid)) is Some
    &&& elem.children@.len() < 0x7fff_ffff
    &&& exists|k: int|
        0 <= k < elem.children@.len() && (#[trigger] elem.children@[k]).name@ == "rule"@ && keeps_some(
            symmetry_mask(child_symmetry(elem.children@[k], is_2d, symmetry), is_2d),
            symmetry_count(is_2d),
        )
    &&& forall|g: MjGrid| #[trigger] map_new_grid(elem, grid, &g) ==> map_children_ok(elem, grid, &g, symmetry)
}

/// Whether `g` has the alphabet, wave table and depth of the new grid of a map element.
pub open spec fn map_new_grid(elem: XmlElement, grid: &MjGrid, g: &MjGrid) -> bool {
    let sc = attr_lookup(elem.attrs@, "scale"@)->0;
    let chars = map_chars(elem, grid);
    &&& g.characters@ == chars
    &&& g.waves@ == unions_of(elem, chars, map_waves(elem, grid))->0
    &&& g.mz == scaled(scale_factor(sc, 2), grid.mz)
}

/// The children of a map element that loads load with its new grid.
proof fn lemma_map_loads_children(elem: XmlElement, grid: &MjGrid, g: &MjGrid, symmetry: Seq<bool>)
    requires
        map_loads(elem, grid, symmetry),
        map_new_grid(elem, grid, g),
    ensures
        map_children_ok(elem, grid, g, symmetry),
{
}

/// Whether the children of a map element load with new grid `g`: its `rule` children
/// (with `in`, `out` and a known symmetry if they name one) read from `grid` to `g`, and
/// its node children load on `g`.
pub open spec fn map_children_ok(elem: XmlElement, grid: &MjGrid, g: &MjGrid, symmetry: Seq<bool>) -> bool
    decreases elem, 1int,
{
    let is_2d = grid.mz == 1;
    &&& children_load(elem, g, symmetry)
    &&& forall|k: int|
        0 <= k < elem.children@.len() && (#[trigger] elem.children@[k]).name@ == "rule"@ ==> {
            let ch = elem.children@[k];
            &&& attr_lookup(ch.attrs@, "in"@) is Some
            &&& attr_lookup(ch.attrs@, "out"@) is Some
            &&& attr_lookup(ch.attrs@, "symmetry"@) matches Some(name) ==> spec_symmetry(is_2d, name) is Some
            &&& map_rule_ok(attr_lookup(ch.attrs@, "in"@)->0, attr_lookup(ch.attrs@, "out"@)->0, grid, g)
        }
}

/// A map node: the new grid (the `scale`d size, with its own `values` or the parent's),
/// its unions, its `rule` children from parent-grid patterns to new-grid patterns, and
/// its child nodes on the new grid.
fn load_map_node(elem: &XmlElement, grid: &MjGrid, symmetry: &[bool], ctx: &LoadContext) -> (r: Result<NodeBox, LoadError>)
    requires
        grid_ok(grid),
    ensures
        r matches Ok(n) ==> n.inv() && n is Mapping,
        map_loads(*elem, grid, symmetry@) ==> r is Ok,
    decreases elem, 1int,
{
    let scale = match elem.attr("scale") {
        Some(s) => s,
        None => {
            return Err(LoadError::MissingAttribute { element: owned("map"), attribute: owned("scale") });
        },
    };
    let parts = words(&str_chars(scale.as_str()));
    if parts.len() != 3 {
        return Err(bad_scale(owned(scale.as_str()), "expected 3 components separated by space"));
    }
    let sx = scale_part(&parts[0])?;
    let sy = scale_part(&parts[1])?;
    let sz = scale_part(&parts[2])?;
    let nmx = match scaled_dim(sx, grid.mx) {
        Some(d) => d,
        None => {
            return Err(bad_scale(owned(scale.as_str()), "scaled size out of range"));
        },
    };
    let nmy = match scaled_dim(sy, grid.my) {
        Some(d) => d,
        None => {
            return Err(bad_scale(owned(scale.as_str()), "scaled size out of range"));
        },
    };
    let nmz = match scaled_dim(sz, grid.mz) {
        Some(d) => d,
        None => {
            return Err(bad_scale(owned(scale.as_str()), "scaled size out of range"));
        },
    };
    if !engine_size_ok(nmx, nmy, nmz) {
        return Err(LoadError::GridError(owned("grid too large")));
    }
    proof {
        assert(nmx * nmy * nmz <= usize::MAX) by (nonlinear_arith)
            requires
                nmx * nmy * nmz <= i32::MAX,
        ;
    }
    let own_values = match elem.attr("values") {
        Some(v) => if str_chars(v.as_str()).len() > 0 {
            Some(v)
        } else {
            None
        },
        None => None,
    };
    let mut newgrid = match own_values {
        Some(v) => {
            if !MjGrid::values_fit(v.as_str()) {
                return Err(LoadError::GridError(owned("too many values")));
            }
            match MjGrid::try_with_values(nmx, nmy, nmz, v.as_str()) {
                Ok(g) => g,
                Err(e) => {
                    return Err(LoadError::GridError(e.message()));
                },
            }
        },
        None => copy_alphabet(grid, nmx, nmy, nmz),
    };
    add_unions(elem, &mut newgrid)?;
    proof {
        assert(newgrid.cells_below(32));
    }
    let is_2d = grid.mz == 1;
    let ghost n = symmetry_count(is_2d);
    proof {
        if map_loads(*elem, grid, symmetry@) {
            assert(parts@[2]@ == spec_words(scale@)[2]);
            assert(map_new_grid(*elem, grid, &newgrid));
            lemma_map_loads_children(*elem, grid, &newgrid, symmetry@);
        }
    }
    let mut rules: Vec<MjRule> = Vec::new();
    let mut k: usize = 0;
    while k < elem.children.len()
        invariant
            grid_ok(grid),
            grid_ok(&newgrid),
            is_2d == (grid.mz == 1),
            k <= elem.children@.len(),
            loaded_map_rules(rules@, newgrid.c as int),
            n == symmetry_count(is_2d),
            map_loads(*elem, grid, symmetry@) ==> map_children_ok(*elem, grid, &newgrid, symmetry@),
            map_loads(*elem, grid, symmetry@) ==> (rules@.len() > 0 <==> exists|j: int|
                0 <= j < k && (#[trigger] elem.children@[j]).name@ == "rule"@ && keeps_some(
                    symmetry_mask(child_symmetry(elem.children@[j], is_2d, symmetry@), is_2d),
                    n,
                )),
        decreases elem.children@.len() - k,
    {
        let ch = &elem.children[k];
        let ghost len0 = rules@.len();
        if ch.is("rule") {
            let i = match ch.attr("in") {
                Some(i) => i,
                None => {
                    return Err(LoadError::MissingAttribute { element: owned("rule"), attribute: owned("in") });
                },
            };
            let o = match ch.attr("out") {
                Some(o) => o,
                None => {
                    return Err(LoadError::MissingAttribute { element: owned("rule"), attribute: owned("out") });
                },
            };
            let p = parse_probability(ch.attr("p"));
            let rsym = match ch.attr("symmetry") {
                Some(s) => get_symmetry(is_2d, s.as_str())?,
                None => copy_flags(symmetry),
            };
            let base = map_rule(i.as_str(), o.as_str(), grid, &newgrid, p)?;
            proof {
                assert(base.outputs_below(newgrid.c as int));
            }
            let vs = apply_symmetry(base, rsym.as_slice(), is_2d);
            proof {
                assert(rsym@ == child_symmetry(elem.children@[k as int], is_2d, symmetry@));
                lemma_kept_images_nonempty(shape_of(&base), symmetry_mask(rsym@, is_2d), n);
                assert(vs@.len() == shapes_of(vs@).len());
            }
            extend_map_rules(&mut rules, vs, newgrid.c);
        }
        proof {
            if map_loads(*elem, grid, symmetry@) {
                if exists|j: int|
                    0 <= j < k + 1 && (#[trigger] elem.children@[j]).name@ == "rule"@ && keeps_some(
                        symmetry_mask(child_symmetry(elem.children@[j], is_2d, symmetry@), is_2d),
                        n,
                    ) {
                    let j = choose|j: int|
                        0 <= j < k + 1 && (#[trigger] elem.children@[j]).name@ == "rule"@ && keeps_some(
                            symmetry_mask(child_symmetry(elem.children@[j], is_2d, symmetry@), is_2d),
                            n,
                        );
                    if j < k {
                        assert(rules@.len() >= len0);
                    }
                }
            }
        }
        k = k + 1;
    }
    if rules.len() == 0 {
        return Err(LoadError::RuleError(owned("no rules found in map node")));
    }
    let children = load_children(elem, &newgrid, symmetry, ctx)?;
    if children.len() >= 0x7fff_ffff {
        return Err(LoadError::RuleError(owned("too many child nodes")));
    }
    let node = MapNode::new(newgrid, rules, sx, sy, sz).with_children(children);
    proof {
        assert forall|r: int| 0 <= r < node.rules@.len() implies (#[trigger] node.rules@[r]).wf()
            && node.rules@[r].outputs_below(32) by {
            assert(rule_ok(&node.rules@[r]));
        }
    }
    Ok(NodeBox::Mapping(node))
}

/// The value of the first character of attribute `key` of a convolution rule, or the
/// error naming it.
fn conv_rule_value(
    e: &XmlElement,
    v: &String,
    grid: &MjGrid,
    key: &str,
    empty: &str,
    context: &str,
) -> (r: Result<u8, LoadError>)
    requires
        grid.wf(),
    ensures
        r matches Ok(x) ==> x < grid.c,
        v@.len() == 0 ==> (r matches Err(LoadError::InvalidAttribute { element, attribute, value, reason })
            && element@ == "rule"@ && attribute@ == key@ && value@ == v@ && reason@ == empty@),
        v@.len() > 0 ==> match grid.spec_value_for_char(v@[0]) {
            Some(x) => r == Ok::<u8, LoadError>(x),
            None => (r matches Err(LoadError::UnknownCharacter { character, context: c }) && character == v@[0]
                && c@ == context@),
        },
{
    let ch = match first_char(v.as_str()) {
        Some(c) => c,
        None => {
            return Err(
                LoadError::InvalidAttribute {
                    element: owned("rule"),
                    attribute: owned(key),
                    value: owned(v.as_str()),
                    reason: owned(empty),
                },
            );
        },
    };
    match grid.value_for_char(ch) {
        Some(x) => {
            proof {
                crate::text::lemma_first_index(grid.characters@, ch);
            }
            Ok(x)
        },
        None => Err(LoadError::UnknownCharacter { character: ch, context: owned(context) }),
    }
}

/// The value of the first character of an attribute, when the grid knows it.
pub open spec fn first_value(grid: &MjGrid, v: Seq<char>) -> Option<u8> {
    if v.len() > 0 {
        grid.spec_value_for_char(v[0])
    } else {
        None
    }
}

/// Whether an element has the `in` and `out` of a convolution rule.
pub open spec fn has_conv_rule(e: XmlElement) -> bool {
    attr_lookup(e.attrs@, "in"@) is Some && attr_lookup(e.attrs@, "out"@) is Some
}

/// Whether a convolution rule can be read from an element: when it has `in` and `out`,
/// both start with known values and `values` and `sum` come together.
pub open spec fn conv_rule_ok(e: XmlElement, grid: &MjGrid) -> bool {
    match (attr_lookup(e.attrs@, "in"@), attr_lookup(e.attrs@, "out"@)) {
        (Some(i), Some(o)) => first_value(grid, i) is Some && first_value(grid, o) is Some && (attr_lookup(
            e.attrs@,
            "values"@,
        ) is Some <==> attr_lookup(e.attrs@, "sum"@) is Some),
        _ => true,
    }
}

/// The kernel names a convolution node knows: `VonNeumann`, and `Moore` in 2D or
/// `NoCorners` in 3D.
pub open spec fn kernel_name_ok(name: Seq<char>, is_2d: bool) -> bool {
    name == "VonNeumann"@ || if is_2d {
        name == "Moore"@
    } else {
        name == "NoCorners"@
    }
}

/// The convolution rule of an element with `in` and `out` (none without them): the values
/// of their first characters, the probability `p`, and, with `values` and `sum` together,
/// the count constraint (the values that are known, and the allowed counts).
fn conv_rule(e: &XmlElement, grid: &MjGrid) -> (r: Result<Option<ConvolutionRule>, LoadError>)
    requires
        grid.wf(),
    ensures
        r matches Ok(Some(rule)) ==> rule.output < grid.c,
        match (attr_lookup(e.attrs@, "in"@), attr_lookup(e.attrs@, "out"@)) {
            (Some(i), Some(o)) => {
            &&& r is Ok <==> (first_value(grid, i) is Some && first_value(grid, o) is Some && (attr_lookup(
                e.attrs@,
                "values"@,
            ) is Some <==> attr_lookup(e.attrs@, "sum"@) is Some))
            &&& r matches Ok(x) ==> x is Some
            &&& r matches Ok(Some(rule)) ==> {
                &&& Some(rule.input) == first_value(grid, i)
                &&& Some(rule.output) == first_value(grid, o)
                &&& rule.sums is Some <==> attr_lookup(e.attrs@, "values"@) is Some
                &&& rule.sums is None ==> rule.values@.len() == 0
            }
            },
            _ => r matches Ok(None),
        },
{
    let i = match e.attr("in") {
        Some(s) => s,
        None => {
            return Ok(None);
        },
    };
    let o = match e.attr("out") {
        Some(s) => s,
        None => {
            return Ok(None);
        },
    };
    let input = conv_rule_value(e, i, grid, "in", "empty input", "convolution rule input")?;
    let output = conv_rule_value(e, o, grid, "out", "empty output", "convolution rule output")?;
    let p = parse_probability(e.attr("p"));
    match (e.attr("values"), e.attr("sum")) {
        (Some(vals), Some(sum)) => {
            let cs = str_chars(vals.as_str());
            let mut values: Vec<u8> = Vec::new();
            let mut k: usize = 0;
            while k < cs.len()
                invariant
                    grid.wf(),
                    k <= cs@.len(),
                decreases cs@.len() - k,
            {
                match grid.value_for_char(cs[k]) {
                    Some(x) => values.push(x),
                    None => {},
                }
                k = k + 1;
            }
            let sums = ConvolutionRule::parse_sum_intervals(sum.as_str());
            Ok(Some(ConvolutionRule::with_sums(input, output, values, sums).with_probability(p)))
        },
        (None, None) => Ok(Some(ConvolutionRule::new(input, output).with_probability(p))),
        (Some(_), None) => Err(LoadError::MissingAttribute { element: owned("rule"), attribute: owned("sum") }),
        (None, Some(_)) => Err(LoadError::MissingAttribute { element: owned("rule"), attribute: owned("values") }),
    }
}

/// A convolution node: its `neighborhood` kernel (`VonNeumann` or `Moore` in 2D,
/// `VonNeumann` or `NoCorners` in 3D), `periodic` flag, `steps` limit, and its rules: one
/// on the element itself when it has `in` and `out`, then its `rule` children.
fn load_convolution_node(elem: &XmlElement, grid: &MjGrid) -> (r: Result<NodeBox, LoadError>)
    requires
        grid_ok(grid),
    ensures
        r matches Ok(n) ==> n.inv() && n is Convolution,
        r is Ok <==> {
            &&& attr_lookup(elem.attrs@, "neighborhood"@) matches Some(nb) && kernel_name_ok(nb, grid.mz == 1)
            &&& conv_rule_ok(*elem, grid)
            &&& forall|k: int|
                0 <= k < elem.children@.len() && (#[trigger] elem.children@[k]).name@ == "rule"@ ==> conv_rule_ok(
                    elem.children@[k],
                    grid,
                )
            &&& has_conv_rule(*elem) || exists|k: int|
                0 <= k < elem.children@.len() && (#[trigger] elem.children@[k]).name@ == "rule"@ && has_conv_rule(
                    elem.children@[k],
                )
        },
        r matches Ok(NodeBox::Convolution(c)) ==> c.periodic == attr_true(elem.attrs@, "periodic"@),
{
    let neighborhood = match elem.attr("neighborhood") {
        Some(s) => s,
        None => {
            return Err(LoadError::MissingAttribute { element: owned("convolution"), attribute: owned("neighborhood") });
        },
    };
    let periodic = flag(elem, "periodic");
    let steps = parse_count(elem.attr("steps"));
    let mut rules: Vec<ConvolutionRule> = Vec::new();
    if elem.attr("in").is_some() && elem.attr("out").is_some() {
        if let Some(rule) = conv_rule(elem, grid)? {
            rules.push(rule);
        }
    }
    let mut k: usize = 0;
    while k < elem.children.len()
        invariant
            grid_ok(grid),
            k <= elem.children@.len(),
            forall|q: int| 0 <= q < rules@.len() ==> (#[trigger] rules@[q]).output < 32,
            conv_rule_ok(*elem, grid),
            forall|j: int|
                0 <= j < k && (#[trigger] elem.children@[j]).name@ == "rule"@ ==> conv_rule_ok(elem.children@[j], grid),
            rules@.len() > 0 <==> (has_conv_rule(*elem) || exists|j: int|
                0 <= j < k && (#[trigger] elem.children@[j]).name@ == "rule"@ && has_conv_rule(elem.children@[j])),
        decreases elem.children@.len() - k,
    {
        let ch = &elem.children[k];
        if ch.is("rule") {
            if let Some(rule) = conv_rule(ch, grid)? {
                rules.push(rule);
            }
        }
        proof {
            if exists|j: int|
                0 <= j < k + 1 && (#[trigger] elem.children@[j]).name@ == "rule"@ && has_conv_rule(elem.children@[j]) {
                let j = choose|j: int|
                    0 <= j < k + 1 && (#[trigger] elem.children@[j]).name@ == "rule"@ && has_conv_rule(elem.children@[j]);
                if j < k {
                    assert(rules@.len() > 0);
                }
            }
        }
        k = k + 1;
    }
    if rules.len() == 0 {
        return Err(LoadError::RuleError(owned("no rules found in convolution node")));
    }
    proof {
        crate::convolution_node::lemma_named_kernels();
    }
    let n = grid.state.len();
    let nc = grid.c as usize;
    let node = if grid.mz == 1 {
        match ConvolutionNode::with_2d_kernel(rules, neighborhood.as_str(), periodic, n, nc) {
            Some(node) => node,
            None => {
                return Err(
                    LoadError::InvalidAttribute {
                        element: owned("convolution"),
                        attribute: owned("neighborhood"),
                        value: owned(neighborhood.as_str()),
                        reason: owned("unknown 2D kernel name (expected VonNeumann or Moore)"),
                    },
                );
            },
        }
    } else {
        match ConvolutionNode::with_3d_kernel(rules, neighborhood.as_str(), periodic, n, nc) {
            Some(node) => node,
            None => {
                return Err(
                    LoadError::InvalidAttribute {
                        element: owned("convolution"),
                        attribute: owned("neighborhood"),
                        value: owned(neighborhood.as_str()),
                        reason: owned("unknown 3D kernel name (expected VonNeumann or NoCorners)"),
                    },
                );
            },
        }
    };
    let node = if steps > 0 {
        node.with_steps(steps)
    } else {
        node
    };
    Ok(NodeBox::Convolution(node))
}

/// Whether attribute `key` is present, non-empty, and its first character is a value of `grid`.
pub open spec fn color_attr_ok(attrs: Seq<(String, String)>, key: Seq<char>, grid: &MjGrid) -> bool {
    attr_lookup(attrs, key) matches Some(s) && s.len() > 0 && grid.spec_value_for_char(s[0]) is Some
}

/// The refusal of a `convchain` color attribute `key` that is not usable: `MissingAttribute`
/// when it is absent or empty, else `UnknownCharacter` for its first character, with `context`.
pub open spec fn color_refusal<A>(r: Result<A, LoadError>, attrs: Seq<(String, String)>, key: Seq<char>, context: Seq<char>) -> bool {
    if attr_lookup(attrs, key) matches Some(s) && s.len() > 0 {
        r matches Err(LoadError::UnknownCharacter { character, context: c }) && character == attr_lookup(
            attrs,
            key,
        ).unwrap()[0] && c@ == context
    } else {
        r matches Err(LoadError::MissingAttribute { element, attribute }) && element@ == "convchain"@ && attribute@
            == key
    }
}

/// The value of the color named by the first character of attribute `key` of a `convchain`
/// element, or its refusal (see `color_refusal`).
fn convchain_color(elem: &XmlElement, grid: &MjGrid, key: &str, context: &str) -> (r: Result<u8, LoadError>)
    requires
        grid.wf(),
    ensures
        r is Ok <==> color_attr_ok(elem.attrs@, key@, grid),
        r matches Ok(v) ==> Some(v) == grid.spec_value_for_char(attr_lookup(elem.attrs@, key@).unwrap()[0]),
        r is Err ==> color_refusal(r, elem.attrs@, key@, context@),
{
    let ch = match elem.attr(key) {
        Some(s) => first_char(s.as_str()),
        None => None,
    };
    match ch {
        None => Err(LoadError::MissingAttribute { element: owned("convchain"), attribute: owned(key) }),
        Some(c) => match grid.value_for_char(c) {
            Some(v) => Ok(v),
            None => Err(LoadError::UnknownCharacter { character: c, context: owned(context) }),
        },
    }
}

/// What a `convchain` element needs before its sample can be read: a 2D grid, a `sample`
/// attribute, and `on`, `black` and `white` colors of the grid, checked in that order.
pub fn convchain_check(elem: &XmlElement, grid: &MjGrid) -> (r: Result<(), LoadError>)
    requires
        grid.wf(),
    ensures
        r is Ok <==> grid.mz == 1 && attr_lookup(elem.attrs@, "sample"@) is Some && color_attr_ok(
            elem.attrs@,
            "on"@,
            grid,
        ) && color_attr_ok(elem.attrs@, "black"@, grid) && color_attr_ok(elem.attrs@, "white"@, grid),
        grid.mz != 1 ==> (r matches Err(LoadError::InvalidAttribute { element, attribute, value, reason })
            && element@ == "convchain"@ && attribute@.len() == 0 && value@.len() == 0 && reason@
            == "convchain currently works only for 2d"@),
        grid.mz == 1 && attr_lookup(elem.attrs@, "sample"@) is None ==> (r matches Err(
            LoadError::MissingAttribute { element, attribute },
        ) && element@ == "convchain"@ && attribute@ == "sample"@),
        grid.mz == 1 && attr_lookup(elem.attrs@, "sample"@) is Some ==> {
            &&& !color_attr_ok(elem.attrs@, "on"@, grid) ==> color_refusal(r, elem.attrs@, "on"@, "convchain on"@)
            &&& color_attr_ok(elem.attrs@, "on"@, grid) && !color_attr_ok(elem.attrs@, "black"@, grid)
                ==> color_refusal(r, elem.attrs@, "black"@, "convchain black"@)
            &&& color_attr_ok(elem.attrs@, "on"@, grid) && color_attr_ok(elem.attrs@, "black"@, grid)
                && !color_attr_ok(elem.attrs@, "white"@, grid) ==> color_refusal(
                r,
                elem.attrs@,
                "white"@,
                "convchain white"@,
            )
        },
{
    if grid.mz != 1 {
        proof {
            reveal_strlit("");
        }
        return Err(
            LoadError::InvalidAttribute {
                element: owned("convchain"),
                attribute: owned(""),
                value: owned(""),
                reason: owned("convchain currently works only for 2d"),
            },
        );
    }
    if elem.attr("sample").is_none() {
        return Err(LoadError::MissingAttribute { element: owned("convchain"), attribute: owned("sample") });
    }
    let _on = convchain_color(elem, grid, "on", "convchain on")?;
    let _black = convchain_color(elem, grid, "black", "convchain black")?;
    let _white = convchain_color(elem, grid, "white", "convchain white")?;
    Ok(())
}

/// What a `wfc` element needs before its sample or tileset can be read: a `sample` (only on a
/// 2D grid) or a `tileset` attribute.
pub fn wfc_check(elem: &XmlElement, grid: &MjGrid) -> (r: Result<(), LoadError>)
    ensures
        r is Ok <==> (attr_lookup(elem.attrs@, "sample"@) is Some && grid.mz == 1) || (attr_lookup(
            elem.attrs@,
            "sample"@,
        ) is None && attr_lookup(elem.attrs@, "tileset"@) is Some),
        attr_lookup(elem.attrs@, "sample"@) is Some && grid.mz != 1 ==> (r matches Err(
            LoadError::InvalidAttribute { element, attribute, value, reason },
        ) && element@ == "wfc"@ && attribute@ == "sample"@ && Some(value@) == attr_lookup(elem.attrs@, "sample"@) && reason@
            == "overlapping model currently works only for 2d"@),
        attr_lookup(elem.attrs@, "sample"@) is None && attr_lookup(elem.attrs@, "tileset"@) is None ==> (r matches Err(
            LoadError::MissingAttribute { element, attribute },
        ) && element@ == "wfc"@ && attribute@ == "sample or tileset"@),
{
    match elem.attr("sample") {
        Some(s) => {
            if grid.mz != 1 {
                Err(
                    LoadError::InvalidAttribute {
                        element: owned("wfc"),
                        attribute: owned("sample"),
                        value: owned(s.as_str()),
                        reason: owned("overlapping model currently works only for 2d"),
                    },
                )
            } else {
                Ok(())
            }
        },
        None => {
            if elem.attr("tileset").is_some() {
                Ok(())
            } else {
                Err(LoadError::MissingAttribute { element: owned("wfc"), attribute: owned("sample or tileset") })
            }
        },
    }
}

/// The first `k` children of an element that name nodes, in order.
pub open spec fn node_elems_upto(children: Seq<XmlElement>, k: int) -> Seq<XmlElement>
    decreases k,
{
    if k <= 0 {
        Seq::empty()
    } else if node_name(children[k - 1].name@) {
        node_elems_upto(children, k - 1).push(children[k - 1])
    } else {
        node_elems_upto(children, k - 1)
    }
}

/// The children of an element that name nodes, in order.
pub open spec fn node_elems(e: XmlElement) -> Seq<XmlElement> {
    node_elems_upto(e.children@, e.children@.len() as int)
}

/// Nodes of the kinds that a sequence of elements names, one for one.
pub open spec fn kinds_match(elems: Seq<XmlElement>, nodes: Seq<NodeBox>) -> bool {
    &&& nodes.len() == elems.len()
    &&& forall|i: int| 0 <= i < nodes.len() ==> node_kind(elems[i].name@, #[trigger] nodes[i])
}

/// The child nodes of a branch element, in order: its children with node names.
fn load_children(elem: &XmlElement, grid: &MjGrid, symmetry: &[bool], ctx: &LoadContext) -> (r: Result<Vec<NodeBox>, LoadError>)
    requires
        grid_ok(grid),
    ensures
        r matches Ok(v) ==> v@.len() <= elem.children@.len() && forall|i: int| 0 <= i < v@.len() ==> (#[trigger] v@[i]).inv(),
        r matches Ok(v) ==> kinds_match(node_elems(*elem), v@),
        children_load(*elem, grid, symmetry@) ==> r is Ok,
    decreases elem, 0int,
{
    let mut nodes: Vec<NodeBox> = Vec::new();
    let mut k: usize = 0;
    while k < elem.children.len()
        invariant
            grid_ok(grid),
            k <= elem.children@.len(),
            nodes@.len() <= k,
            forall|i: int| 0 <= i < nodes@.len() ==> (#[trigger] nodes@[i]).inv(),
            kinds_match(node_elems_upto(elem.children@, k as int), nodes@),
        decreases elem.children@.len() - k,
    {
        let ch = &elem.children[k];
        if is_node_name(ch.name.as_str()) {
            proof {
                assert(decreases_to!(elem => elem.children));
                assert(decreases_to!(elem.children => elem.children@));
                assert(decreases_to!(elem.children@ => elem.children@[k as int]));
            }
            let res = load_node(ch, grid, symmetry, ctx);
            proof {
                if children_load(*elem, grid, symmetry@) {
                    assert(node_name(elem.children@[k as int].name@));
                    assert(tree_loads(elem.children@[k as int], grid, symmetry@));
                }
            }
            let n = res?;
            nodes.push(n);
        }
        k = k + 1;
    }
    assert(node_elems_upto(elem.children@, k as int) == node_elems(*elem));
    Ok(nodes)
}

/// What a loaded node shows of its element: its kind; for a rule node, its settings and
/// its inline rules; for a branch, children of the kinds of the element's node children, in
/// order. `symmetry` is the parent's.
pub open spec fn node_facts(e: XmlElement, grid: &MjGrid, symmetry: Seq<bool>, n: NodeBox) -> bool {
    &&& node_kind(e.name@, n)
    &&& rule_node_name(e.name@) ==> rule_setup(e, grid, rule_data_of(n)) && inline_rules_loaded(
        e,
        grid,
        child_symmetry(e, grid.mz == 1, symmetry),
        rule_data_of(n).rules@,
    )
    &&& n matches NodeBox::Markov(m) ==> kinds_match(node_elems(e), m.nodes@)
    &&& n matches NodeBox::Sequence(m) ==> kinds_match(node_elems(e), m.nodes@)
}

/// What a `wfc` element gives on a grid of depth `mz`: an overlap model (`sample`) refused
/// off a 2D grid, a missing `sample` and `tileset` reported, and otherwise `Unsupported`.
pub open spec fn wfc_outcome<T>(e: XmlElement, mz: usize, r: Result<T, LoadError>) -> bool {
    if attr_lookup(e.attrs@, "sample"@) is Some && mz != 1 {
        r matches Err(LoadError::InvalidAttribute { element, attribute, value, reason }) && element@ == "wfc"@
            && attribute@ == "sample"@ && Some(value@) == attr_lookup(e.attrs@, "sample"@) && reason@
            == "overlapping model currently works only for 2d"@
    } else if attr_lookup(e.attrs@, "sample"@) is None && attr_lookup(e.attrs@, "tileset"@) is None {
        r matches Err(LoadError::MissingAttribute { element, attribute }) && element@ == "wfc"@ && attribute@
            == "sample or tileset"@
    } else {
        r matches Err(LoadError::Unsupported(n)) && n@ == "wfc"@
    }
}

/// Whether an element names no symmetry or a known one for the grid's dimension.
pub open spec fn symmetry_known(e: XmlElement, is_2d: bool) -> bool {
    attr_lookup(e.attrs@, "symmetry"@) matches Some(s) ==> spec_symmetry(is_2d, s) is Some
}

/// A node from its element: its own `symmetry` or the parent's, then by kind.
fn load_node(elem: &XmlElement, grid: &MjGrid, parent_symmetry: &[bool], ctx: &LoadContext) -> (r: Result<NodeBox, LoadError>)
    requires
        grid_ok(grid),
    ensures
        r matches Ok(n) ==> n.inv(),
        r matches Ok(n) ==> node_kind(elem.name@, n),
        r is Ok ==> runnable_name(elem.name@),
        r is Ok && rule_node_name(elem.name@) ==> rule_setup(*elem, grid, rule_data_of(r->Ok_0)),
        r is Ok && rule_node_name(elem.name@) ==> inline_rules_loaded(
            *elem,
            grid,
            child_symmetry(*elem, grid.mz == 1, parent_symmetry@),
            rule_data_of(r->Ok_0).rules@,
        ),
        r matches Ok(NodeBox::Markov(m)) ==> kinds_match(node_elems(*elem), m.nodes@),
        r matches Ok(NodeBox::Sequence(m)) ==> kinds_match(node_elems(*elem), m.nodes@),
        r matches Ok(n) ==> node_facts(*elem, grid, parent_symmetry@, n),
        elem.name@ == "wfc"@ && symmetry_known(*elem, grid.mz == 1) ==> wfc_outcome(*elem, grid.mz, r),
        elem.name@ == "convchain"@ ==> r is Err,
        tree_loads(*elem, grid, parent_symmetry@) ==> r is Ok,
    decreases elem, 2int,
{
    proof {
        reveal_strlit("wfc");
        reveal_strlit("convchain");
        reveal_strlit("one");
        reveal_strlit("all");
        reveal_strlit("prl");
        reveal_strlit("path");
        reveal_strlit("markov");
        reveal_strlit("sequence");
        reveal_strlit("map");
        reveal_strlit("convolution");
        assert("wfc"@[0] != "one"@[0] && "wfc"@[0] != "all"@[0] && "wfc"@[0] != "prl"@[0] && "wfc"@.len() != "path"@.len());
        assert("wfc"@.len() != "markov"@.len() && "wfc"@.len() != "sequence"@.len() && "wfc"@[0] != "map"@[0]);
        assert("wfc"@.len() != "convolution"@.len() && "wfc"@.len() != "convchain"@.len());
        assert("convchain"@.len() != "one"@.len() && "convchain"@.len() != "path"@.len() && "convchain"@.len()
            != "markov"@.len() && "convchain"@.len() != "sequence"@.len() && "convchain"@.len() != "map"@.len());
        assert("convchain"@.len() != "convolution"@.len());
    }
    let is_2d = grid.mz == 1;
    let symmetry = match elem.attr("symmetry") {
        Some(s) => get_symmetry(is_2d, s.as_str())?,
        None => copy_flags(parent_symmetry),
    };
    proof {
        assert(symmetry@ == child_symmetry(*elem, is_2d, parent_symmetry@));
    }
    if elem.is("one") || elem.is("all") || elem.is("prl") {
        let res = rule_node(elem, grid, symmetry.as_slice(), ctx);
        proof {
            reveal_strlit("markov");
            reveal_strlit("sequence");
            reveal_strlit("one");
            reveal_strlit("all");
            reveal_strlit("prl");
            if tree_loads(*elem, grid, parent_symmetry@) {
                lemma_inline_rules_read(*elem, grid, symmetry@, ctx.resources@, ctx.folder);
            }
            assert("one"@.len() != "markov"@.len() && "all"@.len() != "markov"@.len() && "prl"@.len() != "markov"@.len());
            assert("one"@.len() != "sequence"@.len() && "all"@.len() != "sequence"@.len() && "prl"@.len() != "sequence"@.len());
        }
        res
    } else if elem.is("path") {
        path_node(elem, grid)
    } else if elem.is("markov") {
        let children = load_children(elem, grid, symmetry.as_slice(), ctx)?;
        Ok(NodeBox::Markov(MarkovNode::new(children)))
    } else if elem.is("sequence") {
        let children = load_children(elem, grid, symmetry.as_slice(), ctx)?;
        Ok(NodeBox::Sequence(SequenceNode::new(children)))
    } else if elem.is("map") {
        proof {
            reveal_strlit("map");
            reveal_strlit("convolution");
            assert("map"@.len() != "convolution"@.len());
        }
        load_map_node(elem, grid, symmetry.as_slice(), ctx)
    } else if elem.is("convolution") {
        load_convolution_node(elem, grid)
    } else if elem.is("convchain") {
        convchain_check(elem, grid)?;
        Err(LoadError::Unsupported(owned(elem.name.as_str())))
    } else if elem.is("wfc") {
        wfc_check(elem, grid)?;
        Err(LoadError::Unsupported(owned(elem.name.as_str())))
    } else {
        Err(LoadError::UnknownNodeType(owned(elem.name.as_str())))
    }
}

/// Whether the node children of an element load on `grid` (see `tree_loads`).
pub open spec fn children_load(e: XmlElement, grid: &MjGrid, symmetry: Seq<bool>) -> bool
    decreases e, 0int,
{
    forall|k: int|
        0 <= k < e.children@.len() && node_name((#[trigger] e.children@[k]).name@) ==> tree_loads(
            e.children@[k],
            grid,
            symmetry,
        )
}

/// A sufficient condition for a node element to load on `grid`, with the symmetry of
/// its parent: a known `symmetry` if it names one, and by kind: a rule node whose rules
/// are written inline and read, whose fields are complete and that observes nothing; a
/// path with `from`, `to`, `on` and a known color; a map node as `map_loads` says; a
/// convolution node as `load_convolution_node` says; a branch whose node children all
/// load.
pub open spec fn tree_loads(e: XmlElement, grid: &MjGrid, parent_symmetry: Seq<bool>) -> bool
    decreases e, 3int,
{
    let is_2d = grid.mz == 1;
    let sym = child_symmetry(e, is_2d, parent_symmetry);
    &&& attr_lookup(e.attrs@, "symmetry"@) matches Some(name) ==> spec_symmetry(is_2d, name) is Some
    &&& if rule_node_name(e.name@) {
        &&& no_rule_files(e)
        &&& inline_rules_ok(e, grid, sym)
        &&& forall|k: int| 0 <= k < e.children@.len() ==> field_child_ok(#[trigger] e.children@[k], grid)
        &&& forall|k: int| 0 <= k < e.children@.len() ==> (#[trigger] e.children@[k]).name@ != "observe"@
    } else if e.name@ == "path"@ {
        &&& attr_lookup(e.attrs@, "from"@) is Some
        &&& attr_lookup(e.attrs@, "to"@) is Some
        &&& attr_lookup(e.attrs@, "on"@) is Some
        &&& grid.spec_value_for_char(path_color(e.attrs@)) is Some
    } else if e.name@ == "markov"@ || e.name@ == "sequence"@ {
        children_load(e, grid, sym)
    } else if e.name@ == "map"@ {
        map_loads(e, grid, sym)
    } else if e.name@ == "convolution"@ {
        &&& attr_lookup(e.attrs@, "neighborhood"@) matches Some(nb) && kernel_name_ok(nb, is_2d)
        &&& conv_rule_ok(e, grid)
        &&& forall|k: int|
            0 <= k < e.children@.len() && (#[trigger] e.children@[k]).name@ == "rule"@ ==> conv_rule_ok(
                e.children@[k],
                grid,
            )
        &&& has_conv_rule(e) || exists|k: int|
            0 <= k < e.children@.len() && (#[trigger] e.children@[k]).name@ == "rule"@ && has_conv_rule(
                e.children@[k],
            )
    } else {
        false
    }
}

/// A dimension, or its default when zero.
pub open spec fn dim_or(d: usize, default: usize) -> usize {
    if d > 0 {
        d
    } else {
        default
    }
}

/// Whether attribute `key` is present and reads `true` (ignoring ASCII case).
pub open spec fn attr_true(attrs: Seq<(String, String)>, key: Seq<char>) -> bool {
    crate::xml::attr_lookup(attrs, key) matches Some(v) && is_true(v)
}

/// The node tree of a model: the root's node itself when it is a branch, else a Markov node
/// holding it alone; either way with what `node_facts` shows of the root element, starting
/// from every symmetry.
pub open spec fn root_loaded(root: XmlElement, grid: &MjGrid, tree: NodeBox) -> bool {
    let full = full_symmetry(grid.mz == 1);
    if root.name@ == "markov"@ || root.name@ == "sequence"@ {
        node_facts(root, grid, full, tree)
    } else {
        tree matches NodeBox::Markov(k) && k.nodes@.len() == 1 && node_facts(root, grid, full, k.nodes@[0])
    }
}

/// The symmetry a model's nodes start from: every transform of the grid's dimension.
pub open spec fn full_symmetry(is_2d: bool) -> Seq<bool> {
    Seq::new(if is_2d { 8nat } else { 48nat }, |i: int| true)
}

/// The grid a model's root describes: the given size (defaults where zero), all zero and
/// unmasked, with the characters of the root's `values` and the document's unions as waves.
pub open spec fn model_grid(root: XmlElement, mx: usize, my: usize, mz: usize, g: MjGrid) -> bool {
    let v = attr_lookup(root.attrs@, "values"@)->0;
    let kept = spec_without_whitespace(v);
    let c = spec_utf8_len(kept) as u8;
    let n = (dim_or(mx, 16) * dim_or(my, 16) * dim_or(mz, 1)) as nat;
    &&& g.state@ == Seq::new(n, |i: int| 0u8)
    &&& g.mask@ == Seq::new(n, |i: int| false)
    &&& g.mx == dim_or(mx, 16) && g.my == dim_or(my, 16) && g.mz == dim_or(mz, 1)
    &&& g.c == c
    &&& g.characters@ == kept
    &&& unions_of(root, kept, initial_waves(kept, c)) == Some(g.waves@)
}

/// Whether the grid of a model's root can be built: `values` present, of at most 31 bytes
/// and without repeats, a size the engine can index, unions that name known characters,
/// and a known `symmetry` if the root names one.
pub open spec fn model_grid_builds(root: XmlElement, mx: usize, my: usize, mz: usize) -> bool {
    let x = dim_or(mx, 16);
    let y = dim_or(my, 16);
    let z = dim_or(mz, 1);
    &&& attr_lookup(root.attrs@, "values"@) is Some
    &&& x * y * z <= usize::MAX
    &&& spec_utf8_len(spec_without_whitespace(attr_lookup(root.attrs@, "values"@)->0)) < 32
    &&& spec_values_error(attr_lookup(root.attrs@, "values"@)->0) is None
    &&& x <= i32::MAX && y <= i32::MAX && z <= i32::MAX && x * y <= i32::MAX && x * y * z <= i32::MAX
    &&& ({
        let kept = spec_without_whitespace(attr_lookup(root.attrs@, "values"@)->0);
        unions_of(root, kept, initial_waves(kept, spec_utf8_len(kept) as u8)) is Some
    })
    &&& attr_lookup(root.attrs@, "symmetry"@) matches Some(s) ==> spec_symmetry(z == 1, s) is Some
}

/// Whether a model's root loads: its grid builds, it names a node, and its node tree
/// loads on that grid (see `tree_loads`).
pub open spec fn model_loads(root: XmlElement, mx: usize, my: usize, mz: usize) -> bool {
    &&& model_grid_builds(root, mx, my, mz)
    &&& node_name(root.name@)
    &&& forall|g: MjGrid| #[trigger] model_grid(root, mx, my, mz, g) ==> tree_loads(root, &g, full_symmetry(dim_or(mz, 1) == 1))
}

/// A model from its root element: a grid of `mx` by `my` by `mz` cells (16, 16 and 1 where
/// zero) with the root's `values` and every `union` of the document, and the node tree
/// (the root node, inside a Markov node unless it is already a branch). Rule images are
/// taken from `resources` (path below the resources folder, and contents).
pub fn load_model_tree(root: &XmlElement, mx: usize, my: usize, mz: usize, resources: &[(String, Vec<u8>)]) -> (r: Result<
    LoadedModel,
    LoadError,
>)
    ensures
        r matches Ok(m) ==> {
            &&& m.root.inv()
            &&& grid_ok(&m.grid)
            &&& m.grid.mx == dim_or(mx, 16) && m.grid.my == dim_or(my, 16) && m.grid.mz == dim_or(mz, 1)
            &&& m.grid.state@ == Seq::new(m.grid.state@.len(), |i: int| 0u8)
            &&& crate::xml::attr_lookup(root.attrs@, "values"@) matches Some(v) && m.grid.characters@
                == spec_without_whitespace(v)
            &&& m.origin == attr_true(root.attrs@, "origin"@)
            &&& runnable_name(root.name@)
            &&& (root.name@ == "markov"@ || root.name@ == "sequence"@) ==> node_kind(root.name@, m.root)
            &&& !(root.name@ == "markov"@ || root.name@ == "sequence"@) ==> (m.root matches NodeBox::Markov(k)
                && k.nodes@.len() == 1 && node_kind(root.name@, k.nodes@[0]))
        },
        crate::xml::attr_lookup(root.attrs@, "values"@) is None ==> (r matches Err(
            LoadError::MissingAttribute { element, attribute },
        ) && element@ == root.name@ && attribute@ == "values"@),
        (crate::xml::attr_lookup(root.attrs@, "values"@) matches Some(v) && dim_or(mx, 16) * dim_or(my, 16)
            * dim_or(mz, 1) <= usize::MAX && spec_utf8_len(spec_without_whitespace(v)) < 32
            && spec_values_error(v) is Some) ==> r matches Err(LoadError::GridError(_)),
        r matches Ok(m) ==> model_grid(*root, mx, my, mz, m.grid),
        r matches Ok(m) ==> root_loaded(*root, &m.grid, m.root),
        model_grid_builds(*root, mx, my, mz) && root.name@ == "wfc"@ ==> wfc_outcome(*root, dim_or(mz, 1), r),
        model_grid_builds(*root, mx, my, mz) && root.name@ == "convchain"@ ==> r is Err,
        model_grid_builds(*root, mx, my, mz) && !node_name(root.name@) ==> (r matches Err(
            LoadError::UnknownNodeType(n),
        ) && n@ == root.name@),
        model_loads(*root, mx, my, mz) ==> r is Ok,
{
    let values = match root.attr("values") {
        Some(v) => v,
        None => {
            return Err(LoadError::MissingAttribute { element: owned(root.name.as_str()), attribute: owned("values") });
        },
    };
    let origin = flag(root, "origin");
    let gx = if mx > 0 { mx } else { 16 };
    let gy = if my > 0 { my } else { 16 };
    let gz = if mz > 0 { mz } else { 1 };
    let fits = match gx.checked_mul(gy) {
        Some(a) => a.checked_mul(gz).is_some(),
        None => false,
    };
    if !fits {
        return Err(LoadError::GridError(owned("grid too large")));
    }
    if !MjGrid::values_fit(values.as_str()) {
        return Err(LoadError::GridError(owned("too many values")));
    }
    let mut grid = match MjGrid::try_with_values(gx, gy, gz, values.as_str()) {
        Ok(g) => g,
        Err(e) => {
            return Err(LoadError::GridError(e.message()));
        },
    };
    if !engine_size_ok(gx, gy, gz) {
        return Err(LoadError::GridError(owned("grid too large")));
    }
    let ghost g0 = grid;
    add_unions(root, &mut grid)?;
    proof {
        assert(grid.cells_below(32));
        assert(model_grid(*root, mx, my, mz, grid));
    }
    let folder = match root.attr("folder") {
        Some(f) => Some(owned(f.as_str())),
        None => None,
    };
    let ctx = LoadContext { resources, folder };
    let is_2d = gz == 1;
    let symmetry = match root.attr("symmetry") {
        Some(s) => get_symmetry(is_2d, s.as_str())?,
        None => default_symmetry(is_2d),
    };
    if !is_node_name(root.name.as_str()) {
        return Err(LoadError::UnknownNodeType(owned(root.name.as_str())));
    }
    proof {
        if model_loads(*root, mx, my, mz) {
            assert(tree_loads(*root, &grid, full_symmetry(is_2d)));
            assert(child_symmetry(*root, is_2d, symmetry@) == child_symmetry(*root, is_2d, full_symmetry(is_2d)));
            assert(tree_loads(*root, &grid, symmetry@));
        }
    }
    let res = load_node(root, &grid, symmetry.as_slice(), &ctx);
    proof {
        assert(child_symmetry(*root, is_2d, symmetry@) == child_symmetry(*root, is_2d, full_symmetry(is_2d)));
        assert(symmetry_known(*root, is_2d));
        if res is Ok {
            assert(node_facts(*root, &grid, full_symmetry(is_2d), res->Ok_0));
        }
    }
    let node = res?;
    let tree = if root.is("markov") || root.is("sequence") {
        node
    } else {
        let mut nodes: Vec<NodeBox> = Vec::new();
        nodes.push(node);
        NodeBox::Markov(MarkovNode::new(nodes))
    };
    Ok(LoadedModel { root: tree, grid, origin })
}

/// A grid and origin flag that loading a document's root `t` can give: the grid of the
/// given size (defaults where zero), all zero, with the characters of `values`; the
/// origin flag from `origin`; and a root that names a node this library runs.
pub open spec fn tree_loaded(t: XmlTree, mx: usize, my: usize, mz: usize, grid: MjGrid, origin: bool) -> bool {
    &&& grid_ok(&grid)
    &&& grid.mx == dim_or(mx, 16) && grid.my == dim_or(my, 16) && grid.mz == dim_or(mz, 1)
    &&& grid.state@ == Seq::new(grid.state@.len(), |i: int| 0u8)
    &&& tree_attr(t.attrs, "values"@) matches Some(v) && grid.characters@ == spec_without_whitespace(v)
    &&& origin == (tree_attr(t.attrs, "origin"@) matches Some(o) && is_true(o))
    &&& runnable_name(t.name)
}

/// An error that loading a document's root `t` can give: a missing `values` attribute
/// is reported with the root's name, and unusable values as a grid error.
pub open spec fn tree_refused(t: XmlTree, mx: usize, my: usize, mz: usize, e: LoadError) -> bool {
    &&& tree_attr(t.attrs, "values"@) is None ==> (e matches LoadError::MissingAttribute { element, attribute }
        && element@ == t.name && attribute@ == "values"@)
    &&& (tree_attr(t.attrs, "values"@) matches Some(v) && dim_or(mx, 16) * dim_or(my, 16) * dim_or(mz, 1)
        <= usize::MAX && spec_utf8_len(spec_without_whitespace(v)) < 32 && spec_values_error(v) is Some) ==> e is GridError
}

/// What loading a model from XML text gives: the reader's error, or the outcome of
/// loading the document's root.
pub open spec fn text_load_outcome(
    xml: Seq<char>,
    mx: usize,
    my: usize,
    mz: usize,
    r: Result<(MjGrid, bool, NodeBox), LoadError>,
) -> bool {
    match build_tree(xml_tokens(xml)) {
        Err(m) => r matches Err(LoadError::XmlError(e)) && e@ == m,
        Ok(t) => {
            &&& match r {
                Ok(gm) => tree_loaded(t, mx, my, mz, gm.0, gm.1),
                Err(e) => tree_refused(t, mx, my, mz, e),
            }
            &&& exists|root: XmlElement| tree_of(root) == t && #[trigger] model_outcome(root, mx, my, mz, r)
        },
    }
}

/// What loading a model from its root element gives: on success the grid the root
/// describes and its `origin` flag; a missing `values` attribute, unusable values, and a
/// root that names no node each with their error; and success whenever the root loads
/// (see `model_loads`).
pub open spec fn model_outcome(
    root: XmlElement,
    mx: usize,
    my: usize,
    mz: usize,
    r: Result<(MjGrid, bool, NodeBox), LoadError>,
) -> bool {
    &&& r matches Ok(gm) ==> grid_ok(&gm.0) && model_grid(root, mx, my, mz, gm.0) && gm.1 == attr_true(
        root.attrs@,
        "origin"@,
    ) && runnable_name(root.name@) && root_loaded(root, &gm.0, gm.2)
    &&& model_grid_builds(root, mx, my, mz) && root.name@ == "wfc"@ ==> wfc_outcome(root, dim_or(mz, 1), r)
    &&& model_grid_builds(root, mx, my, mz) && root.name@ == "convchain"@ ==> r is Err
    &&& attr_lookup(root.attrs@, "values"@) is None ==> (r matches Err(LoadError::MissingAttribute { element, attribute })
        && element@ == root.name@ && attribute@ == "values"@)
    &&& (attr_lookup(root.attrs@, "values"@) matches Some(v) && dim_or(mx, 16) * dim_or(my, 16) * dim_or(mz, 1)
        <= usize::MAX && spec_utf8_len(spec_without_whitespace(v)) < 32 && spec_values_error(v) is Some) ==> (r matches Err(
        LoadError::GridError(_),
    ))
    &&& model_grid_builds(root, mx, my, mz) && !node_name(root.name@) ==> (r matches Err(LoadError::UnknownNodeType(n))
        && n@ == root.name@)
    &&& model_loads(root, mx, my, mz) ==> r is Ok
}

/// The grid, origin flag and node tree of a loaded model.
pub open spec fn loaded_parts(r: Result<LoadedModel, LoadError>) -> Result<(MjGrid, bool, NodeBox), LoadError> {
    match r {
        Ok(m) => Ok((m.grid, m.origin, m.root)),
        Err(e) => Err(e),
    }
}

/// A model from XML text, on a grid of `mx` by `my` by `mz` cells (16, 16 and 1 where
/// zero), without resource files.
pub fn load_model_str(xml: &str, mx: usize, my: usize, mz: usize) -> (r: Result<LoadedModel, LoadError>)
    ensures
        r matches Ok(m) ==> m.root.inv() && grid_ok(&m.grid),
        text_load_outcome(xml@, mx, my, mz, loaded_parts(r)),
{
    load_model_str_with_resources(xml, mx, my, mz, &[])
}

/// A model from XML text with its resource files (path below the resources folder, such as
/// `rules/Name.png`, and contents).
pub fn load_model_str_with_resources(
    xml: &str,
    mx: usize,
    my: usize,
    mz: usize,
    resources: &[(String, Vec<u8>)],
) -> (r: Result<LoadedModel, LoadError>)
    ensures
        r matches Ok(m) ==> m.root.inv() && grid_ok(&m.grid),
        text_load_outcome(xml@, mx, my, mz, loaded_parts(r)),
{
    match parse_xml(xml) {
        Ok(root) => {
            let r = load_model_tree(&root, mx, my, mz, resources);
            proof {
                lemma_attr_view(root.attrs@, "values"@);
                lemma_attr_view(root.attrs@, "origin"@);
                assert(model_outcome(root, mx, my, mz, loaded_parts(r)));
            }
            r
        },
        Err(msg) => Err(LoadError::XmlError(msg)),
    }
}

} // verus!
