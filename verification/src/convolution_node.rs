//! Cellular-automaton steps: every cell is rewritten by the first rule whose input it
//! holds and whose count of chosen values among its neighbors is allowed.
use vstd::prelude::*;
use crate::context::{grid_ok, ExecutionContext};
use crate::geom::{idx3, lemma_idx3_bound};
use crate::grid::{lemma_nonempty_dims, lemma_plane_div_bound, MjGrid};
use crate::map_node::{all_digits, digits_value, is_digit, lemma_digits_grow};
use crate::node::{ctx_kept, Node};
use crate::rng::{view_after_draw, view_sample, MBIG};
use crate::rule::Probability;
use crate::text::{spec_is_whitespace, spec_split, split_chars, sub_chars, is_whitespace};
use crate::vecs::{filled_bool, filled_i32, str_chars};
use crate::xml::str_eq;

verus! {

/// A rule of a convolution node.
#[derive(Debug, Clone)]
pub struct ConvolutionRule {
    /// The value a cell must hold.
    pub input: u8,
    /// The value written.
    pub output: u8,
    /// The values counted among the neighbors.
    pub values: Vec<u8>,
    /// The allowed counts (`sums[n]` allows a count of `n`); no constraint when absent.
    pub sums: Option<Vec<bool>>,
    /// The probability of applying the rule where it matches.
    pub p: Probability,
}

impl ConvolutionRule {
    /// A rule from `input` to `output` without a count constraint.
    pub fn new(input: u8, output: u8) -> (r: Self)
        ensures
            r.input == input && r.output == output,
            r.values@.len() == 0,
            r.sums is None,
            r.p == (Probability { num: 1, den: 1 }),
    {
        ConvolutionRule { input, output, values: Vec::new(), sums: None, p: Probability::one() }
    }

    /// A rule from `input` to `output` that applies where the count of `values` among the
    /// neighbors is allowed by `sums`.
    pub fn with_sums(input: u8, output: u8, values: Vec<u8>, sums: Vec<bool>) -> (r: Self)
        ensures
            r.input == input && r.output == output,
            r.values@ == values@,
            r.sums == Some(sums),
            r.p == (Probability { num: 1, den: 1 }),
    {
        ConvolutionRule { input, output, values, sums: Some(sums), p: Probability::one() }
    }

    /// The same rule with probability `p`.
    pub fn with_probability(self, p: Probability) -> (r: Self)
        ensures
            r.input == self.input && r.output == self.output,
            r.values == self.values,
            r.sums == self.sums,
            r.p == p,
    {
        ConvolutionRule { p, ..self }
    }

    /// The allowed counts 0 to 27 of a text of comma-separated parts, each (trimmed) a
    /// count `n` or an interval `a..b` of counts.
    pub fn parse_sum_intervals(s: &str) -> (r: Vec<bool>)
        ensures
            r@.len() == 28,
            forall|i: int| 0 <= i < 28 ==> r@[i] == sums_text_allows(s@, i),
    {
        let cs = str_chars(s);
        let parts = split_chars(&cs, ',');
        let ghost sp = spec_split(s@, ',');
        let mut sums = filled_bool(28, false);
        let mut k: usize = 0;
        while k < parts.len()
            invariant
                cs@ == s@,
                sp == spec_split(s@, ','),
                parts@.len() == sp.len(),
                forall|q: int| 0 <= q < parts@.len() ==> (#[trigger] parts@[q])@ == sp[q],
                k <= parts@.len(),
                sums@.len() == 28,
                forall|i: int| 0 <= i < 28 ==> #[trigger] sums@[i] == parts_allow(sp, k as int, i),
            decreases parts@.len() - k,
        {
            let t = trim_chars(&parts[k]);
            let ghost before = sums@;
            match find_dots(&t) {
                Some(d) => {
                    let tn = t.len();
                    assert(d + 2 <= tn);
                    let lo = sub_chars(&t, 0, d);
                    let hi = sub_chars(&t, d + 2, tn);
                    if find_dots(&hi).is_none() {
                        match (parse_usize(&lo), parse_usize(&hi)) {
                            (Some(a), Some(b)) => {
                                let top = if b < 27 {
                                    b
                                } else {
                                    27
                                };
                                let mut j = a;
                                while j <= top
                                    invariant
                                        sums@.len() == 28,
                                        top <= 27,
                                        a <= j <= top + 1 || (j == a && a > top),
                                        forall|i: int|
                                            0 <= i < 28 ==> #[trigger] sums@[i] == (before[i] || (a <= i < j)),
                                    decreases top + 1 - j,
                                {
                                    sums.set(j, true);
                                    j = j + 1;
                                }
                            },
                            _ => {},
                        }
                    }
                },
                None => match parse_usize(&t) {
                    Some(v) => {
                        if v < 28 {
                            sums.set(v, true);
                        }
                    },
                    None => {},
                },
            }
            proof {
                assert forall|i: int| 0 <= i < 28 implies #[trigger] sums@[i] == parts_allow(sp, k + 1, i) by {
                    assert(parts_allow(sp, k + 1, i) == (parts_allow(sp, k as int, i) || part_allows(
                        spec_trim(sp[k as int]),
                        i,
                    )));
                }
            }
            k = k + 1;
        }
        sums
    }
}

/// `s` without its leading whitespace.
pub open spec fn trim_start(s: Seq<char>) -> Seq<char>
    decreases s.len(),
{
    if s.len() > 0 && spec_is_whitespace(s[0]) {
        trim_start(s.drop_first())
    } else {
        s
    }
}

/// `s` without its trailing whitespace.
pub open spec fn trim_end(s: Seq<char>) -> Seq<char>
    decreases s.len(),
{
    if s.len() > 0 && spec_is_whitespace(s.last()) {
        trim_end(s.drop_last())
    } else {
        s
    }
}

/// `s` without leading and trailing whitespace, like `str::trim`.
pub open spec fn spec_trim(s: Seq<char>) -> Seq<char> {
    trim_end(trim_start(s))
}

/// The first position from `k` where `..` starts, or -1.
pub open spec fn dots_from(s: Seq<char>, k: int) -> int
    decreases s.len() - k,
{
    if k < 0 || k + 1 >= s.len() {
        -1
    } else if s[k] == '.' && s[k + 1] == '.' {
        k
    } else {
        dots_from(s, k + 1)
    }
}

/// The decimal number an optional `+` and one or more digits denote, when it fits in a
/// machine word, like `str::parse::<usize>`.
pub open spec fn spec_parse_usize(t: Seq<char>) -> Option<int> {
    let body = plus_body(t);
    if body.len() > 0 && all_digits(body) && digits_value(body) <= usize::MAX {
        Some(digits_value(body))
    } else {
        None
    }
}

/// `t` without an optional leading `+`.
pub open spec fn plus_body(t: Seq<char>) -> Seq<char> {
    if t.len() > 0 && t[0] == '+' {
        t.drop_first()
    } else {
        t
    }
}

/// Whether a trimmed part allows count `i`: `a..b` allows `a` to `b`, a number allows
/// itself, anything else nothing.
pub open spec fn part_allows(part: Seq<char>, i: int) -> bool {
    let d = dots_from(part, 0);
    if d >= 0 {
        let lo = part.subrange(0, d);
        let hi = part.subrange(d + 2, part.len() as int);
        &&& dots_from(hi, 0) < 0
        &&& spec_parse_usize(lo) matches Some(a)
        &&& spec_parse_usize(hi) matches Some(b)
        &&& a <= i <= b
    } else {
        spec_parse_usize(part) == Some(i)
    }
}

/// Whether one of the first `k` parts allows count `i`.
pub open spec fn parts_allow(parts: Seq<Seq<char>>, k: int, i: int) -> bool
    decreases k,
{
    if k <= 0 {
        false
    } else {
        parts_allow(parts, k - 1, i) || part_allows(spec_trim(parts[k - 1]), i)
    }
}

/// Whether the comma-separated interval text `s` allows count `i`.
pub open spec fn sums_text_allows(s: Seq<char>, i: int) -> bool {
    parts_allow(spec_split(s, ','), spec_split(s, ',').len() as int, i)
}

/// A part without leading and trailing whitespace.
pub(crate) fn trim_chars(s: &Vec<char>) -> (r: Vec<char>)
    ensures
        r@ == spec_trim(s@),
{
    let n = s.len();
    let mut a: usize = 0;
    assert(s@.subrange(0, n as int) =~= s@);
    while a < n && is_whitespace(s[a])
        invariant
            n == s@.len(),
            a <= n,
            trim_start(s@) == trim_start(s@.subrange(a as int, n as int)),
        decreases n - a,
    {
        assert(s@.subrange(a as int, n as int).drop_first() =~= s@.subrange(a + 1, n as int));
        a = a + 1;
    }
    let ghost mid = s@.subrange(a as int, n as int);
    assert(trim_start(s@) == mid);
    let mut b: usize = n;
    while b > a && is_whitespace(s[b - 1])
        invariant
            a <= b <= n,
            n == s@.len(),
            mid == s@.subrange(a as int, n as int),
            trim_end(mid) == trim_end(s@.subrange(a as int, b as int)),
        decreases b - a,
    {
        assert(s@.subrange(a as int, b as int).drop_last() =~= s@.subrange(a as int, b - 1));
        b = b - 1;
    }
    sub_chars(s, a, b)
}

/// The first position where `..` starts, if any.
fn find_dots(s: &Vec<char>) -> (r: Option<usize>)
    ensures
        r matches Some(d) ==> dots_from(s@, 0) == d && d + 2 <= s@.len(),
        r is None ==> dots_from(s@, 0) < 0,
{
    let n = s.len();
    let mut k: usize = 0;
    while n > 0 && k < n - 1
        invariant
            n == s@.len(),
            dots_from(s@, 0) == dots_from(s@, k as int),
        decreases n - k,
    {
        if s[k] == '.' && s[k + 1] == '.' {
            return Some(k);
        }
        k = k + 1;
    }
    None
}

/// Parse an optional `+` and one or more decimal digits, when the number fits.
pub(crate) fn parse_usize(t: &Vec<char>) -> (r: Option<usize>)
    ensures
        r matches Some(v) ==> spec_parse_usize(t@) == Some(v as int),
        r is None ==> spec_parse_usize(t@) is None,
{
    let n = t.len();
    let start: usize = if n > 0 && t[0] == '+' {
        1
    } else {
        0
    };
    let ghost body = plus_body(t@);
    assert(body =~= t@.subrange(start as int, n as int));
    if start >= n {
        assert(body.len() == 0);
        return None;
    }
    let mut i = start;
    while i < n
        invariant
            start <= i <= n,
            n == t@.len(),
            body == t@.subrange(start as int, n as int),
            body == plus_body(t@),
            forall|j: int| 0 <= j < i - start ==> is_digit(#[trigger] body[j]),
        decreases n - i,
    {
        if !('0' <= t[i] && t[i] <= '9') {
            assert(body[i - start] == t@[i as int]);
            assert(!is_digit(body[i - start]));
            assert(!all_digits(body));
            return None;
        }
        i = i + 1;
    }
    assert(all_digits(body));
    let mut v: u128 = 0;
    let mut k = start;
    while k < n
        invariant
            start <= k <= n,
            n == t@.len(),
            body == t@.subrange(start as int, n as int),
            body == plus_body(t@),
            all_digits(body),
            v == digits_value(body.take(k - start)),
            v <= usize::MAX,
        decreases n - k,
    {
        proof {
            assert(body.take(k - start + 1).drop_last() =~= body.take(k - start));
            assert(body.take(k - start + 1).last() == body[k - start]);
            assert(body[k - start] == t@[k as int]);
            assert(is_digit(body[k - start]));
        }
        let d = (t[k] as u32 - '0' as u32) as u128;
        v = v * 10 + d;
        if v > usize::MAX as u128 {
            proof {
                assert(v == digits_value(body.take(k - start + 1)));
                lemma_digits_grow(body, k - start + 1);
                assert(body.take(body.len() as int) =~= body);
            }
            return None;
        }
        k = k + 1;
    }
    assert(body.take(n - start) =~= body);
    Some(v as usize)
}

/// The largest kernel weight.
pub const KERNEL_MAX: i32 = 0x100_0000;

/// The 2D kernel of the four orthogonal neighbors (3 by 3, rows from the top).
pub open spec fn von_neumann_2d_spec() -> Seq<i32> {
    seq![0, 1, 0, 1, 0, 1, 0, 1, 0]
}

/// The 2D kernel of the eight surrounding neighbors.
pub open spec fn moore_2d_spec() -> Seq<i32> {
    seq![1, 1, 1, 1, 0, 1, 1, 1, 1]
}

/// The 3D kernel of the six orthogonal neighbors (3 by 3 by 3, layers from below).
pub open spec fn von_neumann_3d_spec() -> Seq<i32> {
    seq![0, 0, 0, 0, 1, 0, 0, 0, 0, 0, 1, 0, 1, 0, 1, 0, 1, 0, 0, 0, 0, 0, 1, 0, 0, 0, 0]
}

/// The 3D kernel of the eighteen neighbors that are not corners.
pub open spec fn no_corners_3d_spec() -> Seq<i32> {
    seq![0, 1, 0, 1, 1, 1, 0, 1, 0, 1, 1, 1, 1, 0, 1, 1, 1, 1, 0, 1, 0, 1, 1, 1, 0, 1, 0]
}

/// Every weight of a kernel is 0 or 1.
pub open spec fn unit_weights(k: Seq<i32>) -> bool {
    forall|j: int| 0 <= j < k.len() ==> 0 <= #[trigger] k[j] <= 1
}

/// The named kernels have unit weights.
pub proof fn lemma_named_kernels()
    ensures
        unit_weights(von_neumann_2d_spec()),
        unit_weights(moore_2d_spec()),
        unit_weights(von_neumann_3d_spec()),
        unit_weights(no_corners_3d_spec()),
{
    assert(unit_weights(von_neumann_2d_spec()));
    assert(unit_weights(moore_2d_spec()));
    assert(unit_weights(von_neumann_3d_spec()));
    assert(unit_weights(no_corners_3d_spec()));
}

/// The 2D kernel of the four orthogonal neighbors.
pub fn von_neumann_2d() -> (k: Vec<i32>)
    ensures
        k@ == von_neumann_2d_spec(),
{
    vec![0, 1, 0, 1, 0, 1, 0, 1, 0]
}

/// The 2D kernel of the eight surrounding neighbors.
pub fn moore_2d() -> (k: Vec<i32>)
    ensures
        k@ == moore_2d_spec(),
{
    vec![1, 1, 1, 1, 0, 1, 1, 1, 1]
}

/// The 3D kernel of the six orthogonal neighbors.
pub fn von_neumann_3d() -> (k: Vec<i32>)
    ensures
        k@ == von_neumann_3d_spec(),
{
    vec![0, 0, 0, 0, 1, 0, 0, 0, 0, 0, 1, 0, 1, 0, 1, 0, 1, 0, 0, 0, 0, 0, 1, 0, 0, 0, 0]
}

/// The 3D kernel of the eighteen neighbors that are not corners.
pub fn no_corners_3d() -> (k: Vec<i32>)
    ensures
        k@ == no_corners_3d_spec(),
{
    vec![0, 1, 0, 1, 1, 1, 0, 1, 0, 1, 1, 1, 1, 0, 1, 1, 1, 1, 0, 1, 0, 1, 1, 1, 0, 1, 0]
}

/// A convolution node: each step counts, for every cell, the values around it under the
/// kernel, then rewrites every cell by its first applicable rule.
#[derive(Debug)]
pub struct ConvolutionNode {
    /// The rules, tried in order.
    pub rules: Vec<ConvolutionRule>,
    /// The kernel weights (9 in 2D, 27 in 3D).
    pub kernel: Vec<i32>,
    /// Whether the grid wraps around.
    pub periodic: bool,
    /// Steps run since the last reset.
    pub counter: usize,
    /// The most steps to run; 0 for no limit.
    pub steps: usize,
    /// For each cell, the weighted count of each value among its neighbors.
    pub sumfield: Vec<Vec<i32>>,
    /// The number of values counted.
    pub num_colors: usize,
    /// Whether the node works on the first layer of the grid only.
    pub is_2d: bool,
}

/// `rows` has `n` rows of `nc` zeros.
pub open spec fn zero_rows(rows: Seq<Vec<i32>>, n: int, nc: int) -> bool {
    &&& rows.len() == n
    &&& forall|i: int| 0 <= i < n ==> (#[trigger] rows[i])@ == Seq::new(nc as nat, |c: int| 0i32)
}

/// `n` rows of `nc` zeros.
fn zeros(n: usize, nc: usize) -> (r: Vec<Vec<i32>>)
    ensures
        zero_rows(r@, n as int, nc as int),
{
    let mut r: Vec<Vec<i32>> = Vec::new();
    let mut i: usize = 0;
    while i < n
        invariant
            i <= n,
            zero_rows(r@, i as int, nc as int),
        decreases n - i,
    {
        r.push(filled_i32(nc, 0));
        i = i + 1;
    }
    r
}

/// The neighbor coordinate `a + d` along an axis of size `m`: wrapped around when
/// periodic, none outside the axis otherwise.
pub open spec fn axis_neighbor(a: int, d: int, m: int, periodic: bool) -> Option<int> {
    let s = a + d;
    if periodic {
        Some(
            if s < 0 {
                s + m
            } else if s >= m {
                s - m
            } else {
                s
            },
        )
    } else if 0 <= s < m {
        Some(s)
    } else {
        None
    }
}

/// What kernel entry `j` (offsets `j % 3 - 1`, `j / 3 % 3 - 1`, `j / 9 - 1`) adds to the
/// count of value `c` at (x, y, z): its weight when that neighbor holds `c`. In 2D the
/// neighbor is taken in the first layer.
pub open spec fn kernel_term(
    g: MjGrid,
    periodic: bool,
    is_2d: bool,
    kernel: Seq<i32>,
    x: int,
    y: int,
    z: int,
    c: int,
    j: int,
) -> int {
    let nz = if is_2d {
        Some(0int)
    } else {
        axis_neighbor(z, j / 9 - 1, g.mz as int, periodic)
    };
    match (axis_neighbor(x, j % 3 - 1, g.mx as int, periodic), axis_neighbor(y, (j / 3) % 3 - 1, g.my as int, periodic), nz) {
        (Some(sx), Some(sy), Some(sz)) => if g.state@[idx3(sx, sy, sz, g.mx as int, g.my as int)] as int == c {
            kernel[j] as int
        } else {
            0
        },
        _ => 0,
    }
}

/// The count of value `c` at (x, y, z) over the first `k` kernel entries.
pub open spec fn kernel_sum(
    g: MjGrid,
    periodic: bool,
    is_2d: bool,
    kernel: Seq<i32>,
    x: int,
    y: int,
    z: int,
    c: int,
    k: int,
) -> int
    decreases k,
{
    if k <= 0 {
        0
    } else {
        kernel_sum(g, periodic, is_2d, kernel, x, y, z, c, k - 1) + kernel_term(g, periodic, is_2d, kernel, x, y, z, c, k - 1)
    }
}

/// The weighted count of value `c` around cell `i`: over the 3 by 3 kernel in the first
/// layer in 2D (0 for cells of other layers), over the 3 by 3 by 3 kernel in 3D.
pub open spec fn cell_sum(g: MjGrid, periodic: bool, is_2d: bool, kernel: Seq<i32>, i: int, c: int) -> int {
    let mx = g.mx as int;
    let my = g.my as int;
    if is_2d {
        if i < mx * my {
            kernel_sum(g, periodic, true, kernel, i % mx, (i / mx) % my, 0, c, 9)
        } else {
            0
        }
    } else {
        kernel_sum(g, periodic, false, kernel, i % mx, (i / mx) % my, i / (mx * my), c, 27)
    }
}

/// `rows` is the sumfield of grid `g`: a row per cell with the count of each value below
/// `nc`.
pub open spec fn sumfield_of(rows: Seq<Vec<i32>>, g: MjGrid, periodic: bool, is_2d: bool, kernel: Seq<i32>, nc: int) -> bool {
    &&& rows.len() == g.state@.len()
    &&& forall|i: int| 0 <= i < rows.len() ==> (#[trigger] rows[i])@.len() == nc
    &&& forall|i: int, c: int|
        0 <= i < rows.len() && 0 <= c < nc ==> #[trigger] rows[i]@[c] == cell_sum(g, periodic, is_2d, kernel, i, c)
}

/// Every count is between 0 and 27 kernel weights.
pub open spec fn rows_bounded(rows: Seq<Vec<i32>>) -> bool {
    forall|i: int, c: int| 0 <= i < rows.len() && 0 <= c < rows[i]@.len() ==> 0 <= #[trigger] rows[i]@[c] <= 27 * KERNEL_MAX
}

/// The neighbor coordinate along one axis, as `axis_neighbor` states.
fn neighbor(a: i64, d: i64, m: i64, periodic: bool) -> (r: Option<i64>)
    requires
        0 <= a < m <= i32::MAX,
        -1 <= d <= 1,
    ensures
        r matches Some(v) ==> axis_neighbor(a as int, d as int, m as int, periodic) == Some(v as int) && 0 <= v < m,
        r is None ==> axis_neighbor(a as int, d as int, m as int, periodic) is None,
{
    let s = a + d;
    if periodic {
        if s < 0 {
            Some(s + m)
        } else if s >= m {
            Some(s - m)
        } else {
            Some(s)
        }
    } else if 0 <= s && s < m {
        Some(s)
    } else {
        None
    }
}

impl ConvolutionNode {
    /// The kernel fits the dimension and its weights are between 0 and `KERNEL_MAX`; every
    /// row counts `num_colors` values; every rule writes a value below 32.
    pub open spec fn wf(&self) -> bool {
        &&& self.kernel@.len() == (if self.is_2d {
            9int
        } else {
            27int
        })
        &&& forall|j: int| 0 <= j < self.kernel@.len() ==> 0 <= #[trigger] self.kernel@[j] <= KERNEL_MAX
        &&& forall|i: int| 0 <= i < self.sumfield@.len() ==> (#[trigger] self.sumfield@[i])@.len() == self.num_colors
        &&& forall|r: int| 0 <= r < self.rules@.len() ==> (#[trigger] self.rules@[r]).output < 32
    }

    /// A node with the given rules and kernel, counting `num_colors` values over
    /// `grid_size` cells; no step limit.
    pub fn new(
        rules: Vec<ConvolutionRule>,
        kernel: Vec<i32>,
        periodic: bool,
        grid_size: usize,
        num_colors: usize,
        is_2d: bool,
    ) -> (r: Self)
        ensures
            r.rules@ == rules@,
            r.kernel@ == kernel@,
            r.periodic == periodic,
            r.counter == 0,
            r.steps == 0,
            zero_rows(r.sumfield@, grid_size as int, num_colors as int),
            r.num_colors == num_colors,
            r.is_2d == is_2d,
    {
        let sumfield = zeros(grid_size, num_colors);
        ConvolutionNode { rules, kernel, periodic, counter: 0, steps: 0, sumfield, num_colors, is_2d }
    }

    /// A 2D node with the kernel named `VonNeumann` or `Moore`; `None` for another name.
    pub fn with_2d_kernel(
        rules: Vec<ConvolutionRule>,
        kernel_name: &str,
        periodic: bool,
        grid_size: usize,
        num_colors: usize,
    ) -> (r: Option<Self>)
        ensures
            kernel_name@ == "VonNeumann"@ ==> (r matches Some(n) && n.kernel@ == von_neumann_2d_spec()),
            kernel_name@ == "Moore"@ ==> (r matches Some(n) && n.kernel@ == moore_2d_spec()),
            !(kernel_name@ == "VonNeumann"@ || kernel_name@ == "Moore"@) ==> r is None,
            r matches Some(n) ==> {
                &&& n.rules@ == rules@
                &&& n.periodic == periodic
                &&& n.counter == 0 && n.steps == 0
                &&& zero_rows(n.sumfield@, grid_size as int, num_colors as int)
                &&& n.num_colors == num_colors
                &&& n.is_2d
            },
    {
        proof {
            reveal_strlit("VonNeumann");
            reveal_strlit("Moore");
            assert("VonNeumann"@.len() != "Moore"@.len());
        }
        let kernel = if str_eq(kernel_name, "VonNeumann") {
            von_neumann_2d()
        } else if str_eq(kernel_name, "Moore") {
            moore_2d()
        } else {
            return None;
        };
        Some(ConvolutionNode::new(rules, kernel, periodic, grid_size, num_colors, true))
    }

    /// A 3D node with the kernel named `VonNeumann` or `NoCorners`; `None` for another name.
    pub fn with_3d_kernel(
        rules: Vec<ConvolutionRule>,
        kernel_name: &str,
        periodic: bool,
        grid_size: usize,
        num_colors: usize,
    ) -> (r: Option<Self>)
        ensures
            kernel_name@ == "VonNeumann"@ ==> (r matches Some(n) && n.kernel@ == von_neumann_3d_spec()),
            kernel_name@ == "NoCorners"@ ==> (r matches Some(n) && n.kernel@ == no_corners_3d_spec()),
            !(kernel_name@ == "VonNeumann"@ || kernel_name@ == "NoCorners"@) ==> r is None,
            r matches Some(n) ==> {
                &&& n.rules@ == rules@
                &&& n.periodic == periodic
                &&& n.counter == 0 && n.steps == 0
                &&& zero_rows(n.sumfield@, grid_size as int, num_colors as int)
                &&& n.num_colors == num_colors
                &&& !n.is_2d
            },
    {
        proof {
            reveal_strlit("VonNeumann");
            reveal_strlit("NoCorners");
            assert("VonNeumann"@.len() != "NoCorners"@.len());
        }
        let kernel = if str_eq(kernel_name, "VonNeumann") {
            von_neumann_3d()
        } else if str_eq(kernel_name, "NoCorners") {
            no_corners_3d()
        } else {
            return None;
        };
        Some(ConvolutionNode::new(rules, kernel, periodic, grid_size, num_colors, false))
    }

    /// The same node limited to `steps` steps.
    pub fn with_steps(self, steps: usize) -> (r: Self)
        ensures
            r.steps == steps,
            r.rules == self.rules && r.kernel == self.kernel && r.periodic == self.periodic,
            r.counter == self.counter && r.sumfield == self.sumfield,
            r.num_colors == self.num_colors && r.is_2d == self.is_2d,
    {
        ConvolutionNode { steps, ..self }
    }

    /// The counts around cell `i` of grid `g`.
    fn cell_row(&self, g: &MjGrid, i: usize) -> (row: Vec<i32>)
        requires
            self.wf(),
            grid_ok(g),
            i < g.state@.len(),
        ensures
            row@.len() == self.num_colors,
            forall|c: int|
                0 <= c < self.num_colors ==> #[trigger] row@[c] == cell_sum(
                    *g,
                    self.periodic,
                    self.is_2d,
                    self.kernel@,
                    i as int,
                    c,
                ) && 0 <= row@[c] <= 27 * KERNEL_MAX,
    {
        let nc = self.num_colors;
        let mut row = filled_i32(nc, 0);
        let mx = g.mx;
        let my = g.my;
        let mz = g.mz;
        proof {
            lemma_nonempty_dims(mx as int, my as int, mz as int);
            lemma_plane_div_bound(i as int, mx as int, my as int, mz as int);
            vstd::arithmetic::div_mod::lemma_div_pos_is_pos(i as int, mx as int);
            assert(mx * my > 0) by (nonlinear_arith)
                requires
                    mx > 0,
                    my > 0,
            ;
            vstd::arithmetic::div_mod::lemma_div_pos_is_pos(i as int, (mx * my) as int);
        }
        let plane = mx * my;
        if self.is_2d && i >= plane {
            return row;
        }
        let x = (i % mx) as i64;
        let y = ((i / mx) % my) as i64;
        let z: i64 = if self.is_2d {
            0
        } else {
            (i / plane) as i64
        };
        let ghost gz: int = if self.is_2d {
            0
        } else {
            i as int / (mx * my)
        };
        let kn: usize = if self.is_2d {
            9
        } else {
            27
        };
        let mut j: usize = 0;
        while j < kn
            invariant
                self.wf(),
                grid_ok(g),
                kn == self.kernel@.len(),
                mx == g.mx && my == g.my && mz == g.mz,
                mx > 0 && my > 0 && mz > 0,
                plane == mx * my,
                x == (i as int) % (mx as int),
                y == ((i as int) / (mx as int)) % (my as int),
                z == gz,
                0 <= x < mx,
                0 <= y < my,
                0 <= z < mz,
                j <= kn,
                row@.len() == nc,
                nc == self.num_colors,
                forall|c: int|
                    0 <= c < nc ==> #[trigger] row@[c] == kernel_sum(
                        *g,
                        self.periodic,
                        self.is_2d,
                        self.kernel@,
                        x as int,
                        y as int,
                        gz,
                        c,
                        j as int,
                    ) && 0 <= row@[c] <= j * KERNEL_MAX,
            decreases kn - j,
        {
            let kv = self.kernel[j];
            let ghost before = row@;
            if kv != 0 {
                let dx = (j % 3) as i64 - 1;
                let dy = ((j / 3) % 3) as i64 - 1;
                let sxo = neighbor(x, dx, mx as i64, self.periodic);
                let syo = neighbor(y, dy, my as i64, self.periodic);
                let szo = if self.is_2d {
                    Some(0i64)
                } else {
                    let dz = (j / 9) as i64 - 1;
                    neighbor(z, dz, mz as i64, self.periodic)
                };
                match (sxo, syo, szo) {
                    (Some(sx), Some(sy), Some(sz)) => {
                        proof {
                            lemma_idx3_bound(sx as int, sy as int, sz as int, mx as int, my as int, mz as int);
                        }
                        let n = (sx + sy * (mx as i64) + sz * (plane as i64)) as usize;
                        let color = g.state[n];
                        if (color as usize) < nc {
                            let cur = row[color as usize];
                            row.set(color as usize, cur + kv);
                        }
                    },
                    _ => {},
                }
            }
            proof {
                assert forall|c: int| 0 <= c < nc implies #[trigger] row@[c] == kernel_sum(
                    *g,
                    self.periodic,
                    self.is_2d,
                    self.kernel@,
                    x as int,
                    y as int,
                    gz,
                    c,
                    j + 1,
                ) && 0 <= row@[c] <= (j + 1) * KERNEL_MAX by {
                    assert(before[c] == kernel_sum(*g, self.periodic, self.is_2d, self.kernel@, x as int, y as int, gz, c, j as int));
                }
            }
            j = j + 1;
        }
        row
    }

    /// Recount the values around every cell of the grid.
    pub fn compute_sumfield(&mut self, ctx: &ExecutionContext)
        requires
            old(self).wf(),
            ctx.wf(),
        ensures
            final(self).wf(),
            sumfield_of(final(self).sumfield@, ctx.grid, old(self).periodic, old(self).is_2d, old(self).kernel@, old(self).num_colors as int),
            rows_bounded(final(self).sumfield@),
            final(self).rules == old(self).rules,
            final(self).kernel == old(self).kernel,
            final(self).periodic == old(self).periodic,
            final(self).counter == old(self).counter,
            final(self).steps == old(self).steps,
            final(self).num_colors == old(self).num_colors,
            final(self).is_2d == old(self).is_2d,
    {
        let n = ctx.grid.state.len();
        let mut rows: Vec<Vec<i32>> = Vec::new();
        let mut i: usize = 0;
        while i < n
            invariant
                self.wf(),
                ctx.wf(),
                n == ctx.grid.state@.len(),
                i <= n,
                rows@.len() == i,
                forall|q: int| 0 <= q < i ==> (#[trigger] rows@[q])@.len() == self.num_colors,
                forall|q: int, c: int|
                    0 <= q < i && 0 <= c < self.num_colors ==> #[trigger] rows@[q]@[c] == cell_sum(
                        ctx.grid,
                        self.periodic,
                        self.is_2d,
                        self.kernel@,
                        q,
                        c,
                    ) && 0 <= rows@[q]@[c] <= 27 * KERNEL_MAX,
            decreases n - i,
        {
            let row = self.cell_row(&ctx.grid, i);
            rows.push(row);
            i = i + 1;
        }
        self.sumfield = rows;
    }
}

/// The weighted count of a rule's values in a row of counts over its first `k` listed
/// values (a value listed twice counts twice; values outside the row count 0).
pub open spec fn values_total(row: Seq<i32>, values: Seq<u8>, k: int) -> int
    decreases k,
{
    if k <= 0 {
        0
    } else {
        values_total(row, values, k - 1) + if (values[k - 1] as int) < row.len() {
            row[values[k - 1] as int] as int
        } else {
            0
        }
    }
}

/// Whether a rule's count constraint allows a cell with the counts `row`.
pub open spec fn sum_allowed(rule: ConvolutionRule, row: Seq<i32>) -> bool {
    match rule.sums {
        None => true,
        Some(a) => {
            let t = values_total(row, rule.values@, rule.values@.len() as int);
            0 <= t < a@.len() && a@[t]
        },
    }
}

/// Whether a draw `s` (the fraction `s / MBIG`) fails the probability `num / den`: it is
/// not below it.
pub open spec fn draw_fails(s: i32, num: u64, den: u64) -> bool {
    (s as int) * (den as int) >= (num as int) * (MBIG as int)
}

/// The rules from the `k`-th tried on a cell holding `value` with counts `row`, the
/// generator at `g`: the cell's new value and the generator after its draws. A rule is
/// tried when the cell holds its input and its output differs; a rule with probability
/// below one draws once and fails on a draw not below it; the first rule that passes and
/// whose count constraint allows the cell writes its output.
pub open spec fn conv_cell(rules: Seq<ConvolutionRule>, k: int, value: u8, row: Seq<i32>, g: (Seq<i32>, int, int)) -> (
    u8,
    (Seq<i32>, int, int),
)
    decreases rules.len() - k,
{
    if k < 0 || k >= rules.len() {
        (value, g)
    } else {
        let r = rules[k];
        if value != r.input || r.output == value {
            conv_cell(rules, k + 1, value, row, g)
        } else {
            let draws = r.p.num < r.p.den;
            let g2 = if draws {
                view_after_draw(g)
            } else {
                g
            };
            let pass = !draws || !draw_fails(view_sample(g), r.p.num, r.p.den);
            if pass && sum_allowed(r, row) {
                (r.output, g2)
            } else {
                conv_cell(rules, k + 1, value, row, g2)
            }
        }
    }
}

/// The grid state and generator after rewriting the first `i` cells in order.
pub open spec fn conv_pass(state: Seq<u8>, rows: Seq<Vec<i32>>, rules: Seq<ConvolutionRule>, g: (Seq<i32>, int, int), i: int) -> (
    Seq<u8>,
    (Seq<i32>, int, int),
)
    decreases i,
{
    if i <= 0 {
        (state, g)
    } else {
        let prev = conv_pass(state, rows, rules, g, i - 1);
        let cell = conv_cell(rules, 0, prev.0[i - 1], rows[i - 1]@, prev.1);
        (prev.0.update(i - 1, cell.0), cell.1)
    }
}

/// Whether a rule's count constraint allows a cell with the counts `row`.
fn allowed(rule: &ConvolutionRule, row: &Vec<i32>) -> (r: bool)
    requires
        forall|c: int| 0 <= c < row@.len() ==> 0 <= #[trigger] row@[c] <= 27 * KERNEL_MAX,
    ensures
        r == sum_allowed(*rule, row@),
{
    match &rule.sums {
        None => true,
        Some(a) => {
            let mut total: u128 = 0;
            let mut q: usize = 0;
            let vn = rule.values.len();
            while q < vn
                invariant
                    forall|c: int| 0 <= c < row@.len() ==> 0 <= #[trigger] row@[c] <= 27 * KERNEL_MAX,
                    vn == rule.values@.len(),
                    q <= vn,
                    total == values_total(row@, rule.values@, q as int),
                    total <= q * 452984832,
                decreases rule.values@.len() - q,
            {
                let v = rule.values[q] as usize;
                if v < row.len() {
                    total = total + row[v] as u128;
                }
                q = q + 1;
            }
            total < a.len() as u128 && a[total as usize]
        },
    }
}

/// The new value of cell `i` and the generator after trying the node's rules on it.
pub open spec fn cell_after(node: &ConvolutionNode, ctx: &ExecutionContext, i: usize) -> (u8, (Seq<i32>, int, int)) {
    conv_cell(node.rules@, 0, ctx.grid.state@[i as int], node.sumfield@[i as int]@, ctx.random.rng_view())
}

impl ConvolutionNode {
    /// Try the rules on cell `i` and write the first applicable output; true when the
    /// cell changed.
    fn apply_cell(&self, ctx: &mut ExecutionContext, i: usize) -> (changed: bool)
        requires
            self.wf(),
            old(ctx).wf(),
            i < old(ctx).grid.state@.len(),
            i < self.sumfield@.len(),
            rows_bounded(self.sumfield@),
        ensures
            final(ctx).grid.state@ == old(ctx).grid.state@.update(i as int, cell_after(self, old(ctx), i).0),
            final(ctx).random.rng_view() == cell_after(self, old(ctx), i).1,
            changed == (cell_after(self, old(ctx), i).0 != old(ctx).grid.state@[i as int]),
            cell_after(self, old(ctx), i).0 < 32,
            final(ctx).random.wf(),
            final(ctx).grid.mask == old(ctx).grid.mask,
            final(ctx).grid.mx == old(ctx).grid.mx && final(ctx).grid.my == old(ctx).grid.my && final(ctx).grid.mz
                == old(ctx).grid.mz,
            final(ctx).grid.c == old(ctx).grid.c,
            final(ctx).grid.characters == old(ctx).grid.characters,
            final(ctx).grid.waves == old(ctx).grid.waves,
            final(ctx).changes == old(ctx).changes,
            final(ctx).first == old(ctx).first,
            final(ctx).counter == old(ctx).counter,
            final(ctx).gif == old(ctx).gif,
    {
        let value = ctx.grid.state[i];
        let ghost row = self.sumfield@[i as int]@;
        let ghost target = conv_cell(self.rules@, 0, value, row, ctx.random.rng_view());
        proof {
            assert(value < 32);
        }
        let mut k: usize = 0;
        while k < self.rules.len()
            invariant
                self.wf(),
                i < self.sumfield@.len(),
                rows_bounded(self.sumfield@),
                row == self.sumfield@[i as int]@,
                ctx.random.wf(),
                ctx.grid == old(ctx).grid,
                ctx.changes == old(ctx).changes,
                ctx.first == old(ctx).first,
                ctx.counter == old(ctx).counter,
                ctx.gif == old(ctx).gif,
                i < old(ctx).grid.state@.len(),
                value == old(ctx).grid.state@[i as int],
                value < 32,
                k <= self.rules@.len(),
                target == conv_cell(self.rules@, k as int, value, row, ctx.random.rng_view()),
                target == cell_after(self, old(ctx), i),
            decreases self.rules@.len() - k,
        {
            let rule = &self.rules[k];
            let ghost gk = ctx.random.rng_view();
            if value == rule.input && rule.output != value {
                let draws = rule.p.num < rule.p.den;
                let pass = if draws {
                    let s = ctx.random.next_sample();
                    let p = rule.p;
                    proof {
                        assert(-0x1_0000_0000_0000_0000_0000_0000 <= (s as int) * (p.den as int)
                            <= 0x1_0000_0000_0000_0000_0000_0000) by (nonlinear_arith)
                            requires
                                -0x8000_0000 <= s <= 0x7fff_ffff,
                                0 <= p.den <= 0xffff_ffff_ffff_ffff,
                        ;
                        assert(0 <= (p.num as int) * (MBIG as int) <= 0x1_0000_0000_0000_0000_0000_0000)
                            by (nonlinear_arith)
                            requires
                                0 <= p.num <= 0xffff_ffff_ffff_ffff,
                                MBIG == 0x7fff_ffff,
                        ;
                    }
                    !((s as i128) * (p.den as i128) >= (p.num as i128) * (MBIG as i128))
                } else {
                    true
                };
                proof {
                    assert(ctx.random.rng_view() == (if draws {
                        view_after_draw(gk)
                    } else {
                        gk
                    }));
                    assert(pass == (!draws || !draw_fails(view_sample(gk), rule.p.num, rule.p.den)));
                }
                if pass && allowed(rule, &self.sumfield[i]) {
                    ctx.grid.state.set(i, rule.output);
                    return true;
                }
            }
            k = k + 1;
        }
        assert(ctx.grid.state@ =~= old(ctx).grid.state@.update(i as int, value));
        false
    }

    /// Run one step: unless the step limit is reached, recount the neighbors of every cell,
    /// rewrite every cell in order by its first applicable rule, and count the step; true
    /// when a cell changed. A node whose counts do not cover the grid does nothing.
    pub fn go(&mut self, ctx: &mut ExecutionContext) -> (r: bool)
        requires
            old(self).wf(),
            old(ctx).wf(),
        ensures
            final(self).wf(),
            ctx_kept(old(ctx), final(ctx)),
            final(ctx).changes == old(ctx).changes,
            final(ctx).grid.mx == old(ctx).grid.mx && final(ctx).grid.my == old(ctx).grid.my && final(ctx).grid.mz
                == old(ctx).grid.mz,
            final(ctx).grid.c == old(ctx).grid.c,
            final(ctx).grid.characters == old(ctx).grid.characters,
            final(ctx).grid.waves == old(ctx).grid.waves,
            final(self).rules == old(self).rules && final(self).kernel == old(self).kernel,
            final(self).periodic == old(self).periodic && final(self).steps == old(self).steps,
            final(self).num_colors == old(self).num_colors && final(self).is_2d == old(self).is_2d,
            (old(self).steps > 0 && old(self).counter >= old(self).steps) || old(self).sumfield@.len()
                != old(ctx).grid.state@.len() ==> !r && *final(self) == *old(self) && *final(ctx) == *old(ctx),
            !((old(self).steps > 0 && old(self).counter >= old(self).steps) || old(self).sumfield@.len()
                != old(ctx).grid.state@.len()) ==> {
                let pass = conv_pass(
                    old(ctx).grid.state@,
                    final(self).sumfield@,
                    old(self).rules@,
                    old(ctx).random.rng_view(),
                    old(ctx).grid.state@.len() as int,
                );
                &&& sumfield_of(
                    final(self).sumfield@,
                    old(ctx).grid,
                    old(self).periodic,
                    old(self).is_2d,
                    old(self).kernel@,
                    old(self).num_colors as int,
                )
                &&& final(ctx).grid.state@ == pass.0
                &&& final(ctx).random.rng_view() == pass.1
                &&& r == (pass.0 != old(ctx).grid.state@)
                &&& final(self).counter == (if old(self).counter < usize::MAX {
                    old(self).counter + 1
                } else {
                    old(self).counter as int
                })
            },
    {
        if self.steps > 0 && self.counter >= self.steps {
            return false;
        }
        let n = ctx.grid.state.len();
        if self.sumfield.len() != n {
            return false;
        }
        self.compute_sumfield(ctx);
        let ghost s0 = ctx.grid.state@;
        let ghost g0 = ctx.random.rng_view();
        let ghost ctx0 = *ctx;
        let mut change = false;
        let mut i: usize = 0;
        while i < n
            invariant
                self.wf(),
                rows_bounded(self.sumfield@),
                self.sumfield@.len() == n,
                ctx.wf(),
                n == ctx.grid.state@.len(),
                s0.len() == n,
                i <= n,
                conv_pass(s0, self.sumfield@, self.rules@, g0, i as int) == (ctx.grid.state@, ctx.random.rng_view()),
                forall|j: int| i <= j < n ==> ctx.grid.state@[j] == s0[j],
                change <==> exists|j: int| 0 <= j < i && ctx.grid.state@[j] != s0[j],
                ctx.changes == ctx0.changes,
                ctx.first == ctx0.first,
                ctx.counter == ctx0.counter,
                ctx.grid.mask == ctx0.grid.mask,
                ctx.grid.mx == ctx0.grid.mx && ctx.grid.my == ctx0.grid.my && ctx.grid.mz == ctx0.grid.mz,
                ctx.grid.c == ctx0.grid.c,
                ctx.grid.characters == ctx0.grid.characters,
                ctx.grid.waves == ctx0.grid.waves,
            decreases n - i,
        {
            let ghost before = ctx.grid.state@;
            let c = self.apply_cell(ctx, i);
            proof {
                assert(before[i as int] == s0[i as int]);
                if c {
                    assert(ctx.grid.state@[i as int] != s0[i as int]);
                }
                assert forall|j: int| 0 <= j < i implies ctx.grid.state@[j] == before[j] by {}
                assert(ctx.grid.cells_below(32)) by {
                    assert forall|q: int| 0 <= q < ctx.grid.state@.len() implies ctx.grid.state@[q] < 32 by {
                        if q != i {
                            assert(ctx.grid.state@[q] == before[q]);
                        }
                    }
                }
            }
            if c {
                change = true;
            }
            i = i + 1;
        }
        proof {
            if !change {
                assert(ctx.grid.state@ =~= s0);
            } else {
                let j = choose|j: int| 0 <= j < n && ctx.grid.state@[j] != s0[j];
                assert(ctx.grid.state@[j] != s0[j]);
            }
        }
        if self.counter < usize::MAX {
            self.counter = self.counter + 1;
        }
        change
    }

    /// Back to the first step, with every count zero.
    pub fn reset(&mut self)
        requires
            old(self).wf(),
        ensures
            final(self).wf(),
            final(self).counter == 0,
            zero_rows(final(self).sumfield@, old(self).sumfield@.len() as int, old(self).num_colors as int),
            final(self).rules == old(self).rules && final(self).kernel == old(self).kernel,
            final(self).periodic == old(self).periodic && final(self).steps == old(self).steps,
            final(self).num_colors == old(self).num_colors && final(self).is_2d == old(self).is_2d,
    {
        self.counter = 0;
        self.sumfield = zeros(self.sumfield.len(), self.num_colors);
    }
}

impl ConvolutionNode {
    /// What one step does: from this node and context to `after` and `ctx_after`, with
    /// result `r`.
    pub open spec fn go_done(self, ctx: ExecutionContext, after: Self, ctx_after: ExecutionContext, r: bool) -> bool {
        &&& after.wf()
        &&& ctx_kept(&ctx, &ctx_after)
        &&& ctx_after.changes == ctx.changes
        &&& ctx_after.grid.mx == ctx.grid.mx && ctx_after.grid.my == ctx.grid.my && ctx_after.grid.mz
                == ctx.grid.mz
        &&& ctx_after.grid.c == ctx.grid.c
        &&& ctx_after.grid.characters == ctx.grid.characters
        &&& ctx_after.grid.waves == ctx.grid.waves
        &&& after.rules == self.rules && after.kernel == self.kernel
        &&& after.periodic == self.periodic && after.steps == self.steps
        &&& after.num_colors == self.num_colors && after.is_2d == self.is_2d
        &&& (self.steps > 0 && self.counter >= self.steps) || self.sumfield@.len()
                != ctx.grid.state@.len() ==> !r && after == self && ctx_after == ctx
        &&& !((self.steps > 0 && self.counter >= self.steps) || self.sumfield@.len()
                != ctx.grid.state@.len()) ==> {
                let pass = conv_pass(
                    ctx.grid.state@,
                    after.sumfield@,
                    self.rules@,
                    ctx.random.rng_view(),
                    ctx.grid.state@.len() as int,
                );
                &&& sumfield_of(
                    after.sumfield@,
                    ctx.grid,
                    self.periodic,
                    self.is_2d,
                    self.kernel@,
                    self.num_colors as int,
                )
                &&& ctx_after.grid.state@ == pass.0
                &&& ctx_after.random.rng_view() == pass.1
                &&& r == (pass.0 != ctx.grid.state@)
                &&& after.counter == (if self.counter < usize::MAX {
                    self.counter + 1
                } else {
                    self.counter as int
                })
            }
    }

    /// What a reset does: from this node to `after`.
    pub open spec fn reset_done(self, after: Self) -> bool {
        &&& after.wf()
        &&& after.counter == 0
        &&& zero_rows(after.sumfield@, self.sumfield@.len() as int, self.num_colors as int)
        &&& after.rules == self.rules && after.kernel == self.kernel
        &&& after.periodic == self.periodic && after.steps == self.steps
        &&& after.num_colors == self.num_colors && after.is_2d == self.is_2d
    }
}

impl Node for ConvolutionNode {
    open spec fn node_inv(&self) -> bool {
        self.wf()
    }

    fn go(&mut self, ctx: &mut ExecutionContext) -> (r: bool)
        ensures
            old(self).go_done(*old(ctx), *final(self), *final(ctx), r),
    {
        ConvolutionNode::go(self, ctx)
    }

    fn reset(&mut self)
        ensures
            old(self).reset_done(*final(self)),
    {
        ConvolutionNode::reset(self)
    }
}

} // verus!
