//! Scale factors and the toroidal matching and writing used by the map node, which
//! rewrites the grid into a grid of another size.
use vstd::prelude::*;
use crate::node::Node;
use crate::geom::{idx3, lemma_idx3_bound, lemma_idx3_inverse};
use crate::grid::lemma_plane_div_bound;
use crate::rule::{coord_of, MjRule};
use crate::vecs::str_chars;
use crate::context::grid_ok;
use crate::grid::MjGrid;
use crate::context::ExecutionContext;
use crate::node::{NodeBox, ctx_kept, kept_shape, lemma_max_height_eq, lemma_max_height_ge, nodes_height};

verus! {

/// A scale factor `numerator / denominator`.
#[derive(Debug, Clone, Copy)]
pub struct ScaleFactor {
    pub numerator: i32,
    pub denominator: i32,
}

/// Whether `c` is an ASCII decimal digit.
pub open spec fn is_digit(c: char) -> bool {
    '0' <= c <= '9'
}

/// The decimal value of a string of digits.
pub open spec fn digits_value(s: Seq<char>) -> int
    decreases s.len(),
{
    if s.len() == 0 {
        0
    } else {
        digits_value(s.drop_last()) * 10 + (s.last() as int - '0' as int)
    }
}

/// Every character of `t` is a decimal digit.
pub open spec fn all_digits(t: Seq<char>) -> bool {
    forall|i: int| 0 <= i < t.len() ==> is_digit(#[trigger] t[i])
}

/// Length of the optional leading sign of `s`.
pub open spec fn sign_len(s: Seq<char>) -> int {
    if s.len() > 0 && (s[0] == '-' || s[0] == '+') {
        1
    } else {
        0
    }
}

/// `s` without its optional leading sign.
pub open spec fn unsigned_part(s: Seq<char>) -> Seq<char> {
    s.subrange(sign_len(s), s.len() as int)
}

/// The integer a string denotes as a 32-bit decimal (optional sign, then at least one
/// digit, and within range), or `None`.
pub open spec fn spec_parse_i32(s: Seq<char>) -> Option<i32> {
    let body = unsigned_part(s);
    let v = if s.len() > 0 && s[0] == '-' { -digits_value(body) } else { digits_value(body) };
    if body.len() > 0 && all_digits(body) && i32::MIN <= v <= i32::MAX {
        Some(v as i32)
    } else {
        None
    }
}

pub proof fn lemma_digits_nonneg(s: Seq<char>)
    requires
        forall|i: int| 0 <= i < s.len() ==> is_digit(#[trigger] s[i]),
    ensures
        digits_value(s) >= 0,
    decreases s.len(),
{
    if s.len() > 0 {
        lemma_digits_nonneg(s.drop_last());
        assert(is_digit(s[s.len() - 1]));
    }
}

pub proof fn lemma_digits_grow(s: Seq<char>, k: int)
    requires
        0 <= k <= s.len(),
        forall|i: int| 0 <= i < s.len() ==> is_digit(#[trigger] s[i]),
    ensures
        digits_value(s.take(k)) <= digits_value(s),
    decreases s.len() - k,
{
    if k < s.len() {
        lemma_digits_grow(s, k + 1);
        assert(s.take(k + 1).drop_last() =~= s.take(k));
        lemma_digits_nonneg(s.take(k));
        assert(is_digit(s[k]));
    } else {
        assert(s.take(k) =~= s);
    }
}

/// Parse a 32-bit decimal integer: an optional sign, then one or more digits.
pub fn parse_i32(s: &Vec<char>) -> (r: Option<i32>)
    ensures
        r == spec_parse_i32(s@),
{
    let n = s.len();
    let neg = n > 0 && s[0] == '-';
    let start: usize = if n > 0 && (s[0] == '-' || s[0] == '+') {
        1
    } else {
        0
    };
    let ghost body = unsigned_part(s@);
    assert(body =~= s@.subrange(start as int, n as int));
    if start >= n {
        return None;
    }
    let mut v: i64 = 0;
    let mut i = start;
    while i < n
        invariant
            start <= i <= n,
            n == s@.len(),
            start == 0 || start == 1,
            body == s@.subrange(start as int, n as int),
            body == unsigned_part(s@),
            neg == (s@.len() > 0 && s@[0] == '-'),
            forall|j: int| 0 <= j < i - start ==> is_digit(#[trigger] body[j]),
            v == digits_value(body.take(i - start)),
            0 <= v <= 0x8000_0000,
        decreases n - i,
    {
        let c = s[i];
        if !('0' <= c && c <= '9') {
            proof {
                assert(!is_digit(body[i - start]));
                assert(!all_digits(body));
            }
            return None;
        }
        proof {
            assert(body.take(i - start + 1).drop_last() =~= body.take(i - start));
            assert(body.take(i - start + 1).last() == c);
        }
        let d = (c as u32 - '0' as u32) as i64;
        v = v * 10 + d;
        if v > 0x8000_0000 {
            proof {
                assert forall|j: int| 0 <= j < i - start + 1 implies is_digit(#[trigger] body[j]) by {
                }
                if all_digits(body) {
                    lemma_digits_grow(body, i - start + 1);
                }
            }
            return None;
        }
        i = i + 1;
    }
    proof {
        assert(body.take(n - start) =~= body);
        assert(all_digits(body));
    }
    if neg {
        if v > 0x8000_0000 {
            None
        } else {
            Some((-v) as i32)
        }
    } else {
        if v > 0x7fff_ffff {
            None
        } else {
            Some(v as i32)
        }
    }
}

/// Index of the first `ch` in `s`, or -1.
pub open spec fn spec_find(s: Seq<char>, ch: char) -> int {
    crate::text::first_index(s, ch)
}

/// The scale factor a string denotes: `"n"` or `"n/d"` with 32-bit decimal parts.
pub open spec fn spec_parse_scale(s: Seq<char>) -> Option<ScaleFactor> {
    let k = spec_find(s, '/');
    if k < 0 {
        match spec_parse_i32(s) {
            Some(n) => Some(ScaleFactor { numerator: n, denominator: 1 }),
            None => None,
        }
    } else {
        let left = s.subrange(0, k);
        let right = s.subrange(k + 1, s.len() as int);
        if spec_find(right, '/') >= 0 {
            None
        } else {
            match (spec_parse_i32(left), spec_parse_i32(right)) {
                (Some(n), Some(d)) => Some(ScaleFactor { numerator: n, denominator: d }),
                _ => None,
            }
        }
    }
}

/// Truncating division of integers (the quotient rounded toward zero).
pub open spec fn div_trunc(a: int, b: int) -> int {
    let q = (if a >= 0 { a } else { -a }) / (if b >= 0 { b } else { -b });
    if (a >= 0) == (b >= 0) {
        q
    } else {
        -q
    }
}

impl ScaleFactor {
    /// The factor `n / d`.
    pub fn new(n: i32, d: i32) -> (r: Self)
        ensures
            r.numerator == n && r.denominator == d,
    {
        ScaleFactor { numerator: n, denominator: d }
    }

    /// The whole factor `n`.
    pub fn from_int(n: i32) -> (r: Self)
        ensures
            r.numerator == n && r.denominator == 1,
    {
        ScaleFactor { numerator: n, denominator: 1 }
    }

    /// Parse `"n"` or `"n/d"`.
    pub fn parse(s: &str) -> (r: Option<Self>)
        ensures
            r == spec_parse_scale(s@),
    {
        let cs = str_chars(s);
        ScaleFactor::parse_chars(&cs)
    }

    /// Parse the characters `"n"` or `"n/d"`.
    pub fn parse_chars(cs: &Vec<char>) -> (r: Option<Self>)
        ensures
            r == spec_parse_scale(cs@),
    {
        let n = cs.len();
        proof {
            crate::text::lemma_first_index(cs@, '/');
        }
        match crate::text::find_char(cs, '/') {
            None => match parse_i32(cs) {
                Some(n) => Some(ScaleFactor::from_int(n)),
                None => None,
            },
            Some(ku) => {
            proof {
                assert(ku as int == crate::text::first_index(cs@, '/'));
                assert(ku < cs@.len());
            }
            let left = crate::text::sub_chars(cs, 0, ku);
            let right = crate::text::sub_chars(cs, ku + 1, cs.len());
            if crate::text::find_char(&right, '/').is_some() {
                return None;
            }
            match (parse_i32(&left), parse_i32(&right)) {
                (Some(n), Some(d)) => Some(ScaleFactor::new(n, d)),
                _ => None,
            }
            },
        }
    }

    /// Scale a dimension: `dim * numerator / denominator` with `dim` taken as a 32-bit
    /// integer, the quotient rounded toward zero (a negative result wraps as a
    /// machine-size cast).
    pub fn apply(&self, dim: usize) -> (r: usize)
        requires
            self.denominator != 0,
            i32::MIN <= (dim as i32) * self.numerator <= i32::MAX,
            !((dim as i32) * self.numerator == i32::MIN && self.denominator == -1),
        ensures
            div_trunc((dim as i32) * self.numerator, self.denominator as int) >= 0 ==> r == div_trunc(
                (dim as i32) * self.numerator,
                self.denominator as int,
            ),
    {
        let d: i32 = #[verifier::truncate] (dim as i32);
        let p: i64 = (d as i64) * (self.numerator as i64);
        let q = trunc_div(p, self.denominator as i64);
        #[verifier::truncate]
        (q as usize)
    }
}

/// Truncating division of machine integers.
pub fn trunc_div(a: i64, b: i64) -> (r: i64)
    requires
        b != 0,
        i32::MIN <= a <= i32::MAX,
        i32::MIN <= b <= i32::MAX,
    ensures
        r == div_trunc(a as int, b as int),
{
    let ua: u64 = if a >= 0 {
        a as u64
    } else {
        (-a) as u64
    };
    let ub: u64 = if b >= 0 {
        b as u64
    } else {
        (-b) as u64
    };
    let q = (ua / ub) as i64;
    if (a >= 0) == (b >= 0) {
        q
    } else {
        -q
    }
}

/// `a` brought back into `[0, m)` by at most one subtraction of `m`.
pub open spec fn wrap(a: int, m: int) -> int {
    if a >= m {
        a - m
    } else {
        a
    }
}

/// Grid index of pattern cell `di` (of a pattern `pmx` by `pmy` wide) placed at (x, y, z),
/// wrapping around the grid edges.
pub open spec fn torus_cell(di: int, pmx: int, pmy: int, x: int, y: int, z: int, mx: int, my: int, mz: int) -> int {
    let d = coord_of(di, pmx, pmy);
    idx3(wrap(x + d.0, mx), wrap(y + d.1, my), wrap(z + d.2, mz), mx, my)
}

/// Every input cell of the rule placed at (x, y, z), wrapping around, accepts the value
/// beneath it.
pub open spec fn torus_matches(rule: &MjRule, x: int, y: int, z: int, state: Seq<u8>, mx: int, my: int, mz: int) -> bool {
    forall|di: int|
        0 <= di < rule.input@.len() ==> #[trigger] rule.input@[di] & (1u32 << state[torus_cell(
            di,
            rule.imx as int,
            rule.imy as int,
            x,
            y,
            z,
            mx,
            my,
            mz,
        )]) != 0
}

/// The state after writing the first `k` output cells of the rule at (x, y, z), wrapping
/// around; wildcard cells are skipped.
pub open spec fn torus_written(rule: &MjRule, x: int, y: int, z: int, state: Seq<u8>, mx: int, my: int, mz: int, k: int) -> Seq<u8>
    decreases k,
{
    if k <= 0 {
        state
    } else {
        let s = torus_written(rule, x, y, z, state, mx, my, mz, k - 1);
        let o = rule.output@[k - 1];
        if o != 0xff {
            s.update(torus_cell(k - 1, rule.omx as int, rule.omy as int, x, y, z, mx, my, mz), o)
        } else {
            s
        }
    }
}

/// A pattern cell placed at (x, y, z) with wrapping lands inside the grid.
proof fn lemma_torus_cell(di: int, pmx: int, pmy: int, pmz: int, x: int, y: int, z: int, mx: int, my: int, mz: int)
    requires
        0 <= di < pmx * pmy * pmz,
        1 <= pmx <= mx,
        1 <= pmy <= my,
        1 <= pmz <= mz,
        0 <= x < mx,
        0 <= y < my,
        0 <= z < mz,
        mx <= i32::MAX && my <= i32::MAX && mz <= i32::MAX,
    ensures
        0 <= torus_cell(di, pmx, pmy, x, y, z, mx, my, mz) < mx * my * mz,
        coord_of(di, pmx, pmy).0 as int == di % pmx,
        coord_of(di, pmx, pmy).1 as int == (di / pmx) % pmy,
        coord_of(di, pmx, pmy).2 as int == di / (pmx * pmy),
        0 <= wrap(x + di % pmx, mx) < mx,
        0 <= wrap(y + (di / pmx) % pmy, my) < my,
        0 <= wrap(z + di / (pmx * pmy), mz) < mz,
{
    lemma_idx3_inverse(di, pmx, pmy);
    lemma_plane_div_bound(di, pmx, pmy, pmz);
    lemma_idx3_bound(wrap(x + di % pmx, mx), wrap(y + (di / pmx) % pmy, my), wrap(z + di / (pmx * pmy), mz), mx, my, mz);
}

impl MjRule {
    /// The pattern dimensions fit inside a grid of the given size.
    pub open spec fn fits_torus(&self, mx: int, my: int, mz: int) -> bool {
        &&& self.imx <= mx && self.imy <= my && self.imz <= mz
        &&& self.omx <= mx && self.omy <= my && self.omz <= mz
    }
}

/// Whether the rule's input matches at (x, y, z) in `state`, wrapping around the grid.
pub fn torus_match(rule: &MjRule, x: i32, y: i32, z: i32, state: &[u8], mx: usize, my: usize, mz: usize) -> (r: bool)
    requires
        rule.wf(),
        rule.fits_torus(mx as int, my as int, mz as int),
        0 <= x < mx && 0 <= y < my && 0 <= z < mz,
        mx <= i32::MAX && my <= i32::MAX && mz <= i32::MAX,
        state@.len() == mx * my * mz,
        forall|i: int| 0 <= i < state@.len() ==> #[trigger] state@[i] < 32,
    ensures
        r == torus_matches(rule, x as int, y as int, z as int, state@, mx as int, my as int, mz as int),
{
    let n = state.len();
    let ilen = rule.input.len();
    proof {
        lemma_idx3_bound(0, 0, 0, mx as int, my as int, mz as int);
        lemma_idx3_bound(0, 0, 0, rule.imx as int, rule.imy as int, rule.imz as int);
    }
    let plane = rule.imx * rule.imy;
    let gplane = mx * my;
    let mut di: usize = 0;
    while di < ilen
        invariant
            rule.wf(),
            rule.fits_torus(mx as int, my as int, mz as int),
            0 <= x < mx && 0 <= y < my && 0 <= z < mz,
            mx <= i32::MAX && my <= i32::MAX && mz <= i32::MAX,
            n == state@.len(),
            n == mx * my * mz,
            ilen == rule.input@.len(),
            plane == rule.imx * rule.imy,
            gplane == mx * my,
            forall|i: int| 0 <= i < state@.len() ==> #[trigger] state@[i] < 32,
            di <= ilen,
            forall|k: int|
                0 <= k < di ==> #[trigger] rule.input@[k] & (1u32 << state@[torus_cell(
                    k,
                    rule.imx as int,
                    rule.imy as int,
                    x as int,
                    y as int,
                    z as int,
                    mx as int,
                    my as int,
                    mz as int,
                )]) != 0,
        decreases ilen - di,
    {
        proof {
            lemma_torus_cell(di as int, rule.imx as int, rule.imy as int, rule.imz as int, x as int, y as int, z as int, mx as int, my as int, mz as int);
        }
        let mut sx = x as usize + di % rule.imx;
        let mut sy = y as usize + (di / rule.imx) % rule.imy;
        let mut sz = z as usize + di / plane;
        if sx >= mx {
            sx = sx - mx;
        }
        if sy >= my {
            sy = sy - my;
        }
        if sz >= mz {
            sz = sz - mz;
        }
        proof {
            lemma_idx3_bound(sx as int, sy as int, sz as int, mx as int, my as int, mz as int);
        }
        let v = state[sx + sy * mx + sz * gplane];
        if rule.input[di] & (1u32 << v) == 0 {
            return false;
        }
        di = di + 1;
    }
    true
}

/// Write the rule's output at (x, y, z) into `state`, wrapping around the grid; wildcard
/// cells are skipped.
pub fn torus_apply(rule: &MjRule, x: i32, y: i32, z: i32, state: &mut Vec<u8>, mx: usize, my: usize, mz: usize)
    requires
        rule.wf(),
        rule.fits_torus(mx as int, my as int, mz as int),
        0 <= x < mx && 0 <= y < my && 0 <= z < mz,
        mx <= i32::MAX && my <= i32::MAX && mz <= i32::MAX,
        old(state)@.len() == mx * my * mz,
    ensures
        final(state)@ == torus_written(rule, x as int, y as int, z as int, old(state)@, mx as int, my as int, mz as int, rule.output@.len() as int),
{
    let n = state.len();
    let olen = rule.output.len();
    proof {
        lemma_idx3_bound(0, 0, 0, mx as int, my as int, mz as int);
        lemma_idx3_bound(0, 0, 0, rule.omx as int, rule.omy as int, rule.omz as int);
    }
    let plane = rule.omx * rule.omy;
    let gplane = mx * my;
    let mut di: usize = 0;
    while di < olen
        invariant
            rule.wf(),
            rule.fits_torus(mx as int, my as int, mz as int),
            0 <= x < mx && 0 <= y < my && 0 <= z < mz,
            mx <= i32::MAX && my <= i32::MAX && mz <= i32::MAX,
            n == state@.len(),
            n == mx * my * mz,
            olen == rule.output@.len(),
            plane == rule.omx * rule.omy,
            gplane == mx * my,
            di <= olen,
            state@ == torus_written(rule, x as int, y as int, z as int, old(state)@, mx as int, my as int, mz as int, di as int),
        decreases olen - di,
    {
        proof {
            lemma_torus_cell(di as int, rule.omx as int, rule.omy as int, rule.omz as int, x as int, y as int, z as int, mx as int, my as int, mz as int);
        }
        let mut sx = x as usize + di % rule.omx;
        let mut sy = y as usize + (di / rule.omx) % rule.omy;
        let mut sz = z as usize + di / plane;
        if sx >= mx {
            sx = sx - mx;
        }
        if sy >= my {
            sy = sy - my;
        }
        if sz >= mz {
            sz = sz - mz;
        }
        proof {
            lemma_idx3_bound(sx as int, sy as int, sz as int, mx as int, my as int, mz as int);
        }
        let o = rule.output[di];
        if o != 0xff {
            state.set(sx + sy * mx + sz * gplane, o);
        }
        di = di + 1;
    }
}

/// Writing a rule's output with wrapping keeps the grid's length and keeps every cell
/// below 32 when the outputs are.
proof fn lemma_torus_written_below(rule: &MjRule, x: int, y: int, z: int, state: Seq<u8>, mx: int, my: int, mz: int, k: int)
    requires
        rule.wf(),
        rule.fits_torus(mx, my, mz),
        rule.outputs_below(32),
        0 <= x < mx && 0 <= y < my && 0 <= z < mz,
        mx <= i32::MAX && my <= i32::MAX && mz <= i32::MAX,
        state.len() == mx * my * mz,
        forall|i: int| 0 <= i < state.len() ==> #[trigger] state[i] < 32,
        0 <= k <= rule.output@.len(),
    ensures
        torus_written(rule, x, y, z, state, mx, my, mz, k).len() == state.len(),
        forall|i: int| 0 <= i < state.len() ==> #[trigger] torus_written(rule, x, y, z, state, mx, my, mz, k)[i] < 32,
    decreases k,
{
    if k > 0 {
        lemma_torus_written_below(rule, x, y, z, state, mx, my, mz, k - 1);
        lemma_torus_cell(k - 1, rule.omx as int, rule.omy as int, rule.omz as int, x, y, z, mx, my, mz);
    }
}

/// The target of source coordinate `a` under factor `f`: `a * n / d` rounded toward zero,
/// when the product fits in 32 bits and `d` is not zero.
pub open spec fn scaled(a: int, f: ScaleFactor) -> Option<int> {
    if f.denominator != 0 && i32::MIN <= a * f.numerator <= i32::MAX {
        Some(div_trunc(a * f.numerator, f.denominator as int))
    } else {
        None
    }
}

/// Whether `t` is a coordinate inside a grid dimension `m`.
pub open spec fn inside(t: Option<int>, m: int) -> bool {
    t matches Some(v) && 0 <= v < m
}

/// Where a map rule writes for source cell `c`: the scaled coordinates of `c`, when the
/// rule fits both grids, its input matches at `c` (wrapping around the source grid) and the
/// scaled coordinates lie inside the target grid.
pub open spec fn map_site(
    rule: &MjRule,
    src: Seq<u8>,
    smx: int,
    smy: int,
    smz: int,
    c: int,
    fx: ScaleFactor,
    fy: ScaleFactor,
    fz: ScaleFactor,
    tmx: int,
    tmy: int,
    tmz: int,
) -> Option<(int, int, int)> {
    let d = coord_of(c, smx, smy);
    let tx = scaled(d.0 as int, fx);
    let ty = scaled(d.1 as int, fy);
    let tz = scaled(d.2 as int, fz);
    if rule.fits_torus(smx, smy, smz) && rule.fits_torus(tmx, tmy, tmz) && torus_matches(
        rule,
        d.0 as int,
        d.1 as int,
        d.2 as int,
        src,
        smx,
        smy,
        smz,
    ) && inside(tx, tmx) && inside(ty, tmy) && inside(tz, tmz) {
        Some((tx->0, ty->0, tz->0))
    } else {
        None
    }
}

/// The target state after one rule has been tried at source cells `0..c`, in order.
pub open spec fn map_rule_pass(
    rule: &MjRule,
    src: Seq<u8>,
    smx: int,
    smy: int,
    smz: int,
    fx: ScaleFactor,
    fy: ScaleFactor,
    fz: ScaleFactor,
    tgt: Seq<u8>,
    tmx: int,
    tmy: int,
    tmz: int,
    c: int,
) -> Seq<u8>
    decreases c,
{
    if c <= 0 {
        tgt
    } else {
        let s = map_rule_pass(rule, src, smx, smy, smz, fx, fy, fz, tgt, tmx, tmy, tmz, c - 1);
        match map_site(rule, src, smx, smy, smz, c - 1, fx, fy, fz, tmx, tmy, tmz) {
            Some(t) => torus_written(rule, t.0, t.1, t.2, s, tmx, tmy, tmz, rule.output@.len() as int),
            None => s,
        }
    }
}

/// The target state after the first `k` rules have each been tried at every source cell.
pub open spec fn map_pass(
    rules: Seq<MjRule>,
    src: Seq<u8>,
    smx: int,
    smy: int,
    smz: int,
    fx: ScaleFactor,
    fy: ScaleFactor,
    fz: ScaleFactor,
    tgt: Seq<u8>,
    tmx: int,
    tmy: int,
    tmz: int,
    k: int,
) -> Seq<u8>
    decreases k,
{
    if k <= 0 {
        tgt
    } else {
        map_rule_pass(
            &rules[k - 1],
            src,
            smx,
            smy,
            smz,
            fx,
            fy,
            fz,
            map_pass(rules, src, smx, smy, smz, fx, fy, fz, tgt, tmx, tmy, tmz, k - 1),
            tmx,
            tmy,
            tmz,
            smx * smy * smz,
        )
    }
}

/// The scaled coordinate of `a`, when defined.
fn scale_coord(a: i32, f: ScaleFactor) -> (r: Option<i64>)
    ensures
        r matches Some(v) ==> scaled(a as int, f) == Some(v as int),
        r is None ==> scaled(a as int, f) is None,
{
    proof {
        let an = a as int;
        let fnum = f.numerator as int;
        assert(-0x4000_0000_0000_0000 <= an * fnum <= 0x4000_0000_0000_0000) by (nonlinear_arith)
            requires
                -0x8000_0000 <= an <= 0x7fff_ffff,
                -0x8000_0000 <= fnum <= 0x7fff_ffff,
        ;
    }
    let p: i64 = (a as i64) * (f.numerator as i64);
    if f.denominator == 0 || p < i32::MIN as i64 || p > i32::MAX as i64 {
        return None;
    }
    Some(trunc_div(p, f.denominator as i64))
}

/// Try one rule at every source cell, writing its output into the target state where it
/// matches.
fn map_rule_into(
    rule: &MjRule,
    src: &MjGrid,
    fx: ScaleFactor,
    fy: ScaleFactor,
    fz: ScaleFactor,
    tgt: &mut Vec<u8>,
    tmx: usize,
    tmy: usize,
    tmz: usize,
)
    requires
        rule.wf(),
        rule.outputs_below(32),
        grid_ok(src),
        tmx <= i32::MAX && tmy <= i32::MAX && tmz <= i32::MAX,
        old(tgt)@.len() == tmx * tmy * tmz,
        forall|i: int| 0 <= i < old(tgt)@.len() ==> #[trigger] old(tgt)@[i] < 32,
    ensures
        final(tgt)@ == map_rule_pass(
            rule,
            src.state@,
            src.mx as int,
            src.my as int,
            src.mz as int,
            fx,
            fy,
            fz,
            old(tgt)@,
            tmx as int,
            tmy as int,
            tmz as int,
            src.state@.len() as int,
        ),
        final(tgt)@.len() == old(tgt)@.len(),
        forall|i: int| 0 <= i < final(tgt)@.len() ==> #[trigger] final(tgt)@[i] < 32,
{
    let cells = src.state.len();
    let smx = src.mx;
    let smy = src.my;
    let smz = src.mz;
    if smx == 0 || smy == 0 || smz == 0 {
        proof {
            assert(cells == 0) by (nonlinear_arith)
                requires
                    cells == smx * smy * smz,
                    smx == 0 || smy == 0 || smz == 0,
            ;
        }
        return;
    }
    let fits_src = rule.imx <= smx && rule.imy <= smy && rule.imz <= smz && rule.omx <= smx && rule.omy <= smy
        && rule.omz <= smz;
    let fits_tgt = rule.imx <= tmx && rule.imy <= tmy && rule.imz <= tmz && rule.omx <= tmx && rule.omy <= tmy
        && rule.omz <= tmz;
    let plane = smx * smy;
    let ghost t0 = tgt@;
    let mut c: usize = 0;
    while c < cells
        invariant
            rule.wf(),
            rule.outputs_below(32),
            grid_ok(src),
            cells == src.state@.len(),
            smx == src.mx && smy == src.my && smz == src.mz,
            smx > 0 && smy > 0 && smz > 0,
            plane == smx * smy,
            fits_src == rule.fits_torus(smx as int, smy as int, smz as int),
            fits_tgt == rule.fits_torus(tmx as int, tmy as int, tmz as int),
            tmx <= i32::MAX && tmy <= i32::MAX && tmz <= i32::MAX,
            tgt@.len() == tmx * tmy * tmz,
            forall|i: int| 0 <= i < tgt@.len() ==> #[trigger] tgt@[i] < 32,
            c <= cells,
            tgt@ == map_rule_pass(
                rule,
                src.state@,
                smx as int,
                smy as int,
                smz as int,
                fx,
                fy,
                fz,
                t0,
                tmx as int,
                tmy as int,
                tmz as int,
                c as int,
            ),
        decreases cells - c,
    {
        proof {
            lemma_idx3_inverse(c as int, smx as int, smy as int);
            lemma_plane_div_bound(c as int, smx as int, smy as int, smz as int);
        }
        let x = (c % smx) as i32;
        let y = ((c / smx) % smy) as i32;
        let z = (c / plane) as i32;
        if fits_src && fits_tgt && torus_match(rule, x, y, z, &src.state, smx, smy, smz) {
            let tx = scale_coord(x, fx);
            let ty = scale_coord(y, fy);
            let tz = scale_coord(z, fz);
            match (tx, ty, tz) {
                (Some(vx), Some(vy), Some(vz)) => {
                    if 0 <= vx && vx < tmx as i64 && 0 <= vy && vy < tmy as i64 && 0 <= vz && vz < tmz as i64 {
                        proof {
                            lemma_torus_written_below(
                                rule,
                                vx as int,
                                vy as int,
                                vz as int,
                                tgt@,
                                tmx as int,
                                tmy as int,
                                tmz as int,
                                rule.output@.len() as int,
                            );
                        }
                        torus_apply(rule, vx as i32, vy as i32, vz as i32, tgt, tmx, tmy, tmz);
                    }
                },
                _ => {},
            }
        }
        c = c + 1;
    }
}

/// Rewrites the grid into a grid of another size with its rules, then runs its children
/// on the new grid.
pub struct MapNode {
    /// The target grid.
    pub newgrid: MjGrid,
    /// Rules from source patterns to target patterns.
    pub rules: Vec<MjRule>,
    /// Scale from source to target along x.
    pub scale_x: ScaleFactor,
    /// Scale from source to target along y.
    pub scale_y: ScaleFactor,
    /// Scale from source to target along z.
    pub scale_z: ScaleFactor,
    /// The nodes run on the new grid.
    pub children: Vec<NodeBox>,
    /// Index of the child being run; negative before the grid is rewritten.
    pub n: i32,
}

impl MapNode {
    /// Target grid usable by the engine, rules consistent, children consistent.
    pub open spec fn inv(&self) -> bool
        decreases self,
    {
        &&& grid_ok(&self.newgrid)
        &&& forall|r: int| 0 <= r < self.rules@.len() ==> (#[trigger] self.rules@[r]).wf() && self.rules@[r].outputs_below(32)
        &&& self.children@.len() < i32::MAX
        &&& self.n < 0 || (self.n as int) <= self.children@.len()
        &&& forall|i: int| 0 <= i < self.children@.len() ==> (#[trigger] self.children@[i]).inv()
    }

    /// A map node into `newgrid` with `rules`, no children yet.
    pub fn new(newgrid: MjGrid, rules: Vec<MjRule>, scale_x: ScaleFactor, scale_y: ScaleFactor, scale_z: ScaleFactor) -> (m: Self)
        ensures
            m.newgrid == newgrid,
            m.rules@ == rules@,
            m.scale_x == scale_x && m.scale_y == scale_y && m.scale_z == scale_z,
            m.children@.len() == 0,
            m.n == -1,
    {
        MapNode { newgrid, rules, scale_x, scale_y, scale_z, children: Vec::new(), n: -1 }
    }

    /// The same node with `children`.
    pub fn with_children(self, children: Vec<NodeBox>) -> (m: Self)
        ensures
            m.children@ == children@,
            m.newgrid == self.newgrid,
            m.rules == self.rules,
            m.scale_x == self.scale_x && m.scale_y == self.scale_y && m.scale_z == self.scale_z,
            m.n == self.n,
    {
        MapNode { children, ..self }
    }

    /// Back to the rewriting phase, with every child reset.
    pub fn reset(&mut self)
        requires
            old(self).inv(),
        ensures
            final(self).inv(),
            kept_shape(old(self).children@, final(self).children@),
            nodes_height(final(self).children@) == nodes_height(old(self).children@),
            final(self).n == -1,
            final(self).newgrid == old(self).newgrid,
            final(self).rules == old(self).rules,
        decreases *old(self),
    {
        self.n = -1;
        let ghost orig = self.children@;
        let mut i: usize = 0;
        while i < self.children.len()
            invariant
                i <= self.children@.len(),
                self.children@.len() == orig.len(),
                orig == old(self).children@,
                self.n == -1,
                self.newgrid == old(self).newgrid,
                self.rules == old(self).rules,
                forall|j: int| 0 <= j < self.children@.len() ==> (#[trigger] self.children@[j]).inv(),
                forall|j: int|
                    0 <= j < i ==> (#[trigger] self.children@[j]).height() == orig[j].height()
                        && self.children@[j].spec_is_branch() == orig[j].spec_is_branch(),
                forall|j: int| i <= j < self.children@.len() ==> self.children@[j] == orig[j],
            decreases self.children@.len() - i,
        {
            proof {
                assert(decreases_to!(old(self).children => old(self).children@));
                assert(decreases_to!(old(self).children@ => old(self).children@[i as int]));
            }
            self.children[i].reset();
            i = i + 1;
        }
        proof {
            lemma_max_height_eq(self.children@, orig, self.children@.len() as int);
        }
    }

    /// Run one step. The first step clears the target grid, writes every rule's output at
    /// the scaled position of each source cell where the rule matches (wrapping around both
    /// grids), and makes the target the current grid; later steps run the children in
    /// order on it, each until it stops.
    pub fn go(&mut self, ctx: &mut ExecutionContext) -> (r: bool)
        requires
            old(self).inv(),
            old(ctx).wf(),
        ensures
            final(self).inv(),
            kept_shape(old(self).children@, final(self).children@),
            nodes_height(final(self).children@) == nodes_height(old(self).children@),
            final(self).rules == old(self).rules,
            final(self).scale_x == old(self).scale_x && final(self).scale_y == old(self).scale_y
                && final(self).scale_z == old(self).scale_z,
            ctx_kept(old(ctx), final(ctx)),
            old(self).n < 0 ==> {
                &&& r
                &&& final(self).n == 0
                &&& final(self).newgrid == old(ctx).grid
                &&& final(ctx).grid.mx == old(self).newgrid.mx
                &&& final(ctx).grid.my == old(self).newgrid.my
                &&& final(ctx).grid.mz == old(self).newgrid.mz
                &&& final(ctx).grid.c == old(self).newgrid.c
                &&& final(ctx).grid.characters@ == old(self).newgrid.characters@
                &&& final(ctx).grid.waves@ == old(self).newgrid.waves@
                &&& final(ctx).grid.state@ == map_pass(
                    old(self).rules@,
                    old(ctx).grid.state@,
                    old(ctx).grid.mx as int,
                    old(ctx).grid.my as int,
                    old(ctx).grid.mz as int,
                    old(self).scale_x,
                    old(self).scale_y,
                    old(self).scale_z,
                    Seq::new(old(self).newgrid.state@.len(), |i: int| 0u8),
                    old(self).newgrid.mx as int,
                    old(self).newgrid.my as int,
                    old(self).newgrid.mz as int,
                    old(self).rules@.len() as int,
                )
                &&& final(ctx).changes@ == old(ctx).changes@
            },
            old(self).n >= 0 ==> {
                &&& final(self).newgrid == old(self).newgrid
                &&& r ==> old(self).n <= final(self).n < final(self).children@.len()
                &&& !r ==> final(self).n == final(self).children@.len()
            },
        decreases nodes_height(old(self).children@) + 1, 0nat,
    {
        let ghost orig = self.children@;
        if self.n >= 0 {
            while (self.n as usize) < self.children.len()
                invariant
                    self.children@.len() == orig.len(),
                    orig == old(self).children@,
                    self.children@.len() < i32::MAX,
                    0 <= old(self).n <= self.n <= self.children@.len(),
                    self.newgrid == old(self).newgrid,
                    grid_ok(&self.newgrid),
                    forall|r: int| 0 <= r < self.rules@.len() ==> (#[trigger] self.rules@[r]).wf() && self.rules@[r].outputs_below(32),
                    self.rules == old(self).rules,
                    self.scale_x == old(self).scale_x && self.scale_y == old(self).scale_y && self.scale_z == old(self).scale_z,
                    forall|j: int| 0 <= j < self.children@.len() ==> (#[trigger] self.children@[j]).inv(),
                    forall|j: int|
                        0 <= j < self.children@.len() ==> (#[trigger] self.children@[j]).height() == orig[j].height()
                            && self.children@[j].spec_is_branch() == orig[j].spec_is_branch(),
                    ctx_kept(old(ctx), ctx),
                decreases self.children@.len() - self.n,
            {
                let i = self.n as usize;
                proof {
                    lemma_max_height_ge(orig, orig.len() as int, i as int);
                }
                let ghost pre = self.children@;
                let ok = self.children[i].go(ctx);
                proof {
                    assert forall|j: int| 0 <= j < self.children@.len() implies (#[trigger] self.children@[j]).height()
                        == orig[j].height() && self.children@[j].spec_is_branch() == orig[j].spec_is_branch()
                        && self.children@[j].inv() by {
                        if j != i {
                            assert(self.children@[j] == pre[j]);
                        }
                    }
                }
                if ok {
                    proof {
                        lemma_max_height_eq(self.children@, orig, orig.len() as int);
                    }
                    return true;
                }
                self.n = self.n + 1;
                let j = self.n as usize;
                if j < self.children.len() {
                    let ghost pre2 = self.children@;
                    self.children[j].reset();
                    proof {
                        assert forall|q: int| 0 <= q < self.children@.len() implies (#[trigger] self.children@[q]).height()
                            == orig[q].height() && self.children@[q].spec_is_branch() == orig[q].spec_is_branch() by {
                            if q != j {
                                assert(self.children@[q] == pre2[q]);
                            }
                        }
                    }
                }
            }
            proof {
                lemma_max_height_eq(self.children@, orig, orig.len() as int);
            }
            return false;
        }
        self.newgrid.clear();
        let ghost zeros = self.newgrid.state@;
        let ghost src = ctx.grid;
        let mut k: usize = 0;
        while k < self.rules.len()
            invariant
                k <= self.rules@.len(),
                self.rules == old(self).rules,
                self.children == old(self).children,
                orig == old(self).children@,
                self.n == old(self).n,
                forall|r: int| 0 <= r < self.rules@.len() ==> (#[trigger] self.rules@[r]).wf() && self.rules@[r].outputs_below(32),
                grid_ok(&ctx.grid),
                ctx.grid == src,
                self.newgrid.wf(),
                self.newgrid.mx == old(self).newgrid.mx && self.newgrid.my == old(self).newgrid.my
                    && self.newgrid.mz == old(self).newgrid.mz,
                self.newgrid.mx <= i32::MAX && self.newgrid.my <= i32::MAX && self.newgrid.mz <= i32::MAX,
                self.newgrid.state@.len() <= i32::MAX,
                self.newgrid.mx * self.newgrid.my <= i32::MAX,
                self.newgrid.c == old(self).newgrid.c,
                self.newgrid.characters@ == old(self).newgrid.characters@,
                self.newgrid.waves@ == old(self).newgrid.waves@,
                self.newgrid.cells_below(32),
                self.scale_x == old(self).scale_x && self.scale_y == old(self).scale_y && self.scale_z == old(self).scale_z,
                self.newgrid.state@ == map_pass(
                    self.rules@,
                    src.state@,
                    src.mx as int,
                    src.my as int,
                    src.mz as int,
                    self.scale_x,
                    self.scale_y,
                    self.scale_z,
                    zeros,
                    self.newgrid.mx as int,
                    self.newgrid.my as int,
                    self.newgrid.mz as int,
                    k as int,
                ),
            decreases self.rules@.len() - k,
        {
            let tmx = self.newgrid.mx;
            let tmy = self.newgrid.my;
            let tmz = self.newgrid.mz;
            map_rule_into(&self.rules[k], &ctx.grid, self.scale_x, self.scale_y, self.scale_z, &mut self.newgrid.state, tmx, tmy, tmz);
            k = k + 1;
        }
        proof {
            assert(zeros =~= Seq::new(old(self).newgrid.state@.len(), |i: int| 0u8));
        }
        core::mem::swap(&mut self.newgrid, &mut ctx.grid);
        self.n = 0;
        if self.children.len() > 0 {
            self.children[0].reset();
        }
        proof {
            assert forall|j: int| 0 <= j < self.children@.len() implies (#[trigger] self.children@[j]).height()
                == orig[j].height() && self.children@[j].spec_is_branch() == orig[j].spec_is_branch() by {
                if j != 0 {
                    assert(self.children@[j] == orig[j]);
                }
            }
            lemma_max_height_eq(self.children@, orig, orig.len() as int);
        }
        true
    }
}


impl MapNode {
    /// What one step does: from this node and context to `after` and `ctx_after`, with
    /// result `r`.
    pub open spec fn go_done(self, ctx: ExecutionContext, after: Self, ctx_after: ExecutionContext, r: bool) -> bool {
        &&& after.inv()
        &&& kept_shape(self.children@, after.children@)
        &&& nodes_height(after.children@) == nodes_height(self.children@)
        &&& after.rules == self.rules
        &&& after.scale_x == self.scale_x && after.scale_y == self.scale_y
                && after.scale_z == self.scale_z
        &&& ctx_kept(&ctx, &ctx_after)
        &&& self.n < 0 ==> {
                &&& r
                &&& after.n == 0
                &&& after.newgrid == ctx.grid
                &&& ctx_after.grid.mx == self.newgrid.mx
                &&& ctx_after.grid.my == self.newgrid.my
                &&& ctx_after.grid.mz == self.newgrid.mz
                &&& ctx_after.grid.c == self.newgrid.c
                &&& ctx_after.grid.characters@ == self.newgrid.characters@
                &&& ctx_after.grid.waves@ == self.newgrid.waves@
                &&& ctx_after.grid.state@ == map_pass(
                    self.rules@,
                    ctx.grid.state@,
                    ctx.grid.mx as int,
                    ctx.grid.my as int,
                    ctx.grid.mz as int,
                    self.scale_x,
                    self.scale_y,
                    self.scale_z,
                    Seq::new(self.newgrid.state@.len(), |i: int| 0u8),
                    self.newgrid.mx as int,
                    self.newgrid.my as int,
                    self.newgrid.mz as int,
                    self.rules@.len() as int,
                )
                &&& ctx_after.changes@ == ctx.changes@
            }
        &&& self.n >= 0 ==> {
                &&& after.newgrid == self.newgrid
                &&& r ==> self.n <= after.n < after.children@.len()
                &&& !r ==> after.n == after.children@.len()
            }
    }

    /// What a reset does: from this node to `after`.
    pub open spec fn reset_done(self, after: Self) -> bool {
        &&& after.inv()
        &&& kept_shape(self.children@, after.children@)
        &&& nodes_height(after.children@) == nodes_height(self.children@)
        &&& after.n == -1
        &&& after.newgrid == self.newgrid
        &&& after.rules == self.rules
    }
}

impl Node for MapNode {
    open spec fn node_inv(&self) -> bool {
        self.inv()
    }

    fn go(&mut self, ctx: &mut ExecutionContext) -> (r: bool)
        ensures
            old(self).go_done(*old(ctx), *final(self), *final(ctx), r),
    {
        MapNode::go(self, ctx)
    }

    fn reset(&mut self)
        ensures
            old(self).reset_done(*final(self)),
    {
        MapNode::reset(self)
    }
}

} // verus!
