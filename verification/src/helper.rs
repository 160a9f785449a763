//! Reading rule images and voxel models into grids of characters: pixel ordinals, legend
//! lookup, and splitting a rule image into its input and output halves.
use vstd::prelude::*;
use crate::vecs::str_chars;
use crate::text::{decimal, decimal_string};

verus! {

/// Why a resource could not be read.
#[derive(Debug, Clone, PartialEq, Eq)]
pub enum ResourceError {
    /// The file does not exist.
    FileNotFound(String),
    /// The image could not be decoded.
    ImageError(String),
    /// The legend has fewer characters than the resource has colors.
    LegendTooShort { colors_found: usize, legend_len: usize },
    /// A rule image must have an even width.
    OddWidth(u32),
    /// The voxel file is malformed.
    VoxError(String),
    /// Reading failed.
    IoError(String),
}

/// The distinct values of `s` in order of first appearance.
pub open spec fn uniques_of(s: Seq<i32>) -> Seq<i32>
    decreases s.len(),
{
    if s.len() == 0 {
        Seq::empty()
    } else {
        let u = uniques_of(s.drop_last());
        if u.contains(s.last()) {
            u
        } else {
            u.push(s.last())
        }
    }
}

/// Ordinal of value `i` of `s`: the position of its value among the distinct values, in
/// order of first appearance, as a byte.
pub open spec fn ordinal_at(s: Seq<i32>, i: int) -> u8 {
    uniques_of(s.take(i + 1)).index_of(s[i]) as u8
}

/// The distinct values have no repeats and hold exactly the values of `s`.
proof fn lemma_uniques_no_dup(s: Seq<i32>)
    ensures
        uniques_of(s).no_duplicates(),
        forall|v: i32| uniques_of(s).contains(v) <==> s.contains(v),
    decreases s.len(),
{
    if s.len() > 0 {
        let init = s.drop_last();
        lemma_uniques_no_dup(init);
        let u = uniques_of(init);
        let l = s.last();
        assert forall|v: i32| uniques_of(s).contains(v) <==> s.contains(v) by {
            assert(s[s.len() - 1] == l);
            if v == l {
                if !u.contains(l) {
                    assert(u.push(l)[u.len() as int] == l);
                }
            } else {
                if s.contains(v) {
                    let k = choose|k: int| 0 <= k < s.len() && s[k] == v;
                    assert(k < s.len() - 1);
                    assert(init[k] == v);
                    assert(init.contains(v));
                    assert(u.contains(v));
                    let j = choose|j: int| 0 <= j < u.len() && u[j] == v;
                    if !u.contains(l) {
                        assert(u.push(l)[j] == v);
                    }
                }
                if uniques_of(s).contains(v) {
                    let j = choose|j: int| 0 <= j < uniques_of(s).len() && uniques_of(s)[j] == v;
                    if !u.contains(l) {
                        assert(j < u.len());
                        assert(u[j] == v);
                    }
                    assert(u.contains(v));
                    assert(init.contains(v));
                    let k = choose|k: int| 0 <= k < init.len() && init[k] == v;
                    assert(s[k] == v);
                }
            }
        }
        if !u.contains(l) {
            assert forall|i: int, j: int|
                0 <= i < u.push(l).len() && 0 <= j < u.push(l).len() && i != j implies u.push(l)[i] != u.push(l)[j] by {
                if i < u.len() && j < u.len() {
                } else if i == u.len() {
                    assert(u.push(l)[j] == u[j]);
                } else {
                    assert(u.push(l)[i] == u[i]);
                }
            }
        }
    }
}

/// In a sequence without repeats, the value at `f` is found at `f`.
proof fn lemma_index_of_unique(u: Seq<i32>, f: int)
    requires
        u.no_duplicates(),
        0 <= f < u.len(),
    ensures
        u.index_of(u[f]) == f,
{
    let d = u[f];
    assert(u[f] == d);
    let k = u.index_of(d);
    assert(0 <= k < u.len() && u[k] == d);
}

/// Replace each value by its ordinal among the distinct values (in order of first
/// appearance); also returns how many distinct values there are.
pub fn ords(data: &[i32]) -> (r: (Vec<u8>, usize))
    ensures
        r.0@.len() == data@.len(),
        forall|i: int| 0 <= i < data@.len() ==> r.0@[i] == ordinal_at(data@, i),
        r.1 == uniques_of(data@).len(),
{
    let mut result: Vec<u8> = Vec::new();
    let mut uniques: Vec<i32> = Vec::new();
    let mut i: usize = 0;
    while i < data.len()
        invariant
            i <= data@.len(),
            result@.len() == i,
            uniques@ == uniques_of(data@.take(i as int)),
            uniques@.len() <= i,
            forall|k: int| 0 <= k < i ==> result@[k] == ordinal_at(data@, k),
        decreases data@.len() - i,
    {
        let d = data[i];
        proof {
            assert(data@.take(i + 1).drop_last() =~= data@.take(i as int));
            assert(data@.take(i + 1).last() == d);
        }
        let mut j: usize = 0;
        let mut found: Option<usize> = None;
        while j < uniques.len()
            invariant
                j <= uniques@.len(),
                found is None ==> forall|q: int| 0 <= q < j ==> uniques@[q] != d,
                found matches Some(f) ==> f < uniques@.len() && uniques@[f as int] == d && forall|q: int|
                    0 <= q < f ==> uniques@[q] != d,
            decreases uniques@.len() - j,
        {
            if found.is_none() && uniques[j] == d {
                found = Some(j);
            }
            j = j + 1;
        }
        let ord = match found {
            Some(f) => {
                proof {
                    assert(uniques@[f as int] == d);
                    assert(uniques@.contains(d));
                    assert(uniques_of(data@.take(i + 1)) == uniques@);
                    lemma_uniques_no_dup(data@.take(i as int));
                    lemma_index_of_unique(uniques@, f as int);
                }
                f
            },
            None => {
                let n = uniques.len();
                uniques.push(d);
                proof {
                    assert(!uniques_of(data@.take(i as int)).contains(d));
                    assert(uniques_of(data@.take(i + 1)) == uniques@);
                    lemma_uniques_no_dup(data@.take(i + 1));
                    assert(uniques@[n as int] == d);
                    lemma_index_of_unique(uniques@, n as int);
                }
                n
            },
        };
        result.push(#[verifier::truncate] (ord as u8));
        i = i + 1;
    }
    proof {
        assert(data@.take(data@.len() as int) =~= data@);
    }
    (result, uniques.len())
}

/// The left and right halves of a rule image `full_mx` wide: cell (x, y, z) of the input
/// is cell (x, y, z) of the image, of the output cell (x + full_mx / 2, y, z).
pub open spec fn half_cell(chars: Seq<char>, full_mx: int, my: int, k: int, right: bool) -> char {
    let mx = full_mx / 2;
    let x = k % mx;
    let y = (k / mx) % my;
    let z = k / (mx * my);
    chars[(x + if right { mx } else { 0 }) + y * full_mx + z * (full_mx * my)]
}

/// Split a rule image (`full_mx` by `my` by `mz`) into its input (left half) and output
/// (right half); the width must be even.
pub fn split_rule_image(chars: &[char], full_mx: usize, my: usize, mz: usize) -> (r: Result<
    (Vec<char>, Vec<char>, usize, usize, usize),
    ResourceError,
>)
    requires
        chars@.len() >= full_mx * my * mz,
        full_mx * my * mz <= usize::MAX,
    ensures
        full_mx % 2 != 0 ==> r == Err::<(Vec<char>, Vec<char>, usize, usize, usize), ResourceError>(
            ResourceError::OddWidth(#[verifier::truncate] (full_mx as u32)),
        ),
        full_mx % 2 == 0 ==> (r matches Ok(t) && {
            let mx = full_mx / 2;
            &&& t.2 == mx && t.3 == my && t.4 == mz
            &&& t.0@.len() == mx * my * mz
            &&& t.1@.len() == mx * my * mz
            &&& forall|k: int| 0 <= k < mx * my * mz ==> t.0@[k] == half_cell(chars@, full_mx as int, my as int, k, false)
            &&& forall|k: int| 0 <= k < mx * my * mz ==> t.1@[k] == half_cell(chars@, full_mx as int, my as int, k, true)
        }),
{
    if full_mx % 2 != 0 {
        return Err(ResourceError::OddWidth(#[verifier::truncate] (full_mx as u32)));
    }
    let mx = full_mx / 2;
    proof {
        assert(mx * my * mz <= full_mx * my * mz) by (nonlinear_arith)
            requires
                mx <= full_mx,
        ;
        assert(mx * my <= full_mx * my) by (nonlinear_arith)
            requires
                mx <= full_mx,
        ;
        assert(mx * my * mz == (mx * my) * mz) by (nonlinear_arith);
        if mz > 0 {
            assert(mx * my <= mx * my * mz) by (nonlinear_arith)
                requires
                    mz >= 1,
            ;
        }
    }
    let plane_half = if mz > 0 { mx * my } else { 0 };
    let total = if mz > 0 { plane_half * mz } else { 0 };
    proof {
        if mz == 0 {
            assert(mx * my * mz == 0) by (nonlinear_arith)
                requires
                    mz == 0,
            ;
        }
    }
    let mut input: Vec<char> = Vec::new();
    let mut output: Vec<char> = Vec::new();
    let mut k: usize = 0;
    while k < total
        invariant
            full_mx % 2 == 0,
            mx == full_mx / 2,
            total == mx * my * mz,
            total > 0 ==> plane_half == mx * my,
            chars@.len() >= full_mx * my * mz,
            full_mx * my * mz <= usize::MAX,
            k <= total,
            input@.len() == k,
            output@.len() == k,
            forall|q: int| 0 <= q < k ==> input@[q] == half_cell(chars@, full_mx as int, my as int, q, false),
            forall|q: int| 0 <= q < k ==> output@[q] == half_cell(chars@, full_mx as int, my as int, q, true),
        decreases total - k,
    {
        proof {
            assert(mx > 0 && my > 0 && mz > 0) by (nonlinear_arith)
                requires
                    k < mx * my * mz,
            ;
            crate::geom::lemma_idx3_inverse(k as int, mx as int, my as int);
            crate::grid::lemma_plane_div_bound(k as int, mx as int, my as int, mz as int);
        }
        let x = k % mx;
        let y = (k / mx) % my;
        let z = k / plane_half;
        proof {
            crate::geom::lemma_idx3_bound((x + mx) as int, y as int, z as int, full_mx as int, my as int, mz as int);
            crate::geom::lemma_idx3_bound(x as int, y as int, z as int, full_mx as int, my as int, mz as int);
        }
        let plane = full_mx * my;
        let i_in = x + y * full_mx + z * plane;
        let i_out = (x + mx) + y * full_mx + z * plane;
        input.push(chars[i_in]);
        output.push(chars[i_out]);
        k = k + 1;
    }
    Ok((input, output, mx, my, mz))
}

/// The characters of a resource: each cell's ordinal looked up in the legend.
pub open spec fn legend_chars(ordinals: Seq<u8>, legend: Seq<char>) -> Seq<char> {
    Seq::new(ordinals.len(), |i: int| legend[ordinals[i] as int])
}

/// Map the ordinals of a resource with `amount` colors to legend characters; refused when
/// the legend is shorter than the number of colors.
pub fn apply_legend(ordinals: &[u8], amount: usize, legend: &str) -> (r: Result<Vec<char>, ResourceError>)
    requires
        forall|i: int| 0 <= i < ordinals@.len() ==> (ordinals@[i] as int) < amount,
    ensures
        amount > legend@.len() ==> r == Err::<Vec<char>, ResourceError>(
            ResourceError::LegendTooShort { colors_found: amount, legend_len: legend@.len() as usize },
        ),
        amount <= legend@.len() ==> (r matches Ok(cs) && cs@ == legend_chars(ordinals@, legend@)),
{
    let lc = str_chars(legend);
    if amount > lc.len() {
        return Err(ResourceError::LegendTooShort { colors_found: amount, legend_len: lc.len() });
    }
    let mut out: Vec<char> = Vec::new();
    let mut i: usize = 0;
    while i < ordinals.len()
        invariant
            lc@ == legend@,
            amount <= lc@.len(),
            forall|q: int| 0 <= q < ordinals@.len() ==> (ordinals@[q] as int) < amount,
            i <= ordinals@.len(),
            out@ == legend_chars(ordinals@, legend@).take(i as int),
        decreases ordinals@.len() - i,
    {
        out.push(lc[ordinals[i] as usize]);
        i = i + 1;
        assert(out@ =~= legend_chars(ordinals@, legend@).take(i as int));
    }
    assert(legend_chars(ordinals@, legend@).take(ordinals@.len() as int) =~= legend_chars(ordinals@, legend@));
    Ok(out)
}

/// A pixel packed as `0xAARRGGBB`, read as a signed 32-bit value.
pub open spec fn packed_pixel(r: u8, g: u8, b: u8, a: u8) -> i32 {
    ((a as u32) * 0x1000000 + (r as u32) * 0x10000 + (g as u32) * 0x100 + (b as u32)) as i32
}

/// The packed pixels of RGBA bytes, four bytes per pixel.
pub open spec fn packed_pixels(rgba: Seq<u8>) -> Seq<i32> {
    Seq::new(rgba.len() / 4, |i: int| packed_pixel(rgba[4 * i], rgba[4 * i + 1], rgba[4 * i + 2], rgba[4 * i + 3]))
}

/// What `image::load_from_memory` followed by a conversion to 8-bit RGBA makes of encoded
/// image bytes: the RGBA bytes, row by row, with the width and height.
pub uninterp spec fn decoded_rgba(bytes: Seq<u8>) -> Option<(Seq<u8>, u32, u32)>;

/// `image::load_from_memory`, converted to 8-bit RGBA (`DynamicImage::to_rgba8`) and
/// taken apart into its raw bytes (`ImageBuffer::into_raw`, four bytes per pixel, rows in
/// order), width and height. On failure, the decoder's message.
#[verifier::external_body]
fn decode_rgba(bytes: &[u8]) -> (r: Result<(Vec<u8>, u32, u32), String>)
    ensures
        r matches Ok(t) ==> decoded_rgba(bytes@) == Some((t.0@, t.1, t.2)) && t.0@.len() == 4 * t.1 * t.2,
        r is Err ==> decoded_rgba(bytes@) is None,
{
    match image::load_from_memory(bytes) {
        Ok(img) => {
            let rgba = img.to_rgba8();
            let (w, h) = (rgba.width(), rgba.height());
            Ok((rgba.into_raw(), w, h))
        },
        Err(e) => Err(e.to_string()),
    }
}

/// Decode an image file's bytes into packed `0xAARRGGBB` pixels (row by row) with its
/// width, height and depth 1.
pub fn load_bitmap(bytes: &[u8]) -> (r: Result<(Vec<i32>, usize, usize, usize), ResourceError>)
    ensures
        r is Ok <==> decoded_rgba(bytes@) is Some,
        r is Err ==> r matches Err(ResourceError::ImageError(_)),
        r matches Ok(t) ==> {
            let d = decoded_rgba(bytes@)->0;
            &&& t.0@ == packed_pixels(d.0)
            &&& t.1 == d.1 && t.2 == d.2 && t.3 == 1
        },
{
    match decode_rgba(bytes) {
        Err(msg) => Err(ResourceError::ImageError(msg)),
        Ok((px, w, h)) => {
            let len = px.len();
            let n = len / 4;
            let mut out: Vec<i32> = Vec::new();
            let mut i: usize = 0;
            while i < n
                invariant
                    len == px@.len(),
                    n == px@.len() / 4,
                    i <= n,
                    out@ == packed_pixels(px@).take(i as int),
                decreases n - i,
            {
                proof {
                    assert(4 * i + 3 < px@.len()) by (nonlinear_arith)
                        requires
                            i < n,
                            n == px@.len() / 4,
                    ;
                }
                let r = px[4 * i];
                let g = px[4 * i + 1];
                let b = px[4 * i + 2];
                let a = px[4 * i + 3];
                let v: u32 = (a as u32) * 0x1000000 + (r as u32) * 0x10000 + (g as u32) * 0x100 + (b as u32);
                out.push(#[verifier::truncate] (v as i32));
                i = i + 1;
                assert(out@ =~= packed_pixels(px@).take(i as int));
            }
            assert(packed_pixels(px@).take(n as int) =~= packed_pixels(px@));
            Ok((out, w as usize, h as usize, 1))
        },
    }
}

/// Decode a 2D resource image and name each pixel by the legend character of its color
/// (colors numbered by first appearance); refused when the legend has fewer characters
/// than the image has colors.
pub fn load_resource(bytes: &[u8], legend: &str, is_2d: bool) -> (r: Result<(Vec<char>, usize, usize, usize), ResourceError>)
    ensures
        decoded_rgba(bytes@) is None ==> r matches Err(ResourceError::ImageError(_)),
        decoded_rgba(bytes@) matches Some(d) ==> {
            let px = packed_pixels(d.0);
            let amount = uniques_of(px).len();
            &&& amount > legend@.len() ==> r == Err::<(Vec<char>, usize, usize, usize), ResourceError>(
                ResourceError::LegendTooShort { colors_found: amount as usize, legend_len: legend@.len() as usize },
            )
            &&& amount <= legend@.len() ==> (r matches Ok(t) && t.0@ == legend_chars(
                Seq::new(px.len(), |i: int| ordinal_at(px, i)),
                legend@,
            ) && t.1 == d.1 && t.2 == d.2 && t.3 == 1)
        },
{
    let (data, mx, my, mz) = match load_bitmap(bytes) {
        Ok(t) => t,
        Err(e) => {
            return Err(e);
        },
    };
    let (ordinals, amount) = ords(data.as_slice());
    proof {
        lemma_uniques_no_dup(data@);
        assert forall|i: int| 0 <= i < ordinals@.len() implies (ordinals@[i] as int) < amount by {
            lemma_ordinal_bound(data@, i);
        }
        assert(ordinals@ =~= Seq::new(data@.len(), |i: int| ordinal_at(data@, i)));
    }
    match apply_legend(ordinals.as_slice(), amount, legend) {
        Ok(cs) => Ok((cs, mx, my, mz)),
        Err(e) => Err(e),
    }
}

/// A prefix has no more distinct values than the whole sequence.
proof fn lemma_uniques_prefix_len(s: Seq<i32>, k: int)
    requires
        0 <= k <= s.len(),
    ensures
        uniques_of(s.take(k)).len() <= uniques_of(s).len(),
    decreases s.len(),
{
    if k == s.len() {
        assert(s.take(k) =~= s);
    } else {
        let init = s.drop_last();
        lemma_uniques_prefix_len(init, k);
        assert(init.take(k) =~= s.take(k));
    }
}

/// Every ordinal is below the number of distinct values.
proof fn lemma_ordinal_bound(s: Seq<i32>, i: int)
    requires
        0 <= i < s.len(),
    ensures
        (ordinal_at(s, i) as int) < uniques_of(s).len(),
{
    let p = s.take(i + 1);
    lemma_uniques_no_dup(p);
    assert(p[i] == s[i]);
    assert(p.contains(s[i]));
    let u = uniques_of(p);
    assert(u.contains(s[i]));
    let idx = u.index_of(s[i]);
    assert(0 <= idx < u.len());
    lemma_uniques_prefix_len(s, i + 1);
    if idx >= 256 {
        assert((idx as u8) < 256);
    }
}

/// The little-endian 32-bit word at `p`, unsigned.
pub open spec fn le_word(b: Seq<u8>, p: int) -> int {
    b[p] as int + 256 * (b[p + 1] as int) + 65536 * (b[p + 2] as int) + 16777216 * (b[p + 3] as int)
}

/// The little-endian signed 32-bit integer at `p`.
pub open spec fn le_i32(b: Seq<u8>, p: int) -> int {
    let w = le_word(b, p);
    if w >= 0x8000_0000 {
        w - 0x1_0000_0000
    } else {
        w
    }
}

/// The four bytes at `p` are `t0 t1 t2 t3`.
pub open spec fn tag_at(b: Seq<u8>, p: int, t0: u8, t1: u8, t2: u8, t3: u8) -> bool {
    b[p] == t0 && b[p + 1] == t1 && b[p + 2] == t2 && b[p + 3] == t3
}

/// Where skipping `n` bytes from `p` leaves a reader of `len` bytes: at most the end.
pub open spec fn skip_to(len: int, p: int, n: int) -> int {
    if p + n <= len {
        p + n
    } else {
        len
    }
}

/// The voxels after the first `k` records (x, y, z and color bytes) from `p`: a record
/// inside the `mx` by `my` by `mz` model sets its cell to its color.
pub open spec fn fill_voxels(b: Seq<u8>, p: int, k: int, init: Seq<i32>, mx: int, my: int, mz: int) -> Seq<i32>
    decreases k,
{
    if k <= 0 {
        init
    } else {
        let prev = fill_voxels(b, p, k - 1, init, mx, my, mz);
        let q = p + 4 * (k - 1);
        if (b[q] as int) < mx && (b[q + 1] as int) < my && (b[q + 2] as int) < mz {
            prev.update(crate::geom::idx3(b[q] as int, b[q + 1] as int, b[q + 2] as int, mx, my), b[q + 3] as i32)
        } else {
            prev
        }
    }
}

/// Reading the chunks of a voxel file from `pos`, with the size and voxels read so far:
/// the final size and voxels at the end of the file, or `None` when the file is
/// malformed. `SIZE` sets the size, `XYZI` reads the voxels into an empty model of that
/// size, and any other chunk is skipped.
pub open spec fn vox_scan(b: Seq<u8>, pos: int, mx: int, my: int, mz: int, vox: Option<Seq<i32>>) -> Option<
    (int, int, int, Option<Seq<i32>>),
>
    decreases b.len() - pos,
{
    if pos < 0 || pos + 4 > b.len() {
        Some((mx, my, mz, vox))
    } else if pos + 12 > b.len() {
        None
    } else {
        let s = le_i32(b, pos + 4);
        let p = pos + 12;
        if s < 0 {
            None
        } else if tag_at(b, pos, 83, 73, 90, 69) {
            if p + 12 > b.len() {
                None
            } else {
                let q = if s > 12 {
                    skip_to(b.len() as int, p + 12, s - 12)
                } else {
                    p + 12
                };
                vox_scan(b, q, le_i32(b, p), le_i32(b, p + 4), le_i32(b, p + 8), vox)
            }
        } else if tag_at(b, pos, 88, 89, 90, 73) {
            if mx <= 0 || my <= 0 || mz <= 0 || mx * my > 0x7fff_ffff || mx * my * mz > 0x7fff_ffff || p + 4
                > b.len() {
                None
            } else {
                let n = le_i32(b, p);
                let k = if n < 0 {
                    0
                } else {
                    n
                };
                if p + 4 + 4 * k > b.len() {
                    None
                } else {
                    vox_scan(
                        b,
                        p + 4 + 4 * k,
                        mx,
                        my,
                        mz,
                        Some(fill_voxels(b, p + 4, k, Seq::new((mx * my * mz) as nat, |i: int| -1i32), mx, my, mz)),
                    )
                }
            }
        } else {
            vox_scan(b, skip_to(b.len() as int, p, s), mx, my, mz, vox)
        }
    }
}

/// The message of the first fault met scanning the chunks from `pos` (see `vox_scan`);
/// empty when the scan completes.
pub open spec fn vox_scan_msg(b: Seq<u8>, pos: int, mx: int, my: int, mz: int, vox: Option<Seq<i32>>) -> Seq<char>
    decreases b.len() - pos,
{
    if pos < 0 || pos + 4 > b.len() {
        Seq::empty()
    } else if pos + 12 > b.len() {
        if pos + 8 > b.len() {
            "failed to read chunk size: failed to fill whole buffer"@
        } else {
            "failed to read children size: failed to fill whole buffer"@
        }
    } else {
        let s = le_i32(b, pos + 4);
        let p = pos + 12;
        if s < 0 {
            "invalid chunk size"@
        } else if tag_at(b, pos, 83, 73, 90, 69) {
            if p + 12 > b.len() {
                if p + 4 > b.len() {
                    "failed to read SIZE x: failed to fill whole buffer"@
                } else if p + 8 > b.len() {
                    "failed to read SIZE y: failed to fill whole buffer"@
                } else {
                    "failed to read SIZE z: failed to fill whole buffer"@
                }
            } else {
                let q = if s > 12 {
                    skip_to(b.len() as int, p + 12, s - 12)
                } else {
                    p + 12
                };
                vox_scan_msg(b, q, le_i32(b, p), le_i32(b, p + 4), le_i32(b, p + 8), vox)
            }
        } else if tag_at(b, pos, 88, 89, 90, 73) {
            if mx <= 0 || my <= 0 || mz <= 0 {
                "XYZI chunk before SIZE chunk"@
            } else if mx * my > 0x7fff_ffff || mx * my * mz > 0x7fff_ffff {
                "voxel model too large"@
            } else if p + 4 > b.len() {
                "failed to read voxel count: failed to fill whole buffer"@
            } else {
                let n = le_i32(b, p);
                let k = if n < 0 {
                    0
                } else {
                    n
                };
                if p + 4 + 4 * k > b.len() {
                    "failed to read voxel: failed to fill whole buffer"@
                } else {
                    vox_scan_msg(
                        b,
                        p + 4 + 4 * k,
                        mx,
                        my,
                        mz,
                        Some(fill_voxels(b, p + 4, k, Seq::new((mx * my * mz) as nat, |i: int| -1i32), mx, my, mz)),
                    )
                }
            }
        } else {
            vox_scan_msg(b, skip_to(b.len() as int, p, s), mx, my, mz, vox)
        }
    }
}

/// The message `load_vox` gives for a malformed MagicaVoxel file.
pub open spec fn vox_error(b: Seq<u8>) -> Seq<char> {
    if b.len() < 4 {
        "failed to read magic: failed to fill whole buffer"@
    } else if !tag_at(b, 0, 86, 79, 88, 32) {
        "invalid magic: ["@ + decimal(b[0] as nat) + ", "@ + decimal(b[1] as nat) + ", "@ + decimal(b[2] as nat) + ", "@
            + decimal(b[3] as nat) + "]"@
    } else if b.len() < 8 {
        "failed to read version: failed to fill whole buffer"@
    } else {
        match vox_scan(b, 8, -1, -1, -1, None) {
            None => vox_scan_msg(b, 8, -1, -1, -1, None),
            Some((_, _, _, None)) => "no XYZI chunk found"@,
            Some(_) => "invalid size"@,
        }
    }
}

/// The voxels (palette index, or -1 for an empty cell) and size of a MagicaVoxel file, or
/// `None` when it is malformed: it starts with `VOX ` and a version, then chunks.
pub open spec fn spec_load_vox(b: Seq<u8>) -> Option<(Seq<i32>, int, int, int)> {
    if b.len() < 8 || !tag_at(b, 0, 86, 79, 88, 32) {
        None
    } else {
        match vox_scan(b, 8, -1, -1, -1, None) {
            Some((mx, my, mz, Some(v))) => if mx >= 0 && my >= 0 && mz >= 0 {
                Some((v, mx, my, mz))
            } else {
                None
            },
            _ => None,
        }
    }
}

/// The signed little-endian 32-bit integer at `p`.
fn read_i32(b: &[u8], p: usize) -> (r: i64)
    requires
        p + 4 <= b@.len(),
    ensures
        r == le_i32(b@, p as int),
        -0x8000_0000 <= r <= 0x7fff_ffff,
{
    let w: i64 = b[p] as i64 + 256 * (b[p + 1] as i64) + 65536 * (b[p + 2] as i64) + 16777216 * (b[p + 3] as i64);
    if w >= 0x8000_0000 {
        w - 0x1_0000_0000
    } else {
        w
    }
}

/// The position after skipping `n` bytes from `p` in `len` bytes.
fn skip(len: usize, p: usize, n: usize) -> (r: usize)
    requires
        p <= len,
    ensures
        r == skip_to(len as int, p as int, n as int),
{
    if n <= len - p {
        p + n
    } else {
        len
    }
}

/// The voxels as options of sequences.
pub open spec fn voxels_view(v: Option<Vec<i32>>) -> Option<Seq<i32>> {
    match v {
        Some(x) => Some(x@),
        None => None,
    }
}

/// Fill the voxels of an `XYZI` chunk whose `k` records start at `p`.
fn read_voxels(b: &[u8], p: usize, k: usize, mx: i64, my: i64, mz: i64) -> (r: Vec<i32>)
    requires
        1 <= mx,
        1 <= my,
        1 <= mz,
        mx * my <= 0x7fff_ffff,
        mx * my * mz <= 0x7fff_ffff,
        p + 4 * k <= b@.len(),
    ensures
        r@ == fill_voxels(
            b@,
            p as int,
            k as int,
            Seq::new((mx * my * mz) as nat, |i: int| -1i32),
            mx as int,
            my as int,
            mz as int,
        ),
{
    let plane = mx * my;
    let total = (plane * mz) as usize;
    let ghost init = Seq::new((mx * my * mz) as nat, |i: int| -1i32);
    let mut voxels = crate::vecs::filled_i32(total, -1);
    let blen = b.len();
    let mut j: usize = 0;
    while j < k
        invariant
            blen == b@.len(),
            1 <= mx,
            1 <= my,
            1 <= mz,
            plane == mx * my,
            mx * my * mz <= 0x7fff_ffff,
            total == mx * my * mz,
            p + 4 * k <= b@.len(),
            j <= k,
            voxels@.len() == total,
            voxels@ == fill_voxels(b@, p as int, j as int, init, mx as int, my as int, mz as int),
        decreases k - j,
    {
        assert(p + 4 * j + 4 <= p + 4 * k);
        let q = p + 4 * j;
        let x = b[q] as i64;
        let y = b[q + 1] as i64;
        let z = b[q + 2] as i64;
        let c = b[q + 3] as i32;
        if x < mx && y < my && z < mz {
            proof {
                crate::geom::lemma_idx3_bound(x as int, y as int, z as int, mx as int, my as int, mz as int);
                assert(mx * my * mz == plane * mz) by (nonlinear_arith)
                    requires
                        plane == mx * my,
                ;
            }
            let idx = (x + y * mx + z * plane) as usize;
            voxels.set(idx, c);
        }
        j = j + 1;
    }
    voxels
}

/// Read a MagicaVoxel file: the voxels (palette index of each cell, -1 where empty, cell
/// (x, y, z) at `x + y * mx + z * mx * my`) and the size. Refused when the file does not
/// start with `VOX ` and a version, a chunk or a field is cut short, a chunk size is
/// negative, voxels come before a size (or for a model of more than `i32::MAX` cells),
/// there are no voxels, or the final size is negative.
pub fn load_vox(bytes: &[u8]) -> (r: Result<(Vec<i32>, usize, usize, usize), ResourceError>)
    ensures
        spec_load_vox(bytes@) matches Some((v, mx, my, mz)) ==> (r matches Ok((rv, rmx, rmy, rmz)) && rv@ == v
            && rmx == mx && rmy == my && rmz == mz),
        spec_load_vox(bytes@) is None ==> (r matches Err(ResourceError::VoxError(m)) && m@ == vox_error(bytes@)),
{
    let n = bytes.len();
    if n < 4 {
        return Err(ResourceError::VoxError("failed to read magic: failed to fill whole buffer".to_owned()));
    }
    if !(bytes[0] == 86 && bytes[1] == 79 && bytes[2] == 88 && bytes[3] == 32) {
        let m = String::from_str("invalid magic: [").concat(decimal_string(bytes[0] as usize).as_str()).concat(", ").concat(
            decimal_string(bytes[1] as usize).as_str(),
        ).concat(", ").concat(decimal_string(bytes[2] as usize).as_str()).concat(", ").concat(
            decimal_string(bytes[3] as usize).as_str(),
        ).concat("]");
        return Err(ResourceError::VoxError(m));
    }
    if n < 8 {
        return Err(ResourceError::VoxError("failed to read version: failed to fill whole buffer".to_owned()));
    }
    let mut pos: usize = 8;
    let mut mx: i64 = -1;
    let mut my: i64 = -1;
    let mut mz: i64 = -1;
    let mut result: Option<Vec<i32>> = None;
    while n - pos >= 4
        invariant
            n == bytes@.len(),
            8 <= pos <= n,
            tag_at(bytes@, 0, 86, 79, 88, 32),
            -0x8000_0000 <= mx <= 0x7fff_ffff,
            -0x8000_0000 <= my <= 0x7fff_ffff,
            -0x8000_0000 <= mz <= 0x7fff_ffff,
            vox_scan(bytes@, 8, -1, -1, -1, None) == vox_scan(
                bytes@,
                pos as int,
                mx as int,
                my as int,
                mz as int,
                voxels_view(result),
            ),
            vox_scan_msg(bytes@, 8, -1, -1, -1, None) == vox_scan_msg(
                bytes@,
                pos as int,
                mx as int,
                my as int,
                mz as int,
                voxels_view(result),
            ),
        decreases n - pos,
    {
        if n - pos < 12 {
            if n - pos < 8 {
                proof {
                    assert(vox_scan(bytes@, pos as int, mx as int, my as int, mz as int, voxels_view(result)) is None);
                    assert(vox_scan_msg(bytes@, pos as int, mx as int, my as int, mz as int, voxels_view(result)) == "failed to read chunk size: failed to fill whole buffer"@);
                }
                return Err(ResourceError::VoxError("failed to read chunk size: failed to fill whole buffer".to_owned()));
            }
            proof {
                assert(vox_scan(bytes@, pos as int, mx as int, my as int, mz as int, voxels_view(result)) is None);
                assert(vox_scan_msg(bytes@, pos as int, mx as int, my as int, mz as int, voxels_view(result)) == "failed to read children size: failed to fill whole buffer"@);
            }
            return Err(ResourceError::VoxError("failed to read children size: failed to fill whole buffer".to_owned()));
        }
        let s = read_i32(bytes, pos + 4);
        let p = pos + 12;
        if s < 0 {
            proof {
                assert(vox_scan(bytes@, pos as int, mx as int, my as int, mz as int, voxels_view(result)) is None);
                assert(vox_scan_msg(bytes@, pos as int, mx as int, my as int, mz as int, voxels_view(result)) == "invalid chunk size"@);
            }
            return Err(ResourceError::VoxError("invalid chunk size".to_owned()));
        }
        if bytes[pos] == 83 && bytes[pos + 1] == 73 && bytes[pos + 2] == 90 && bytes[pos + 3] == 69 {
            if n - p < 12 {
                if n - p < 4 {
                    proof {
                        assert(vox_scan(bytes@, pos as int, mx as int, my as int, mz as int, voxels_view(result)) is None);
                        assert(vox_scan_msg(bytes@, pos as int, mx as int, my as int, mz as int, voxels_view(result)) == "failed to read SIZE x: failed to fill whole buffer"@);
                    }
                    return Err(ResourceError::VoxError("failed to read SIZE x: failed to fill whole buffer".to_owned()));
                }
                if n - p < 8 {
                    proof {
                        assert(vox_scan(bytes@, pos as int, mx as int, my as int, mz as int, voxels_view(result)) is None);
                        assert(vox_scan_msg(bytes@, pos as int, mx as int, my as int, mz as int, voxels_view(result)) == "failed to read SIZE y: failed to fill whole buffer"@);
                    }
                    return Err(ResourceError::VoxError("failed to read SIZE y: failed to fill whole buffer".to_owned()));
                }
                proof {
                    assert(vox_scan(bytes@, pos as int, mx as int, my as int, mz as int, voxels_view(result)) is None);
                    assert(vox_scan_msg(bytes@, pos as int, mx as int, my as int, mz as int, voxels_view(result)) == "failed to read SIZE z: failed to fill whole buffer"@);
                }
                return Err(ResourceError::VoxError("failed to read SIZE z: failed to fill whole buffer".to_owned()));
            }
            let nx = read_i32(bytes, p);
            let ny = read_i32(bytes, p + 4);
            let nz = read_i32(bytes, p + 8);
            let q = if s > 12 {
                skip(n, p + 12, (s - 12) as usize)
            } else {
                p + 12
            };
            mx = nx;
            my = ny;
            mz = nz;
            pos = q;
        } else if bytes[pos] == 88 && bytes[pos + 1] == 89 && bytes[pos + 2] == 90 && bytes[pos + 3] == 73 {
            if mx <= 0 || my <= 0 || mz <= 0 {
                proof {
                assert(vox_scan(bytes@, pos as int, mx as int, my as int, mz as int, voxels_view(result)) is None);
                assert(vox_scan_msg(bytes@, pos as int, mx as int, my as int, mz as int, voxels_view(result)) == "XYZI chunk before SIZE chunk"@);
                }
                return Err(ResourceError::VoxError("XYZI chunk before SIZE chunk".to_owned()));
            }
            assert(0 < mx * my <= 0x7fff_ffff * 0x7fff_ffff) by (nonlinear_arith)
                requires
                    0 < mx <= 0x7fff_ffff,
                    0 < my <= 0x7fff_ffff,
            ;
            let plane = mx * my;
            if plane > 0x7fff_ffff {
                proof {
                assert(vox_scan(bytes@, pos as int, mx as int, my as int, mz as int, voxels_view(result)) is None);
                assert(vox_scan_msg(bytes@, pos as int, mx as int, my as int, mz as int, voxels_view(result)) == "voxel model too large"@);
                }
                return Err(ResourceError::VoxError("voxel model too large".to_owned()));
            }
            assert(0 < plane * mz <= 0x7fff_ffff * 0x7fff_ffff) by (nonlinear_arith)
                requires
                    0 < plane <= 0x7fff_ffff,
                    0 < mz <= 0x7fff_ffff,
            ;
            if plane * mz > 0x7fff_ffff {
                proof {
                assert(vox_scan(bytes@, pos as int, mx as int, my as int, mz as int, voxels_view(result)) is None);
                assert(vox_scan_msg(bytes@, pos as int, mx as int, my as int, mz as int, voxels_view(result)) == "voxel model too large"@);
                }
                return Err(ResourceError::VoxError("voxel model too large".to_owned()));
            }
            if n - p < 4 {
                proof {
                assert(vox_scan(bytes@, pos as int, mx as int, my as int, mz as int, voxels_view(result)) is None);
                assert(vox_scan_msg(bytes@, pos as int, mx as int, my as int, mz as int, voxels_view(result)) == "failed to read voxel count: failed to fill whole buffer"@);
                }
                return Err(ResourceError::VoxError("failed to read voxel count: failed to fill whole buffer".to_owned()));
            }
            let cnt = read_i32(bytes, p);
            let k: usize = if cnt < 0 {
                0
            } else {
                cnt as usize
            };
            if (n - p - 4) / 4 < k {
                proof {
                assert(vox_scan(bytes@, pos as int, mx as int, my as int, mz as int, voxels_view(result)) is None);
                assert(vox_scan_msg(bytes@, pos as int, mx as int, my as int, mz as int, voxels_view(result)) == "failed to read voxel: failed to fill whole buffer"@);
                }
                return Err(ResourceError::VoxError("failed to read voxel: failed to fill whole buffer".to_owned()));
            }
            let voxels = read_voxels(bytes, p + 4, k, mx, my, mz);
            result = Some(voxels);
            pos = p + 4 + 4 * k;
        } else {
            pos = skip(n, p, s as usize);
        }
    }
    match result {
        Some(v) => {
            if mx < 0 || my < 0 || mz < 0 {
                return Err(ResourceError::VoxError("invalid size".to_owned()));
            }
            Ok((v, mx as usize, my as usize, mz as usize))
        },
        None => Err(ResourceError::VoxError("no XYZI chunk found".to_owned())),
    }
}

/// Every voxel is a palette index (0 to 255) or -1 for an empty cell.
pub open spec fn voxel_values_ok(v: Seq<i32>) -> bool {
    forall|i: int| 0 <= i < v.len() ==> -1 <= #[trigger] v[i] <= 255
}

proof fn lemma_fill_values(b: Seq<u8>, p: int, k: int, init: Seq<i32>, mx: int, my: int, mz: int)
    requires
        voxel_values_ok(init),
        0 < mx,
        0 < my,
        0 < mz,
        init.len() == mx * my * mz,
    ensures
        voxel_values_ok(fill_voxels(b, p, k, init, mx, my, mz)),
        fill_voxels(b, p, k, init, mx, my, mz).len() == init.len(),
    decreases k,
{
    if k > 0 {
        lemma_fill_values(b, p, k - 1, init, mx, my, mz);
        let prev = fill_voxels(b, p, k - 1, init, mx, my, mz);
        let q = p + 4 * (k - 1);
        if (b[q] as int) < mx && (b[q + 1] as int) < my && (b[q + 2] as int) < mz {
            let idx = crate::geom::idx3(b[q] as int, b[q + 1] as int, b[q + 2] as int, mx, my);
            crate::geom::lemma_idx3_bound(b[q] as int, b[q + 1] as int, b[q + 2] as int, mx, my, mz);
            let u = prev.update(idx, b[q + 3] as i32);
            assert forall|i: int| 0 <= i < u.len() implies -1 <= #[trigger] u[i] <= 255 by {
                if i != idx {
                    assert(u[i] == prev[i]);
                }
            }
        }
    }
}

proof fn lemma_scan_values(b: Seq<u8>, pos: int, mx: int, my: int, mz: int, vox: Option<Seq<i32>>)
    requires
        vox matches Some(v) ==> voxel_values_ok(v),
    ensures
        vox_scan(b, pos, mx, my, mz, vox) matches Some((_, _, _, Some(v))) ==> voxel_values_ok(v),
    decreases b.len() - pos,
{
    if pos < 0 || pos + 4 > b.len() {
    } else if pos + 12 > b.len() {
    } else {
        let s = le_i32(b, pos + 4);
        let p = pos + 12;
        if s < 0 {
        } else if tag_at(b, pos, 83, 73, 90, 69) {
            if p + 12 <= b.len() {
                let q = if s > 12 {
                    skip_to(b.len() as int, p + 12, s - 12)
                } else {
                    p + 12
                };
                lemma_scan_values(b, q, le_i32(b, p), le_i32(b, p + 4), le_i32(b, p + 8), vox);
            }
        } else if tag_at(b, pos, 88, 89, 90, 73) {
            if !(mx <= 0 || my <= 0 || mz <= 0 || mx * my > 0x7fff_ffff || mx * my * mz > 0x7fff_ffff || p + 4
                > b.len()) {
                let n = le_i32(b, p);
                let k = if n < 0 {
                    0
                } else {
                    n
                };
                if p + 4 + 4 * k <= b.len() {
                    let init = Seq::new((mx * my * mz) as nat, |i: int| -1i32);
                    lemma_fill_values(b, p + 4, k, init, mx, my, mz);
                    lemma_scan_values(b, p + 4 + 4 * k, mx, my, mz, Some(fill_voxels(b, p + 4, k, init, mx, my, mz)));
                }
            }
        } else {
            lemma_scan_values(b, skip_to(b.len() as int, p, s), mx, my, mz, vox);
        }
    }
}

/// How many of the colors below `c` occur in `v`.
pub open spec fn colors_below(v: Seq<i32>, c: int) -> int
    decreases c,
{
    if c <= 0 {
        0
    } else {
        colors_below(v, c - 1) + if v.contains((c - 1) as i32) {
            1int
        } else {
            0int
        }
    }
}

/// The ordinal of a voxel: 0xff for an empty cell, else the number of smaller colors that
/// occur (its position among the colors in increasing order).
pub open spec fn vox_ordinal(v: Seq<i32>, x: i32) -> u8 {
    if x < 0 {
        0xff
    } else {
        colors_below(v, x as int) as u8
    }
}

proof fn lemma_colors_below_bounds(v: Seq<i32>, a: int, b: int)
    requires
        0 <= a <= b,
    ensures
        0 <= colors_below(v, a) <= colors_below(v, b),
        colors_below(v, a) <= a,
    decreases b,
{
    if b > a {
        lemma_colors_below_bounds(v, a, b - 1);
    } else if a > 0 {
        lemma_colors_below_bounds(v, a - 1, a - 1);
    }
}

/// The ordinals of voxels and the number of colors that occur.
fn vox_ords(voxels: &[i32]) -> (r: (Vec<u8>, usize))
    requires
        voxel_values_ok(voxels@),
    ensures
        r.0@.len() == voxels@.len(),
        forall|i: int| 0 <= i < voxels@.len() ==> r.0@[i] == vox_ordinal(voxels@, voxels@[i]),
        r.1 == colors_below(voxels@, 256),
{
    let n = voxels.len();
    let mut present = crate::vecs::filled_bool(256, false);
    let mut i: usize = 0;
    while i < n
        invariant
            n == voxels@.len(),
            voxel_values_ok(voxels@),
            i <= n,
            present@.len() == 256,
            forall|c: int| 0 <= c < 256 ==> #[trigger] present@[c] == voxels@.take(i as int).contains(c as i32),
        decreases n - i,
    {
        let x = voxels[i];
        proof {
            assert(voxels@.take(i + 1) =~= voxels@.take(i as int).push(x));
            assert forall|c: int| 0 <= c < 256 implies #[trigger] voxels@.take(i + 1).contains(c as i32) == (
            voxels@.take(i as int).contains(c as i32) || x == c as i32) by {
                vstd::seq_lib::lemma_seq_contains_after_push(voxels@.take(i as int), x, c as i32);
            }
        }
        if x >= 0 {
            present.set(x as usize, true);
        }
        i = i + 1;
    }
    proof {
        assert(voxels@.take(n as int) =~= voxels@);
    }
    let mut rank: Vec<usize> = Vec::new();
    rank.push(0);
    let mut c: usize = 0;
    while c < 256
        invariant
            c <= 256,
            present@.len() == 256,
            forall|q: int| 0 <= q < 256 ==> #[trigger] present@[q] == voxels@.contains(q as i32),
            rank@.len() == c + 1,
            forall|q: int| 0 <= q <= c ==> #[trigger] rank@[q] == colors_below(voxels@, q) && rank@[q] <= q,
        decreases 256 - c,
    {
        let next = rank[c] + if present[c] {
            1
        } else {
            0
        };
        rank.push(next);
        c = c + 1;
    }
    let mut out: Vec<u8> = Vec::new();
    let mut j: usize = 0;
    while j < n
        invariant
            n == voxels@.len(),
            voxel_values_ok(voxels@),
            rank@.len() == 257,
            forall|q: int| 0 <= q <= 256 ==> #[trigger] rank@[q] == colors_below(voxels@, q) && rank@[q] <= q,
            j <= n,
            out@.len() == j,
            forall|k: int| 0 <= k < j ==> out@[k] == vox_ordinal(voxels@, voxels@[k]),
        decreases n - j,
    {
        let x = voxels[j];
        assert(-1 <= voxels@[j as int] <= 255);
        if x < 0 {
            out.push(0xff);
        } else {
            out.push(rank[x as usize] as u8);
        }
        j = j + 1;
    }
    (out, rank[256])
}

/// Read a MagicaVoxel file as ordinals: 0xff for an empty cell, else the position of the
/// cell's color among the colors that occur, in increasing order; also the size and the
/// number of colors.
pub fn load_vox_ords(bytes: &[u8]) -> (r: Result<(Vec<u8>, usize, usize, usize, usize), ResourceError>)
    ensures
        spec_load_vox(bytes@) matches Some((v, mx, my, mz)) ==> (r matches Ok((o, rmx, rmy, rmz, k)) && {
            &&& o@.len() == v.len()
            &&& forall|i: int| 0 <= i < v.len() ==> o@[i] == vox_ordinal(v, v[i])
            &&& k == colors_below(v, 256)
            &&& rmx == mx && rmy == my && rmz == mz
        }),
        spec_load_vox(bytes@) is None ==> (r matches Err(ResourceError::VoxError(m)) && m@ == vox_error(bytes@)),
{
    let (voxels, mx, my, mz) = load_vox(bytes)?;
    proof {
        lemma_scan_values(bytes@, 8, -1, -1, -1, None);
    }
    let (o, k) = vox_ords(voxels.as_slice());
    Ok((o, mx, my, mz, k))
}

/// The legend character of a voxel ordinal: the first one for an empty cell.
pub open spec fn vox_char(legend: Seq<char>, o: u8) -> char {
    if o == 0xff {
        legend[0]
    } else {
        legend[o as int]
    }
}

/// Read a MagicaVoxel file and name each cell by the legend character of its ordinal
/// (empty cells by the first character); refused when the legend is empty or has fewer
/// characters than the file has colors.
pub fn load_vox_resource(bytes: &[u8], legend: &str) -> (r: Result<(Vec<char>, usize, usize, usize), ResourceError>)
    ensures
        spec_load_vox(bytes@) is None ==> (r matches Err(ResourceError::VoxError(m)) && m@ == vox_error(bytes@)),
        spec_load_vox(bytes@) matches Some((v, mx, my, mz)) ==> {
            let k = colors_below(v, 256);
            &&& (k > legend@.len() || legend@.len() == 0) ==> r == Err::<(Vec<char>, usize, usize, usize), ResourceError>(
                ResourceError::LegendTooShort { colors_found: k as usize, legend_len: legend@.len() as usize },
            )
            &&& (k <= legend@.len() && legend@.len() > 0) ==> (r matches Ok((cs, rmx, rmy, rmz)) && cs@ == Seq::new(
                v.len(),
                |i: int| vox_char(legend@, vox_ordinal(v, v[i])),
            ) && rmx == mx && rmy == my && rmz == mz)
        },
{
    let (ords, mx, my, mz, k) = load_vox_ords(bytes)?;
    let lc = str_chars(legend);
    if k > lc.len() || lc.len() == 0 {
        return Err(ResourceError::LegendTooShort { colors_found: k, legend_len: lc.len() });
    }
    let ghost v = spec_load_vox(bytes@).unwrap().0;
    proof {
        lemma_scan_values(bytes@, 8, -1, -1, -1, None);
    }
    let mut out: Vec<char> = Vec::new();
    let mut i: usize = 0;
    while i < ords.len()
        invariant
            lc@ == legend@,
            0 < lc@.len(),
            k == colors_below(v, 256),
            k <= lc@.len(),
            voxel_values_ok(v),
            ords@.len() == v.len(),
            forall|q: int| 0 <= q < v.len() ==> ords@[q] == vox_ordinal(v, v[q]),
            i <= ords@.len(),
            out@ == Seq::new(i as nat, |q: int| vox_char(legend@, vox_ordinal(v, v[q]))),
        decreases ords@.len() - i,
    {
        let o = ords[i];
        if o == 0xff {
            out.push(lc[0]);
        } else {
            proof {
                let x = v[i as int];
                assert(-1 <= x <= 255);
                assert(x >= 0);
                assert(v[i as int] == x);
                assert(v.contains(x));
                lemma_colors_below_bounds(v, x as int, x as int);
                lemma_colors_below_bounds(v, x + 1, 256);
                assert(colors_below(v, x + 1) == colors_below(v, x as int) + 1);
            }
            out.push(lc[o as usize]);
        }
        i = i + 1;
        assert(out@ =~= Seq::new(i as nat, |q: int| vox_char(legend@, vox_ordinal(v, v[q]))));
    }
    Ok((out, mx, my, mz))
}

} // verus!
