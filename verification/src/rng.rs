//! A deterministic subtractive random generator with the .NET `System.Random` sequence,
//! so that seeded runs reproduce the reference generator's choices.
use vstd::prelude::*;

verus! {

/// The generator's modulus: samples lie below it.
pub const MBIG: i32 = 2147483647;

/// The seed constant of the subtractive generator.
pub const MSEED: i32 = 161803398;

/// The next position in the circular table (positions 1..=55).
pub open spec fn next_pos(i: int) -> int {
    if i + 1 >= 56 {
        1
    } else {
        i + 1
    }
}

/// The sample produced from two table entries.
pub open spec fn combine(a: i32, b: i32) -> i32 {
    let r = a.wrapping_sub(b);
    let r = if r == MBIG {
        (r - 1) as i32
    } else {
        r
    };
    if r < 0 {
        r.wrapping_add(MBIG)
    } else {
        r
    }
}

/// The next raw sample of a generator given as table and cursors.
pub open spec fn view_sample(g: (Seq<i32>, int, int)) -> i32 {
    combine(g.0[next_pos(g.1)], g.0[next_pos(g.2)])
}

/// A generator, given as table and cursors, after drawing one raw sample.
pub open spec fn view_after_draw(g: (Seq<i32>, int, int)) -> (Seq<i32>, int, int) {
    (g.0.update(next_pos(g.1), view_sample(g)), next_pos(g.1), next_pos(g.2))
}

/// Subtractive generator state (Knuth's algorithm as in .NET `System.Random`).
#[derive(Debug, Clone)]
pub struct DotNetRandom {
    seed_array: Vec<i32>,
    inext: usize,
    inextp: usize,
}

/// The first seeding value of `new System.Random(seed)`.
pub open spec fn seed_mj(seed: i32) -> i32 {
    let subtraction: int = if seed == i32::MIN {
        i32::MAX as int
    } else if seed < 0 {
        -seed
    } else {
        seed as int
    };
    (MSEED - subtraction) as i32
}

/// A value brought back into `[0, MBIG)` when negative.
pub open spec fn unwrap_negative(v: i32) -> i32 {
    if v < 0 {
        v.wrapping_add(MBIG)
    } else {
        v
    }
}

/// The seeding table before its first spreading step, with `mj` and `mk`.
pub open spec fn seed_start(seed: i32) -> (Seq<i32>, i32, i32) {
    (Seq::new(56, |q: int| if q == 55 { seed_mj(seed) } else { 0i32 }), seed_mj(seed), 1i32)
}

/// The seeding table, `mj` and `mk` before spreading step `i` (steps 1 to 54).
pub open spec fn seed_start_upto(seed: i32, i: int) -> (Seq<i32>, i32, i32)
    decreases i,
{
    if i <= 1 {
        seed_start(seed)
    } else {
        let (sa, mj, mk) = seed_start_upto(seed, i - 1);
        let ii = (21 * (i - 1)) % 55;
        (sa.update(ii, mk), mk, unwrap_negative(mj.wrapping_sub(mk)))
    }
}

/// A mixing round of the table over entries 1 to `i - 1`.
pub open spec fn mix_upto(sa: Seq<i32>, i: int) -> Seq<i32>
    decreases i,
{
    if i <= 1 {
        sa
    } else {
        let s = mix_upto(sa, i - 1);
        let j = 1 + ((i - 1) + 30) % 55;
        s.update(i - 1, unwrap_negative(s[i - 1].wrapping_sub(s[j])))
    }
}

/// The table after the first `r - 1` mixing rounds.
pub open spec fn seed_rounds(sa: Seq<i32>, r: int) -> Seq<i32>
    decreases r,
{
    if r <= 1 {
        sa
    } else {
        mix_upto(seed_rounds(sa, r - 1), 56)
    }
}

/// The table of `new System.Random(seed)`.
pub open spec fn seeded_table(seed: i32) -> Seq<i32> {
    seed_rounds(seed_start_upto(seed, 55).0, 5)
}

impl DotNetRandom {
    /// Internal consistency.
    pub closed spec fn wf(&self) -> bool {
        &&& self.seed_array@.len() == 56
        &&& self.inext < 56
        &&& self.inextp < 56
    }

    /// The table of the generator.
    pub closed spec fn table(&self) -> Seq<i32> {
        self.seed_array@
    }

    /// The two table cursors.
    pub closed spec fn cursors(&self) -> (int, int) {
        (self.inext as int, self.inextp as int)
    }

    /// The next raw sample.
    pub open spec fn spec_sample(&self) -> i32 {
        let a = next_pos(self.cursors().0);
        let b = next_pos(self.cursors().1);
        combine(self.table()[a], self.table()[b])
    }

    /// The state after drawing one raw sample.
    pub open spec fn advanced(&self, next: &DotNetRandom) -> bool {
        let a = next_pos(self.cursors().0);
        let b = next_pos(self.cursors().1);
        &&& next.table() == self.table().update(a, self.spec_sample())
        &&& next.cursors() == (a, b)
        &&& next.wf()
    }

    /// The generator as a value: its table and its two cursors.
    pub open spec fn rng_view(&self) -> (Seq<i32>, int, int) {
        (self.table(), self.cursors().0, self.cursors().1)
    }

    /// A generator seeded like `new System.Random(seed)`.
    pub fn from_seed(seed: i32) -> (r: DotNetRandom)
        ensures
            r.wf(),
            r.cursors() == (0int, 21int),
            r.table() == seeded_table(seed),
    {
        let subtraction: i32 = if seed == i32::MIN {
            i32::MAX
        } else if seed < 0 {
            -seed
        } else {
            seed
        };
        let mut mj: i32 = MSEED - subtraction;
        assert(mj == seed_mj(seed));
        let mut sa: Vec<i32> = Vec::new();
        let mut k: usize = 0;
        while k < 56
            invariant
                k <= 56,
                sa@ == Seq::new(k as nat, |q: int| 0i32),
            decreases 56 - k,
        {
            sa.push(0);
            k = k + 1;
            assert(sa@ =~= Seq::new(k as nat, |q: int| 0i32));
        }
        sa.set(55, mj);
        let mut mk: i32 = 1;
        let mut i: usize = 1;
        assert(sa@ =~= seed_start(seed).0);
        while i < 55
            invariant
                1 <= i <= 55,
                sa@.len() == 56,
                (sa@, mj, mk) == seed_start_upto(seed, i as int),
            decreases 55 - i,
        {
            let ii = (21 * i) % 55;
            sa.set(ii, mk);
            mk = mj.wrapping_sub(mk);
            if mk < 0 {
                mk = mk.wrapping_add(MBIG);
            }
            mj = sa[ii];
            i = i + 1;
        }
        let ghost start = sa@;
        let mut round: usize = 1;
        while round < 5
            invariant
                1 <= round <= 5,
                sa@.len() == 56,
                start == seed_start_upto(seed, 55).0,
                sa@ == seed_rounds(start, round as int),
            decreases 5 - round,
        {
            let ghost before = sa@;
            let mut i: usize = 1;
            while i < 56
                invariant
                    1 <= i <= 56,
                    sa@.len() == 56,
                    before.len() == 56,
                    sa@ == mix_upto(before, i as int),
                decreases 56 - i,
            {
                let j = 1 + (i + 30) % 55;
                let v = sa[i].wrapping_sub(sa[j]);
                let v = if v < 0 {
                    v.wrapping_add(MBIG)
                } else {
                    v
                };
                sa.set(i, v);
                i = i + 1;
            }
            round = round + 1;
        }
        DotNetRandom { seed_array: sa, inext: 0, inextp: 21 }
    }

    /// Draw the next raw sample (`InternalSample`), normally in `[0, MBIG)`.
    pub fn next_sample(&mut self) -> (r: i32)
        requires
            old(self).wf(),
        ensures
            r == old(self).spec_sample(),
            old(self).advanced(final(self)),
    {
        let a = if self.inext + 1 >= 56 {
            1
        } else {
            self.inext + 1
        };
        let b = if self.inextp + 1 >= 56 {
            1
        } else {
            self.inextp + 1
        };
        let mut r = self.seed_array[a].wrapping_sub(self.seed_array[b]);
        if r == MBIG {
            r = r - 1;
        }
        if r < 0 {
            r = r.wrapping_add(MBIG);
        }
        self.seed_array.set(a, r);
        self.inext = a;
        self.inextp = b;
        r
    }

    /// A non-negative random integer (`Next()`).
    pub fn next_int(&mut self) -> (r: i32)
        requires
            old(self).wf(),
        ensures
            r == old(self).spec_sample(),
            old(self).advanced(final(self)),
    {
        self.next_sample()
    }

    /// A random integer in `[0, max)` (`Next(max)`): `sample * max / MBIG`, rounded down.
    pub fn next_int_max(&mut self, max: i32) -> (r: i32)
        requires
            old(self).wf(),
            max > 0,
        ensures
            0 <= r < max,
            0 <= old(self).spec_sample() < MBIG ==> r == (old(self).spec_sample() * max) / (
            MBIG as int),
            old(self).advanced(final(self)),
    {
        let s = self.next_sample();
        scale_sample(s, max)
    }

    /// A random index in `[0, max)`.
    pub fn next_usize_max(&mut self, max: usize) -> (r: usize)
        requires
            old(self).wf(),
            0 < max <= i32::MAX,
        ensures
            r < max,
            0 <= old(self).spec_sample() < MBIG ==> r == (old(self).spec_sample() * max) / (
            MBIG as int),
            old(self).advanced(final(self)),
    {
        let v = self.next_int_max(max as i32);
        v as usize
    }
}

/// Scale a raw sample into `[0, max)`; samples outside `[0, MBIG)` are clamped.
pub fn scale_sample(s: i32, max: i32) -> (r: i32)
    requires
        max > 0,
    ensures
        0 <= r < max,
        0 <= s < MBIG ==> r == (s * max) / (MBIG as int),
{
    assert(-0x4000_0000_0000_0000 <= (s as int) * (max as int) <= 0x4000_0000_0000_0000)
        by (nonlinear_arith)
        requires
            -0x8000_0000 <= s <= 0x7fff_ffff,
            0 < max <= 0x7fff_ffff,
    ;
    let prod: i64 = (s as i64) * (max as i64);
    if prod < 0 {
        return 0;
    }
    let q: i64 = prod / (MBIG as i64);
    if 0 <= s && s < MBIG {
        assert(q < max) by (nonlinear_arith)
            requires
                q == (s * max) / 2147483647,
                0 <= s < 2147483647,
                max > 0,
        ;
    }
    if q >= max as i64 {
        max - 1
    } else {
        q as i32
    }
}

/// Shuffle `0..count` with the generator, as the reference implementation does: index
/// `i` goes to a random position `j <= i` and the element there moves to `i`.
pub fn shuffle_indices(count: usize, random: &mut DotNetRandom) -> (r: Vec<usize>)
    requires
        old(random).wf(),
        count < i32::MAX,
    ensures
        final(random).wf(),
        r@.len() == count,
        r@.to_multiset() == Seq::new(count as nat, |i: int| i as usize).to_multiset(),
{
    let mut result: Vec<usize> = Vec::new();
    let mut i: usize = 0;
    assert(result@ =~= Seq::new(0 as nat, |k: int| k as usize));
    while i < count
        invariant
            random.wf(),
            i <= count < i32::MAX,
            result@.len() == i,
            result@.to_multiset() == Seq::new(i as nat, |k: int| k as usize).to_multiset(),
        decreases count - i,
    {
        let j = random.next_usize_max(i + 1);
        let ghost before = result@;
        if j == i {
            result.push(i);
            proof {
                before.to_multiset_ensures();
                assert(Seq::new((i + 1) as nat, |k: int| k as usize) =~= Seq::new(
                    i as nat,
                    |k: int| k as usize,
                ).push(i));
                Seq::new(i as nat, |k: int| k as usize).to_multiset_ensures();
            }
        } else {
            let moved = result[j];
            result.push(moved);
            result.set(j, i);
            proof {
                lemma_swap_in(before, j as int, i);
                assert(Seq::new((i + 1) as nat, |k: int| k as usize) =~= Seq::new(
                    i as nat,
                    |k: int| k as usize,
                ).push(i));
                Seq::new(i as nat, |k: int| k as usize).to_multiset_ensures();
            }
        }
        i = i + 1;
    }
    result
}

/// Pushing the element at `j` and writing `v` at `j` adds `v` to the multiset.
proof fn lemma_swap_in(s: Seq<usize>, j: int, v: usize)
    requires
        0 <= j < s.len(),
    ensures
        s.push(s[j]).update(j, v).to_multiset() == s.to_multiset().insert(v),
{
    broadcast use vstd::multiset::group_multiset_axioms;
    let t = s.push(s[j]);
    s.to_multiset_ensures();
    vstd::seq_lib::to_multiset_update(t, j, v);
    assert(t.to_multiset() == s.to_multiset().insert(s[j]));
    assert(t.to_multiset().insert(v).remove(s[j]) =~= s.to_multiset().insert(v));
}

} // verus!
