//! Small vector builders used across the library.
use vstd::prelude::*;
use vstd::std_specs::iter::IteratorSpec;

verus! {

/// A vector of `n` copies of a byte.
pub fn filled_u8(n: usize, v: u8) -> (r: Vec<u8>)
    ensures
        r@ == Seq::new(n as nat, |i: int| v),
{
    let mut r: Vec<u8> = Vec::with_capacity(n);
    let mut i: usize = 0;
    while i < n
        invariant
            i <= n,
            r@ == Seq::new(i as nat, |k: int| v),
        decreases n - i,
    {
        r.push(v);
        i = i + 1;
        assert(r@ =~= Seq::new(i as nat, |k: int| v));
    }
    r
}

/// A vector of `n` copies of a boolean.
pub fn filled_bool(n: usize, v: bool) -> (r: Vec<bool>)
    ensures
        r@ == Seq::new(n as nat, |i: int| v),
{
    let mut r: Vec<bool> = Vec::with_capacity(n);
    let mut i: usize = 0;
    while i < n
        invariant
            i <= n,
            r@ == Seq::new(i as nat, |k: int| v),
        decreases n - i,
    {
        r.push(v);
        i = i + 1;
        assert(r@ =~= Seq::new(i as nat, |k: int| v));
    }
    r
}

/// A vector of `n` copies of a signed integer.
pub fn filled_i32(n: usize, v: i32) -> (r: Vec<i32>)
    ensures
        r@ == Seq::new(n as nat, |i: int| v),
{
    let mut r: Vec<i32> = Vec::with_capacity(n);
    let mut i: usize = 0;
    while i < n
        invariant
            i <= n,
            r@ == Seq::new(i as nat, |k: int| v),
        decreases n - i,
    {
        r.push(v);
        i = i + 1;
        assert(r@ =~= Seq::new(i as nat, |k: int| v));
    }
    r
}

/// Set every entry of a byte vector to `v`.
pub fn fill_u8(s: &mut Vec<u8>, v: u8)
    ensures
        final(s)@ == Seq::new(old(s)@.len(), |i: int| v),
{
    let n = s.len();
    let mut i: usize = 0;
    while i < n
        invariant
            n == s@.len(),
            n == old(s)@.len(),
            i <= n,
            forall|k: int| 0 <= k < i ==> s@[k] == v,
        decreases n - i,
    {
        s[i] = v;
        i = i + 1;
    }
    assert(s@ =~= Seq::new(old(s)@.len(), |i: int| v));
}

/// Set every entry of a boolean vector to `v`.
pub fn fill_bool(s: &mut Vec<bool>, v: bool)
    ensures
        final(s)@ == Seq::new(old(s)@.len(), |i: int| v),
{
    let n = s.len();
    let mut i: usize = 0;
    while i < n
        invariant
            n == s@.len(),
            n == old(s)@.len(),
            i <= n,
            forall|k: int| 0 <= k < i ==> s@[k] == v,
        decreases n - i,
    {
        s[i] = v;
        i = i + 1;
    }
    assert(s@ =~= Seq::new(old(s)@.len(), |i: int| v));
}

/// The characters of a string, in order.
pub fn str_chars(s: &str) -> (r: Vec<char>)
    ensures
        r@ == s@,
{
    let mut r: Vec<char> = Vec::new();
    broadcast use vstd::string::axiom_spec_iter;
    for c in it: s.chars()
        invariant
            it.seq() == s@,
            r@ == s@.take(it.index() as int),
    {
        r.push(c);
    }
    assert(r@ =~= s@);
    r
}


/// Overwrite the first entries of `dst` with `src`.
pub fn write_prefix(dst: &mut Vec<i32>, src: &Vec<i32>)
    requires
        src@.len() <= old(dst)@.len(),
    ensures
        final(dst)@ == src@ + old(dst)@.skip(src@.len() as int),
{
    let mut i: usize = 0;
    while i < src.len()
        invariant
            i <= src@.len(),
            src@.len() <= old(dst)@.len(),
            dst@ == src@.take(i as int) + old(dst)@.skip(i as int),
        decreases src@.len() - i,
    {
        dst.set(i, src[i]);
        i = i + 1;
        assert(dst@ =~= src@.take(i as int) + old(dst)@.skip(i as int));
    }
    assert(src@.take(src@.len() as int) =~= src@);
}

/// A copy of a vector.
pub fn copy_vec<T: Copy>(v: &Vec<T>) -> (r: Vec<T>)
    ensures
        r@ == v@,
{
    let mut r: Vec<T> = Vec::new();
    let mut i: usize = 0;
    while i < v.len()
        invariant
            i <= v@.len(),
            r@ == v@.take(i as int),
        decreases v@.len() - i,
    {
        r.push(v[i]);
        i = i + 1;
        assert(r@ =~= v@.take(i as int));
    }
    assert(v@.take(v@.len() as int) =~= v@);
    r
}

} // verus!
