//! Character-level helpers: whitespace, UTF-8 widths, splitting and lookups.
use vstd::prelude::*;

verus! {

/// Whether a character has the Unicode White_Space property.
pub open spec fn spec_is_whitespace(c: char) -> bool {
    let u = c as u32;
    (9 <= u <= 13) || u == 32 || u == 0x85 || u == 0xA0 || u == 0x1680 || (0x2000 <= u <= 0x200A)
        || u == 0x2028 || u == 0x2029 || u == 0x202F || u == 0x205F || u == 0x3000
}

/// Whether a character has the Unicode White_Space property.
pub fn is_whitespace(c: char) -> (r: bool)
    ensures
        r == spec_is_whitespace(c),
{
    let u = c as u32;
    (9 <= u && u <= 13) || u == 32 || u == 0x85 || u == 0xA0 || u == 0x1680 || (0x2000 <= u && u
        <= 0x200A) || u == 0x2028 || u == 0x2029 || u == 0x202F || u == 0x205F || u == 0x3000
}

/// The characters of `s` that are not whitespace, in order.
pub open spec fn spec_without_whitespace(s: Seq<char>) -> Seq<char>
    decreases s.len(),
{
    if s.len() == 0 {
        Seq::empty()
    } else if spec_is_whitespace(s.last()) {
        spec_without_whitespace(s.drop_last())
    } else {
        spec_without_whitespace(s.drop_last()).push(s.last())
    }
}

/// Number of bytes in the UTF-8 encoding of a character.
pub open spec fn spec_char_width(c: char) -> int {
    let u = c as u32;
    if u < 0x80 {
        1
    } else if u < 0x800 {
        2
    } else if u < 0x10000 {
        3
    } else {
        4
    }
}

/// Number of bytes in the UTF-8 encoding of a character sequence.
pub open spec fn spec_utf8_len(s: Seq<char>) -> int
    decreases s.len(),
{
    if s.len() == 0 {
        0
    } else {
        spec_utf8_len(s.drop_last()) + spec_char_width(s.last())
    }
}

/// UTF-8 byte length is at least the character count.
pub proof fn lemma_utf8_len_ge(s: Seq<char>)
    ensures
        spec_utf8_len(s) >= s.len(),
    decreases s.len(),
{
    if s.len() > 0 {
        lemma_utf8_len_ge(s.drop_last());
    }
}

/// Number of bytes in the UTF-8 encoding of a character.
pub fn char_width(c: char) -> (r: usize)
    ensures
        r == spec_char_width(c),
{
    let u = c as u32;
    if u < 0x80 {
        1
    } else if u < 0x800 {
        2
    } else if u < 0x10000 {
        3
    } else {
        4
    }
}

/// Index of the first occurrence of `ch` in `s`, or -1.
pub open spec fn first_index(s: Seq<char>, ch: char) -> int
    decreases s.len(),
{
    if s.len() == 0 {
        -1
    } else {
        let k = first_index(s.drop_last(), ch);
        if k >= 0 {
            k
        } else if s.last() == ch {
            s.len() - 1
        } else {
            -1
        }
    }
}

/// `first_index` finds exactly the first occurrence.
pub proof fn lemma_first_index(s: Seq<char>, ch: char)
    ensures
        -1 <= first_index(s, ch) < s.len(),
        first_index(s, ch) >= 0 ==> s[first_index(s, ch)] == ch,
        forall|j: int| 0 <= j < s.len() && (first_index(s, ch) == -1 || j < first_index(s, ch))
            ==> s[j] != ch,
    decreases s.len(),
{
    if s.len() > 0 {
        let t = s.drop_last();
        lemma_first_index(t, ch);
        assert forall|j: int|
            0 <= j < s.len() && (first_index(s, ch) == -1 || j < first_index(s, ch)) implies s[j]
            != ch by {
            if j < t.len() {
                assert(s[j] == t[j]);
            }
        }
    }
}

/// Index of the first key equal to `ch` in a sequence of pairs, or -1.
pub open spec fn first_key_index(s: Seq<(char, u32)>, ch: char) -> int
    decreases s.len(),
{
    if s.len() == 0 {
        -1
    } else {
        let k = first_key_index(s.drop_last(), ch);
        if k >= 0 {
            k
        } else if s.last().0 == ch {
            s.len() - 1
        } else {
            -1
        }
    }
}

/// `first_key_index` finds exactly the first pair with that key.
pub proof fn lemma_first_key_index(s: Seq<(char, u32)>, ch: char)
    ensures
        -1 <= first_key_index(s, ch) < s.len(),
        first_key_index(s, ch) >= 0 ==> s[first_key_index(s, ch)].0 == ch,
        forall|j: int|
            0 <= j < s.len() && (first_key_index(s, ch) == -1 || j < first_key_index(s, ch))
                ==> s[j].0 != ch,
    decreases s.len(),
{
    if s.len() > 0 {
        let t = s.drop_last();
        lemma_first_key_index(t, ch);
        assert forall|j: int|
            0 <= j < s.len() && (first_key_index(s, ch) == -1 || j < first_key_index(s, ch))
                implies s[j].0 != ch by {
            if j < t.len() {
                assert(s[j] == t[j]);
            }
        }
    }
}

/// Position of the first character that repeats an earlier one, or -1.
pub open spec fn first_dup_index(s: Seq<char>) -> int
    decreases s.len(),
{
    if s.len() == 0 {
        -1
    } else {
        let k = first_dup_index(s.drop_last());
        if k >= 0 {
            k
        } else if s.drop_last().contains(s.last()) {
            s.len() - 1
        } else {
            -1
        }
    }
}

/// Without a repeated character, the sequence has no duplicates.
pub proof fn lemma_first_dup_index(s: Seq<char>)
    ensures
        -1 <= first_dup_index(s) < s.len(),
        first_dup_index(s) == -1 <==> s.no_duplicates(),
        first_dup_index(s) >= 0 ==> s.take(first_dup_index(s)).contains(s[first_dup_index(s)]),
        first_dup_index(s) >= 0 ==> s.take(first_dup_index(s)).no_duplicates(),
    decreases s.len(),
{
    if s.len() > 0 {
        let t = s.drop_last();
        lemma_first_dup_index(t);
        let k = first_dup_index(s);
        if first_dup_index(t) >= 0 {
            assert(s.take(k) =~= t.take(k));
            assert(!s.no_duplicates()) by {
                let j = choose|j: int| 0 <= j < k && t.take(k)[j] == t[k];
                assert(s[j] == s[k]);
            }
        } else if t.contains(s.last()) {
            assert(s.take(k) =~= t);
            let j = choose|j: int| 0 <= j < t.len() && t[j] == s.last();
            assert(s[j] == s[s.len() - 1]);
        } else {
            assert forall|i: int, j: int| 0 <= i < s.len() && 0 <= j < s.len() && i != j implies s[i]
                != s[j] by {
                if i == s.len() - 1 {
                    assert(t[j] == s[j]);
                } else if j == s.len() - 1 {
                    assert(t[i] == s[i]);
                } else {
                    assert(t[i] == s[i] && t[j] == s[j]);
                }
            }
        }
    }
}

/// Split a character sequence on a separator, like `str::split`.
pub open spec fn spec_split(s: Seq<char>, sep: char) -> Seq<Seq<char>>
    decreases s.len(),
{
    if s.len() == 0 {
        seq![Seq::empty()]
    } else {
        let r = spec_split(s.drop_last(), sep);
        if s.last() == sep {
            r.push(Seq::empty())
        } else {
            r.update(r.len() - 1, r.last().push(s.last()))
        }
    }
}

/// Splitting always yields at least one piece.
pub proof fn lemma_split_nonempty(s: Seq<char>, sep: char)
    ensures
        spec_split(s, sep).len() >= 1,
    decreases s.len(),
{
    if s.len() > 0 {
        lemma_split_nonempty(s.drop_last(), sep);
    }
}

/// Split a character vector on a separator, like `str::split`.
pub fn split_chars(s: &Vec<char>, sep: char) -> (r: Vec<Vec<char>>)
    ensures
        r@.len() == spec_split(s@, sep).len(),
        forall|i: int| 0 <= i < r@.len() ==> (#[trigger] r@[i])@ == spec_split(s@, sep)[i],
{
    let mut r: Vec<Vec<char>> = Vec::new();
    r.push(Vec::new());
    let mut i: usize = 0;
    assert(s@.take(0) =~= Seq::<char>::empty());
    while i < s.len()
        invariant
            i <= s@.len(),
            r@.len() == spec_split(s@.take(i as int), sep).len(),
            r@.len() >= 1,
            forall|k: int| 0 <= k < r@.len() ==> (#[trigger] r@[k])@ == spec_split(
                s@.take(i as int),
                sep,
            )[k],
        decreases s@.len() - i,
    {
        let c = s[i];
        let ghost prev = s@.take(i as int);
        assert(s@.take(i + 1).drop_last() =~= prev);
        if c == sep {
            r.push(Vec::new());
        } else {
            let last = r.len() - 1;
            let mut piece = r.pop().unwrap();
            piece.push(c);
            r.push(piece);
        }
        i = i + 1;
        assert forall|k: int| 0 <= k < r@.len() implies (#[trigger] r@[k])@ == spec_split(
            s@.take(i as int),
            sep,
        )[k] by {}
    }
    assert(s@.take(i as int) =~= s@);
    r
}

/// Position of the first `ch` in `s`, if any.
pub fn find_char(s: &Vec<char>, ch: char) -> (r: Option<usize>)
    ensures
        r == (if first_index(s@, ch) >= 0 { Some(first_index(s@, ch) as usize) } else { None::<usize> }),
{
    proof {
        lemma_first_index(s@, ch);
    }
    let mut i: usize = 0;
    while i < s.len()
        invariant
            i <= s@.len(),
            forall|j: int| 0 <= j < i ==> s@[j] != ch,
            -1 <= first_index(s@, ch) < s@.len(),
            first_index(s@, ch) >= 0 ==> s@[first_index(s@, ch)] == ch,
            forall|j: int|
                0 <= j < s@.len() && (first_index(s@, ch) == -1 || j < first_index(s@, ch)) ==> s@[j] != ch,
        decreases s@.len() - i,
    {
        if s[i] == ch {
            return Some(i);
        }
        i = i + 1;
    }
    None
}

/// The characters of `s` from `a` (inclusive) to `b` (exclusive).
pub fn sub_chars(s: &Vec<char>, a: usize, b: usize) -> (r: Vec<char>)
    requires
        a <= b <= s@.len(),
    ensures
        r@ == s@.subrange(a as int, b as int),
{
    let mut r: Vec<char> = Vec::new();
    let mut i = a;
    while i < b
        invariant
            a <= i <= b <= s@.len(),
            r@ == s@.subrange(a as int, i as int),
        decreases b - i,
    {
        r.push(s[i]);
        i = i + 1;
        assert(r@ =~= s@.subrange(a as int, i as int));
    }
    r
}

/// `String::push`: appends one character to the string.
#[verifier::external_body]
pub(crate) fn push_char(s: &mut String, c: char)
    ensures
        final(s)@ == old(s)@.push(c),
{
    s.push(c);
}

/// The string made of the characters `cs`, in order.
pub fn chars_to_string(cs: &[char]) -> (r: String)
    ensures
        r@ == cs@,
{
    let mut r = String::new();
    let mut i: usize = 0;
    while i < cs.len()
        invariant
            i <= cs@.len(),
            r@ == cs@.take(i as int),
        decreases cs@.len() - i,
    {
        push_char(&mut r, cs[i]);
        i = i + 1;
        assert(r@ =~= cs@.take(i as int));
    }
    assert(cs@.take(cs@.len() as int) =~= cs@);
    r
}

/// The character of decimal digit `d`.
pub open spec fn digit_char(d: int) -> char {
    seq!['0', '1', '2', '3', '4', '5', '6', '7', '8', '9'][d]
}

/// The decimal digits of `n`.
pub open spec fn decimal(n: nat) -> Seq<char>
    decreases n,
{
    if n < 10 {
        seq![digit_char(n as int)]
    } else {
        decimal(n / 10).push(digit_char((n % 10) as int))
    }
}

/// The decimal digits of `n`.
pub fn decimal_string(n: usize) -> (r: String)
    ensures
        r@ == decimal(n as nat),
    decreases n,
{
    if n < 10 {
        let c = char_of_digit(n);
        crate::grid::char_string(c)
    } else {
        let mut s = decimal_string(n / 10);
        push_char(&mut s, char_of_digit(n % 10));
        s
    }
}

/// The digit character of `d`.
fn char_of_digit(d: usize) -> (c: char)
    requires
        d < 10,
    ensures
        c == digit_char(d as int),
{
    let cs: [char; 10] = ['0', '1', '2', '3', '4', '5', '6', '7', '8', '9'];
    assert(cs@ =~= seq!['0', '1', '2', '3', '4', '5', '6', '7', '8', '9']);
    cs[d]
}

} // verus!
