//! The model list file: one `<model name=".." size=".." d="3"?>` entry per line, read line by
//! line for each model's grid size.
use vstd::prelude::*;
use crate::convolution_node::{parse_usize, spec_parse_usize};
use crate::text::{chars_to_string, find_char, first_index, spec_split, split_chars, sub_chars};
use crate::vecs::str_chars;

verus! {

/// Whether `pat` occurs in `s` at position `k`.
pub open spec fn occurs_at(s: Seq<char>, pat: Seq<char>, k: int) -> bool {
    0 <= k && k + pat.len() <= s.len() && s.subrange(k, k + pat.len()) == pat
}

/// The first position from `k` where `pat` occurs in `s`, or -1.
pub open spec fn find_from(s: Seq<char>, pat: Seq<char>, k: int) -> int
    decreases s.len() - k,
{
    if k < 0 || k >= s.len() || k + pat.len() > s.len() {
        -1
    } else if occurs_at(s, pat, k) {
        k
    } else {
        find_from(s, pat, k + 1)
    }
}

/// The lines of a text, like `str::lines`: split at line feeds, without a last empty line,
/// each without a trailing carriage return.
pub open spec fn text_lines(s: Seq<char>) -> Seq<Seq<char>> {
    let parts = spec_split(s, '\n');
    let kept = if parts.last().len() == 0 { parts.drop_last() } else { parts };
    Seq::new(kept.len(), |i: int| strip_cr(kept[i]))
}

/// A line without one trailing carriage return.
pub open spec fn strip_cr(l: Seq<char>) -> Seq<char> {
    if l.len() > 0 && l.last() == '\r' {
        l.drop_last()
    } else {
        l
    }
}

/// The value of the attribute written `key` on a line: the text after the first `key`
/// up to the next `"`, if both are there.
pub open spec fn quoted_after(line: Seq<char>, key: Seq<char>) -> Option<Seq<char>> {
    let p = find_from(line, key, 0);
    if p < 0 {
        None
    } else {
        let rest = line.subrange(p + key.len(), line.len() as int);
        let e = first_index(rest, '"');
        if e < 0 {
            None
        } else {
            Some(rest.subrange(0, e))
        }
    }
}

/// The size written on a model line: its `size` attribute as a number, 60 when absent or
/// not a number.
pub open spec fn line_size(line: Seq<char>) -> int {
    match quoted_after(line, "size=\""@) {
        Some(t) => match spec_parse_usize(t) {
            Some(v) => v,
            None => 60,
        },
        None => 60,
    }
}

/// The entries of the first `k` lines: for each line with `<model`, a name and no `d="3"`,
/// whose name is not listed yet, its name and size.
pub open spec fn entries_upto(lines: Seq<Seq<char>>, k: int) -> Seq<(Seq<char>, int)>
    decreases k,
{
    if k <= 0 {
        Seq::empty()
    } else {
        let prev = entries_upto(lines, k - 1);
        let line = lines[k - 1];
        if find_from(line, "<model"@, 0) >= 0 && quoted_after(line, "name=\""@) is Some && find_from(
            line,
            "d=\"3\""@,
            0,
        ) < 0 && !(exists|j: int| 0 <= j < prev.len() && #[trigger] prev[j].0 == quoted_after(line, "name=\""@)->0) {
            prev.push((quoted_after(line, "name=\""@)->0, line_size(line)))
        } else {
            prev
        }
    }
}

/// The first position from `k` where `pat` occurs in `s`, if any.
fn find_from_exec(s: &Vec<char>, pat: &Vec<char>, k: usize) -> (r: Option<usize>)
    requires
        k <= s@.len(),
    ensures
        r matches Some(p) ==> find_from(s@, pat@, k as int) == p,
        r is None ==> find_from(s@, pat@, k as int) == -1,
    decreases s@.len() - k,
{
    let sl = s.len();
    if k >= sl || pat.len() > sl - k {
        return None;
    }
    let mut i: usize = 0;
    while i < pat.len()
        invariant
            k + pat@.len() <= s@.len(),
            k < s@.len(),
            sl == s@.len(),
            i <= pat@.len(),
            forall|j: int| 0 <= j < i ==> s@[k + j] == pat@[j],
        decreases pat@.len() - i,
    {
        if s[k + i] != pat[i] {
            proof {
                assert(!occurs_at(s@, pat@, k as int)) by {
                    if occurs_at(s@, pat@, k as int) {
                        assert(s@.subrange(k as int, k + pat@.len())[i as int] == pat@[i as int]);
                    }
                }
            }
            return find_from_exec(s, pat, k + 1);
        }
        i = i + 1;
    }
    assert(s@.subrange(k as int, k + pat@.len()) =~= pat@);
    Some(k)
}

/// The value of the attribute `key` on a line (see `quoted_after`).
fn quoted_after_exec(line: &Vec<char>, key: &Vec<char>) -> (r: Option<Vec<char>>)
    ensures
        match quoted_after(line@, key@) {
            Some(t) => r matches Some(v) && v@ == t,
            None => r is None,
        },
{
    let ll = line.len();
    match find_from_exec(line, key, 0) {
        None => None,
        Some(p) => {
            proof {
                lemma_find_bound(line@, key@, 0);
            }
            assert(p + key@.len() <= ll);
            let rest = sub_chars(line, p + key.len(), ll);
            match find_char(&rest, '"') {
                None => None,
                Some(e) => {
                    proof {
                        crate::text::lemma_first_index(rest@, '"');
                    }
                    Some(sub_chars(&rest, 0, e))
                },
            }
        },
    }
}

/// A found position leaves room for the pattern.
proof fn lemma_find_bound(s: Seq<char>, pat: Seq<char>, k: int)
    ensures
        find_from(s, pat, k) >= 0 ==> k <= find_from(s, pat, k) && find_from(s, pat, k) + pat.len() <= s.len(),
    decreases s.len() - k,
{
    if k >= 0 && k < s.len() && k + pat.len() <= s.len() && !occurs_at(s, pat, k) {
        lemma_find_bound(s, pat, k + 1);
    }
}

/// The models of a model list text with their grid sizes, in order of first appearance:
/// lines holding `<model` with a `name`, other than 3D ones (`d="3"`), the first line of a
/// name winning; the size is the `size` attribute, 60 when absent or not a number.
pub fn parse_models_text(content: &str) -> (r: Vec<(String, usize, bool)>)
    ensures
        r@.len() == entries_upto(text_lines(content@), text_lines(content@).len() as int).len(),
        forall|i: int|
            0 <= i < r@.len() ==> {
                let e = entries_upto(text_lines(content@), text_lines(content@).len() as int)[i];
                &&& (#[trigger] r@[i]).0@ == e.0
                &&& r@[i].1 == e.1
                &&& !r@[i].2
            },
{
    let cs = str_chars(content);
    let parts = split_chars(&cs, '\n');
    let ghost lines = text_lines(content@);
    proof {
        crate::text::lemma_split_nonempty(cs@, '\n');
    }
    let n = if parts[parts.len() - 1].len() == 0 {
        parts.len() - 1
    } else {
        parts.len()
    };
    let model_tag = str_chars("<model");
    let name_key = str_chars("name=\"");
    let size_key = str_chars("size=\"");
    let d3 = str_chars("d=\"3\"");
    let mut out: Vec<(String, usize, bool)> = Vec::new();
    let mut k: usize = 0;
    while k < n
        invariant
            lines == text_lines(content@),
            n == lines.len(),
            n <= parts@.len(),
            parts@.len() == spec_split(cs@, '\n').len(),
            cs@ == content@,
            forall|i: int| 0 <= i < parts@.len() ==> (#[trigger] parts@[i])@ == spec_split(cs@, '\n')[i],
            model_tag@ == "<model"@ && name_key@ == "name=\""@ && size_key@ == "size=\""@ && d3@ == "d=\"3\""@,
            k <= n,
            out@.len() == entries_upto(lines, k as int).len(),
            forall|i: int|
                0 <= i < out@.len() ==> {
                    let e = entries_upto(lines, k as int)[i];
                    &&& (#[trigger] out@[i]).0@ == e.0
                    &&& out@[i].1 == e.1
                    &&& !out@[i].2
                },
        decreases n - k,
    {
        let raw = &parts[k];
        let line = if raw.len() > 0 && raw[raw.len() - 1] == '\r' {
            sub_chars(raw, 0, raw.len() - 1)
        } else {
            sub_chars(raw, 0, raw.len())
        };
        proof {
            assert(raw@.subrange(0, raw@.len() as int) =~= raw@);
            assert(raw@.drop_last() =~= raw@.subrange(0, raw@.len() - 1));
            assert(line@ == lines[k as int]);
        }
        let ghost prev = entries_upto(lines, k as int);
        if find_from_exec(&line, &model_tag, 0).is_some() && find_from_exec(&line, &d3, 0).is_none() {
            match quoted_after_exec(&line, &name_key) {
                Some(name) => {
                    let mut seen = false;
                    let mut j: usize = 0;
                    while j < out.len()
                        invariant
                            j <= out@.len(),
                            out@.len() == prev.len(),
                            forall|i: int| 0 <= i < out@.len() ==> (#[trigger] out@[i]).0@ == prev[i].0,
                            seen <==> exists|q: int| 0 <= q < j && #[trigger] prev[q].0 == name@,
                        decreases out@.len() - j,
                    {
                        let same = crate::xml::str_eq(out[j].0.as_str(), chars_to_string(name.as_slice()).as_str());
                        if same {
                            seen = true;
                        }
                        proof {
                            assert(out@[j as int].0@ == prev[j as int].0);
                        }
                        j = j + 1;
                    }
                    if !seen {
                        let size = match quoted_after_exec(&line, &size_key) {
                            Some(t) => match parse_usize(&t) {
                                Some(v) => v,
                                None => 60,
                            },
                            None => 60,
                        };
                        let ghost o0 = out@;
                        out.push((chars_to_string(name.as_slice()), size, false));
                        proof {
                            assert forall|i: int| 0 <= i < out@.len() implies {
                                let e = entries_upto(lines, k + 1)[i];
                                &&& (#[trigger] out@[i]).0@ == e.0
                                &&& out@[i].1 == e.1
                                &&& !out@[i].2
                            } by {
                                if i < o0.len() {
                                    assert(out@[i] == o0[i]);
                                }
                            }
                        }
                    }
                },
                None => {},
            }
        }
        k = k + 1;
    }
    out
}

} // verus!
