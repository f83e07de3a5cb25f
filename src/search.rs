//! Top-level search: anchored and unanchored scanning of a line, collecting
//! every non-overlapping match, leftmost first.
use vstd::prelude::*;
use vstd::slice::slice_subrange;
use vstd::string::StrSliceExecFns;
use crate::syntax::{atom_len, atom_length, lemma_atom_len_bounds};
use crate::semantics::{block, run};
use crate::engine::{caps_view, caps_fit, ends_view, limit_view, match_block, repetitions};

verus! {

/// The pattern's last construct is a `?` or `*`.
pub open spec fn trailing_optional(pat: Seq<char>) -> bool {
    pat.len() > 0 && (pat.last() == '?' || pat.last() == '*')
}

/// Unanchored scan from offset `from`: the first offset at which the pattern
/// matches gives the next match, and the scan goes on after it (one
/// character on when the match was empty).
pub open spec fn scan(line: Seq<char>, pat: Seq<char>, from: int) -> Seq<Seq<char>>
    decreases line.len() - from,
{
    if from < 0 || from >= line.len() {
        seq![]
    } else {
        match block(line, from, pat, seq![], None) {
            Some(e) => {
                let next = if from < e <= line.len() {
                    e
                } else {
                    from + 1
                };
                seq![line.subrange(from, e)] + scan(line, pat, next)
            },
            None => scan(line, pat, from + 1),
        }
    }
}

/// Every match of `pat` in `line`, in the order found.
///
/// A leading `^` anchors the pattern at offset 0 and gives at most one match.
/// An empty line has no offset to try; there the empty string is the one
/// match of the empty pattern and of a pattern whose last construct is `?`
/// or `*`.
pub open spec fn search(line: Seq<char>, pat: Seq<char>) -> Seq<Seq<char>> {
    if pat.len() > 0 && pat[0] == '^' {
        match block(line, 0, pat.subrange(1, pat.len() as int), seq![], None) {
            Some(e) => seq![line.subrange(0, e)],
            None => seq![],
        }
    } else if line.len() == 0 {
        if pat.len() == 0 || trailing_optional(pat) {
            seq![seq![]]
        } else {
            seq![]
        }
    } else {
        scan(line, pat, 0)
    }
}

pub open spec fn strings_view(v: Seq<String>) -> Seq<Seq<char>> {
    v.map_values(|s: String| s@)
}

/// The characters of `s`.
pub fn chars_of(s: &str) -> (r: Vec<char>)
    ensures
        r@ == s@,
{
    let n = s.unicode_len();
    let mut v: Vec<char> = Vec::new();
    let mut i: usize = 0;
    while i < n
        invariant
            n == s@.len(),
            i <= n,
            v@ == s@.subrange(0, i as int),
        decreases n - i,
    {
        v.push(s.get_char(i));
        i = i + 1;
        assert(v@ =~= s@.subrange(0, i as int));
    }
    assert(v@ =~= s@);
    v
}

/// The atom at the start of `pattern_block`, as text: a backreference, a
/// shorthand class, a bracket class, a group, or one character.
pub fn extract_pattern(pattern_block: &str) -> (r: String)
    ensures
        r@ == pattern_block@.subrange(0, atom_len(pattern_block@)),
{
    let p = chars_of(pattern_block);
    let a = atom_length(p.as_slice());
    if p.len() > 0 {
        proof {
            lemma_atom_len_bounds(p@);
        }
    }
    pattern_block.substring_char(0, a).to_owned()
}

/// All matches of `pattern` in `input`, in the order found.
pub fn match_re(input: &str, pattern: &str) -> (r: Vec<String>)
    ensures
        strings_view(r@) == search(input@, pattern@),
{
    let line = chars_of(input);
    let pv = chars_of(pattern);
    let inp = line.as_slice();
    let pat = pv.as_slice();
    let empty: Vec<(usize, usize)> = Vec::new();
    assert(caps_view(empty@) =~= Seq::<(int, int)>::empty());
    let mut out: Vec<String> = Vec::new();
    if pat.len() > 0 && pat[0] == '^' {
        let body = slice_subrange(pat, 1, pat.len());
        match match_block(inp, 0, body, &empty, None) {
            Some(e) => {
                out.push(input.substring_char(0, e).to_owned());
            },
            None => {},
        }
        assert(strings_view(out@) =~= search(input@, pattern@));
        return out;
    }
    if inp.len() == 0 {
        let n = pat.len();
        if n == 0 || pat[n - 1] == '?' || pat[n - 1] == '*' {
            out.push(String::new());
        }
        assert(strings_view(out@) =~= search(input@, pattern@));
        return out;
    }
    let mut from: usize = 0;
    assert(strings_view(out@) + scan(input@, pattern@, 0) =~= scan(input@, pattern@, 0));
    while from < inp.len()
        invariant
            inp@ == input@,
            pat@ == pattern@,
            caps_view(empty@) == Seq::<(int, int)>::empty(),
            caps_fit(empty@, inp@.len() as int),
            from <= inp@.len(),
            strings_view(out@) + scan(input@, pattern@, from as int) == scan(input@, pattern@, 0),
        decreases inp@.len() - from,
    {
        let ghost before = strings_view(out@);
        match match_block(inp, from, pat, &empty, None) {
            Some(e) => {
                out.push(input.substring_char(from, e).to_owned());
                let next = if e > from {
                    e
                } else {
                    from + 1
                };
                assert(strings_view(out@) =~= before.push(input@.subrange(from as int, e as int)));
                assert(before + scan(input@, pattern@, from as int) =~= strings_view(out@) + scan(
                    input@,
                    pattern@,
                    next as int,
                ));
                from = next;
            },
            None => {
                from = from + 1;
            },
        }
    }
    assert(strings_view(out@) + seq![] =~= strings_view(out@));
    out
}

/// The greedy run of the atom `pattern` over `input` from character `skip`,
/// with `matches` repetitions already counted and at most `n` in total:
/// whether the run did not fail at its first step, how many characters it
/// consumed, and the repetition count it reached.
pub fn consume(input: &str, pattern: &str, skip: usize, matches: usize, n: Option<usize>) -> (r: (
    bool,
    usize,
    usize,
))
    requires
        matches + input@.len() <= usize::MAX,
    ensures
        ({
            let left = match n {
                Some(x) => Some(if x >= matches {
                    (x - matches) as nat
                } else {
                    0nat
                }),
                None => None,
            };
            let ends = run(input@, skip as int, pattern@, seq![], left);
            &&& r.2 == matches + ends.len()
            &&& r.1 == (if ends.len() == 0 {
                0
            } else {
                ends.last() - skip
            })
            &&& r.0 == (ends.len() > 0 || left == Some(0nat) || skip >= input@.len())
        }),
{
    let line = chars_of(input);
    let atom = chars_of(pattern);
    let inp = line.as_slice();
    let left: Option<usize> = match n {
        Some(x) => Some(
            if x >= matches {
                x - matches
            } else {
                0
            },
        ),
        None => None,
    };
    if skip >= inp.len() {
        return (true, 0, matches);
    }
    let empty: Vec<(usize, usize)> = Vec::new();
    assert(caps_view(empty@) =~= Seq::<(int, int)>::empty());
    let ends = repetitions(inp, skip, atom.as_slice(), &empty, left);
    let count = ends.len() - 1;
    let consumed = ends[count] - skip;
    proof {
        let tail = run(input@, skip as int, pattern@, seq![], limit_view(left));
        assert(ends_view(ends@) =~= seq![skip as int] + tail);
        assert(ends_view(ends@)[count as int] == ends@[count as int] as int);
        assert(ends_view(ends@).len() == ends@.len());
        assert(tail.len() == count);
        if tail.len() > 0 {
            assert((seq![skip as int] + tail)[count as int] == tail[count - 1]);
        }
        assert(limit_view(left) == match n {
            Some(x) => Some(if x >= matches {
                (x - matches) as nat
            } else {
                0nat
            }),
            None => None::<nat>,
        });
    }
    let stop = match left {
        Some(k) => k == 0,
        None => false,
    };
    (count > 0 || stop, consumed, matches + count)
}

/// Each line with its matches.
pub fn process_lines(lines: &Vec<String>, pattern: &str) -> (r: Vec<(String, Vec<String>)>)
    ensures
        r@.len() == lines@.len(),
        forall|i: int|
            0 <= i < r@.len() ==> {
                &&& (#[trigger] r@[i]).0@ == lines@[i]@
                &&& strings_view(r@[i].1@) == search(lines@[i]@, pattern@)
            },
{
    let mut out: Vec<(String, Vec<String>)> = Vec::new();
    let mut i: usize = 0;
    while i < lines.len()
        invariant
            i <= lines@.len(),
            out@.len() == i,
            forall|j: int|
                0 <= j < i ==> {
                    &&& (#[trigger] out@[j]).0@ == lines@[j]@
                    &&& strings_view(out@[j].1@) == search(lines@[j]@, pattern@)
                },
        decreases lines@.len() - i,
    {
        let line = &lines[i];
        let found = match_re(line.as_str(), pattern);
        out.push((line.clone(), found));
        i = i + 1;
    }
    out
}

} // verus!
