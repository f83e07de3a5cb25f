//! What a pattern matches, stated as spec functions over the input line and
//! the pattern text.
//!
//! Positions are indices into the whole line. A capture is the span
//! `(start, end)` of the line that a group consumed; the capture list holds
//! one span per group met so far in the current attempt, in pattern order.
//!
//! A group with alternatives is spliced with the rest of the pattern: each
//! alternative, in written order, is matched followed by the rest, and the
//! first one for which the whole succeeds wins. The pending rest travels as a
//! continuation `(rest, start)`; when the alternative's text runs out, the
//! group's capture `(start, pos)` is recorded and matching goes on with
//! `rest`. Groups do not nest, so no continuation is ever pending when a
//! group opens.
//!
//! A quantified group is matched by ordered choice at each repetition: the
//! first alternative that matches by itself wins, and the repetition count is
//! what backtracks. Its capture is the whole span that its repetitions took;
//! a group that took no repetition records no capture, so a later
//! backreference to it finds no entry or a later group's.
use vstd::prelude::*;
use crate::syntax::{
    Quantifier, digit_run, find_from, is_digit, is_word, lemma_atom_len_bounds, lemma_find_from_bounds,
    lemma_quant_bounds, atom_len, quant_at, number_of,
};

verus! {

/// The rest of the pattern that follows an open group, and where the group began.
pub type Cont = Option<(Seq<char>, int)>;

pub open spec fn cont_size(cont: Cont) -> int {
    match cont {
        Some((rest, _)) => 4 * rest.len() as int + 4,
        None => 0,
    }
}

/// No pattern text waits after the current one.
pub open spec fn tail_is_empty(cont: Cont) -> bool {
    match cont {
        Some((rest, _)) => rest.len() == 0,
        None => true,
    }
}

/// A parenthesized group atom.
pub open spec fn is_group(atom: Seq<char>) -> bool {
    atom.len() >= 2 && atom[0] == '(' && atom[atom.len() - 1] == ')'
}

/// A bracket class atom.
pub open spec fn is_class(atom: Seq<char>) -> bool {
    atom.len() >= 2 && atom[0] == '[' && atom[atom.len() - 1] == ']'
}

/// A backreference atom: a backslash followed by digits only.
pub open spec fn is_backref(atom: Seq<char>) -> bool {
    atom.len() >= 2 && atom[0] == '\\' && digit_run(atom, 1) == atom.len() - 1
}

/// The text between the two delimiters of a group or class atom.
pub open spec fn inner(atom: Seq<char>) -> Seq<char> {
    atom.subrange(1, atom.len() - 1)
}

/// Whether `c` belongs to the members listed in `set`, where `\d` and `\w`
/// stand for their classes and any other character for itself.
pub open spec fn in_class(set: Seq<char>, c: char) -> bool
    decreases set.len(),
{
    if set.len() == 0 {
        false
    } else if set.len() >= 2 && set[0] == '\\' && set[1] == 'd' {
        is_digit(c) || in_class(set.subrange(2, set.len() as int), c)
    } else if set.len() >= 2 && set[0] == '\\' && set[1] == 'w' {
        is_word(c) || in_class(set.subrange(2, set.len() as int), c)
    } else {
        set[0] == c || in_class(set.subrange(1, set.len() as int), c)
    }
}

/// Whether the bracket class `atom` accepts `c`; a leading `^` negates it.
pub open spec fn class_accepts(atom: Seq<char>, c: char) -> bool {
    let body = inner(atom);
    if body.len() > 0 && body[0] == '^' {
        !in_class(body.subrange(1, body.len() as int), c)
    } else {
        in_class(body, c)
    }
}

/// Width matched at `pos` by backreference `idx` (1-based): the captured text
/// must stand again at `pos`.
pub open spec fn backref_width(inp: Seq<char>, pos: int, idx: nat, caps: Seq<(int, int)>) -> Option<
    int,
> {
    if 1 <= idx <= caps.len() {
        let (s, e) = caps[idx - 1];
        if pos + (e - s) <= inp.len() && inp.subrange(pos, pos + (e - s)) == inp.subrange(s, e) {
            Some(e - s)
        } else {
            None
        }
    } else {
        None
    }
}

/// The capture list after `atom` consumed `[s, e)`: a group that matched
/// (`taken`, at least one repetition) appends its span; one that matched
/// nothing appends no entry.
pub open spec fn with_capture(
    caps: Seq<(int, int)>,
    atom: Seq<char>,
    s: int,
    e: int,
    taken: bool,
) -> Seq<(int, int)> {
    if is_group(atom) && taken {
        caps.push((s, e))
    } else {
        caps
    }
}

/// Fewest repetitions a quantifier admits.
pub open spec fn quant_min(q: Quantifier) -> int {
    match q {
        Quantifier::OneOrMore => 1,
        Quantifier::Exactly(n) => n as int,
        Quantifier::AtLeast(n) => n as int,
        Quantifier::Between(n, _) => n as int,
        _ => 0,
    }
}

/// Most repetitions a quantifier admits; `None` for no bound.
pub open spec fn quant_max(q: Quantifier) -> Option<nat> {
    match q {
        Quantifier::Exactly(n) => Some(n as nat),
        Quantifier::Between(_, m) => Some(m as nat),
        _ => None,
    }
}

pub open spec fn one_less(left: Option<nat>) -> Option<nat> {
    match left {
        Some(n) => Some((n - 1) as nat),
        None => None,
    }
}

/// The block matcher: where matching pattern text `pat`, then the pending
/// continuation, from `pos` ends; `None` when it fails.
pub open spec fn block(
    inp: Seq<char>,
    pos: int,
    pat: Seq<char>,
    caps: Seq<(int, int)>,
    cont: Cont,
) -> Option<int>
    decreases 4 * pat.len() + cont_size(cont) + 4, 0int,
{
    if pat.len() == 0 {
        match cont {
            None => Some(pos),
            Some((rest, s)) => block(inp, pos, rest, caps.push((s, pos)), None),
        }
    } else if pat.len() == 1 && pat[0] == '$' && tail_is_empty(cont) {
        if pos == inp.len() {
            Some(pos)
        } else {
            None
        }
    } else {
        proof {
            lemma_atom_len_bounds(pat);
            lemma_quant_bounds(pat, atom_len(pat));
        }
        let a = atom_len(pat);
        let atom = pat.subrange(0, a);
        let q = quant_at(pat, a);
        let rest = pat.subrange(a + q.1, pat.len() as int);
        match q.0 {
            Quantifier::One => {
                if is_group(atom) {
                    if cont is None {
                        splice(inp, pos, inner(atom), 0, rest, caps)
                    } else {
                        None
                    }
                } else {
                    match match_atom(inp, pos, atom, caps) {
                        Some(w) => block(inp, pos + w, rest, caps, cont),
                        None => None,
                    }
                }
            },
            Quantifier::ZeroOrOne => optional(inp, pos, atom, rest, caps, cont),
            _ => repeat(inp, pos, atom, rest, caps, cont, quant_min(q.0), quant_max(q.0)),
        }
    }
}

/// Spliced alternation: the first alternative of `body`, from character
/// `from` on, that matches followed by `rest`.
pub open spec fn splice(
    inp: Seq<char>,
    pos: int,
    body: Seq<char>,
    from: int,
    rest: Seq<char>,
    caps: Seq<(int, int)>,
) -> Option<int>
    decreases 4 * body.len() + 4 * rest.len() + 9, body.len() + 1 - from,
{
    if from < 0 || from > body.len() {
        None
    } else {
        proof {
            lemma_find_from_bounds(body, '|', from);
        }
        let end = find_from(body, '|', from);
        match block(inp, pos, body.subrange(from, end), caps, Some((rest, pos))) {
            Some(e) => Some(e),
            None => splice(inp, pos, body, end + 1, rest, caps),
        }
    }
}

/// Ordered choice: where the first alternative of `body`, from character
/// `from` on, that matches by itself at `pos` ends.
pub open spec fn first_alone(
    inp: Seq<char>,
    pos: int,
    body: Seq<char>,
    from: int,
    caps: Seq<(int, int)>,
) -> Option<int>
    decreases 4 * body.len() + 5, body.len() + 1 - from,
{
    if from < 0 || from > body.len() {
        None
    } else {
        proof {
            lemma_find_from_bounds(body, '|', from);
        }
        let end = find_from(body, '|', from);
        match block(inp, pos, body.subrange(from, end), caps, None) {
            Some(e) => Some(e),
            None => first_alone(inp, pos, body, end + 1, caps),
        }
    }
}

/// The atom matcher: how many characters `atom` consumes at `pos`.
pub open spec fn match_atom(inp: Seq<char>, pos: int, atom: Seq<char>, caps: Seq<(int, int)>) -> Option<
    int,
>
    decreases 4 * atom.len() + 1, 0int,
{
    if pos < 0 || pos >= inp.len() {
        None
    } else if is_group(atom) {
        match first_alone(inp, pos, inner(atom), 0, caps) {
            Some(e) => Some(e - pos),
            None => None,
        }
    } else if is_class(atom) {
        if class_accepts(atom, inp[pos]) {
            Some(1)
        } else {
            None
        }
    } else if atom.len() == 2 && atom[0] == '\\' && atom[1] == 'd' {
        if is_digit(inp[pos]) {
            Some(1)
        } else {
            None
        }
    } else if atom.len() == 2 && atom[0] == '\\' && atom[1] == 'w' {
        if is_word(inp[pos]) {
            Some(1)
        } else {
            None
        }
    } else if is_backref(atom) {
        backref_width(inp, pos, number_of(atom.subrange(1, atom.len() as int)), caps)
    } else if atom.len() == 1 && (atom[0] == '.' || atom[0] == inp[pos]) {
        Some(1)
    } else {
        None
    }
}

/// The greedy run of `atom` from `pos`: where each repetition ends, at most
/// `left` of them. Only repetitions that consume characters count; the run
/// stops at the first that fails or consumes nothing.
pub open spec fn run(
    inp: Seq<char>,
    pos: int,
    atom: Seq<char>,
    caps: Seq<(int, int)>,
    left: Option<nat>,
) -> Seq<int>
    decreases 4 * atom.len() + 2, inp.len() - pos,
{
    if pos < 0 || pos >= inp.len() || left == Some(0nat) {
        seq![]
    } else {
        match match_atom(inp, pos, atom, caps) {
            Some(w) => if 0 < w && pos + w <= inp.len() {
                seq![pos + w] + run(inp, pos + w, atom, caps, one_less(left))
            } else {
                seq![]
            },
            None => seq![],
        }
    }
}

/// Greedy repetition with backtracking: the most repetitions, between `lo`
/// and `hi`, after which `rest` matches.
pub open spec fn repeat(
    inp: Seq<char>,
    pos: int,
    atom: Seq<char>,
    rest: Seq<char>,
    caps: Seq<(int, int)>,
    cont: Cont,
    lo: int,
    hi: Option<nat>,
) -> Option<int>
    decreases 4 * atom.len() + 4 * rest.len() + cont_size(cont) + 6, 0int,
{
    let ends = seq![pos] + run(inp, pos, atom, caps, hi);
    backoff(inp, pos, atom, rest, caps, cont, ends, ends.len() - 1, lo)
}

/// Tries `k` repetitions, ending at `ends[k]`, then fewer, down to `lo`.
pub open spec fn backoff(
    inp: Seq<char>,
    pos: int,
    atom: Seq<char>,
    rest: Seq<char>,
    caps: Seq<(int, int)>,
    cont: Cont,
    ends: Seq<int>,
    k: int,
    lo: int,
) -> Option<int>
    decreases 4 * atom.len() + 4 * rest.len() + cont_size(cont) + 5, k + 1,
{
    if k < 0 || k < lo || k >= ends.len() {
        None
    } else {
        match block(inp, ends[k], rest, with_capture(caps, atom, pos, ends[k], k > 0), cont) {
            Some(f) => Some(f),
            None => backoff(inp, pos, atom, rest, caps, cont, ends, k - 1, lo),
        }
    }
}

/// Zero or one repetition: one when the atom matches, with no backtracking.
pub open spec fn optional(
    inp: Seq<char>,
    pos: int,
    atom: Seq<char>,
    rest: Seq<char>,
    caps: Seq<(int, int)>,
    cont: Cont,
) -> Option<int>
    decreases 4 * atom.len() + 4 * rest.len() + cont_size(cont) + 6, 0int,
{
    let m = match_atom(inp, pos, atom, caps);
    let e = match m {
        Some(w) => pos + w,
        None => pos,
    };
    block(inp, e, rest, with_capture(caps, atom, pos, e, m is Some), cont)
}

} // verus!
