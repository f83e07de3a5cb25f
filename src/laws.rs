//! Properties of the search, proved from the definitions in `semantics` and
//! `search`.
use vstd::prelude::*;
use crate::syntax::{
    Quantifier, atom_len, find_from, is_digit, lemma_atom_len_bounds, lemma_digit_run_bounds,
    lemma_find_from_bounds, lemma_quant_bounds, quant_at,
};
use crate::semantics::{
    Cont, backoff, block, cont_size, inner, is_backref, is_class, is_group, match_atom, quant_min,
    quant_max, optional, repeat, run, splice, tail_is_empty, with_capture,
};
use crate::search::{search, scan, trailing_optional};

verus! {

/// A character with a meaning of its own in the pattern language.
pub open spec fn is_meta(c: char) -> bool {
    c == '.' || c == '\\' || c == '[' || c == ']' || c == '(' || c == ')' || c == '|' || c == '+'
        || c == '*' || c == '?' || c == '{' || c == '}' || c == '^' || c == '$'
}

/// Pattern text made of plain characters only.
pub open spec fn is_literal(p: Seq<char>) -> bool {
    forall|i: int| 0 <= i < p.len() ==> !is_meta(#[trigger] p[i])
}

/// `p` stands in `line` at index `i`.
pub open spec fn occurs_at(line: Seq<char>, p: Seq<char>, i: int) -> bool {
    0 <= i && i + p.len() <= line.len() && line.subrange(i, i + p.len()) == p
}

/// The occurrences of a non-empty `p` in `line` from index `from` on, found
/// leftmost first, each search going on after the previous occurrence.
pub open spec fn occurrences(line: Seq<char>, p: Seq<char>, from: int) -> Seq<Seq<char>>
    decreases line.len() - from,
{
    if from < 0 || p.len() == 0 || from + p.len() > line.len() {
        seq![]
    } else if occurs_at(line, p, from) {
        seq![p] + occurrences(line, p, from + p.len())
    } else {
        occurrences(line, p, from + 1)
    }
}

/// A literal pattern matches at `pos` exactly where its text stands there.
proof fn lemma_literal_block(inp: Seq<char>, pos: int, p: Seq<char>, caps: Seq<(int, int)>)
    requires
        0 <= pos <= inp.len(),
        is_literal(p),
    ensures
        block(inp, pos, p, caps, None) == (if occurs_at(inp, p, pos) {
            Some(pos + p.len())
        } else {
            None::<int>
        }),
    decreases p.len(),
{
    if p.len() == 0 {
        assert(inp.subrange(pos, pos) =~= p);
    } else {
        assert(!is_meta(p[0]));
        assert(atom_len(p) == 1);
        if p.len() > 1 {
            assert(!is_meta(p[1]));
        }
        assert(quant_at(p, 1) == (Quantifier::One, 0int));
        let atom = p.subrange(0, 1);
        let rest = p.subrange(1, p.len() as int);
        assert(is_literal(rest)) by {
            assert forall|i: int| 0 <= i < rest.len() implies !is_meta(#[trigger] rest[i]) by {
                assert(rest[i] == p[i + 1]);
            }
        }
        let m = match_atom(inp, pos, atom, caps);
        if pos < inp.len() && inp[pos] == p[0] {
            assert(m == Some(1int));
            lemma_literal_block(inp, pos + 1, rest, caps);
            if occurs_at(inp, rest, pos + 1) {
                assert(inp.subrange(pos, pos + p.len()) =~= seq![p[0]] + inp.subrange(
                    pos + 1,
                    pos + 1 + rest.len(),
                ));
                assert(p =~= seq![p[0]] + rest);
            } else if occurs_at(inp, p, pos) {
                assert(inp.subrange(pos + 1, pos + 1 + rest.len()) =~= inp.subrange(
                    pos,
                    pos + p.len(),
                ).subrange(1, p.len() as int));
            }
        } else {
            assert(m == None::<int>);
            if occurs_at(inp, p, pos) {
                assert(inp.subrange(pos, pos + p.len())[0] == inp[pos]);
            }
        }
    }
}

proof fn lemma_literal_scan(line: Seq<char>, p: Seq<char>, from: int)
    requires
        0 <= from,
        is_literal(p),
        p.len() > 0,
    ensures
        scan(line, p, from) == occurrences(line, p, from),
    decreases line.len() - from,
{
    if from < line.len() {
        lemma_literal_block(line, from, p, seq![]);
        if occurs_at(line, p, from) {
            lemma_literal_scan(line, p, from + p.len());
        } else {
            lemma_literal_scan(line, p, from + 1);
        }
    }
}

proof fn lemma_occurrences_nonempty(line: Seq<char>, p: Seq<char>, from: int)
    requires
        0 <= from,
        p.len() > 0,
    ensures
        occurrences(line, p, from).len() > 0 <==> exists|i: int| from <= i && occurs_at(line, p, i),
    decreases line.len() - from,
{
    if from + p.len() <= line.len() && !occurs_at(line, p, from) {
        lemma_occurrences_nonempty(line, p, from + 1);
        if exists|i: int| from <= i && occurs_at(line, p, i) {
            let i = choose|i: int| from <= i && occurs_at(line, p, i);
            assert(i != from);
            assert(from + 1 <= i && occurs_at(line, p, i));
        }
    } else if from + p.len() > line.len() {
        assert forall|i: int| from <= i implies !occurs_at(line, p, i) by {}
    }
}

/// For a non-empty pattern made of plain characters, the search returns
/// exactly its leftmost-first, non-overlapping occurrences in the line, and
/// finds something if and only if the pattern stands somewhere in the line.
pub proof fn literal_search(line: Seq<char>, p: Seq<char>)
    requires
        is_literal(p),
        p.len() > 0,
    ensures
        search(line, p) == occurrences(line, p, 0),
        search(line, p).len() > 0 <==> exists|i: int| occurs_at(line, p, i),
{
    assert(!is_meta(p[0]));
    assert(!is_meta(p.last()));
    assert(!trailing_optional(p));
    lemma_literal_scan(line, p, 0);
    lemma_occurrences_nonempty(line, p, 0);
    if exists|i: int| occurs_at(line, p, i) {
        let i = choose|i: int| occurs_at(line, p, i);
        assert(0 <= i && occurs_at(line, p, i));
    }
}

/// The pattern text still to match, followed by the continuation's, ends
/// with `$`.
pub open spec fn ends_anchored(pat: Seq<char>, cont: Cont) -> bool {
    match cont {
        None => pat.len() > 0 && pat.last() == '$',
        Some((rest, _)) => rest.len() > 0 && rest.last() == '$',
    }
}

/// Splitting off the first atom and its quantifier leaves the final `$` in
/// the rest, unless the atom is an unclosed bracket or group that runs to the
/// end and matches nothing.
proof fn lemma_split_keeps_anchor(p: Seq<char>)
    requires
        p.len() >= 2,
        p.last() == '$',
    ensures
        ({
            let a = atom_len(p);
            let q = quant_at(p, a);
            ||| (a + q.1 < p.len() && p.subrange(a + q.1, p.len() as int).last() == '$')
            ||| (q.1 == 0 && a == p.len() && p.subrange(0, a) == p && !is_group(p) && !is_class(p)
                && !is_backref(p) && p.len() >= 2 && !(p.len() == 2 && p[0] == '\\'))
        }),
{
    lemma_atom_len_bounds(p);
    let a = atom_len(p);
    lemma_quant_bounds(p, a);
    let q = quant_at(p, a);
    lemma_digit_run_bounds(p, 1);
    lemma_find_from_bounds(p, ']', 1);
    lemma_find_from_bounds(p, ')', 1);
    if a < p.len() && p[a] == '{' {
        lemma_find_from_bounds(p, '}', a + 1);
    }
    assert(p.subrange(0, p.len() as int) =~= p);
    if a + q.1 < p.len() {
        let rest = p.subrange(a + q.1, p.len() as int);
        assert(rest.last() == p.last());
    } else if q.1 > 0 {
        if p[a] == '{' {
            assert(p[find_from(p, '}', a + 1)] == '}');
        }
    } else if p[0] == '\\' && is_digit(p[1]) {
        assert(is_digit(p[p.len() - 1]));
    }
}

proof fn lemma_block_anchor(
    inp: Seq<char>,
    pos: int,
    pat: Seq<char>,
    caps: Seq<(int, int)>,
    cont: Cont,
)
    requires
        ends_anchored(pat, cont),
        block(inp, pos, pat, caps, cont) is Some,
    ensures
        block(inp, pos, pat, caps, cont) == Some(inp.len() as int),
    decreases 4 * pat.len() + cont_size(cont) + 4, 0int,
{
    if pat.len() == 0 {
        match cont {
            None => {},
            Some((rest, s)) => {
                lemma_block_anchor(inp, pos, rest, caps.push((s, pos)), None);
            },
        }
    } else if pat.len() == 1 && pat[0] == '$' && tail_is_empty(cont) {
    } else {
        lemma_atom_len_bounds(pat);
        lemma_quant_bounds(pat, atom_len(pat));
        let a = atom_len(pat);
        let atom = pat.subrange(0, a);
        let q = quant_at(pat, a);
        let rest = pat.subrange(a + q.1, pat.len() as int);
        if cont is None {
            lemma_split_keeps_anchor(pat);
        }
        assert(ends_anchored(rest, cont) || match_atom(inp, pos, atom, caps) is None);
        match q.0 {
            Quantifier::One => {
                if is_group(atom) {
                    if cont is None {
                        lemma_splice_anchor(inp, pos, inner(atom), 0, rest, caps);
                    }
                } else {
                    match match_atom(inp, pos, atom, caps) {
                        Some(w) => {
                            lemma_block_anchor(inp, pos + w, rest, caps, cont);
                        },
                        None => {},
                    }
                }
            },
            Quantifier::ZeroOrOne => {
                let m = match_atom(inp, pos, atom, caps);
                let e = match m {
                    Some(w) => pos + w,
                    None => pos,
                };
                let c = with_capture(caps, atom, pos, e, m is Some);
                assert(block(inp, pos, pat, caps, cont) == optional(inp, pos, atom, rest, caps, cont));
                assert(optional(inp, pos, atom, rest, caps, cont) == block(inp, e, rest, c, cont));
                lemma_block_anchor(inp, e, rest, c, cont);
            },
            _ => {
                let ends = seq![pos] + run(inp, pos, atom, caps, quant_max(q.0));
                let r = repeat(inp, pos, atom, rest, caps, cont, quant_min(q.0), quant_max(q.0));
                assert(block(inp, pos, pat, caps, cont) == r);
                assert(r == backoff(
                    inp,
                    pos,
                    atom,
                    rest,
                    caps,
                    cont,
                    ends,
                    ends.len() - 1,
                    quant_min(q.0),
                ));
                lemma_backoff_anchor(
                    inp,
                    pos,
                    atom,
                    rest,
                    caps,
                    cont,
                    ends,
                    ends.len() - 1,
                    quant_min(q.0),
                );
            },
        }
    }
}

proof fn lemma_splice_anchor(
    inp: Seq<char>,
    pos: int,
    body: Seq<char>,
    from: int,
    rest: Seq<char>,
    caps: Seq<(int, int)>,
)
    requires
        rest.len() > 0 && rest.last() == '$',
        splice(inp, pos, body, from, rest, caps) is Some,
    ensures
        splice(inp, pos, body, from, rest, caps) == Some(inp.len() as int),
    decreases 4 * body.len() + 4 * rest.len() + 9, body.len() + 1 - from,
{
    if 0 <= from <= body.len() {
        lemma_find_from_bounds(body, '|', from);
        let end = find_from(body, '|', from);
        let alt = body.subrange(from, end);
        match block(inp, pos, alt, caps, Some((rest, pos))) {
            Some(_) => {
                lemma_block_anchor(inp, pos, alt, caps, Some((rest, pos)));
            },
            None => {
                lemma_splice_anchor(inp, pos, body, end + 1, rest, caps);
            },
        }
    }
}

proof fn lemma_backoff_anchor(
    inp: Seq<char>,
    pos: int,
    atom: Seq<char>,
    rest: Seq<char>,
    caps: Seq<(int, int)>,
    cont: Cont,
    ends: Seq<int>,
    k: int,
    lo: int,
)
    requires
        ends_anchored(rest, cont),
        backoff(inp, pos, atom, rest, caps, cont, ends, k, lo) is Some,
    ensures
        backoff(inp, pos, atom, rest, caps, cont, ends, k, lo) == Some(inp.len() as int),
    decreases 4 * atom.len() + 4 * rest.len() + cont_size(cont) + 5, k + 1,
{
    if 0 <= k && lo <= k < ends.len() {
        let c = with_capture(caps, atom, pos, ends[k], k > 0);
        match block(inp, ends[k], rest, c, cont) {
            Some(_) => {
                lemma_block_anchor(inp, ends[k], rest, c, cont);
            },
            None => {
                lemma_backoff_anchor(inp, pos, atom, rest, caps, cont, ends, k - 1, lo);
            },
        }
    }
}

proof fn lemma_scan_anchor(line: Seq<char>, pat: Seq<char>, from: int)
    requires
        ends_anchored(pat, None),
        0 <= from,
    ensures
        scan(line, pat, from).len() <= 1,
        scan(line, pat, from).len() == 1 ==> scan(line, pat, from)[0] == line.subrange(
            line.len() - scan(line, pat, from)[0].len(),
            line.len() as int,
        ),
    decreases line.len() - from,
{
    if from < line.len() {
        match block(line, from, pat, seq![], None) {
            Some(e) => {
                lemma_block_anchor(line, from, pat, seq![], None);
                assert(scan(line, pat, e) == Seq::<Seq<char>>::empty());
                assert(scan(line, pat, from) =~= seq![line.subrange(from, e)]);
            },
            None => {
                lemma_scan_anchor(line, pat, from + 1);
            },
        }
    }
}

/// A pattern that starts with `^` is tried once, at offset 0: it finds at
/// most one match, found exactly when the rest of the pattern matches at
/// offset 0, and that match is a prefix of the line.
pub proof fn start_anchor_law(line: Seq<char>, p: Seq<char>)
    ensures
        ({
            let r = search(line, seq!['^'] + p);
            &&& r.len() <= 1
            &&& (r.len() == 1) == (block(line, 0, p, seq![], None) is Some)
            &&& r.len() == 1 ==> r[0] == line.subrange(0, block(line, 0, p, seq![], None)->0)
        }),
{
    let q = seq!['^'] + p;
    assert(q[0] == '^');
    assert(q.subrange(1, q.len() as int) =~= p);
}

/// A pattern that ends with `$` finds at most one match, and that match
/// ends where the line ends.
pub proof fn end_anchor_law(line: Seq<char>, p: Seq<char>)
    ensures
        ({
            let r = search(line, p + seq!['$']);
            &&& r.len() <= 1
            &&& r.len() == 1 ==> r[0] == line.subrange(line.len() - r[0].len(), line.len() as int)
        }),
{
    let q = p + seq!['$'];
    assert(q.last() == '$');
    if q[0] == '^' {
        let body = q.subrange(1, q.len() as int);
        assert(body.last() == '$');
        match block(line, 0, body, seq![], None) {
            Some(e) => {
                lemma_block_anchor(line, 0, body, seq![], None);
            },
            None => {},
        }
    } else if line.len() > 0 {
        lemma_scan_anchor(line, q, 0);
    }
}

proof fn lemma_run_within_limit(
    inp: Seq<char>,
    pos: int,
    atom: Seq<char>,
    caps: Seq<(int, int)>,
    m: nat,
)
    ensures
        run(inp, pos, atom, caps, Some(m)).len() <= m,
    decreases inp.len() - pos,
{
    if 0 <= pos < inp.len() && m != 0 {
        match match_atom(inp, pos, atom, caps) {
            Some(w) => {
                if 0 < w && pos + w <= inp.len() {
                    lemma_run_within_limit(inp, pos + w, atom, caps, (m - 1) as nat);
                }
            },
            None => {},
        }
    }
}

proof fn lemma_backoff_witness(
    inp: Seq<char>,
    pos: int,
    atom: Seq<char>,
    rest: Seq<char>,
    caps: Seq<(int, int)>,
    cont: Cont,
    ends: Seq<int>,
    k: int,
    lo: int,
)
    requires
        backoff(inp, pos, atom, rest, caps, cont, ends, k, lo) is Some,
    ensures
        exists|j: int|
            lo <= j <= k && 0 <= j < ends.len() && backoff(
                inp,
                pos,
                atom,
                rest,
                caps,
                cont,
                ends,
                k,
                lo,
            ) == block(
                inp,
                ends[j],
                rest,
                with_capture(caps, atom, pos, ends[j], j > 0),
                cont,
            ),
    decreases k + 1,
{
    let c = with_capture(caps, atom, pos, ends[k], k > 0);
    match block(inp, ends[k], rest, c, cont) {
        Some(_) => {
            assert(lo <= k <= k && 0 <= k < ends.len());
        },
        None => {
            lemma_backoff_witness(inp, pos, atom, rest, caps, cont, ends, k - 1, lo);
        },
    }
}

/// Bounded repetition `{n,m}` takes between `n` and `m` repetitions: the
/// greedy run stops after `m` even where more are available, fewer than `n`
/// available repetitions fail, and a success is the rest of the pattern
/// matched after some count `k` of repetitions with `n <= k <= m`.
pub proof fn between_law(
    inp: Seq<char>,
    pos: int,
    atom: Seq<char>,
    rest: Seq<char>,
    caps: Seq<(int, int)>,
    cont: Cont,
    n: nat,
    m: nat,
)
    ensures
        ({
            let steps = run(inp, pos, atom, caps, Some(m));
            let ends = seq![pos] + steps;
            let r = repeat(inp, pos, atom, rest, caps, cont, n as int, Some(m));
            &&& steps.len() <= m
            &&& steps.len() < n ==> r is None
            &&& r is Some ==> exists|k: int|
                n <= k <= steps.len() && r == block(
                    inp,
                    ends[k],
                    rest,
                    with_capture(caps, atom, pos, ends[k], k > 0),
                    cont,
                )
        }),
{
    lemma_run_within_limit(inp, pos, atom, caps, m);
    let steps = run(inp, pos, atom, caps, Some(m));
    let ends = seq![pos] + steps;
    let r = repeat(inp, pos, atom, rest, caps, cont, n as int, Some(m));
    assert(r == backoff(inp, pos, atom, rest, caps, cont, ends, ends.len() - 1, n as int));
    if r is Some {
        lemma_backoff_witness(inp, pos, atom, rest, caps, cont, ends, ends.len() - 1, n as int);
    }
}

/// Searching never depends on anything but the line and the pattern: equal
/// inputs give equal results.
pub proof fn search_is_deterministic(l1: Seq<char>, p1: Seq<char>, l2: Seq<char>, p2: Seq<char>)
    requires
        l1 == l2,
        p1 == p2,
    ensures
        search(l1, p1) == search(l2, p2),
{
}

} // verus!
