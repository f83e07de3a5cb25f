//! The executable matcher. Each function computes exactly the spec function
//! of `semantics` that it is named after in its contract.
use vstd::prelude::*;
use vstd::slice::slice_subrange;
use crate::syntax::{
    Quantifier, atom_length, digit_count, extract_quantifier, lemma_atom_len_bounds, lemma_digit_run_bounds, lemma_find_from_bounds, lemma_quant_bounds,
    find_char, number_value,
};
use crate::semantics::{
    Cont, backoff, is_group as is_group_atom, backref_width, block, cont_size, first_alone, in_class, match_atom, optional,
    repeat, run, splice,
};

verus! {

/// The capture list as spans of `int` positions.
pub open spec fn caps_view(c: Seq<(usize, usize)>) -> Seq<(int, int)> {
    c.map_values(|p: (usize, usize)| (p.0 as int, p.1 as int))
}

/// Every captured span lies within a line of length `n`.
pub open spec fn caps_fit(c: Seq<(usize, usize)>, n: int) -> bool {
    forall|i: int| 0 <= i < c.len() ==> #[trigger] c[i].0 <= c[i].1 && c[i].1 <= n
}

pub open spec fn cont_view(cont: Option<(&[char], usize)>) -> Cont {
    match cont {
        Some((rest, s)) => Some((rest@, s as int)),
        None => None,
    }
}

/// The group left open by the continuation began at or before `pos`.
pub open spec fn cont_fits(cont: Option<(&[char], usize)>, pos: usize) -> bool {
    match cont {
        Some((_, s)) => s <= pos,
        None => true,
    }
}

pub open spec fn pos_view(r: Option<usize>) -> Option<int> {
    match r {
        Some(e) => Some(e as int),
        None => None,
    }
}

pub open spec fn limit_view(l: Option<usize>) -> Option<nat> {
    match l {
        Some(n) => Some(n as nat),
        None => None,
    }
}

pub open spec fn ends_view(e: Seq<usize>) -> Seq<int> {
    e.map_values(|x: usize| x as int)
}

proof fn lemma_slice_len(s: &[char])
    ensures
        s@.len() <= usize::MAX,
{
    assert(s.len() == s@.len());
}

proof fn lemma_caps_push(c: Seq<(usize, usize)>, s: usize, e: usize)
    ensures
        caps_view(c.push((s, e))) == caps_view(c).push((s as int, e as int)),
{
    assert(caps_view(c.push((s, e))) =~= caps_view(c).push((s as int, e as int)));
}

proof fn lemma_caps_fit_push(c: Seq<(usize, usize)>, s: usize, e: usize, n: int)
    requires
        caps_fit(c, n),
        s <= e <= n,
    ensures
        caps_fit(c.push((s, e)), n),
{
    assert forall|i: int| 0 <= i < c.push((s, e)).len() implies #[trigger] c.push((s, e))[i].0
        <= c.push((s, e))[i].1 && c.push((s, e))[i].1 <= n by {
        if i < c.len() {
            assert(c.push((s, e))[i] == c[i]);
        }
    }
}

/// A copy of the capture list with the span `[s, e)` appended.
fn push_capture(caps: &Vec<(usize, usize)>, s: usize, e: usize) -> (r: Vec<(usize, usize)>)
    ensures
        r@ == caps@.push((s, e)),
        caps_view(r@) == caps_view(caps@).push((s as int, e as int)),
{
    let mut r: Vec<(usize, usize)> = Vec::new();
    let mut i: usize = 0;
    while i < caps.len()
        invariant
            i <= caps@.len(),
            r@ == caps@.subrange(0, i as int),
        decreases caps@.len() - i,
    {
        r.push(caps[i]);
        i = i + 1;
    }
    r.push((s, e));
    proof {
        assert(r@ =~= caps@.push((s, e)));
        lemma_caps_push(caps@, s, e);
    }
    r
}

/// Whether `c` is one of the members listed in the bracket body `set`.
pub fn match_any(set: &[char], c: char) -> (r: bool)
    ensures
        r == in_class(set@, c),
{
    let n = set.len();
    let mut i: usize = 0;
    assert(set@.subrange(0, n as int) =~= set@);
    while i < n
        invariant
            n == set@.len(),
            i <= n,
            in_class(set@, c) == in_class(set@.subrange(i as int, n as int), c),
        decreases n - i,
    {
        let sub = Ghost(set@.subrange(i as int, n as int));
        if i + 1 < n && set[i] == '\\' && (set[i + 1] == 'd' || set[i + 1] == 'w') {
            proof {
                assert(sub@.subrange(2, sub@.len() as int) =~= set@.subrange(i + 2, n as int));
            }
            let hit = if set[i + 1] == 'd' {
                '0' <= c && c <= '9'
            } else {
                ('a' <= c && c <= 'z') || ('A' <= c && c <= 'Z') || ('0' <= c && c <= '9') || c
                    == '_'
            };
            if hit {
                return true;
            }
            i = i + 2;
        } else {
            proof {
                assert(sub@.subrange(1, sub@.len() as int) =~= set@.subrange(i + 1, n as int));
            }
            if set[i] == c {
                return true;
            }
            i = i + 1;
        }
    }
    false
}

/// Whether `c` is none of the members listed in the bracket body `set`.
pub fn match_any_except(set: &[char], c: char) -> (r: bool)
    ensures
        r == !in_class(set@, c),
{
    !match_any(set, c)
}

/// Whether the `w` characters from `a` equal those from `b`.
fn same_text(inp: &[char], a: usize, b: usize, w: usize) -> (r: bool)
    requires
        a + w <= inp@.len(),
        b + w <= inp@.len(),
    ensures
        r == (inp@.subrange(a as int, a + w) == inp@.subrange(b as int, b + w)),
{
    let mut i: usize = 0;
    proof {
        lemma_slice_len(inp);
    }
    while i < w
        invariant
            i <= w,
            a + w <= inp@.len() <= usize::MAX,
            b + w <= inp@.len(),
            forall|k: int|
                0 <= k < i ==> #[trigger] inp@.subrange(a as int, a + w)[k] == inp@.subrange(
                    b as int,
                    b + w,
                )[k],
        decreases w - i,
    {
        if inp[a + i] != inp[b + i] {
            assert(inp@.subrange(a as int, a + w)[i as int] != inp@.subrange(b as int, b + w)[i as int]);
            return false;
        }
        i = i + 1;
    }
    assert(inp@.subrange(a as int, a + w) =~= inp@.subrange(b as int, b + w));
    true
}

/// A backreference: the text of capture `idx` (1-based) must stand again at `pos`.
fn match_backreference(inp: &[char], pos: usize, idx: usize, caps: &Vec<(usize, usize)>) -> (r:
    Option<usize>)
    requires
        pos <= inp@.len(),
        caps_fit(caps@, inp@.len() as int),
    ensures
        pos_view(r) == backref_width(inp@, pos as int, idx as nat, caps_view(caps@)),
        r matches Some(w) ==> pos + w <= inp@.len(),
{
    if 1 <= idx && idx <= caps.len() {
        let (s, e) = caps[idx - 1];
        assert(caps@[idx - 1].0 <= caps@[idx - 1].1);
        let w = e - s;
        if w <= inp.len() - pos && same_text(inp, pos, s, w) {
            Some(w)
        } else {
            None
        }
    } else {
        None
    }
}

/// The atom matcher: how many characters `atom` consumes at `pos`.
pub fn match_pattern(inp: &[char], pos: usize, atom: &[char], caps: &Vec<(usize, usize)>) -> (r:
    Option<usize>)
    requires
        pos <= inp@.len(),
        caps_fit(caps@, inp@.len() as int),
    ensures
        pos_view(r) == match_atom(inp@, pos as int, atom@, caps_view(caps@)),
        r matches Some(w) ==> pos + w <= inp@.len(),
    decreases 4 * atom@.len() + 1, 0int,
{
    let n = atom.len();
    if pos >= inp.len() {
        None
    } else if n >= 2 && atom[0] == '(' && atom[n - 1] == ')' {
        let body = slice_subrange(atom, 1, n - 1);
        match match_or(inp, pos, body, caps) {
            Some(e) => Some(e - pos),
            None => None,
        }
    } else if n >= 2 && atom[0] == '[' && atom[n - 1] == ']' {
        let body = slice_subrange(atom, 1, n - 1);
        let c = inp[pos];
        let ok = if body.len() > 0 && body[0] == '^' {
            match_any_except(slice_subrange(body, 1, body.len()), c)
        } else {
            match_any(body, c)
        };
        if ok {
            Some(1)
        } else {
            None
        }
    } else if n == 2 && atom[0] == '\\' && atom[1] == 'd' {
        let c = inp[pos];
        if '0' <= c && c <= '9' {
            Some(1)
        } else {
            None
        }
    } else if n == 2 && atom[0] == '\\' && atom[1] == 'w' {
        let c = inp[pos];
        if ('a' <= c && c <= 'z') || ('A' <= c && c <= 'Z') || ('0' <= c && c <= '9') || c == '_' {
            Some(1)
        } else {
            None
        }
    } else if n >= 2 && atom[0] == '\\' && digit_count(atom, 1) == n - 1 {
        proof {
            lemma_digit_run_bounds(atom@, 1);
        }
        let idx = number_value(atom, 1, n);
        match_backreference(inp, pos, idx, caps)
    } else if n == 1 && (atom[0] == '.' || atom[0] == inp[pos]) {
        Some(1)
    } else {
        None
    }
}

/// Ordered choice among the alternatives of a group body: where the first
/// one that matches by itself at `pos` ends.
pub fn match_or(inp: &[char], pos: usize, body: &[char], caps: &Vec<(usize, usize)>) -> (r: Option<
    usize,
>)
    requires
        pos <= inp@.len(),
        caps_fit(caps@, inp@.len() as int),
    ensures
        pos_view(r) == first_alone(inp@, pos as int, body@, 0, caps_view(caps@)),
        r matches Some(e) ==> pos <= e <= inp@.len(),
    decreases 4 * body@.len() + 5, 0int,
{
    let mut from: usize = 0;
    loop
        invariant
            from <= body@.len(),
            pos <= inp@.len(),
            caps_fit(caps@, inp@.len() as int),
            first_alone(inp@, pos as int, body@, 0, caps_view(caps@)) == first_alone(
                inp@,
                pos as int,
                body@,
                from as int,
                caps_view(caps@),
            ),
        decreases body@.len() - from,
    {
        let end = find_char(body, '|', from);
        proof {
            lemma_find_from_bounds(body@, '|', from as int);
        }
        let alt = slice_subrange(body, from, end);
        let r = match_block(inp, pos, alt, caps, None);
        if r.is_some() {
            return r;
        }
        if end >= body.len() {
            assert(first_alone(inp@, pos as int, body@, end + 1, caps_view(caps@)) == None::<int>);
            return None;
        }
        from = end + 1;
    }
}

/// Spliced alternation: the first alternative of the group body that
/// matches followed by `rest`; the group's capture is recorded where the
/// alternative ends.
fn match_spliced(
    inp: &[char],
    pos: usize,
    body: &[char],
    rest: &[char],
    caps: &Vec<(usize, usize)>,
) -> (r: Option<usize>)
    requires
        pos <= inp@.len(),
        caps_fit(caps@, inp@.len() as int),
    ensures
        pos_view(r) == splice(inp@, pos as int, body@, 0, rest@, caps_view(caps@)),
        r matches Some(e) ==> pos <= e <= inp@.len(),
    decreases 4 * body@.len() + 4 * rest@.len() + 9, 0int,
{
    let mut from: usize = 0;
    loop
        invariant
            from <= body@.len(),
            pos <= inp@.len(),
            caps_fit(caps@, inp@.len() as int),
            splice(inp@, pos as int, body@, 0, rest@, caps_view(caps@)) == splice(
                inp@,
                pos as int,
                body@,
                from as int,
                rest@,
                caps_view(caps@),
            ),
        decreases body@.len() - from,
    {
        let end = find_char(body, '|', from);
        proof {
            lemma_find_from_bounds(body@, '|', from as int);
        }
        let alt = slice_subrange(body, from, end);
        let r = match_block(inp, pos, alt, caps, Some((rest, pos)));
        if r.is_some() {
            return r;
        }
        if end >= body.len() {
            assert(splice(inp@, pos as int, body@, end + 1, rest@, caps_view(caps@)) == None::<int>);
            return None;
        }
        from = end + 1;
    }
}

/// The greedy run of `atom` from `pos`, at most `limit` repetitions: `pos`
/// followed by where each repetition ends.
pub fn repetitions(
    inp: &[char],
    pos: usize,
    atom: &[char],
    caps: &Vec<(usize, usize)>,
    limit: Option<usize>,
) -> (r: Vec<usize>)
    requires
        pos <= inp@.len(),
        caps_fit(caps@, inp@.len() as int),
    ensures
        ends_view(r@) == seq![pos as int] + run(
            inp@,
            pos as int,
            atom@,
            caps_view(caps@),
            limit_view(limit),
        ),
        r@.len() >= 1,
        r@.len() <= inp@.len() - pos + 1,
        forall|i: int| 0 <= i < r@.len() ==> pos <= #[trigger] r@[i] <= inp@.len(),
    decreases 4 * atom@.len() + 2, 0int,
{
    let mut ends: Vec<usize> = Vec::new();
    ends.push(pos);
    let mut cur: usize = pos;
    let mut left = limit;
    let mut go = true;
    while go
        invariant
            pos <= cur <= inp@.len(),
            caps_fit(caps@, inp@.len() as int),
            1 <= ends@.len() <= cur - pos + 1,
            forall|i: int| 0 <= i < ends@.len() ==> pos <= #[trigger] ends@[i] <= cur,
            go ==> ends_view(ends@) + run(inp@, cur as int, atom@, caps_view(caps@), limit_view(left))
                == seq![pos as int] + run(
                inp@,
                pos as int,
                atom@,
                caps_view(caps@),
                limit_view(limit),
            ),
            !go ==> ends_view(ends@) == seq![pos as int] + run(
                inp@,
                pos as int,
                atom@,
                caps_view(caps@),
                limit_view(limit),
            ),
        decreases inp@.len() - cur, if go { 1int } else { 0int },
    {
        let stop = match left {
            Some(k) => k == 0,
            None => false,
        };
        if cur >= inp.len() || stop {
            proof {
                assert(ends_view(ends@) + seq![] =~= ends_view(ends@));
            }
            go = false;
        } else {
            match match_pattern(inp, cur, atom, caps) {
                Some(w) => {
                    if w > 0 {
                        let ghost old_ends = ends@;
                        ends.push(cur + w);
                        proof {
                            assert(ends_view(ends@) =~= ends_view(old_ends).push(cur + w));
                            let tail = run(
                                inp@,
                                cur + w,
                                atom@,
                                caps_view(caps@),
                                limit_view(
                                    match left {
                                        Some(k) => Some((k - 1) as usize),
                                        None => None,
                                    },
                                ),
                            );
                            assert(ends_view(old_ends) + (seq![cur + w as int] + tail) =~= ends_view(
                                ends@,
                            ) + tail);
                        }
                        cur = cur + w;
                        left = match left {
                            Some(k) => Some(k - 1),
                            None => None,
                        };
                    } else {
                        proof {
                            assert(ends_view(ends@) + seq![] =~= ends_view(ends@));
                        }
                        go = false;
                    }
                },
                None => {
                    proof {
                        assert(ends_view(ends@) + seq![] =~= ends_view(ends@));
                    }
                    go = false;
                },
            }
        }
    }
    ends
}

/// Tries the repetition counts from the greatest down to `lo`: after count
/// `k`, which ends at `ends[k]`, the rest of the pattern must match.
pub fn backtrack(
    inp: &[char],
    pos: usize,
    atom: &[char],
    rest: &[char],
    caps: &Vec<(usize, usize)>,
    cont: Option<(&[char], usize)>,
    ends: &Vec<usize>,
    lo: usize,
) -> (r: Option<usize>)
    requires
        pos <= inp@.len(),
        caps_fit(caps@, inp@.len() as int),
        cont_fits(cont, pos),
        forall|i: int| 0 <= i < ends@.len() ==> pos <= #[trigger] ends@[i] <= inp@.len(),
    ensures
        pos_view(r) == backoff(
            inp@,
            pos as int,
            atom@,
            rest@,
            caps_view(caps@),
            cont_view(cont),
            ends_view(ends@),
            ends@.len() - 1,
            lo as int,
        ),
        r matches Some(f) ==> pos <= f <= inp@.len(),
    decreases 4 * atom@.len() + 4 * rest@.len() + cont_size(cont_view(cont)) + 5, 0int,
{
    let is_group = atom.len() >= 2 && atom[0] == '(' && atom[atom.len() - 1] == ')';
    let mut k: usize = ends.len();
    while k > 0 && k > lo
        invariant
            is_group == is_group_atom(atom@),
            k <= ends@.len(),
            pos <= inp@.len(),
            caps_fit(caps@, inp@.len() as int),
            cont_fits(cont, pos),
            forall|i: int| 0 <= i < ends@.len() ==> pos <= #[trigger] ends@[i] <= inp@.len(),
            backoff(
                inp@,
                pos as int,
                atom@,
                rest@,
                caps_view(caps@),
                cont_view(cont),
                ends_view(ends@),
                ends@.len() - 1,
                lo as int,
            ) == backoff(
                inp@,
                pos as int,
                atom@,
                rest@,
                caps_view(caps@),
                cont_view(cont),
                ends_view(ends@),
                k - 1,
                lo as int,
            ),
        decreases k,
    {
        let e = ends[k - 1];
        assert(ends_view(ends@)[k - 1] == e as int);
        let r = if is_group && k > 1 {
            let c2 = push_capture(caps, pos, e);
            proof {
                lemma_caps_fit_push(caps@, pos, e, inp@.len() as int);
            }
            match_block(inp, e, rest, &c2, cont)
        } else {
            match_block(inp, e, rest, caps, cont)
        };
        if r.is_some() {
            return r;
        }
        k = k - 1;
    }
    None
}

/// Greedy repetition of `atom`, between `lo` and `hi` times, backing off
/// until `rest` matches.
pub fn match_repeat(
    inp: &[char],
    pos: usize,
    atom: &[char],
    rest: &[char],
    caps: &Vec<(usize, usize)>,
    cont: Option<(&[char], usize)>,
    lo: usize,
    hi: Option<usize>,
) -> (r: Option<usize>)
    requires
        pos <= inp@.len(),
        caps_fit(caps@, inp@.len() as int),
        cont_fits(cont, pos),
    ensures
        pos_view(r) == repeat(
            inp@,
            pos as int,
            atom@,
            rest@,
            caps_view(caps@),
            cont_view(cont),
            lo as int,
            limit_view(hi),
        ),
        r matches Some(f) ==> pos <= f <= inp@.len(),
    decreases 4 * atom@.len() + 4 * rest@.len() + cont_size(cont_view(cont)) + 6, 0int,
{
    let ends = repetitions(inp, pos, atom, caps, hi);
    backtrack(inp, pos, atom, rest, caps, cont, &ends, lo)
}

/// `+`: one or more repetitions.
pub fn match_one_or_more(
    inp: &[char],
    pos: usize,
    atom: &[char],
    rest: &[char],
    caps: &Vec<(usize, usize)>,
    cont: Option<(&[char], usize)>,
) -> (r: Option<usize>)
    requires
        pos <= inp@.len(),
        caps_fit(caps@, inp@.len() as int),
        cont_fits(cont, pos),
    ensures
        pos_view(r) == repeat(
            inp@,
            pos as int,
            atom@,
            rest@,
            caps_view(caps@),
            cont_view(cont),
            1,
            None,
        ),
        r matches Some(f) ==> pos <= f <= inp@.len(),
    decreases 4 * atom@.len() + 4 * rest@.len() + cont_size(cont_view(cont)) + 6, 1int,
{
    match_repeat(inp, pos, atom, rest, caps, cont, 1, None)
}

/// `*`: any number of repetitions, zero included.
pub fn match_n(
    inp: &[char],
    pos: usize,
    atom: &[char],
    rest: &[char],
    caps: &Vec<(usize, usize)>,
    cont: Option<(&[char], usize)>,
) -> (r: Option<usize>)
    requires
        pos <= inp@.len(),
        caps_fit(caps@, inp@.len() as int),
        cont_fits(cont, pos),
    ensures
        pos_view(r) == repeat(
            inp@,
            pos as int,
            atom@,
            rest@,
            caps_view(caps@),
            cont_view(cont),
            0,
            None,
        ),
        r matches Some(f) ==> pos <= f <= inp@.len(),
    decreases 4 * atom@.len() + 4 * rest@.len() + cont_size(cont_view(cont)) + 6, 1int,
{
    match_repeat(inp, pos, atom, rest, caps, cont, 0, None)
}

/// `{n}`: exactly `n` repetitions.
pub fn match_exactly(
    inp: &[char],
    pos: usize,
    atom: &[char],
    rest: &[char],
    caps: &Vec<(usize, usize)>,
    cont: Option<(&[char], usize)>,
    n: usize,
) -> (r: Option<usize>)
    requires
        pos <= inp@.len(),
        caps_fit(caps@, inp@.len() as int),
        cont_fits(cont, pos),
    ensures
        pos_view(r) == repeat(
            inp@,
            pos as int,
            atom@,
            rest@,
            caps_view(caps@),
            cont_view(cont),
            n as int,
            Some(n as nat),
        ),
        r matches Some(f) ==> pos <= f <= inp@.len(),
    decreases 4 * atom@.len() + 4 * rest@.len() + cont_size(cont_view(cont)) + 6, 1int,
{
    match_repeat(inp, pos, atom, rest, caps, cont, n, Some(n))
}

/// `{n,}`: at least `n` repetitions.
pub fn match_at_least(
    inp: &[char],
    pos: usize,
    atom: &[char],
    rest: &[char],
    caps: &Vec<(usize, usize)>,
    cont: Option<(&[char], usize)>,
    n: usize,
) -> (r: Option<usize>)
    requires
        pos <= inp@.len(),
        caps_fit(caps@, inp@.len() as int),
        cont_fits(cont, pos),
    ensures
        pos_view(r) == repeat(
            inp@,
            pos as int,
            atom@,
            rest@,
            caps_view(caps@),
            cont_view(cont),
            n as int,
            None,
        ),
        r matches Some(f) ==> pos <= f <= inp@.len(),
    decreases 4 * atom@.len() + 4 * rest@.len() + cont_size(cont_view(cont)) + 6, 1int,
{
    match_repeat(inp, pos, atom, rest, caps, cont, n, None)
}

/// `{n,m}`: between `n` and `m` repetitions.
pub fn match_between(
    inp: &[char],
    pos: usize,
    atom: &[char],
    rest: &[char],
    caps: &Vec<(usize, usize)>,
    cont: Option<(&[char], usize)>,
    n: usize,
    m: usize,
) -> (r: Option<usize>)
    requires
        pos <= inp@.len(),
        caps_fit(caps@, inp@.len() as int),
        cont_fits(cont, pos),
    ensures
        pos_view(r) == repeat(
            inp@,
            pos as int,
            atom@,
            rest@,
            caps_view(caps@),
            cont_view(cont),
            n as int,
            Some(m as nat),
        ),
        r matches Some(f) ==> pos <= f <= inp@.len(),
    decreases 4 * atom@.len() + 4 * rest@.len() + cont_size(cont_view(cont)) + 6, 1int,
{
    match_repeat(inp, pos, atom, rest, caps, cont, n, Some(m))
}

/// `?`: one repetition when the atom matches, else none; never backtracks.
pub fn match_one_or_none(
    inp: &[char],
    pos: usize,
    atom: &[char],
    rest: &[char],
    caps: &Vec<(usize, usize)>,
    cont: Option<(&[char], usize)>,
) -> (r: Option<usize>)
    requires
        pos <= inp@.len(),
        caps_fit(caps@, inp@.len() as int),
        cont_fits(cont, pos),
    ensures
        pos_view(r) == optional(inp@, pos as int, atom@, rest@, caps_view(caps@), cont_view(cont)),
        r matches Some(f) ==> pos <= f <= inp@.len(),
    decreases 4 * atom@.len() + 4 * rest@.len() + cont_size(cont_view(cont)) + 6, 0int,
{
    proof {
        lemma_slice_len(inp);
    }
    let m = match_pattern(inp, pos, atom, caps);
    let e = match m {
        Some(w) => pos + w,
        None => pos,
    };
    if m.is_some() && atom.len() >= 2 && atom[0] == '(' && atom[atom.len() - 1] == ')' {
        let c2 = push_capture(caps, pos, e);
        proof {
            lemma_caps_fit_push(caps@, pos, e, inp@.len() as int);
        }
        match_block(inp, e, rest, &c2, cont)
    } else {
        match_block(inp, e, rest, caps, cont)
    }
}

/// The block matcher: where matching the pattern text `pat`, then the
/// pending continuation, from `pos` ends.
pub fn match_block(
    inp: &[char],
    pos: usize,
    pat: &[char],
    caps: &Vec<(usize, usize)>,
    cont: Option<(&[char], usize)>,
) -> (r: Option<usize>)
    requires
        pos <= inp@.len(),
        caps_fit(caps@, inp@.len() as int),
        cont_fits(cont, pos),
    ensures
        pos_view(r) == block(inp@, pos as int, pat@, caps_view(caps@), cont_view(cont)),
        r matches Some(e) ==> pos <= e <= inp@.len(),
    decreases 4 * pat@.len() + cont_size(cont_view(cont)) + 4, 0int,
{
    let tail_empty = match cont {
        Some((rest, _)) => rest.len() == 0,
        None => true,
    };
    if pat.len() == 0 {
        match cont {
            None => Some(pos),
            Some((rest, s)) => {
                let c2 = push_capture(caps, s, pos);
                proof {
                    lemma_caps_fit_push(caps@, s, pos, inp@.len() as int);
                }
                match_block(inp, pos, rest, &c2, None)
            },
        }
    } else if pat.len() == 1 && pat[0] == '$' && tail_empty {
        if pos == inp.len() {
            Some(pos)
        } else {
            None
        }
    } else {
        let a = atom_length(pat);
        proof {
            lemma_slice_len(inp);
            lemma_atom_len_bounds(pat@);
            lemma_quant_bounds(pat@, a as int);
        }
        let atom = slice_subrange(pat, 0, a);
        let (q, ql) = extract_quantifier(pat, a);
        let rest = slice_subrange(pat, a + ql, pat.len());
        match q {
            Quantifier::One => {
                if atom.len() >= 2 && atom[0] == '(' && atom[atom.len() - 1] == ')' {
                    if cont.is_none() {
                        let body = slice_subrange(atom, 1, atom.len() - 1);
                        match_spliced(inp, pos, body, rest, caps)
                    } else {
                        None
                    }
                } else {
                    match match_pattern(inp, pos, atom, caps) {
                        Some(w) => match_block(inp, pos + w, rest, caps, cont),
                        None => None,
                    }
                }
            },
            Quantifier::ZeroOrOne => match_one_or_none(inp, pos, atom, rest, caps, cont),
            Quantifier::OneOrMore => match_one_or_more(inp, pos, atom, rest, caps, cont),
            Quantifier::ZeroOrMore => match_n(inp, pos, atom, rest, caps, cont),
            Quantifier::Exactly(n) => match_exactly(inp, pos, atom, rest, caps, cont, n),
            Quantifier::AtLeast(n) => match_at_least(inp, pos, atom, rest, caps, cont, n),
            Quantifier::Between(n, m) => match_between(inp, pos, atom, rest, caps, cont, n, m),
        }
    }
}

} // verus!
