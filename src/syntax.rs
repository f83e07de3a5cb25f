//! Surface syntax of patterns: character classes of the shorthand escapes,
//! extraction of the next atom from pattern text, and the quantifier that
//! may follow it.
use vstd::prelude::*;
use vstd::slice::slice_subrange;

verus! {

/// An ASCII decimal digit, the class of `\d`.
pub open spec fn is_digit(c: char) -> bool {
    '0' <= c && c <= '9'
}

/// An ASCII letter, digit or underscore, the class of `\w`.
pub open spec fn is_word(c: char) -> bool {
    ('a' <= c && c <= 'z') || ('A' <= c && c <= 'Z') || is_digit(c) || c == '_'
}

/// The value of a digit character.
pub open spec fn digit_value(c: char) -> nat {
    ((c as u32) - ('0' as u32)) as nat
}

/// How many digits follow one another in `s` from index `i` on.
pub open spec fn digit_run(s: Seq<char>, i: int) -> nat
    decreases s.len() - i,
{
    if 0 <= i < s.len() && is_digit(s[i]) {
        1 + digit_run(s, i + 1)
    } else {
        0
    }
}

/// Index of the first `c` in `s` at or after `i`; `s.len()` when there is none.
pub open spec fn find_from(s: Seq<char>, c: char, i: int) -> int
    decreases s.len() - i,
{
    if i >= s.len() {
        s.len() as int
    } else if s[i] == c {
        i
    } else {
        find_from(s, c, i + 1)
    }
}

/// One more decimal digit appended to `v`, saturating at `usize::MAX`.
pub open spec fn saturating_step(v: nat, d: nat) -> nat {
    if v * 10 + d > usize::MAX {
        usize::MAX as nat
    } else {
        v * 10 + d
    }
}

/// The decimal number written by the digits `s`, saturating at `usize::MAX`.
pub open spec fn number_of(s: Seq<char>) -> nat
    decreases s.len(),
{
    if s.len() == 0 {
        0
    } else {
        saturating_step(number_of(s.drop_last()), digit_value(s.last()))
    }
}

/// Length of the span from index 0 up to and including the first `close`
/// after index 0; the whole text when there is no such character.
pub open spec fn closing_len(p: Seq<char>, close: char) -> int {
    let j = find_from(p, close, 1);
    if j < p.len() {
        j + 1
    } else {
        p.len() as int
    }
}

/// Length of the atom at the start of pattern text `p`: a backreference
/// (backslash and digits), `\d` or `\w`, a bracket class up to the first `]`,
/// a group up to the first `)`, or else one character.
pub open spec fn atom_len(p: Seq<char>) -> int {
    if p.len() == 0 {
        0
    } else if p[0] == '\\' && p.len() >= 2 && is_digit(p[1]) {
        1 + digit_run(p, 1) as int
    } else if p[0] == '\\' && p.len() >= 2 && (p[1] == 'd' || p[1] == 'w') {
        2
    } else if p[0] == '[' {
        closing_len(p, ']')
    } else if p[0] == '(' {
        closing_len(p, ')')
    } else {
        1
    }
}

/// Repetition bound to the atom that precedes it.
#[derive(Clone, Copy, Debug, PartialEq, Eq)]
pub enum Quantifier {
    One,
    OneOrMore,
    ZeroOrMore,
    ZeroOrOne,
    Exactly(usize),
    AtLeast(usize),
    Between(usize, usize),
}

/// The quantifier written by the body `b` of a brace: `n`, `n,` or `n,m`.
pub open spec fn brace_quantifier(b: Seq<char>) -> Option<Quantifier> {
    let k = digit_run(b, 0);
    if k == 0 {
        None
    } else if k == b.len() {
        Some(Quantifier::Exactly(number_of(b) as usize))
    } else if b[k as int] == ',' {
        let lo = number_of(b.subrange(0, k as int)) as usize;
        let hi = b.subrange(k as int + 1, b.len() as int);
        if hi.len() == 0 {
            Some(Quantifier::AtLeast(lo))
        } else if digit_run(hi, 0) == hi.len() {
            Some(Quantifier::Between(lo, number_of(hi) as usize))
        } else {
            None
        }
    } else {
        None
    }
}

/// The quantifier at index `a` of pattern text `p` and the number of
/// characters it takes; `(One, 0)` when none stands there.
pub open spec fn quant_at(p: Seq<char>, a: int) -> (Quantifier, int) {
    if a < 0 || a >= p.len() {
        (Quantifier::One, 0)
    } else if p[a] == '+' {
        (Quantifier::OneOrMore, 1)
    } else if p[a] == '*' {
        (Quantifier::ZeroOrMore, 1)
    } else if p[a] == '?' {
        (Quantifier::ZeroOrOne, 1)
    } else if p[a] == '{' {
        let j = find_from(p, '}', a + 1);
        if j < p.len() {
            match brace_quantifier(p.subrange(a + 1, j)) {
                Some(q) => (q, j - a + 1),
                None => (Quantifier::One, 0),
            }
        } else {
            (Quantifier::One, 0)
        }
    } else {
        (Quantifier::One, 0)
    }
}

pub proof fn lemma_digit_run_bounds(s: Seq<char>, i: int)
    requires
        0 <= i <= s.len(),
    ensures
        i + digit_run(s, i) <= s.len(),
        forall|k: int| i <= k < i + digit_run(s, i) ==> is_digit(#[trigger] s[k]),
        i + digit_run(s, i) < s.len() ==> !is_digit(s[i + digit_run(s, i)]),
    decreases s.len() - i,
{
    if i < s.len() && is_digit(s[i]) {
        lemma_digit_run_bounds(s, i + 1);
    }
}

pub proof fn lemma_find_from_bounds(s: Seq<char>, c: char, i: int)
    requires
        0 <= i <= s.len(),
    ensures
        i <= find_from(s, c, i) <= s.len(),
        find_from(s, c, i) < s.len() ==> s[find_from(s, c, i)] == c,
        forall|k: int| i <= k < find_from(s, c, i) ==> #[trigger] s[k] != c,
    decreases s.len() - i,
{
    if i < s.len() && s[i] != c {
        lemma_find_from_bounds(s, c, i + 1);
    }
}

pub proof fn lemma_atom_len_bounds(p: Seq<char>)
    requires
        p.len() > 0,
    ensures
        1 <= atom_len(p) <= p.len(),
{
    if p.len() >= 2 {
        lemma_digit_run_bounds(p, 1);
    }
    lemma_find_from_bounds(p, ']', 1);
    lemma_find_from_bounds(p, ')', 1);
}

pub proof fn lemma_quant_bounds(p: Seq<char>, a: int)
    requires
        0 <= a <= p.len(),
    ensures
        0 <= quant_at(p, a).1,
        a + quant_at(p, a).1 <= p.len(),
        (quant_at(p, a).0 == Quantifier::One) <==> quant_at(p, a).1 == 0,
{
    if a < p.len() && p[a] == '{' {
        lemma_find_from_bounds(p, '}', a + 1);
    }
}

/// Decimal value of the digits `p[from..to]`, saturating at `usize::MAX`.
pub fn number_value(p: &[char], from: usize, to: usize) -> (r: usize)
    requires
        from <= to <= p@.len(),
        forall|k: int| from <= k < to ==> is_digit(#[trigger] p@[k]),
    ensures
        r == number_of(p@.subrange(from as int, to as int)),
{
    let mut v: usize = 0;
    let mut i: usize = from;
    while i < to
        invariant
            from <= i <= to <= p@.len(),
            forall|k: int| from <= k < to ==> is_digit(#[trigger] p@[k]),
            v == number_of(p@.subrange(from as int, i as int)),
        decreases to - i,
    {
        let c = p[i];
        assert(is_digit(p@[i as int]));
        let d: usize = (c as u32 - '0' as u32) as usize;
        assert(d == digit_value(c));
        assert(d <= 9);
        proof {
            let s = p@.subrange(from as int, i as int + 1);
            assert(s.drop_last() =~= p@.subrange(from as int, i as int));
            assert(s.last() == c);
        }
        if v > (usize::MAX - d) / 10 {
            assert(v * 10 + d > usize::MAX) by (nonlinear_arith)
                requires
                    v > (usize::MAX - d) / 10,
                    d <= 9,
            ;
            v = usize::MAX;
        } else {
            assert(v * 10 + d <= usize::MAX) by (nonlinear_arith)
                requires
                    v <= (usize::MAX - d) / 10,
                    d <= 9,
            ;
            v = v * 10 + d;
        }
        i = i + 1;
    }
    v
}

/// Number of digits in `p` from index `i` on.
pub fn digit_count(p: &[char], i: usize) -> (r: usize)
    requires
        i <= p@.len(),
    ensures
        r == digit_run(p@, i as int),
{
    let mut j: usize = i;
    while j < p.len() && '0' <= p[j] && p[j] <= '9'
        invariant
            i <= j <= p@.len(),
            digit_run(p@, i as int) == (j - i) + digit_run(p@, j as int),
        decreases p@.len() - j,
    {
        j = j + 1;
    }
    j - i
}

/// Index of the first `c` in `p` at or after `i`; `p.len()` when there is none.
pub fn find_char(p: &[char], c: char, i: usize) -> (r: usize)
    requires
        i <= p@.len(),
    ensures
        r == find_from(p@, c, i as int),
{
    let mut j: usize = i;
    while j < p.len() && p[j] != c
        invariant
            i <= j <= p@.len(),
            find_from(p@, c, i as int) == find_from(p@, c, j as int),
        decreases p@.len() - j,
    {
        j = j + 1;
    }
    j
}

/// Length of the atom at the start of the pattern text `p`.
pub fn atom_length(p: &[char]) -> (r: usize)
    ensures
        r == atom_len(p@),
{
    let n = p.len();
    if n == 0 {
        0
    } else if p[0] == '\\' && n >= 2 && '0' <= p[1] && p[1] <= '9' {
        proof {
            lemma_digit_run_bounds(p@, 1);
        }
        1 + digit_count(p, 1)
    } else if p[0] == '\\' && n >= 2 && (p[1] == 'd' || p[1] == 'w') {
        2
    } else if p[0] == '[' || p[0] == '(' {
        let close = if p[0] == '[' {
            ']'
        } else {
            ')'
        };
        let j = find_char(p, close, 1);
        if j < n {
            j + 1
        } else {
            n
        }
    } else {
        1
    }
}

/// The quantifier written at index `skip` of the pattern text, with the number
/// of characters it takes (`(One, 0)` where none is written).
pub fn extract_quantifier(pattern: &[char], skip: usize) -> (r: (Quantifier, usize))
    requires
        skip <= pattern@.len(),
    ensures
        r.0 == quant_at(pattern@, skip as int).0,
        r.1 == quant_at(pattern@, skip as int).1,
{
    let n = pattern.len();
    if skip >= n {
        (Quantifier::One, 0)
    } else if pattern[skip] == '+' {
        (Quantifier::OneOrMore, 1)
    } else if pattern[skip] == '*' {
        (Quantifier::ZeroOrMore, 1)
    } else if pattern[skip] == '?' {
        (Quantifier::ZeroOrOne, 1)
    } else if pattern[skip] == '{' {
        let j = find_char(pattern, '}', skip + 1);
        proof {
            lemma_find_from_bounds(pattern@, '}', skip + 1);
        }
        if j < n {
            let body = slice_subrange(pattern, skip + 1, j);
            match brace_body(body) {
                Some(q) => (q, j - skip + 1),
                None => (Quantifier::One, 0),
            }
        } else {
            (Quantifier::One, 0)
        }
    } else {
        (Quantifier::One, 0)
    }
}

/// The quantifier written by the body of a brace.
fn brace_body(b: &[char]) -> (r: Option<Quantifier>)
    ensures
        r == brace_quantifier(b@),
{
    let k = digit_count(b, 0);
    proof {
        lemma_digit_run_bounds(b@, 0);
    }
    if k == 0 {
        None
    } else if k == b.len() {
        proof {
            assert(b@.subrange(0, k as int) =~= b@);
        }
        Some(Quantifier::Exactly(number_value(b, 0, k)))
    } else if b[k] == ',' {
        let lo = number_value(b, 0, k);
        let hi = slice_subrange(b, k + 1, b.len());
        let hk = digit_count(hi, 0);
        proof {
            lemma_digit_run_bounds(hi@, 0);
            assert(hi@ =~= b@.subrange(k + 1, b@.len() as int));
        }
        if hi.len() == 0 {
            Some(Quantifier::AtLeast(lo))
        } else if hk == hi.len() {
            proof {
                assert(hi@.subrange(0, hk as int) =~= hi@);
            }
            Some(Quantifier::Between(lo, number_value(hi, 0, hk)))
        } else {
            None
        }
    } else {
        None
    }
}

} // verus!
