//! Which pattern texts are well formed. A search tool rejects the others
//! before any matching: the matcher gives them a meaning, but not one that
//! the pattern language promises.
use vstd::prelude::*;
use vstd::slice::slice_subrange;
use crate::syntax::{
    atom_len, atom_length, extract_quantifier, find_char, find_from, lemma_atom_len_bounds,
    lemma_find_from_bounds, lemma_quant_bounds, quant_at,
};
use crate::semantics::{inner, is_class, is_group};
use crate::search::chars_of;

verus! {

/// A character that cannot begin an atom: a quantifier with nothing to
/// repeat, or a group delimiter outside a group.
pub open spec fn starts_no_atom(c: char) -> bool {
    c == '+' || c == '*' || c == '?' || c == '{' || c == ')' || c == '|'
}

/// A well-formed atom other than a group.
pub open spec fn simple_atom_ok(atom: Seq<char>) -> bool {
    &&& atom.len() >= 1
    &&& atom[0] != '('
    &&& (atom[0] == '[' ==> is_class(atom))
    &&& (atom[0] == '\\' ==> atom.len() >= 2)
    &&& !starts_no_atom(atom[0])
}

/// A `{` after an atom opens a quantifier that parses.
pub open spec fn quant_ok(p: Seq<char>, a: int) -> bool {
    !(0 <= a < p.len() && p[a] == '{' && quant_at(p, a).1 == 0)
}

/// Pattern text made of well-formed atoms, each with an optional quantifier,
/// and at most a final `$`; inside a group no other group may open.
pub open spec fn sequence_ok(p: Seq<char>, in_group: bool) -> bool
    decreases p.len(), 0int, 0int,
{
    if p.len() == 0 {
        true
    } else if p.len() == 1 && p[0] == '$' {
        true
    } else {
        proof {
            lemma_atom_len_bounds(p);
            lemma_quant_bounds(p, atom_len(p));
        }
        let a = atom_len(p);
        let atom = p.subrange(0, a);
        let q = quant_at(p, a);
        &&& quant_ok(p, a)
        &&& if atom[0] == '(' {
            !in_group && is_group(atom) && alternatives_ok(inner(atom), 0)
        } else {
            simple_atom_ok(atom)
        }
        &&& sequence_ok(p.subrange(a + q.1, p.len() as int), in_group)
    }
}

/// Every alternative of a group body, from character `from` on, is well
/// formed.
pub open spec fn alternatives_ok(body: Seq<char>, from: int) -> bool
    decreases body.len(), 1int, body.len() + 1 - from,
{
    if from < 0 || from > body.len() {
        true
    } else {
        proof {
            lemma_find_from_bounds(body, '|', from);
        }
        let end = find_from(body, '|', from);
        sequence_ok(body.subrange(from, end), true) && alternatives_ok(body, end + 1)
    }
}

/// A well-formed pattern: an optional leading `^`, then a well-formed sequence.
pub open spec fn pattern_ok(p: Seq<char>) -> bool {
    if p.len() > 0 && p[0] == '^' {
        sequence_ok(p.subrange(1, p.len() as int), false)
    } else {
        sequence_ok(p, false)
    }
}

fn sequence_valid(p: &[char], in_group: bool) -> (r: bool)
    ensures
        r == sequence_ok(p@, in_group),
    decreases p@.len(), 0int, 0int,
{
    if p.len() == 0 {
        return true;
    }
    if p.len() == 1 && p[0] == '$' {
        return true;
    }
    let a = atom_length(p);
    proof {
        lemma_atom_len_bounds(p@);
        lemma_quant_bounds(p@, a as int);
    }
    let atom = slice_subrange(p, 0, a);
    let (_, ql) = extract_quantifier(p, a);
    if a < p.len() && p[a] == '{' && ql == 0 {
        return false;
    }
    let n = atom.len();
    let atom_ok = if atom[0] == '(' {
        !in_group && n >= 2 && atom[n - 1] == ')' && alternatives_valid(
            slice_subrange(atom, 1, n - 1),
        )
    } else {
        let c = atom[0];
        (c != '[' || (n >= 2 && atom[n - 1] == ']')) && (c != '\\' || n >= 2) && !(c == '+' || c
            == '*' || c == '?' || c == '{' || c == ')' || c == '|')
    };
    atom_ok && sequence_valid(slice_subrange(p, a + ql, p.len()), in_group)
}

fn alternatives_valid(body: &[char]) -> (r: bool)
    ensures
        r == alternatives_ok(body@, 0),
    decreases body@.len(), 1int, 0int,
{
    let mut from: usize = 0;
    loop
        invariant
            from <= body@.len(),
            alternatives_ok(body@, 0) == alternatives_ok(body@, from as int),
        decreases body@.len() - from,
    {
        let end = find_char(body, '|', from);
        proof {
            lemma_find_from_bounds(body@, '|', from as int);
        }
        if !sequence_valid(slice_subrange(body, from, end), true) {
            return false;
        }
        if end >= body.len() {
            assert(alternatives_ok(body@, end + 1));
            return true;
        }
        from = end + 1;
    }
}

/// Whether `pattern` is well formed: every construct in it is one the
/// pattern language has, complete.
pub fn is_well_formed(pattern: &str) -> (r: bool)
    ensures
        r == pattern_ok(pattern@),
{
    let pv = chars_of(pattern);
    let p = pv.as_slice();
    if p.len() > 0 && p[0] == '^' {
        sequence_valid(slice_subrange(p, 1, p.len()), false)
    } else {
        sequence_valid(p, false)
    }
}

} // verus!
