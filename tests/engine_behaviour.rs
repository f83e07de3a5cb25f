use grep_engine::search::{consume, match_re, process_lines};
use grep_engine::syntax::{extract_quantifier, Quantifier};
use grep_engine::validity::is_well_formed;

#[test]
fn scenario_three_digits() {
    assert_eq!(match_re("rust123", "\\d\\d\\d"), vec!["123"]);
}

#[test]
fn scenario_two_digit_pairs() {
    assert_eq!(match_re("a1234", "\\d\\d"), vec!["12", "34"]);
}

#[test]
fn scenario_negated_classes() {
    assert_eq!(match_re("rust", "[^ru][^ab]"), vec!["st"]);
}

#[test]
fn scenario_backreference() {
    assert_eq!(match_re("r r", "(r) \\1"), vec!["r r"]);
}

#[test]
fn scenario_bounded_repetition_rescans() {
    assert_eq!(match_re("aaaaa", "a{2,3}"), vec!["aaa", "aa"]);
}

#[test]
fn scenario_empty_line_optional_pattern() {
    assert_eq!(match_re("", "\\d?"), vec![""]);
}

#[test]
fn backreference_requires_same_text() {
    assert_eq!(match_re("xx", "(x)\\1"), vec!["xx"]);
    assert_eq!(match_re("xy", "(x)\\1"), vec![] as Vec<String>);
}

#[test]
fn between_never_exceeds_upper_bound() {
    assert_eq!(match_re("aaaa", "^a{2,3}"), vec!["aaa"]);
    assert_eq!(match_re("a", "a{2,3}"), vec![] as Vec<String>);
    assert_eq!(match_re("baaaab", "ba{1,2}b"), vec![] as Vec<String>);
    assert_eq!(match_re("baab", "ba{1,2}b"), vec!["baab"]);
}

#[test]
fn literal_patterns_find_all_leftmost_occurrences() {
    assert_eq!(match_re("xabyab", "ab"), vec!["ab", "ab"]);
    assert_eq!(match_re("aaaa", "aa"), vec!["aa", "aa"]);
    assert_eq!(match_re("aaa", "aa"), vec!["aa"]);
    assert_eq!(match_re("abc", "abd"), vec![] as Vec<String>);
    assert_eq!(match_re("", "ab"), vec![] as Vec<String>);
}

#[test]
fn anchors_pin_the_match() {
    assert_eq!(match_re("abab", "^ab"), vec!["ab"]);
    assert_eq!(match_re("abab", "ab$"), vec!["ab"]);
    assert_eq!(match_re("abab", "^b"), vec![] as Vec<String>);
    assert_eq!(match_re("", "^$"), vec![""]);
    assert_eq!(match_re("ab", "a$"), vec![] as Vec<String>);
}

#[test]
fn same_inputs_same_results() {
    let first = match_re("a1b22c333", "\\d+");
    let second = match_re("a1b22c333", "\\d+");
    assert_eq!(first, second);
    assert_eq!(first, vec!["1", "22", "333"]);
}

#[test]
fn empty_pattern_matches_empty_string_at_each_offset() {
    assert_eq!(match_re("abc", ""), vec!["", "", ""]);
    assert_eq!(match_re("", ""), vec![""]);
}

#[test]
fn alternation_is_spliced_with_the_rest() {
    assert_eq!(match_re("aab", "(a+|b)ab"), vec!["aab"]);
    assert_eq!(match_re("scalat", "(rus|scala)t"), vec!["scalat"]);
}

#[test]
fn captures_follow_the_branch_taken() {
    assert_eq!(match_re("bb", "(a|b)\\1"), vec!["bb"]);
    assert_eq!(match_re("ab", "(a|b)\\1"), vec![] as Vec<String>);
    assert_eq!(match_re("abab-abab", "(ab)+-\\1"), vec!["abab-abab"]);
    assert_eq!(match_re("aa", "(a)\\2"), vec![] as Vec<String>);
}

#[test]
fn word_class_is_ascii_only() {
    assert_eq!(match_re("é_1", "\\w+"), vec!["_1"]);
}

#[test]
fn star_backs_off_for_the_rest() {
    assert_eq!(match_re("aaab", "a+ab"), vec!["aaab"]);
    assert_eq!(match_re("xaaay", "a*y"), vec!["aaay"]);
}

#[test]
fn consume_respects_limit_and_reports_first_failure() {
    assert_eq!(consume("aaaa", "a", 0, 0, Some(2)), (true, 2, 2));
    assert_eq!(consume("baa", "a", 0, 0, None), (false, 0, 0));
    assert_eq!(consume("baa", "a", 1, 5, None), (true, 2, 7));
    assert_eq!(consume("", "a", 0, 0, None), (true, 0, 0));
}

#[test]
fn quantifier_extraction() {
    let p: Vec<char> = "a{2,3}b".chars().collect();
    assert_eq!(extract_quantifier(&p, 1), (Quantifier::Between(2, 3), 5));
    let p: Vec<char> = "a{4}".chars().collect();
    assert_eq!(extract_quantifier(&p, 1), (Quantifier::Exactly(4), 3));
    let p: Vec<char> = "a{4,}".chars().collect();
    assert_eq!(extract_quantifier(&p, 1), (Quantifier::AtLeast(4), 4));
    let p: Vec<char> = "a+".chars().collect();
    assert_eq!(extract_quantifier(&p, 1), (Quantifier::OneOrMore, 1));
    let p: Vec<char> = "ab".chars().collect();
    assert_eq!(extract_quantifier(&p, 1), (Quantifier::One, 0));
    let p: Vec<char> = "a{x}".chars().collect();
    assert_eq!(extract_quantifier(&p, 1), (Quantifier::One, 0));
}

#[test]
fn lines_are_paired_with_their_matches() {
    let lines = vec!["ab1".to_string(), "none".to_string()];
    let r = process_lines(&lines, "\\d");
    assert_eq!(r.len(), 2);
    assert_eq!(r[0].0, "ab1");
    assert_eq!(r[0].1, vec!["1"]);
    assert_eq!(r[1].0, "none");
    assert!(r[1].1.is_empty());
}

#[test]
fn well_formed_patterns_are_accepted() {
    for p in [
        "rust", "^r[tu]", "ust$", "\\d\\d", "[^ab]", "(r) \\1", "(ab|cd){2}", "a{3,}", "a{2,3}",
        "c(a)?t", "[a\\db]", "(a|$)", "",
    ] {
        assert!(is_well_formed(p), "{}", p);
    }
}

#[test]
fn malformed_patterns_are_rejected() {
    for p in ["[ab", "(ab", "a{x}", "a{2", "+a", "a**", "((a))", "a|b", "\\x", ")"] {
        assert!(!is_well_formed(p), "{}", p);
    }
}

#[test]
fn group_that_matched_nothing_records_no_capture() {
    assert_eq!(match_re("bx", "(a)?b\\1"), vec![] as Vec<String>);
    assert_eq!(match_re("b", "(a)*b\\1"), vec![] as Vec<String>);
    assert_eq!(match_re("aba", "(a)?b\\1"), vec!["aba"]);
    assert_eq!(match_re("aaba", "(a)*b\\1"), vec!["aba"]);
    assert_eq!(match_re("abaa", "(a)*b\\1"), vec!["aba"]);
}
