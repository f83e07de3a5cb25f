use grep_engine::search::{consume, extract_pattern, match_re};

#[test]
fn consume_input() {
    assert_eq!(consume("abc", "\\w", 0, 0, None), (true, 3, 3));
    assert_eq!(consume("abc ", "\\w", 0, 0, None), (true, 3, 3));
}

#[test]
fn extract_backreference_pattern() {
    assert_eq!(extract_pattern("\\123 abc"), "\\123");
}

#[test]
fn match_literals() {
    assert_eq!(match_re("rust", "rust"), vec!["rust"]);
    assert_eq!(match_re("rust", "(rust)"), vec!["rust"]);
    assert_eq!(match_re("trusty", "(rust)y"), vec!["rusty"]);
    assert_eq!(match_re("rust", "usta"), vec![] as Vec<String>);
    assert_eq!(match_re("rust", "ruzt"), vec![] as Vec<String>);
    assert_eq!(match_re("trust", "rust"), vec!["rust"]);
}

#[test]
fn match_digits() {
    assert_eq!(match_re("123", "\\d\\d\\d"), vec!["123"]);
    assert_eq!(match_re("123", "\\d\\d"), vec!["12"]);
    assert_eq!(match_re("123", "\\d\\d\\d\\d"), vec![] as Vec<String>);
    assert_eq!(match_re("a123", "\\d\\d\\d"), vec!["123"]);
    assert_eq!(match_re("a1234", "\\d\\d"), vec!["12", "34"]);
}

#[test]
fn match_word_chars() {
    assert_eq!(match_re("rust", "\\w\\w"), vec!["ru", "st"]);
    assert_eq!(match_re("123", "\\w\\w\\w"), vec!["123"]);
    assert_eq!(match_re("r", "\\w\\w"), vec![] as Vec<String>);
    assert_eq!(match_re("123", "\\w\\w\\w"), vec!["123"]);
}

#[test]
fn match_groups() {
    assert_eq!(match_re("rust", "[rs][ut]"), vec!["ru", "st"]);
    assert_eq!(match_re("1", "[a\\db]"), vec!["1"]);
    assert_eq!(match_re("rust", "[rs][at]"), vec!["st"]);
    assert_eq!(match_re("rust", "[rs][ab]j"), vec![] as Vec<String>);
    assert_eq!(match_re("rust", "[rs][ux]"), vec!["ru"]);
    assert_eq!(match_re("rust", "[rs][ut]"), vec!["ru", "st"]);
    assert_eq!(match_re("rust123", "[ust][\\d]\\d"), vec!["t12"]);
}

#[test]
fn match_groups_neg() {
    assert_eq!(match_re("r", "[^a]"), vec!["r"]);
    assert_eq!(match_re("st", "[^ru][^ab]"), vec!["st"]);
    assert_eq!(match_re("st", "[^ru][^at]"), vec![] as Vec<String>);
    assert_eq!(match_re("rust", "[^ru][^ab]"), vec!["st"]);
}

#[test]
fn match_anchors() {
    assert_eq!(match_re("rust", "^r[tu]"), vec!["ru"]);
    assert_eq!(match_re("rust", "ust$"), vec!["ust"]);
    assert_eq!(match_re("rust", "^rust$"), vec!["rust"]);
    assert_eq!(match_re("rust", "^trust"), vec![] as Vec<String>);
    assert_eq!(match_re("rust", "us$"), vec![] as Vec<String>);
}

#[test]
fn match_combined() {
    assert_eq!(match_re("latest rust edition is 2024, it rocks", "editio\\w [big][show] \\d\\d\\d\\d[^op]"), vec!["edition is 2024,"]);
    assert_eq!(match_re("¾®_ediœ1", "\\wedi[^x]\\d"), vec!["_ediœ1"]);
}

#[test]
fn match_zero_or_one() {
    assert_eq!(match_re("ct", "c(a)?t"), vec!["ct"]);
    assert_eq!(match_re("ct", "ca?t"), vec!["ct"]);
    assert_eq!(match_re("dog", "dogs?"), vec!["dog"]);
    assert_eq!(match_re("dogs", "dogs?"), vec!["dogs"]);
    assert_eq!(match_re("", "\\d?"), vec![""]);
    assert_eq!(match_re("5", "\\d?"), vec!["5"]);
    assert_eq!(match_re("dogs", "do?gs"), vec!["dogs"]);
    assert_eq!(match_re("dogs", "(bu)?dogs"), vec!["dogs"]);
    assert_eq!(match_re("dog", "dog?s"), vec![] as Vec<String>);
}

#[test]
fn match_wildcard() {
    assert_eq!(match_re("a", "."), vec!["a"]);
    assert_eq!(match_re("", ".?"), vec![""]);
    assert_eq!(match_re("cat", "c.t"), vec!["cat"]);
    assert_eq!(match_re("rust", "ru.?[abt]"), vec!["rust"]);
    assert_eq!(match_re("rust", "rus.?t"), vec![] as Vec<String>);
    assert_eq!(match_re("abc", "..."), vec!["abc"]);
}

#[test]
fn match_one_or_more() {
    assert_eq!(match_re("a", "(a)+"), vec!["a"]);
    assert_eq!(match_re("ab", "(ab)+"), vec!["ab"]);
    assert_eq!(match_re("a", "a+"), vec!["a"]);
    assert_eq!(match_re("aaa", "a+"), vec!["aaa"]);
    assert_eq!(match_re("45", "\\d+"), vec!["45"]);
    assert_eq!(match_re("pear", ".+er"), vec![] as Vec<String>);
    assert_eq!(match_re("bag", "bag+"), vec!["bag"]);
    assert_eq!(match_re("bag", "ba+g"), vec!["bag"]);
    assert_eq!(match_re("bags", "ba+gs"), vec!["bags"]);
    assert_eq!(match_re("baaag", "ba+g"), vec!["baaag"]);
    assert_eq!(match_re("baaags", "ba+gs"), vec!["baaags"]);
    assert_eq!(match_re("baag", "ba+ag"), vec!["baag"]);
    assert_eq!(match_re("baags", "ba+ags"), vec!["baags"]);
    assert_eq!(match_re("baaag", "ba+ag"), vec!["baaag"]);
    assert_eq!(match_re("baaags", "ba+ags"), vec!["baaags"]);
    assert_eq!(match_re("bag", "ba+ag"), vec![] as Vec<String>);
}

#[test]
fn match_or() {
    assert_eq!(match_re("scala", "(swift|scala)"), vec!["scala"]);
    assert_eq!(match_re("rust", "(rust|scala)"), vec!["rust"]);
    assert_eq!(match_re("rust", "(rus|scala)t"), vec!["rust"]);
    assert_eq!(match_re("rust", "(rus|scala)t?"), vec!["rust"]);
    assert_eq!(match_re("rust", "(r?[au]s|scala)t?"), vec!["rust"]);
    assert_eq!(match_re("php", "(swift|scala)"), vec![] as Vec<String>);
}

#[test]
fn match_star() {
    assert_eq!(match_re("a", "(a)*"), vec!["a"]);
    assert_eq!(match_re("aa", "(aa)*"), vec!["aa"]);
    assert_eq!(match_re("scal", "scala*"), vec!["scal"]);
    assert_eq!(match_re("bg", "ba*g"), vec!["bg"]);
    assert_eq!(match_re("", "a*"), vec![""]);
}

#[test]
fn match_exactly_n_times() {
    assert_eq!(match_re("a", "a{2}"), vec![] as Vec<String>);
    assert_eq!(match_re("aa", "a{2}"), vec!["aa"]);
    assert_eq!(match_re("aaaaa", "a{3}"), vec!["aaa"]);
    assert_eq!(match_re("aaaaaaa", "a{3}"), vec!["aaa", "aaa"]);
    assert_eq!(match_re("aaa", "[ab]{3}"), vec!["aaa"]);
    assert_eq!(match_re("abcd", "(ab|cd){2}"), vec!["abcd"]);
    assert_eq!(match_re("abcdef", "(ab|ef|cd){3}"), vec!["abcdef"]);
    assert_eq!(match_re("aaa", "a{4}"), vec![] as Vec<String>);
}

#[test]
fn match_at_least_n_times() {
    assert_eq!(match_re("aaa", "a{3,}"), vec!["aaa"]);
    assert_eq!(match_re("aaaaa", "a{3,}"), vec!["aaaaa"]);
    assert_eq!(match_re("aaa", "[ab]{3,}"), vec!["aaa"]);
    assert_eq!(match_re("aaaacc", "a{1,}cc"), vec!["aaaacc"]);
    assert_eq!(match_re("ok", "\\w{3,}"), vec![] as Vec<String>);
}

#[test]
fn match_between_n_and_m_times() {
    assert_eq!(match_re("aaa", "a{2,3}"), vec!["aaa"]);
    assert_eq!(match_re("aaaaa", "a{2,3}"), vec!["aaa", "aa"]);
    assert_eq!(match_re("aa", "a{2,3}"), vec!["aa"]);
    assert_eq!(match_re("a", "a{2,3}"), vec![] as Vec<String>);
}

#[test]
fn match_backreferences() {
    assert_eq!(match_re("r r", "(r) \\1"), vec!["r r"]);
}
