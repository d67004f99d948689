use tinyre::ParseError;
use tinyre::Regex;

fn compiled(pattern: &str) -> Regex {
    match Regex::new(pattern) {
        Ok(re) => re,
        Err(e) => panic!("pattern {:?} failed to compile: {:?}", pattern, e),
    }
}

#[test]
fn empty_text_against_various_patterns() {
    assert!(compiled("a*").is_match(""));
    assert!(!compiled("a").is_match(""));
    assert!(compiled("").is_match(""));
    assert!(!compiled(".").is_match(""));
    assert!(compiled("a?").is_match(""));
}

#[test]
fn dot_consumes_exactly_one_character() {
    let re = compiled("a.b");
    assert!(re.is_match("acb"));
    assert!(!re.is_match("ab"));
    assert!(!re.is_match("axxb"));
}

#[test]
fn star_and_plus_repetition() {
    let star = compiled("a*");
    assert!(star.is_match(""));
    assert!(star.is_match("a"));
    assert!(star.is_match("aaa"));
    let plus = compiled("a+");
    assert!(plus.is_match("a"));
    assert!(plus.is_match("aaa"));
    assert!(!plus.is_match(""));
}

#[test]
fn alternation_in_group() {
    let re = compiled("(a|b)c");
    assert!(re.is_match("ac"));
    assert!(re.is_match("bc"));
    assert!(!re.is_match("cc"));
}

#[test]
fn repeated_group_needs_trailing_literal() {
    let re = compiled("a(bc)*d");
    assert!(re.is_match("ad"));
    assert!(re.is_match("abcd"));
    assert!(re.is_match("abcbcd"));
    assert!(!re.is_match("abcbc"));
}

#[test]
fn unbalanced_groups_are_reported() {
    assert_eq!(Regex::new("(a").err(), Some(ParseError::UnbalancedGroup));
    assert_eq!(Regex::new(")a").err(), Some(ParseError::UnbalancedGroup));
    assert_eq!(Regex::new("a)b").err(), Some(ParseError::UnbalancedGroup));
    assert_eq!(Regex::new("((a)").err(), Some(ParseError::UnbalancedGroup));
}

#[test]
fn misplaced_operators_are_reported() {
    assert_eq!(
        Regex::new("*a").err(),
        Some(ParseError::InvalidOperatorPlacement)
    );
    assert_eq!(
        Regex::new("+a").err(),
        Some(ParseError::InvalidOperatorPlacement)
    );
    assert_eq!(
        Regex::new("?a").err(),
        Some(ParseError::InvalidOperatorPlacement)
    );
    assert_eq!(
        Regex::new("a|").err(),
        Some(ParseError::InvalidOperatorPlacement)
    );
    assert_eq!(
        Regex::new("|a").err(),
        Some(ParseError::InvalidOperatorPlacement)
    );
    assert_eq!(
        Regex::new("a||b").err(),
        Some(ParseError::InvalidOperatorPlacement)
    );
    assert_eq!(
        Regex::new("(*)").err(),
        Some(ParseError::InvalidOperatorPlacement)
    );
}

#[test]
fn long_text_terminates() {
    let text: String = "a".repeat(10_000);
    let re = compiled("a*");
    assert!(re.is_match(&text));
    assert!(re.find(&text).is_some());
    let other = compiled("a*b");
    assert!(!other.is_match(&text));
}

#[test]
fn independent_compilations_agree() {
    let first = compiled("a(b|c)*d");
    let second = compiled("a(b|c)*d");
    let inputs = ["", "ad", "abd", "acd", "abcbcd", "abcbc", "xd", "addd", "abcx"];
    for text in inputs {
        assert_eq!(first.is_match(text), second.is_match(text));
        assert_eq!(first.find(text), second.find(text));
    }
}

#[test]
fn find_reports_consumed_offset() {
    assert_eq!(compiled("abc").find("abcxxx"), Some(3));
    assert_eq!(compiled("").find("xyz"), Some(0));
    assert_eq!(compiled("a.c").find("abcd"), Some(3));
    assert_eq!(compiled("ab").find("xab"), None);
}

#[test]
fn match_is_a_prefix_match() {
    assert!(compiled("a").is_match("ab"));
    assert!(compiled("ab").is_match("abundant"));
    assert!(!compiled("b").is_match("ab"));
}

#[test]
fn demonstration_pairs() {
    let cases = [
        ("a.b", "acb", true),
        ("a.*b", "axxxxxb", true),
        ("a?b", "b", true),
        ("a+b", "aaab", true),
        ("(a|b)c", "bc", true),
        ("a(bc)*d", "abcbcd", true),
        ("a(b|c)*d", "abcd", true),
        ("a.c", "abc", true),
        ("ab+c", "abbc", true),
        ("(ab)?c", "c", true),
        ("(a|b)*c", "ac", true),
        ("a(b|c)+d", "abccd", true),
        ("(a|b)+c", "aac", true),
        ("a(b|c)?d", "acd", true),
        ("ab*c", "ac", true),
        ("a+b+c+", "aabbc", true),
        ("a*b*c*", "abc", true),
        ("a.b.c", "aXbYc", true),
        ("a(b(c)d)e", "abcdbe", false),
        ("(a|b)(c|d)", "ad", true),
        ("(a|b)*", "aaabbb", true),
        ("a(b|c)(d|e)", "abd", true),
        ("a?", "a", true),
        ("a*", "aaa", true),
        (".*", "any text", true),
    ];
    for (pattern, text, expected) in cases {
        assert_eq!(
            compiled(pattern).is_match(text),
            expected,
            "pattern {:?} on {:?}",
            pattern,
            text
        );
    }
}

#[test]
fn alternation_without_parentheses() {
    let re = compiled("a|b");
    assert!(re.is_match("a"));
    assert!(re.is_match("b"));
    assert!(!re.is_match("c"));
    let three = compiled("a|b|c");
    assert!(three.is_match("a"));
    assert!(three.is_match("b"));
    assert!(three.is_match("c"));
    assert!(!three.is_match("d"));
}

#[test]
fn concatenation_binds_tighter_than_alternation() {
    let re = compiled("ab|cd");
    assert!(re.is_match("ab"));
    assert!(re.is_match("cd"));
    assert!(!re.is_match("ad"));
    assert!(!re.is_match("cb"));
}

#[test]
fn nested_and_stacked_operators() {
    assert!(compiled("a**").is_match("aaa"));
    assert!(compiled("(a+)?").is_match(""));
    assert!(compiled("((a|b)c)+").is_match("acbc"));
    assert!(!compiled("((a|b)c)+").is_match(""));
    assert!(compiled("()").is_match(""));
}

#[test]
fn multibyte_characters_count_as_one() {
    let re = compiled("h.llo");
    assert!(re.is_match("héllo"));
    assert_eq!(re.find("héllo"), Some(5));
    let lit = compiled("é+");
    assert!(lit.is_match("éé"));
    assert!(!lit.is_match("e"));
}
