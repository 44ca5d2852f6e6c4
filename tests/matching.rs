use re::re::compile;

fn is_match(pattern: &str, text: &str) -> bool {
    let mut engine = compile(pattern).unwrap();
    engine.matches(text)
}

#[test]
fn literal_match() {
    assert!(is_match("chair", "chair"));
    assert!(!is_match("chairs", "chair"));
}

#[test]
fn substring_search() {
    assert!(is_match("cat", "my cat sat"));
    assert!(!is_match("cat", "my cot sat"));
}

#[test]
fn optional() {
    assert!(is_match("colou?r", "color"));
    assert!(is_match("colou?r", "colour"));
    assert!(!is_match("colou?r", "colouur"));
}

#[test]
fn star() {
    assert!(is_match("ab*c", "ac"));
    assert!(is_match("ab*c", "abc"));
    assert!(is_match("ab*c", "abbbbc"));
    assert!(!is_match("ab*c", "abdc"));
}

#[test]
fn plus() {
    assert!(is_match("ab+c", "abc"));
    assert!(is_match("ab+c", "abbc"));
    assert!(!is_match("ab+c", "ac"));
}

#[test]
fn wildcard() {
    assert!(is_match("c.t", "cat"));
    assert!(is_match("c.t", "cot"));
    assert!(is_match("c.t", "c t"));
    assert!(!is_match("c.t", "ct"));
    assert!(!is_match("c.t", "caat"));
}

#[test]
fn alternation() {
    assert!(is_match("cat|dog", "dog house"));
    assert!(is_match("cat|dog", "my cat"));
    assert!(!is_match("cat|dog", "bird"));
}

#[test]
fn group_with_quantifier() {
    assert!(is_match("(ab)+", "ababab"));
    // The search is unanchored at both ends: the leading "ab" is enough.
    assert!(is_match("(ab)+", "aba"));
    assert!(!is_match("(ab)+", "ba"));
    assert!(!is_match("(ab)+", "aa"));
}

#[test]
fn escaping() {
    assert!(is_match("a\\?b", "a?b"));
    assert!(!is_match("a\\?b", "ab"));
    assert!(!is_match("a\\?b", "b"));
}

#[test]
fn escaped_metacharacters() {
    assert!(is_match("\\?\\*\\+\\.\\|\\(\\)", "?*+.|()"));
    assert!(!is_match("\\.", "a"));
}

#[test]
fn verbatim_matches() {
    for text in ["chair", " chair", "my chair are red"] {
        assert!(is_match("chair", text));
    }
}

#[test]
fn question_mark_suffix() {
    for text in ["chair", " chair", "my chair", "my chairs are red"] {
        assert!(is_match("chairs?", text));
    }
}

#[test]
fn kleene_star() {
    for text in ["baa!", "baaa!", "baaaa!", " baaaa!", "I said, \" baaaaaa!\""] {
        assert!(is_match("baaa*!", text));
    }
    assert!(!is_match("baaa*!", "ba!"));
}

#[test]
fn plus_repeats() {
    for text in ["baa!", "baaa!", "baaaa!", " baaaa!", "I said, \" baaaaaa!\""] {
        assert!(is_match("baa+!", text));
    }
    assert!(!is_match("baa+!", "ba!"));
}

#[test]
fn dot_any_char() {
    for text in ["cat", "car", "cap", "cam", "can", "cab"] {
        assert!(is_match("ca.", text));
    }
    assert!(!is_match("ca.", "ca"));
}

#[test]
fn mixed_alternatives() {
    for text in ["b", "bb", "ab", "bc", "abc", "d", "e"] {
        assert!(is_match("a?b+c*|d+|e+", text));
    }
    assert!(!is_match("a?b+c*|d+|e+", "f"));
    for text in ["ab", "aabb", "c", "cc"] {
        assert!(is_match("a+b+|c+", text));
    }
    assert!(!is_match("a+b+|c+", "a"));
}

#[test]
fn nested_groups() {
    assert!(is_match("c(a+(bd)+)+", "cabd"));
    assert!(is_match("c(a+(bd)+)+", "xcaabdbdabd"));
    assert!(!is_match("c(a+(bd)+)+", "cab"));
}

#[test]
fn empty_text_never_matches() {
    assert!(!is_match("a?", ""));
    assert!(!is_match("a*", ""));
    assert!(is_match("a?", "b"));
}

#[test]
fn empty_last_alternative() {
    assert!(is_match("a|", "z"));
    assert!(is_match("x(a|b)y", "xby"));
    assert!(!is_match("x(a|b)y", "xcy"));
}

#[test]
fn nested_star_terminates() {
    assert!(is_match("(a*)*b", "aaab"));
    assert!(!is_match("(a*)*b", "aaaa"));
}

#[test]
fn pathological_pattern_is_fast() {
    let text: String = std::iter::repeat('a').take(200).collect();
    assert!(!is_match("a*a*a*a*a*b", &text));
    let with_b = format!("{}b", text);
    assert!(is_match("a*a*a*a*a*b", &with_b));
}

#[test]
fn engine_can_be_reused() {
    let mut engine = compile("dog").unwrap();
    assert!(engine.matches("hotdog"));
    assert!(!engine.matches("hotcat"));
    assert!(engine.matches("dog"));
}
