use std::collections::HashSet;

use rdg::expression;
use rdg::pattern::Pattern;

#[test]
fn e2e_literal_pattern_is_constant() {
    let sampler = Pattern::parse("abc").unwrap().to_string_sampler();
    for _ in 0..20 {
        assert_eq!(sampler.sample(), "abc");
    }
}

#[test]
fn e2e_alternation_covers_all_alternatives() {
    let sampler = Pattern::parse("(a|b|c)").unwrap().to_string_sampler();
    let mut seen: HashSet<String> = HashSet::new();
    for _ in 0..300 {
        let value = sampler.sample();
        assert!(value == "a" || value == "b" || value == "c");
        seen.insert(value);
    }
    assert!(seen.contains("a"));
    assert!(seen.contains("b"));
    assert!(seen.contains("c"));
}

#[test]
fn e2e_bracket_class_with_quantifier() {
    let sampler = Pattern::parse("[A-Z]{3}").unwrap().to_string_sampler();
    for _ in 0..100 {
        let value = sampler.sample();
        assert_eq!(value.len(), 3);
        for c in value.chars() {
            assert!(c.is_ascii_uppercase());
        }
    }
}

#[test]
fn e2e_single_alternative_group_repeated() {
    let sampler = Pattern::parse("(abc){5}").unwrap().to_string_sampler();
    for _ in 0..20 {
        assert_eq!(sampler.sample(), "abcabcabcabcabc");
    }
}

#[test]
fn e2e_unbalanced_pattern_fails() {
    assert!(Pattern::parse(")(").is_err());
}

#[test]
fn e2e_compound_pattern_length() {
    // literal of 3, bracket class of single characters repeated twice,
    // single-alternative group of 2 repeated three times: 3 + 2 + 6
    let sampler = Pattern::parse("abc[xyz]{2}(de){3}").unwrap().to_string_sampler();
    for _ in 0..50 {
        assert_eq!(sampler.sample().len(), 11);
    }
}

#[test]
fn e2e_escaped_specials_sample_verbatim() {
    let sampler = Pattern::parse("\\(a\\|b\\)").unwrap().to_string_sampler();
    assert_eq!(sampler.sample(), "(a|b)");
}

#[test]
fn e2e_default_pattern_shape() {
    let sampler = Pattern::parse("[A-Za-z0-9]{10}").unwrap().to_string_sampler();
    for _ in 0..50 {
        let value = sampler.sample();
        assert_eq!(value.len(), 10);
        for c in value.chars() {
            assert!(c.is_ascii_alphanumeric());
        }
    }
}

#[test]
fn expression_to_paren_is_undefined() {
    let literal = expression::Pattern::Literal {
        value: String::from("abc"),
        repetitions: 1,
    };
    let paren = expression::Pattern::Paren {
        value: String::from("(a|b|c)"),
        repetitions: 1,
    };
    let bracket = expression::Pattern::Bracket {
        value: String::from("[abc]"),
        repetitions: 2,
    };
    let composite = expression::Pattern::Composite {
        value: String::from("abc[xyz]"),
        repetitions: 1,
    };
    assert!(literal.to_paren().is_none());
    assert!(paren.to_paren().is_none());
    assert!(bracket.to_paren().is_none());
    assert!(composite.to_paren().is_none());
}

#[test]
fn e2e_zero_quantifier_contributes_nothing() {
    let sampler = Pattern::parse("[ab]{0}x").unwrap().to_string_sampler();
    for _ in 0..20 {
        assert_eq!(sampler.sample(), "x");
    }
}

#[test]
fn e2e_escaped_character_in_class() {
    let sampler = Pattern::parse("[\\|x]").unwrap().to_string_sampler();
    let mut seen_pipe = false;
    let mut seen_x = false;
    for _ in 0..200 {
        let value = sampler.sample();
        assert!(value == "|" || value == "x");
        seen_pipe = seen_pipe || value == "|";
        seen_x = seen_x || value == "x";
    }
    assert!(seen_pipe && seen_x);
}
