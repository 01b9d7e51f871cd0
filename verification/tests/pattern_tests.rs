use rdg::lexical::{
    expand_ranges, is_escape_character, is_special_character, pop_quantifier, seek_to_unescaped,
    unescape,
};
use rdg::pattern::{
    find_parentheses_boundaries, parse_as_brackets_kind, parse_as_literal_kind,
    parse_as_parentheses_kind, pop_subpattern, split_at_positions, Pattern, SubPattern,
    SubPatternKind,
};

#[test]
fn can_parse_as_literal_valid() {
    for s in [
        "abc",
        "abc\\(",
        "\\(abc",
        "\\(abc\\)",
        "abc\\]",
        "\\[abc",
        "\\[abc\\]",
        "123",
        "*\\{",
        "&#$",
        "ab-*",
        "...",
        "$^",
        "a2z#@",
        "",
        "\\\\",
    ] {
        assert_eq!(
            parse_as_literal_kind(s).unwrap().kind,
            SubPatternKind::Literal
        );
    }
}

#[test]
fn can_parse_as_literal_invalid() {
    for s in [
        "(abc)", "\\(abc)", "(abc\\)", "abc)", "(abc", "[123]", "\\[123]", "[123\\]",
        "abc(123)", "(123)abc", ")(", "\\",
    ] {
        assert!(parse_as_literal_kind(s).is_err());
    }
}

#[test]
fn can_parse_as_parentheses_valid() {
    for s in [
        "(abc)",
        "(123)",
        "(alice|bob)",
        "(alice|bob){2}",
        "(abc){5}",
        "(a|bc){5}",
        "(ab|c){5}",
        "(1&$#@){5}",
        "(1&|$#@){5}",
        "(a|b|c)",
        "(a|\\|)",
        "(a|2|$|%|^)",
        "(a|2|$|%|^){100}",
        "(12|a|-)",
        "(12|a|-){100}",
    ] {
        assert!(matches!(
            parse_as_parentheses_kind(s).unwrap().kind,
            SubPatternKind::Parentheses { .. },
        ))
    }
}

#[test]
fn can_parse_as_parentheses_invalid() {
    for s in [
        "abc",
        "[abc]",
        "(abc",
        "abc)",
        "(abc))",
        "((abc)",
        "((abc))",
        "|abc)",
        "(abc|",
        "(abc)a",
        "a(abc)",
        "(abc){1}}",
        "{1}(abc)",
        "(abc){{1}",
    ] {
        assert!(parse_as_parentheses_kind(s).is_err())
    }
}

#[test]
fn can_parse_as_brackets_valid() {
    for s in [
        "[abc]",
        "[abc]{10}",
        "[A-Z]",
        "[a-z]",
        "[0-9]",
        "[A-Za-z0-9]{3}",
        "[a&^#]",
        "[\\|]",
    ] {
        assert!(parse_as_brackets_kind(s).is_ok())
    }
}

#[test]
fn can_parse_as_brackets_invalid() {
    for s in [
        "[abc\\]", "\\[abc]", "[()]", "[[]]", "[(]", "[)]", "[[]", "[]]", "[abc|]", "[|]",
        "[abc}]", "[{abc]",
    ] {
        assert!(parse_as_brackets_kind(s).is_err())
    }
}

#[test]
fn parse_valid_literal_pattern() {
    let mut actual: Pattern;
    let mut expected: Pattern;
    for value in [
        "abc",
        "a2c",
        "ABC",
        "...",
        "$^",
        "#$@#",
        "abc\\(",
        "\\(xyz",
        "012",
        "\\[abc\\]",
        "\\(abc\\)",
    ]
    .iter()
    {
        actual = Pattern::parse(value).unwrap();
        expected = Pattern {
            subpatterns: vec![SubPattern {
                value: String::from(*value),
                kind: SubPatternKind::Literal,
                quantifier: 1,
            }],
        };
        assert_eq!(actual, expected);
    }
}

#[test]
fn parse_valid_parentheses_pattern() {
    let mut actual: Pattern;
    let mut expected: Pattern;
    for value in ["(a|b|c)", "(1|2|3)"] {
        actual = Pattern::parse(value).unwrap();
        expected = Pattern {
            subpatterns: vec![SubPattern {
                value: String::from(&value[1..(value.len() - 1)]),
                kind: SubPatternKind::Parentheses {
                    pipe_positions: Some(vec![1, 3]),
                },
                quantifier: 1,
            }],
        };
        assert_eq!(actual, expected);
    }
}

#[test]
fn parse_valid_parentheses_pattern_with_quantifier() {
    let actual = Pattern::parse("(a|b|c){5}").unwrap();
    let expected = Pattern {
        subpatterns: vec![SubPattern {
            value: String::from("a|b|c"),
            kind: SubPatternKind::Parentheses {
                pipe_positions: Some(vec![1, 3]),
            },
            quantifier: 5,
        }],
    };
    assert_eq!(actual, expected);
}

#[test]
fn parse_valid_parentheses_pattern_with_escape() {
    let actual = Pattern::parse("(a\\)bc){23}").unwrap();
    let expected = Pattern {
        subpatterns: vec![SubPattern {
            value: String::from("a\\)bc"),
            kind: SubPatternKind::Parentheses {
                pipe_positions: None,
            },
            quantifier: 23,
        }],
    };
    assert_eq!(actual, expected);
}

#[test]
fn parse_valid_compound_pattern() {
    let actual = Pattern::parse("abc[123]").unwrap();
    let expected = Pattern {
        subpatterns: vec![
            SubPattern {
                value: String::from("abc"),
                kind: SubPatternKind::Literal,
                quantifier: 1,
            },
            SubPattern {
                value: String::from("123"),
                kind: SubPatternKind::Brackets,
                quantifier: 1,
            },
        ],
    };
    assert_eq!(actual, expected);
}

#[test]
fn parse_invalid_pattern() {
    for value in [")abc", ")(", "["].iter() {
        assert!(Pattern::parse(value).is_err());
    }
}

#[test]
fn check_special_characters() {
    for c in "()[]{}\\|".chars() {
        assert!(is_special_character(c));
    }
}

#[test]
fn check_non_special_characters() {
    for c in "AZaz09!@#".chars() {
        assert!(!is_special_character(c));
    }
}

#[test]
fn check_escape_character() {
    assert!(is_escape_character('\\'));
    assert!(!is_escape_character('/'));
    assert!(!is_escape_character('|'));
}

#[test]
fn check_pop_quantifier() {
    for (input, expected) in [
        ("(abc){5}", ("(abc)", Some(5))),
        ("[abc]{25}", ("[abc]", Some(25))),
        ("[123]{25}", ("[123]", Some(25))),
        ("[123]{00025}", ("[123]", Some(25))),
        ("[abc]\\{123}", ("[abc]\\{123}", None)),
        ("[abc]{123\\}", ("[abc]{123\\}", None)),
        ("[abc]\\{123\\}", ("[abc]\\{123\\}", None)),
        ("[abc]\\{}", ("[abc]\\{}", None)),
        ("[abc]{\\}", ("[abc]{\\}", None)),
        ("[abc]", ("[abc]", None)),
    ]
    .iter()
    {
        assert_eq!(pop_quantifier(input), *expected);
    }
}

#[test]
fn check_pop_quantifier_ceiling() {
    assert_eq!(pop_quantifier("[a]{255}"), ("[a]", Some(255)));
    assert_eq!(pop_quantifier("[a]{256}"), ("[a]{256}", None));
    assert!(Pattern::parse("[a]{256}").is_err());
}

#[test]
fn check_find_parentheses_boundaries_valid() {
    for (input, expected) in [
        ("(abc)", vec![0, 4]),
        ("(a|b|c)", vec![0, 2, 4, 6]),
        ("(a|bbb|c)", vec![0, 2, 6, 8]),
    ] {
        assert_eq!(find_parentheses_boundaries(input).unwrap(), expected);
    }
}

#[test]
fn check_find_parentheses_boundaries_invalid() {
    for invalid in ["abc", "(abc", "abc)", "[a|b|c]"] {
        assert!(find_parentheses_boundaries(invalid).is_err())
    }
}

#[test]
fn check_expand_ranges() {
    let mut actual: String;
    for (input, expected) in [
        ("A-Z", "ABCDEFGHIJKLMNOPQRSTUVWXYZ"),
        ("a-z", "abcdefghijklmnopqrstuvwxyz"),
        ("0-9", "0123456789"),
        ("a-z0-9", "abcdefghijklmnopqrstuvwxyz0123456789"),
        ("A-Z0-9", "ABCDEFGHIJKLMNOPQRSTUVWXYZ0123456789"),
        ("0-9abc", "0123456789abc"),
        ("abc0-9", "abc0123456789"),
        ("A-Z123", "ABCDEFGHIJKLMNOPQRSTUVWXYZ123"),
        ("123A-Z", "123ABCDEFGHIJKLMNOPQRSTUVWXYZ"),
        ("-AZ", "-AZ"),
        ("AZ-", "AZ-"),
        ("Z-A", "Z-A"),
        ("az-", "az-"),
        ("-az", "-az"),
        ("z-a", "z-a"),
        ("09-", "09-"),
        ("-09", "-09"),
        ("9-0", "9-0"),
    ] {
        actual = expand_ranges(input);
        assert_eq!(actual, expected);
    }
}

#[test]
fn check_unescape() {
    for (input, expected) in [
        ("abc\\)", "abc)"),
        ("\\|", "|"),
        ("\\(abc\\)", "(abc)"),
        ("\\(abc", "(abc"),
        ("\\(abc\\]", "(abc]"),
        ("\\[abc\\]", "[abc]"),
        ("\\\\", "\\"),
    ] {
        assert_eq!(unescape(input), expected);
    }
}

#[test]
fn check_seek_to_unescaped() {
    for (input, target, expected) in [
        ("(abc)", vec![')'], 4),
        ("[abc]", vec![']'], 4),
        ("abc\\[[", vec!['['], 5),
        ("abc", vec!['['], 3),
        ("12{", vec!['{'], 2),
        ("abc(|", vec!['|'], 4),
        ("abc(|", vec!['|', '('], 3),
    ] {
        assert_eq!(seek_to_unescaped(input, target), expected);
    }
}

#[test]
fn check_split_at_positions() {
    let mut actual: Vec<String>;
    let mut expected: Vec<String>;
    actual = split_at_positions("abc", &vec![1]);
    expected = vec![String::from("a"), String::from("c")];
    assert_eq!(actual, expected);

    actual = split_at_positions("abc", &Vec::new());
    expected = vec![String::from("abc")];
    assert_eq!(actual, expected);
}

#[test]
fn check_paren_segments() {
    let interior = "a|b|c";
    let segments = split_at_positions(interior, &vec![1, 3]);
    assert_eq!(
        segments,
        vec![String::from("a"), String::from("b"), String::from("c")]
    );
}

#[test]
fn check_pop_subpattern_parentheses() {
    let actual = pop_subpattern("(abc)").unwrap();
    let expected = (
        SubPattern {
            value: String::from("abc"),
            kind: SubPatternKind::Parentheses {
                pipe_positions: None,
            },
            quantifier: 1,
        },
        4,
    );
    assert_eq!(actual, expected);
}

#[test]
fn check_pop_subpattern_parentheses_quantifier() {
    let actual = pop_subpattern("(abc){5}").unwrap();
    let expected = (
        SubPattern {
            value: String::from("abc"),
            kind: SubPatternKind::Parentheses {
                pipe_positions: None,
            },
            quantifier: 5,
        },
        7,
    );
    assert_eq!(actual, expected);
}

#[test]
fn check_pop_subpattern_parentheses_additional_pattern() {
    let actual = pop_subpattern("(abc)[xyz]").unwrap();
    let expected = (
        SubPattern {
            value: String::from("abc"),
            kind: SubPatternKind::Parentheses {
                pipe_positions: None,
            },
            quantifier: 1,
        },
        4,
    );
    assert_eq!(actual, expected);
}

#[test]
fn check_pop_subpattern_invalid() {
    for input in ["(abc){5", "(abc){z}", "abc]"] {
        assert!(pop_subpattern(input).is_none());
    }
}

#[test]
fn check_pop_subpattern_brackets() {
    let actual = pop_subpattern("[abc]").unwrap();
    let expected = (
        SubPattern {
            value: String::from("abc"),
            kind: SubPatternKind::Brackets,
            quantifier: 1,
        },
        4,
    );
    assert_eq!(actual, expected);
}

#[test]
fn check_pop_subpattern_brackets_with_quantifier() {
    let actual = pop_subpattern("[abc]{15}").unwrap();
    let expected = (
        SubPattern {
            value: String::from("abc"),
            kind: SubPatternKind::Brackets,
            quantifier: 15,
        },
        8,
    );
    assert_eq!(actual, expected);
}

#[test]
fn check_pop_subpattern_brackets_with_quantifier_extra_pattern() {
    let actual = pop_subpattern("[abc]{15}xxx").unwrap();
    let expected = (
        SubPattern {
            value: String::from("abc"),
            kind: SubPatternKind::Brackets,
            quantifier: 15,
        },
        8,
    );
    assert_eq!(actual, expected);
}

#[test]
fn check_pop_subpattern_literal() {
    let actual = pop_subpattern("abc123").unwrap();
    let expected = (
        SubPattern {
            value: String::from("abc123"),
            kind: SubPatternKind::Literal,
            quantifier: 1,
        },
        5,
    );
    assert_eq!(actual, expected);
}

#[test]
fn check_pop_subpattern_literal_with_another() {
    let actual = pop_subpattern("abc123(a|b|c)").unwrap();
    let expected = (
        SubPattern {
            value: String::from("abc123"),
            kind: SubPatternKind::Literal,
            quantifier: 1,
        },
        5,
    );
    assert_eq!(actual, expected);
}

#[test]
fn check_empty_bracket_class_rejected() {
    assert!(parse_as_brackets_kind("[]").is_err());
    assert!(Pattern::parse("[]").is_err());
}

#[test]
fn check_parse_error_kinds() {
    // dangling escape
    assert!(Pattern::parse("abc\\").is_err());
    // unmatched closing delimiter
    assert!(Pattern::parse("abc)").is_err());
    // unmatched opening delimiter
    assert!(Pattern::parse("(abc").is_err());
    // nested groups
    assert!(Pattern::parse("((abc))").is_err());
    assert!(Pattern::parse("[[abc]]").is_err());
    // quantifier on a literal span
    assert!(Pattern::parse("abc{2}").is_err());
    // malformed quantifier body after a group
    assert!(Pattern::parse("(abc){z}").is_err());
}
