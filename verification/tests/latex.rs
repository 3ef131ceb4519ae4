use obsidian_hugo::latex::{TexCommand, TexParser, TexToken, TexTokenDecoration, TexTokenKind};

/// Usage:
/// let tex = "";
/// let expected: Vec<TexToken> = vec![];
/// assert_eq!(expected, parse_tex(tex));
fn parse_tex(tex: &str) -> Vec<TexToken> {
    TexParser::new(tex.chars().collect()).parse()
}

#[test]
fn test_commands_without_arguments() {
    let tex = r#"\sin(\lambda) \cdot x"#;
    let expected: Vec<TexToken> = vec![
        TexToken::new_plain(TexTokenKind::Command(TexCommand {
            name: "sin".to_string(),
            arguments: vec![],
        })),
        TexToken::new_plain(TexTokenKind::Symbol("(".to_string())),
        TexToken::new_plain(TexTokenKind::Command(TexCommand {
            name: "lambda".to_string(),
            arguments: vec![],
        })),
        TexToken::new_plain(TexTokenKind::Symbol(")".to_string())),
        TexToken::new_plain(TexTokenKind::Command(TexCommand {
            name: "cdot".to_string(),
            arguments: vec![],
        })),
        TexToken::new_plain(TexTokenKind::Symbol("x".to_string())),
    ];
    assert_eq!(expected, parse_tex(tex));
}

#[test]
fn test_commands_with_arguments() {
    let tex = r#"\frac{numerator is here}{denominator} \function{arg1}"#;
    let expected: Vec<TexToken> = vec![
        TexToken::new_plain(TexTokenKind::Command(TexCommand {
            name: "frac".to_string(),
            arguments: vec![
                vec![
                    TexToken::new_plain(TexTokenKind::Symbol("numerator".to_string())),
                    TexToken::new_plain(TexTokenKind::Symbol("is".to_string())),
                    TexToken::new_plain(TexTokenKind::Symbol("here".to_string())),
                ],
                vec![TexToken::new_plain(TexTokenKind::Symbol(
                    "denominator".to_string(),
                ))],
            ],
        })),
        TexToken::new_plain(TexTokenKind::Command(TexCommand {
            name: "function".to_string(),
            arguments: vec![vec![TexToken::new_plain(TexTokenKind::Symbol(
                "arg1".to_string(),
            ))]],
        })),
    ];
    assert_eq!(expected, parse_tex(tex));
}

#[test]
fn test_commands_with_arguments2() {
    let tex = r#"\command{arg1}{arg2}{arg3}"#;
    let expected: Vec<TexToken> =
        vec![TexToken::new_plain(TexTokenKind::Command(TexCommand {
            name: "command".to_string(),
            arguments: vec![
                vec![TexToken::new_plain(TexTokenKind::Symbol(
                    "arg1".to_string(),
                ))],
                vec![TexToken::new_plain(TexTokenKind::Symbol(
                    "arg2".to_string(),
                ))],
                vec![TexToken::new_plain(TexTokenKind::Symbol(
                    "arg3".to_string(),
                ))],
            ],
        }))];
    assert_eq!(expected, parse_tex(tex));
}

#[test]
fn test_superscript() {
    let tex = "hello this^is a test^{of superscript}. It should go^{super^{super^{super}}}!";
    let expected: Vec<TexToken> = vec![
        TexToken::new_plain(TexTokenKind::Symbol("hello".to_string())),
        TexToken {
            kind: TexTokenKind::Symbol("this".to_string()),
            decoration: TexTokenDecoration {
                subscript: vec![],
                superscript: vec![TexToken::new_plain(TexTokenKind::Symbol("i".to_string()))],
            },
        },
        TexToken::new_plain(TexTokenKind::Symbol("s".to_string())),
        TexToken::new_plain(TexTokenKind::Symbol("a".to_string())),
        TexToken {
            kind: TexTokenKind::Symbol("test".to_string()),
            decoration: TexTokenDecoration {
                subscript: vec![],
                superscript: vec![
                    TexToken::new_plain(TexTokenKind::Symbol("of".to_string())),
                    TexToken::new_plain(TexTokenKind::Symbol("superscript".to_string())),
                ],
            },
        },
        TexToken::new_plain(TexTokenKind::Symbol(".".to_string())),
        TexToken::new_plain(TexTokenKind::Symbol("It".to_string())),
        TexToken::new_plain(TexTokenKind::Symbol("should".to_string())),
        TexToken {
            kind: TexTokenKind::Symbol("go".to_string()),
            decoration: TexTokenDecoration {
                subscript: vec![],
                superscript: vec![TexToken {
                    kind: TexTokenKind::Symbol("super".to_string()),
                    decoration: TexTokenDecoration {
                        subscript: vec![],
                        superscript: vec![TexToken {
                            kind: TexTokenKind::Symbol("super".to_string()),
                            decoration: TexTokenDecoration {
                                subscript: vec![],
                                superscript: vec![TexToken::new_plain(TexTokenKind::Symbol(
                                    "super".to_string(),
                                ))],
                            },
                        }],
                    },
                }],
            },
        },
        TexToken::new_plain(TexTokenKind::Symbol("!".to_string())),
    ];
    assert_eq!(expected, parse_tex(tex));
}

#[test]
fn test_subscript() {
    let tex = "hello this_is a test_{of subscript}. It should go_{sub_{sub_{sub}}}!";
    let expected: Vec<TexToken> = vec![
        TexToken::new_plain(TexTokenKind::Symbol("hello".to_string())),
        TexToken {
            kind: TexTokenKind::Symbol("this".to_string()),
            decoration: TexTokenDecoration {
                superscript: vec![],
                subscript: vec![TexToken::new_plain(TexTokenKind::Symbol("i".to_string()))],
            },
        },
        TexToken::new_plain(TexTokenKind::Symbol("s".to_string())),
        TexToken::new_plain(TexTokenKind::Symbol("a".to_string())),
        TexToken {
            kind: TexTokenKind::Symbol("test".to_string()),
            decoration: TexTokenDecoration {
                superscript: vec![],
                subscript: vec![
                    TexToken::new_plain(TexTokenKind::Symbol("of".to_string())),
                    TexToken::new_plain(TexTokenKind::Symbol("subscript".to_string())),
                ],
            },
        },
        TexToken::new_plain(TexTokenKind::Symbol(".".to_string())),
        TexToken::new_plain(TexTokenKind::Symbol("It".to_string())),
        TexToken::new_plain(TexTokenKind::Symbol("should".to_string())),
        TexToken {
            kind: TexTokenKind::Symbol("go".to_string()),
            decoration: TexTokenDecoration {
                superscript: vec![],
                subscript: vec![TexToken {
                    kind: TexTokenKind::Symbol("sub".to_string()),
                    decoration: TexTokenDecoration {
                        superscript: vec![],
                        subscript: vec![TexToken {
                            kind: TexTokenKind::Symbol("sub".to_string()),
                            decoration: TexTokenDecoration {
                                superscript: vec![],
                                subscript: vec![TexToken::new_plain(TexTokenKind::Symbol(
                                    "sub".to_string(),
                                ))],
                            },
                        }],
                    },
                }],
            },
        },
        TexToken::new_plain(TexTokenKind::Symbol("!".to_string())),
    ];
    assert_eq!(expected, parse_tex(tex));
}

#[test]
fn process_latex_turns_newlines_into_spaces() {
    assert_eq!(obsidian_hugo::latex::process_latex("a\nb\n\nc".to_string()), "a b  c");
    assert_eq!(obsidian_hugo::latex::process_latex("".to_string()), "");
}

#[test]
fn parse_drops_empty_symbols_and_keeps_braces_in_symbols() {
    // `{` at the same level is kept in the symbol, the closing `}` is not.
    let expected = vec![TexToken::new_plain(TexTokenKind::Symbol("{ab".to_string()))];
    assert_eq!(expected, parse_tex("{ab}"));
    assert_eq!(Vec::<TexToken>::new(), parse_tex("   "));
}

#[test]
fn backslash_pair_is_a_newline() {
    assert_eq!(vec![TexToken::new_plain(TexTokenKind::Newline)], parse_tex("\\\\"));
    let sym = |s: &str| TexToken::new_plain(TexTokenKind::Symbol(s.to_string()));
    assert_eq!(
        vec![sym("a"), TexToken::new_plain(TexTokenKind::Newline), sym("b")],
        parse_tex("a \\\\ b")
    );
    let cmd = TexToken::new_plain(TexTokenKind::Command(TexCommand { name: "x".to_string(), arguments: vec![] }));
    assert_eq!(vec![cmd, TexToken::new_plain(TexTokenKind::Newline)], parse_tex("\\x\\\\"));
}

#[test]
fn subscript_at_the_end_is_dropped() {
    assert_eq!(vec![TexToken::new_plain(TexTokenKind::Symbol("x".to_string()))], parse_tex("x_"));
}

#[test]
fn process_latex_twice_changes_nothing_more() {
    let once = obsidian_hugo::latex::process_latex("x^2\n+ y_1\n".to_string());
    assert_eq!(once, "x^2 + y_1 ");
    assert_eq!(obsidian_hugo::latex::process_latex(once.clone()), once);
}

#[test]
fn leading_whitespace_changes_no_token() {
    assert_eq!(parse_tex(" \t\n x^2 \\frac{a}{b}"), parse_tex("x^2 \\frac{a}{b}"));
    assert_eq!(parse_tex("  \\\\"), parse_tex("\\\\"));
}

#[test]
fn parsing_again_past_the_end_gives_nothing() {
    let mut p = TexParser::new("ab".chars().collect());
    assert_eq!(p.parse(), vec![TexToken::new_plain(TexTokenKind::Symbol("ab".to_string()))]);
    assert_eq!(p.parse(), Vec::<TexToken>::new());
}
