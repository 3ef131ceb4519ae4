use obsidian_hugo::lexer::{Callout, ExternalLink, InternalLink, LexFault, Lexer, Token};

fn lex(text: &str) -> Result<Vec<Token>, LexFault> {
    Lexer::new(text.to_string()).tokens()
}

fn text(s: &str) -> Token {
    Token::Text(s.to_string())
}

#[test]
fn header_then_line_with_internal_link() {
    let tokens = lex("# Title\nHello [[Note#Part|Alias]] world\n").unwrap();
    assert_eq!(
        tokens,
        vec![
            Token::Header(1, vec![text("Title\n")]),
            text("Hello "),
            Token::InternalLink(InternalLink {
                dest: "Note".to_string(),
                position: Some("Part".to_string()),
                show_how: Some("Alias".to_string()),
                options: None,
                render: false,
            }),
            text(" world\n"),
        ]
    );
}

#[test]
fn internal_link_with_three_fields_and_render() {
    let tokens = lex("![[pic.png|opt|label]]").unwrap();
    assert_eq!(
        tokens,
        vec![
            text(""),
            Token::InternalLink(InternalLink {
                dest: "pic.png".to_string(),
                position: None,
                show_how: Some("label".to_string()),
                options: Some("opt".to_string()),
                render: true,
            }),
            text(""),
        ]
    );
}

#[test]
fn tag_whitespace_and_final_line() {
    // The last line takes no newline at the end of the text.
    let tokens = lex("#tag rest").unwrap();
    assert_eq!(tokens, vec![Token::Tag("tag".to_string()), text(" "), text("rest")]);
}

#[test]
fn header_levels() {
    let tokens = lex("### Deep").unwrap();
    assert_eq!(tokens, vec![Token::Header(3, vec![text("Deep")])]);
}

#[test]
fn math_spans() {
    let tokens = lex("$x$ and $$y$$\n").unwrap();
    assert_eq!(
        tokens,
        vec![
            Token::InlineMath("x".to_string()),
            text(" "),
            text("and "),
            Token::DisplayMath("y".to_string()),
            text("\n"),
        ]
    );
}

#[test]
fn divider_after_first_token() {
    let tokens = lex("a\n---\nb").unwrap();
    assert_eq!(tokens, vec![text("a\n"), Token::Divider, text("b")]);
}

#[test]
fn front_matter_first() {
    let tokens = lex("---\ntitle: x\n---\nbody").unwrap();
    assert_eq!(tokens.len(), 3);
    match &tokens[0] {
        Token::Frontmatter(y) => assert_eq!(y["title"].as_str(), Some("x")),
        other => panic!("expected front matter, got {:?}", other),
    }
    assert_eq!(tokens[1], text("\n"));
    assert_eq!(tokens[2], text("body"));
}

#[test]
fn external_link_in_line() {
    let tokens = lex("See [site](http://x.y) now\n").unwrap();
    assert_eq!(
        tokens,
        vec![
            text("See "),
            Token::ExternalLink(ExternalLink {
                url: "http://x.y".to_string(),
                show_how: "site".to_string(),
                render: false,
            }),
            text(" now\n"),
        ]
    );
}

#[test]
fn bracket_without_link_is_read_as_text() {
    let tokens = lex("a [b] c").unwrap();
    assert_eq!(tokens, vec![text("a "), text("[b]"), text(" c")]);
    let tokens = lex("[a] b\nc").unwrap();
    assert_eq!(tokens, vec![text(""), text("[a]"), text(" b\n"), text("c")]);
}

#[test]
fn link_closed_at_the_end_is_a_link() {
    let tokens = lex("[a](b)").unwrap();
    assert_eq!(
        tokens,
        vec![
            text(""),
            Token::ExternalLink(ExternalLink { url: "b".to_string(), show_how: "a".to_string(), render: false }),
            text(""),
        ]
    );
}

#[test]
fn link_without_closing_parenthesis_falls_back_to_a_bracket() {
    let tokens = lex("[a](b").unwrap();
    assert_eq!(tokens, vec![text(""), text("["), text("a](b")]);
}

#[test]
fn last_line_gets_no_newline() {
    assert_eq!(lex("abc").unwrap(), vec![text("abc")]);
    assert_eq!(lex("abc\n").unwrap(), vec![text("abc\n")]);
}

#[test]
fn quote_block() {
    let tokens = lex("> a quote\n> more\n").unwrap();
    assert_eq!(tokens, vec![Token::Quote(vec![text("a quote\n"), text("more\n")])]);
}

#[test]
fn callout_with_title() {
    let tokens = lex("> [!NOTE] Title\n> body\n").unwrap();
    assert_eq!(
        tokens,
        vec![Token::Callout(Callout {
            kind: "note".to_string(),
            title: vec![text("Title")],
            contents: vec![text("body\n")],
            foldable: false,
        })]
    );
}

#[test]
fn foldable_callout_without_title() {
    let tokens = lex("> [!tip]-\n> x\n").unwrap();
    assert_eq!(
        tokens,
        vec![Token::Callout(Callout {
            kind: "tip".to_string(),
            title: vec![text("Tip")],
            contents: vec![text("x\n")],
            foldable: true,
        })]
    );
}

#[test]
fn unclosed_internal_link_is_a_fault() {
    assert_eq!(lex("[[a]"), Err(LexFault));
}

#[test]
fn unclosed_inline_math_is_a_fault() {
    assert_eq!(lex("$5 price"), Err(LexFault));
}

#[test]
fn too_many_link_fields_is_a_fault() {
    assert_eq!(lex("[[a|b|c|d]]"), Err(LexFault));
}

#[test]
fn divider_followed_by_text_is_a_fault() {
    assert_eq!(lex("a\n--- b"), Err(LexFault));
}

#[test]
fn next_hands_out_the_line_one_token_at_a_time() {
    let mut lexer = Lexer::new("x [[y]]".to_string());
    assert_eq!(lexer.try_next(), Ok(Some(text("x "))));
    assert!(matches!(lexer.try_next(), Ok(Some(Token::InternalLink(_)))));
    assert_eq!(lexer.try_next(), Ok(Some(text(""))));
    assert_eq!(lexer.try_next(), Ok(None));
    assert_eq!(lexer.try_next(), Ok(None));
}

#[test]
fn from_bytes_rejects_invalid_utf8() {
    assert!(Lexer::from_bytes(vec![0xff, 0xfe]).is_err());
    let l = Lexer::from_bytes("ok".as_bytes().to_vec()).unwrap();
    assert_eq!(l.tokens().unwrap(), vec![text("ok")]);
}

#[test]
fn whitespace_tokens() {
    assert!(text(" \t\n").is_whitespace());
    assert!(text("").is_whitespace());
    assert!(!text(" a").is_whitespace());
    assert!(!Token::Divider.is_whitespace());
}

#[test]
fn link_labels() {
    let l = ExternalLink { url: "u".to_string(), show_how: "".to_string(), render: false };
    assert_eq!(l.label(), "u");
    let l = ExternalLink { url: "u".to_string(), show_how: "s".to_string(), render: false };
    assert_eq!(l.label(), "s");
    let i = InternalLink {
        dest: "d".to_string(),
        position: Some("p".to_string()),
        show_how: None,
        options: None,
        render: false,
    };
    assert_eq!(i.label(), "d>p");
    let i = InternalLink {
        dest: "d".to_string(),
        position: Some("p".to_string()),
        show_how: Some("s".to_string()),
        options: None,
        render: false,
    };
    assert_eq!(i.label(), "s");
}

#[test]
fn next_gives_none_at_the_end_and_stays_there() {
    let mut l = Lexer::new("#t".to_string());
    assert_eq!(l.next(), Some(Token::Tag("t".to_string())));
    assert_eq!(l.next(), None);
    assert_eq!(l.next(), None);
}

#[test]
fn later_front_matter_markers_are_no_front_matter() {
    let tokens = lex("x\n---\na: b\n---\n").unwrap();
    assert!(tokens.iter().skip(1).all(|t| !matches!(t, Token::Frontmatter(_))));
    assert_eq!(tokens[1], Token::Divider);
}
