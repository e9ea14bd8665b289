use commentor::lexer::{tokenize, Token};
use commentor::parser::{parse, render, ConfigFile, ParseError, Section, TokenKind};

fn parse_text(src: &str) -> Result<ConfigFile, ParseError> {
    parse(&tokenize(src))
}

#[test]
fn full_config_scenario() {
    let src = "editor: subl\ngithub_token: abc123\npr_url: https://example.com/o/r/pull/5\ncomments:\n# not posted\nThanks\nShip-it\n";
    let config = parse_text(src).unwrap();
    assert_eq!(config.editor_command, "subl");
    assert_eq!(config.github_token, "abc123");
    assert_eq!(config.pr_url, "https://example.com/o/r/pull/5");
    assert_eq!(config.comments, vec!["Thanks".to_string(), "Ship-it".to_string()]);
}

#[test]
fn empty_text_parses_to_defaults() {
    let config = parse_text("").unwrap();
    assert_eq!(config.editor_command, "");
    assert_eq!(config.github_token, "");
    assert_eq!(config.pr_url, "");
    assert!(config.comments.is_empty());
}

#[test]
fn subset_only_token() {
    let config = parse_text("github_token: tok-1\n").unwrap();
    assert_eq!(config.editor_command, "");
    assert_eq!(config.github_token, "tok-1");
    assert_eq!(config.pr_url, "");
    assert!(config.comments.is_empty());
}

#[test]
fn subset_editor_and_comments() {
    let config = parse_text("editor: vim\ncomments:\nalpha\n").unwrap();
    assert_eq!(config.editor_command, "vim");
    assert_eq!(config.github_token, "");
    assert_eq!(config.pr_url, "");
    assert_eq!(config.comments, vec!["alpha".to_string()]);
}

#[test]
fn comments_preserve_file_order() {
    let config = parse_text("comments:\nalpha\nbeta\n").unwrap();
    assert_eq!(config.comments, vec!["alpha".to_string(), "beta".to_string()]);
}

#[test]
fn hash_lines_never_appear_in_output() {
    let config = parse_text("comments:\n#alpha\nThanks\n#beta.looks/like-an-ident\n").unwrap();
    assert_eq!(config.comments, vec!["Thanks".to_string()]);
}

#[test]
fn hash_line_at_end_without_newline() {
    let config = parse_text("comments:\nThanks\n# trailing note").unwrap();
    assert_eq!(config.comments, vec!["Thanks".to_string()]);
}

#[test]
fn malformed_editor_line_reports_missing_colon() {
    let err = parse_text("editor\n").unwrap_err();
    assert_eq!(err, ParseError { expected: TokenKind::Colon, section: Section::Editor });
}

#[test]
fn editor_line_without_value_reports_missing_identifier() {
    let err = parse_text("editor:\n").unwrap_err();
    assert_eq!(err, ParseError { expected: TokenKind::Identifier, section: Section::Editor });
}

#[test]
fn scalar_line_without_newline_reports_missing_newline() {
    let err = parse_text("pr_url: x").unwrap_err();
    assert_eq!(err, ParseError { expected: TokenKind::NewLine, section: Section::PrUrl });
}

#[test]
fn comments_header_with_value_reports_missing_newline() {
    let err = parse_text("comments: now\n").unwrap_err();
    assert_eq!(err, ParseError { expected: TokenKind::NewLine, section: Section::Comments });
}

#[test]
fn stray_space_in_comments_body_is_an_error() {
    let err = parse_text("comments:\n alpha\n").unwrap_err();
    assert_eq!(err, ParseError { expected: TokenKind::Identifier, section: Section::Comments });
}

#[test]
fn entry_without_newline_is_an_error() {
    let err = parse_text("comments:\nalpha").unwrap_err();
    assert_eq!(err, ParseError { expected: TokenKind::NewLine, section: Section::Comments });
}

#[test]
fn misplaced_section_is_skipped_silently() {
    // A later section cannot precede an earlier one: the parser skips the
    // stages whose keys do not match and ignores what is left over.
    let config = parse_text("pr_url: u\neditor: vim\n").unwrap();
    assert_eq!(config.editor_command, "");
    assert_eq!(config.github_token, "");
    assert_eq!(config.pr_url, "u");
    assert!(config.comments.is_empty());
}

#[test]
fn render_full_record_text() {
    let config = ConfigFile {
        editor_command: "subl".to_string(),
        github_token: "abc123".to_string(),
        pr_url: "https://example.com/o/r/pull/5".to_string(),
        comments: vec!["Thanks".to_string(), "Ship-it".to_string()],
    };
    let text = render(&config);
    assert_eq!(
        text,
        "editor: subl\ngithub_token: abc123\npr_url: https://example.com/o/r/pull/5\ncomments:\nThanks\nShip-it\n"
    );
}

#[test]
fn render_default_record_is_empty() {
    let config = ConfigFile {
        editor_command: String::new(),
        github_token: String::new(),
        pr_url: String::new(),
        comments: vec![],
    };
    assert_eq!(render(&config), "");
}

#[test]
fn round_trip_full_record() {
    let config = ConfigFile {
        editor_command: "subl".to_string(),
        github_token: "abc123".to_string(),
        pr_url: "https://example.com/o/r/pull/5".to_string(),
        comments: vec!["Thanks".to_string(), "Ship-it".to_string()],
    };
    let back = parse_text(&render(&config)).unwrap();
    assert_eq!(back.editor_command, config.editor_command);
    assert_eq!(back.github_token, config.github_token);
    assert_eq!(back.pr_url, config.pr_url);
    assert_eq!(back.comments, config.comments);
}

#[test]
fn round_trip_subset_record() {
    let config = ConfigFile {
        editor_command: String::new(),
        github_token: "t".to_string(),
        pr_url: String::new(),
        comments: vec!["one.comment".to_string()],
    };
    let back = parse_text(&render(&config)).unwrap();
    assert_eq!(back.editor_command, "");
    assert_eq!(back.github_token, "t");
    assert_eq!(back.pr_url, "");
    assert_eq!(back.comments, vec!["one.comment".to_string()]);
}

#[test]
fn tokenize_scalar_line() {
    let tokens = tokenize("editor: subl\n");
    assert_eq!(
        tokens,
        vec![
            Token::Identifier("editor".to_string()),
            Token::Colon,
            Token::Space,
            Token::Identifier("subl".to_string()),
            Token::NewLine,
        ]
    );
}

#[test]
fn tokenize_two_spaces_yield_two_tokens() {
    let tokens = tokenize("a  b");
    assert_eq!(
        tokens,
        vec![
            Token::Identifier("a".to_string()),
            Token::Space,
            Token::Space,
            Token::Identifier("b".to_string()),
        ]
    );
}

#[test]
fn tokenize_scheme_url_is_one_identifier() {
    let tokens = tokenize("https://example.com/a-b_c.d/e");
    assert_eq!(tokens, vec![Token::Identifier("https://example.com/a-b_c.d/e".to_string())]);
}

#[test]
fn tokenize_incomplete_scheme_splits() {
    let tokens = tokenize("http:x");
    assert_eq!(
        tokens,
        vec![
            Token::Identifier("http".to_string()),
            Token::Colon,
            Token::Identifier("x".to_string()),
        ]
    );
}

#[test]
fn tokenize_bare_scheme_is_not_one_identifier() {
    let tokens = tokenize("http://");
    assert_eq!(
        tokens,
        vec![
            Token::Identifier("http".to_string()),
            Token::Colon,
            Token::Identifier("//".to_string()),
        ]
    );
}

#[test]
fn tokenize_comment_runs_to_line_end() {
    let tokens = tokenize("#one: note here\nx");
    assert_eq!(
        tokens,
        vec![Token::Comment, Token::NewLine, Token::Identifier("x".to_string())]
    );
}

#[test]
fn tokenize_comment_at_end_of_text() {
    assert_eq!(tokenize("#abc"), vec![Token::Comment]);
}

#[test]
fn tokenize_skips_unrecognized_characters() {
    let tokens = tokenize("a !b\n");
    assert_eq!(
        tokens,
        vec![
            Token::Identifier("a".to_string()),
            Token::Space,
            Token::Identifier("b".to_string()),
            Token::NewLine,
        ]
    );
}

#[test]
fn tokenize_empty_text() {
    assert_eq!(tokenize(""), vec![]);
}
