use riz::generator::tokens_to_iml;
use riz::scanner::{tokenize_line, tokenize_lines};
use riz::token::{Token, TokenKind};

const SKELETON: &str = "export function w $main() {\n@start\n    ret 0\n}\ndata $fmt = { b \"compiler output: %d\\n\", b 0 }";

fn module_with(calls: &[&str]) -> String {
    let mut s = String::from("export function w $main() {\n@start\n");
    for v in calls {
        s.push_str(&format!("    call $printf(l $fmt, ..., w {})\n", v));
    }
    s.push_str("    ret 0\n}\ndata $fmt = { b \"compiler output: %d\\n\", b 0 }");
    s
}

fn call_lines(module: &str) -> Vec<String> {
    module
        .lines()
        .filter(|l| l.starts_with("    call "))
        .map(|l| l.to_string())
        .collect()
}

fn token(kind: TokenKind, text: Option<&str>) -> Token {
    Token { kind, text: text.map(|t| t.to_string()) }
}

#[test]
fn empty_tokens_give_bare_skeleton() {
    assert_eq!(tokens_to_iml(&[]), SKELETON);
}

#[test]
fn punctuation_only_input_gives_bare_skeleton() {
    let lines = vec!["  ;;  ".to_string(), "(-)".to_string()];
    let tokens = tokenize_lines(&lines);
    assert!(tokens.is_empty());
    let out = tokens_to_iml(&tokens);
    assert_eq!(out, SKELETON);
    assert!(call_lines(&out).is_empty());
}

#[test]
fn result_42_gives_one_call_line() {
    let out = tokens_to_iml(&tokenize_line("result 42'"));
    assert_eq!(call_lines(&out), vec!["    call $printf(l $fmt, ..., w 42)".to_string()]);
    assert_eq!(out, module_with(&["42"]));
}

#[test]
fn missing_delimiter_gives_no_call_line() {
    let out = tokens_to_iml(&tokenize_line("result 42"));
    assert!(call_lines(&out).is_empty());
    assert_eq!(out, SKELETON);
}

#[test]
fn two_lines_give_two_calls_in_order() {
    let lines = vec!["result 1'".to_string(), "result 2'".to_string()];
    let out = tokens_to_iml(&tokenize_lines(&lines));
    assert_eq!(
        call_lines(&out),
        vec![
            "    call $printf(l $fmt, ..., w 1)".to_string(),
            "    call $printf(l $fmt, ..., w 2)".to_string(),
        ]
    );
    assert_eq!(out, module_with(&["1", "2"]));
}

#[test]
fn generating_twice_is_identical() {
    let tokens = tokenize_line("result 7' if result 8' riz");
    let a = tokens_to_iml(&tokens);
    let b = tokens_to_iml(&tokens);
    assert_eq!(a, b);
    assert_eq!(a, module_with(&["7", "8"]));
}

#[test]
fn literal_text_is_copied_verbatim() {
    let out = tokens_to_iml(&tokenize_line("result 007'"));
    assert_eq!(out, module_with(&["007"]));
}

#[test]
fn pattern_needs_all_three_tokens_in_a_row() {
    let ts = vec![
        token(TokenKind::ResultKeyword, Some("result")),
        token(TokenKind::Delimiter, Some("'")),
        token(TokenKind::IntegerLiteral, Some("3")),
        token(TokenKind::Delimiter, Some("'")),
    ];
    assert_eq!(tokens_to_iml(&ts), SKELETON);
    let ts = vec![
        token(TokenKind::ResultKeyword, Some("result")),
        token(TokenKind::IntegerLiteral, Some("3")),
        token(TokenKind::If, Some("if")),
        token(TokenKind::Delimiter, Some("'")),
    ];
    assert_eq!(tokens_to_iml(&ts), SKELETON);
}

#[test]
fn broken_pattern_does_not_hide_next_match() {
    let ts = vec![
        token(TokenKind::ResultKeyword, Some("result")),
        token(TokenKind::IntegerLiteral, Some("1")),
        token(TokenKind::ResultKeyword, Some("result")),
        token(TokenKind::IntegerLiteral, Some("2")),
        token(TokenKind::Delimiter, Some("'")),
    ];
    assert_eq!(tokens_to_iml(&ts), module_with(&["2"]));
    let ts = vec![
        token(TokenKind::ResultKeyword, Some("result")),
        token(TokenKind::ResultKeyword, Some("result")),
        token(TokenKind::IntegerLiteral, Some("9")),
        token(TokenKind::Delimiter, Some("'")),
    ];
    assert_eq!(tokens_to_iml(&ts), module_with(&["9"]));
}

#[test]
fn literal_without_text_emits_nothing() {
    let ts = vec![
        token(TokenKind::ResultKeyword, Some("result")),
        token(TokenKind::IntegerLiteral, None),
        token(TokenKind::Delimiter, Some("'")),
    ];
    assert_eq!(tokens_to_iml(&ts), SKELETON);
}

#[test]
fn pattern_at_the_very_end_is_matched() {
    let ts = vec![
        token(TokenKind::While, Some("while")),
        token(TokenKind::ResultKeyword, Some("result")),
        token(TokenKind::IntegerLiteral, Some("4294967295")),
        token(TokenKind::Delimiter, Some("'")),
    ];
    assert_eq!(tokens_to_iml(&ts), module_with(&["4294967295"]));
}
