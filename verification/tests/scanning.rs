use seqdiag::Scanner;
use seqdiag::Token;
use seqdiag::TokenType;

fn scan(input: &str) -> Vec<Token> {
    let mut scanner = Scanner::new(input);
    let result = scanner.scan();
    return result;
}

#[test]
fn empty_diagram() {
    let _result = scan("");
}

#[test]
fn empty_token_list() {
    let mut scanner = Scanner::new("");
    let result = scanner.scan();
    assert_eq!(result.len(), 0);
}

#[test]
fn colon_token() {
    let mut scanner = Scanner::new(":");
    let result = scanner.scan();
    assert_eq!(result.len(), 2);
    assert_eq!(result[0].token_type, TokenType::Colon);
    assert_eq!(result[1].token_type, TokenType::Error);
}

#[test]
fn arrow_token() {
    let mut scanner = Scanner::new("->");
    let result = scanner.scan();
    assert_eq!(result.len(), 1);
    assert_eq!(result[0].token_type, TokenType::Arrow);
}

#[test]
fn identifier() {
    let mut scanner = Scanner::new("identifier");
    let result = scanner.scan();
    assert_eq!(result.len(), 1);
    assert_eq!(result[0].token_type, TokenType::Identifier);
    assert_eq!(result[0].text, "identifier");
}

#[test]
fn multiple_tokens() {
    let mut scanner = Scanner::new("one->two:");
    let result = scanner.scan();
    assert_eq!(result.len(), 5);
    assert_eq!(result[0].token_type, TokenType::Identifier);
    assert_eq!(result[0].text, "one");
    assert_eq!(result[1].token_type, TokenType::Arrow);
    assert_eq!(result[2].token_type, TokenType::Identifier);
    assert_eq!(result[2].text, "two");
    assert_eq!(result[3].token_type, TokenType::Colon);
    assert_eq!(result[4].token_type, TokenType::Error);
}

#[test]
fn identifier_with_space() {
    let mut scanner = Scanner::new("identifier with space");
    let result = scanner.scan();
    assert_eq!(result.len(), 1);
    assert_eq!(result[0].token_type, TokenType::Identifier);
    assert_eq!(result[0].text, "identifier with space");
}

#[test]
fn trim_whitespace_before_identifier() {
    let mut scanner = Scanner::new(" identifier with space");
    let result = scanner.scan();
    assert_eq!(result.len(), 1);
    assert_eq!(result[0].text, "identifier with space");
}

#[test]
fn trim_whitespace_after_identifier() {
    let mut scanner = Scanner::new("identifier with space  ");
    let result = scanner.scan();
    assert_eq!(result.len(), 1);
    assert_eq!(result[0].text, "identifier with space");
}

#[test]
fn title_keyword_token() {
    let mut scanner = Scanner::new("title");
    let result = scanner.scan();
    assert_eq!(result.len(), 1);
    assert_eq!(result[0].token_type, TokenType::Title);
    assert_eq!(result[0].text, "title");
}

#[test]
fn title_with_identifier() {
    let mut scanner = Scanner::new("title: some title");
    let result = scanner.scan();
    assert_eq!(result.len(), 3);
    assert_eq!(result[0].token_type, TokenType::Title);
    assert_eq!(result[1].token_type, TokenType::Colon);
    assert_eq!(result[2].token_type, TokenType::Value);
    assert_eq!(result[2].text, "some title");
}

#[test]
fn mutliple_lines() {
    let mut scanner = Scanner::new(
        "title: some title
            one->two: hello",
    );
    let result = scanner.scan();

    assert_eq!(result.len(), 9);
    assert_eq!(result[0].token_type, TokenType::Title);
    assert_eq!(result[2].line, 1);
    assert_eq!(result[3].line, 1);
    assert_eq!(result[3].token_type, TokenType::Endl);
    assert_eq!(result[4].line, 2);
    assert_eq!(result[8].token_type, TokenType::Value);
}

#[test]
fn unexpected_token() {
    let mut scanner = Scanner::new("one->(2)two");
    let result = scanner.scan();

    assert_eq!(result.len(), 4);
    assert_eq!(result[0].token_type, TokenType::Identifier);
    assert_eq!(result[1].token_type, TokenType::Arrow);
    assert_eq!(result[2].token_type, TokenType::Number);
    assert_eq!(result[2].text, "(2)");
    assert_eq!(result[3].token_type, TokenType::Identifier);
}

#[test]
fn flow_with_value() {
    let result = scan("one->two: hello");
    assert_eq!(result.len(), 5);
    assert_eq!(result[0].token_type, TokenType::Identifier);
    assert_eq!(result[0].text, "one");
    assert_eq!(result[1].token_type, TokenType::Arrow);
    assert_eq!(result[2].token_type, TokenType::Identifier);
    assert_eq!(result[2].text, "two");
    assert_eq!(result[3].token_type, TokenType::Colon);
    assert_eq!(result[4].token_type, TokenType::Value);
    assert_eq!(result[4].text, "hello");
}

#[test]
fn endl_token_text_is_newline() {
    let result = scan("a\nb");
    assert_eq!(result.len(), 3);
    assert_eq!(result[1].token_type, TokenType::Endl);
    assert_eq!(result[1].text, "\n");
    assert_eq!(result[1].line, 1);
    assert_eq!(result[2].line, 2);
}

#[test]
fn line_grows_only_at_endl() {
    let result = scan("a\n\nb->c");
    assert_eq!(result[0].line, 1);
    assert_eq!(result[1].line, 1);
    assert_eq!(result[2].line, 2);
    assert_eq!(result[3].line, 3);
    assert_eq!(result[4].line, 3);
    assert_eq!(result[5].line, 3);
}

#[test]
fn unterminated_number_is_error() {
    let result = scan("(");
    assert_eq!(result.len(), 1);
    assert_eq!(result[0].token_type, TokenType::Error);
    assert_eq!(result[0].text, "(");

    let longer = scan("(12");
    assert_eq!(longer.len(), 1);
    assert_eq!(longer[0].token_type, TokenType::Error);
    assert_eq!(longer[0].text, "(12");
}

#[test]
fn lone_dash_is_unexpected() {
    let result = scan("a-b");
    assert_eq!(result.len(), 3);
    assert_eq!(result[0].token_type, TokenType::Identifier);
    assert_eq!(result[1].token_type, TokenType::Unexpected);
    assert_eq!(result[1].text, "-");
    assert_eq!(result[2].token_type, TokenType::Identifier);
}

#[test]
fn identifier_spans_unicode_letters() {
    let result = scan("caf\u{e9}->bar");
    assert_eq!(result.len(), 3);
    assert_eq!(result[0].token_type, TokenType::Identifier);
    assert_eq!(result[0].text, "caf\u{e9}");
    assert_eq!(result[1].token_type, TokenType::Arrow);
    assert_eq!(result[2].token_type, TokenType::Identifier);
    assert_eq!(result[2].text, "bar");
}

#[test]
fn stray_character_is_unexpected() {
    let result = scan("*");
    assert_eq!(result.len(), 1);
    assert_eq!(result[0].token_type, TokenType::Unexpected);
    assert_eq!(result[0].text, "*");
}

#[test]
fn title_after_colon_is_value() {
    let result = scan(":title");
    assert_eq!(result.len(), 2);
    assert_eq!(result[0].token_type, TokenType::Colon);
    assert_eq!(result[1].token_type, TokenType::Value);
    assert_eq!(result[1].text, "title");
}

#[test]
fn colon_value_cut_short_is_error() {
    let result = scan(":ab(");
    assert_eq!(result.len(), 3);
    assert_eq!(result[0].token_type, TokenType::Colon);
    assert_eq!(result[1].token_type, TokenType::Error);
    assert_eq!(result[1].text, "ab");
    assert_eq!(result[2].token_type, TokenType::Error);
}
