use csv::lexer::cursor::Cursor;
use csv::lexer::unescape::{unescape, UnescapeContext};
use csv::lexer::{tokenize, Token, TokenKind, Value};

fn make_snapshot(string: &str) -> String {
    let tokens = tokenize(string);

    let mut snapshot = vec![];

    for elem in tokens {
        let Token { len, kind } = elem;
        snapshot.push(format!("{len}:{kind:?}"));
    }

    snapshot.join(",")
}

fn assert_snapshot(snapshot: &str, string: &str) {
    assert_eq!(make_snapshot(snapshot), string);
}

#[test]
fn lexer_smoke() {
    assert_eq!(
        make_snapshot("A,B,C,D#comment"),
        "\
        1:Value(Bare),\
        1:Comma,\
        1:Value(Bare),\
        1:Comma,\
        1:Value(Bare),\
        1:Comma,\
        1:Value(Bare),\
        8:Comment"
    )
}

#[test]
fn lexer_comma() {
    assert_snapshot(",", "1:Comma");
    assert_snapshot(",,", "1:Comma,1:Comma");
    assert_snapshot(",#comment", "1:Comma,8:Comment");
    assert_snapshot(",\n", "1:Comma,1:Newline");
    assert_snapshot(",A", "1:Comma,1:Value(Bare)");
    assert_snapshot(",\"A\"", "1:Comma,3:Value(Quoted)");

    assert_snapshot(
        "\r,\n,\",\r\"",
        "1:Value(Bare),1:Comma,1:Newline,1:Comma,4:Value(Quoted)",
    )
}

#[test]
fn newline() {
    assert_snapshot("\n", "1:Newline");
    assert_snapshot("\n\n", "1:Newline,1:Newline");
    assert_snapshot("\n#comment", "1:Newline,8:Comment");
    assert_snapshot("\n,", "1:Newline,1:Comma");
    assert_snapshot("\nA", "1:Newline,1:Value(Bare)");
    assert_snapshot("\n\"A\"", "1:Newline,3:Value(Quoted)");
    assert_snapshot("\r\n", "2:Newline");

    assert_snapshot("\n\r", "1:Newline,1:Value(Bare)");
    assert_snapshot("\r\r\n", "1:Value(Bare),2:Newline");
}

#[test]
fn lexer_comment() {
    assert_snapshot("#", "1:Comment");
    assert_snapshot("##", "2:Comment");
    assert_snapshot("#\n", "1:Comment,1:Newline");
    assert_snapshot("#,", "2:Comment");
    assert_snapshot("#A", "2:Comment");
    assert_snapshot("#\"A\"", "4:Comment");
}

#[test]
fn value_bare() {
    assert_snapshot("A", "1:Value(Bare)");
    assert_snapshot("A#", "1:Value(Bare),1:Comment");
    assert_snapshot("A\n", "1:Value(Bare),1:Newline");
    assert_snapshot("A,", "1:Value(Bare),1:Comma");
    assert_snapshot("AA", "2:Value(Bare)");
    assert_snapshot("A\"A\"", "4:Value(Bare)");

    assert_snapshot("П", "2:Value(Bare)");

    assert_snapshot("Q🔥,", "5:Value(Bare),1:Comma");

    assert_snapshot("A\r123", "5:Value(Bare)");
    assert_snapshot("\r123", "4:Value(Bare)");

    assert_snapshot("\r\r", "2:Value(Bare)");
}

#[test]
fn value_quoted() {
    assert_snapshot("\"A\"", "3:Value(Quoted)");
    assert_snapshot("\"A\"#", "3:Value(Quoted),1:Comment");
    assert_snapshot("\"A\"\n", "3:Value(Quoted),1:Newline");
    assert_snapshot("\"A\",", "3:Value(Quoted),1:Comma");
    assert_snapshot("\"A\"A", "3:Value(Quoted),1:Value(Bare)");
    assert_snapshot("\"A\"\"A\"", "6:Value(Quoted)");

    assert_snapshot("\"П\"", "4:Value(Quoted)");

    assert_snapshot("\"Q🔥\",", "7:Value(Quoted),1:Comma");

    assert_snapshot(&"\"".repeat(6), "6:Value(Quoted)");

    assert_snapshot("\"\n,\r\n#comment\n\r\n\"", "17:Value(Quoted)");
}

#[test]
fn empty_input_has_no_tokens() {
    assert_eq!(tokenize(""), vec![]);
}

#[test]
fn unterminated_quote_reaches_end_of_input() {
    assert_snapshot("\"A", "2:Value(Quoted)");
    assert_snapshot("\"A\"\"", "4:Value(Quoted)");
    assert_snapshot("\"A\n,B", "5:Value(Quoted)");
    assert_snapshot("\"", "1:Value(Quoted)");
}

#[test]
fn comment_swallows_lone_carriage_return() {
    assert_snapshot("#a\rb\nc", "4:Comment,1:Newline,1:Value(Bare)");
    assert_snapshot("#a\r\nc", "2:Comment,2:Newline,1:Value(Bare)");
    assert_snapshot("#\r\r\n", "2:Comment,2:Newline");
    assert_snapshot("#a\r", "3:Comment");
}

#[test]
fn bare_value_stops_before_carriage_return_line_feed() {
    assert_snapshot("AB\r\nC", "2:Value(Bare),2:Newline,1:Value(Bare)");
    assert_snapshot("A\rB\r\n", "3:Value(Bare),2:Newline");
}

#[test]
fn token_new_keeps_its_arguments() {
    let token = Token::new(TokenKind::Value(Value::Quoted), 7);
    assert_eq!(token.len, 7);
    assert_eq!(token.kind, TokenKind::Value(Value::Quoted));
    assert_eq!(token, Token { len: 7, kind: TokenKind::Value(Value::Quoted) });
}

#[test]
fn token_lengths_count_bytes_not_characters() {
    // two bytes, three bytes and four bytes
    assert_snapshot("é", "2:Value(Bare)");
    assert_snapshot("€", "3:Value(Bare)");
    assert_snapshot("🔥", "4:Value(Bare)");
    assert_snapshot("#é€🔥", "10:Comment");
    assert_snapshot("\"é€🔥\"", "11:Value(Quoted)");
    let total: usize = tokenize("é,€\n🔥#é").iter().map(|token| token.len).sum();
    assert_eq!(total, "é,€\n🔥#é".len());
}

#[test]
fn cursor_peeks_without_consuming() {
    let cursor = Cursor::new("ab");
    assert_eq!(cursor.peek_first(), Some('a'));
    assert_eq!(cursor.peek_second(), Some('b'));
    assert_eq!(cursor.peek_first(), Some('a'));
    assert_eq!(cursor.token_len(), 0);

    let short = Cursor::new("a");
    assert_eq!(short.peek_first(), Some('a'));
    assert_eq!(short.peek_second(), None);

    let empty = Cursor::new("");
    assert_eq!(empty.peek_first(), None);
    assert_eq!(empty.peek_second(), None);
}

#[test]
fn cursor_counts_the_bytes_it_eats() {
    let mut cursor = Cursor::new("aé€🔥");
    assert_eq!(cursor.eat_char(), Some('a'));
    assert_eq!(cursor.token_len(), 1);
    assert_eq!(cursor.eat_char(), Some('é'));
    assert_eq!(cursor.token_len(), 3);
    assert_eq!(cursor.peek_first(), Some('€'));
    assert_eq!(cursor.peek_second(), Some('🔥'));
    cursor.reset_token_len();
    assert_eq!(cursor.token_len(), 0);
    assert_eq!(cursor.eat_char(), Some('€'));
    assert_eq!(cursor.token_len(), 3);
    assert_eq!(cursor.eat_char(), Some('🔥'));
    assert_eq!(cursor.token_len(), 7);
    assert_eq!(cursor.eat_char(), None);
    assert_eq!(cursor.token_len(), 7);
    assert_eq!(cursor.peek_first(), None);
}

#[test]
fn cursor_eats_tokens_one_by_one() {
    let mut cursor = Cursor::new("A,\"B\"\r\n#c");
    assert_eq!(cursor.eat_token(), Some(Token { len: 1, kind: TokenKind::Value(Value::Bare) }));
    assert_eq!(cursor.eat_token(), Some(Token { len: 1, kind: TokenKind::Comma }));
    assert_eq!(cursor.eat_token(), Some(Token { len: 3, kind: TokenKind::Value(Value::Quoted) }));
    assert_eq!(cursor.eat_token(), Some(Token { len: 2, kind: TokenKind::Newline }));
    assert_eq!(cursor.eat_token(), Some(Token { len: 2, kind: TokenKind::Comment }));
    assert_eq!(cursor.eat_token(), None);
    assert_eq!(cursor.eat_token(), None);
}

#[test]
fn cursor_token_includes_bytes_eaten_before_it() {
    let mut cursor = Cursor::new("xAB,");
    assert_eq!(cursor.eat_char(), Some('x'));
    assert_eq!(cursor.eat_token(), Some(Token { len: 3, kind: TokenKind::Value(Value::Bare) }));
    assert_eq!(cursor.token_len(), 0);
    assert_eq!(cursor.eat_token(), Some(Token { len: 1, kind: TokenKind::Comma }));
}

#[test]
fn unescape_strips_quotes_and_halves_pairs() {
    assert_eq!(unescape("\"\""), Some(String::new()));
    assert_eq!(unescape("\"A\""), Some("A".to_owned()));
    assert_eq!(unescape("\"AA\"\"B\"\"A\""), Some("AA\"B\"A".to_owned()));
    assert_eq!(unescape("\"AA\"\"B\"\"\""), Some("AA\"B\"".to_owned()));
    assert_eq!(unescape("\"\"\"\""), Some("\"".to_owned()));
    assert_eq!(unescape("\"a,b\n#c\r\n\""), Some("a,b\n#c\r\n".to_owned()));
    assert_eq!(unescape("\"Q🔥П\""), Some("Q🔥П".to_owned()));
}

#[test]
fn unescape_rejects_what_is_not_closed() {
    assert_eq!(unescape(""), None);
    assert_eq!(unescape("\""), None);
    assert_eq!(unescape("\"A"), None);
    assert_eq!(unescape("\"A\"\""), None);
    assert_eq!(unescape("\"\"\""), None);
}

#[test]
fn unescape_rejects_what_does_not_start_with_a_quote() {
    assert_eq!(unescape("A"), None);
    assert_eq!(unescape("A\""), None);
}

#[test]
fn unescape_rejects_text_behind_the_closing_quote() {
    assert_eq!(unescape("\"A\"B"), None);
    assert_eq!(unescape("\"A\"B\""), None);
}

#[test]
fn quoting_then_unescaping_gives_the_value_back() {
    for value in ["", "plain", "with \"quotes\"", "\"", "\"\"", "a,b#c\nd\r\ne\r", "Q🔥П"] {
        let quoted = format!("\"{}\"", value.replace('"', "\"\""));
        let tokens = tokenize(&quoted);
        assert_eq!(
            tokens,
            vec![Token { len: quoted.len(), kind: TokenKind::Value(Value::Quoted) }]
        );
        assert_eq!(unescape(&quoted), Some(value.to_owned()));
    }
}

#[test]
fn unescape_context_takes_one_character_at_a_time() {
    let mut context = UnescapeContext::new();
    assert!(context.eat_char('"'));
    assert!(context.eat_char('A'));
    assert!(context.eat_char('"'));
    assert!(context.eat_char('"'));
    assert!(context.eat_char('B'));
    assert!(context.eat_char('"'));
    assert_eq!(context.finish(), Some("A\"B".to_owned()));
}

#[test]
fn unescape_context_refuses_what_cannot_follow() {
    let mut context = UnescapeContext::new();
    assert!(!context.eat_char('A'));
    assert!(context.eat_char('"'));
    assert!(context.eat_char('"'));
    assert!(!context.eat_char('A'));
    assert_eq!(context.finish(), Some(String::new()));

    let mut open = UnescapeContext::new();
    assert!(open.eat_char('"'));
    assert!(open.eat_char('A'));
    assert_eq!(open.finish(), None);
    assert_eq!(UnescapeContext::new().finish(), None);
}
