use csv::parse;
use csv::parser::{ErrorKind, ParseError, ParsingContext};
use tabled::settings::Style;

fn assert_table(string: &str, expected: &str) {
    let mut matrix = parse(string).expect("the text is a table");

    for line in &mut matrix {
        for elem in line {
            // A -> " A "
            *elem = format!("{elem:?}");
        }
    }
    let mut table = tabled::builder::Builder::from_iter(matrix);
    table.set_default_text("-");
    let mut table = table.build();

    table.with(Style::rounded());
    assert_eq!(table.to_string(), expected.trim());
}

fn rows(table: &[&[&str]]) -> Vec<Vec<String>> {
    table.iter().map(|row| row.iter().map(|field| field.to_string()).collect()).collect()
}

fn assert_rows(string: &str, expected: &[&[&str]]) {
    assert_eq!(parse(string), Ok(rows(expected)));
}

#[test]
fn parser_smoke() {
    assert_table(
        // "AAA" -> AAA
        // "AA""BB""A" -> AA"BB"A
        "AAA,\"AA\",A#comment\n\"BBB\",BB,\"B\"",
        r#"
╭───────┬──────┬─────╮
│ "AAA" │ "AA" │ "A" │
├───────┼──────┼─────┤
│ "BBB" │ "BB" │ "B" │
╰───────┴──────┴─────╯"#,
    )
}

#[test]
fn empty() {
    assert_table(
        ",\n,",
        r#"
╭────┬────╮
│ "" │ "" │
├────┼────┤
│ "" │ "" │
╰────┴────╯"#,
    )
}

#[test]
fn row() {
    assert_table(
        "A,B,C,D",
        r#"
╭─────┬─────┬─────┬─────╮
│ "A" │ "B" │ "C" │ "D" │
├─────┼─────┼─────┼─────┤"#,
    )
}

#[test]
fn column() {
    assert_table(
        "A\nB\nC\nD",
        r#"
╭─────╮
│ "A" │
├─────┤
│ "B" │
│ "C" │
│ "D" │
╰─────╯"#,
    )
}

#[test]
fn quoted() {
    assert_table(
        "\"AAA\",AA,\"A\"\nBBB,\"BB\",B",
        r#"
╭───────┬──────┬─────╮
│ "AAA" │ "AA" │ "A" │
├───────┼──────┼─────┤
│ "BBB" │ "BB" │ "B" │
╰───────┴──────┴─────╯"#,
    )
}

#[test]
fn parser_comment() {
    assert_table(
        "A,B,C,#comment",
        r#"
╭─────┬─────┬─────┬────╮
│ "A" │ "B" │ "C" │ "" │
├─────┼─────┼─────┼────┤"#,
    )
}

#[test]
fn parser_comma() {
    assert_table(
        "A,B,,C,D",
        r#"
╭─────┬─────┬────┬─────┬─────╮
│ "A" │ "B" │ "" │ "C" │ "D" │
├─────┼─────┼────┼─────┼─────┤"#,
    )
}

#[test]
fn several_newlines() {
    assert_table("A\n\n\n", r#"
╭─────╮
│ "A" │
├─────┤"#)
}

#[test]
fn several_quoted() {
    assert_table(r#""""""""#, r#"
╭────────╮
│ "\"\"" │
├────────┤"#)
}

#[test]
fn scenario_single_row() {
    assert_rows("A,B,C,D", &[&["A", "B", "C", "D"]]);
}

#[test]
fn scenario_quotes_and_comment() {
    assert_rows(
        "AAA,\"AA\",A#comment\n\"BBB\",BB,\"B\"",
        &[&["AAA", "AA", "A"], &["BBB", "BB", "B"]],
    );
}

#[test]
fn scenario_empty_field_between_commas() {
    assert_rows("A,B,,C,D", &[&["A", "B", "", "C", "D"]]);
}

#[test]
fn scenario_only_quotes() {
    assert_rows(r#""""""""#, &[&["\"\""]]);
}

#[test]
fn scenario_single_column() {
    assert_rows("A\nB\nC\nD", &[&["A"], &["B"], &["C"], &["D"]]);
}

#[test]
fn empty_input_is_an_empty_table() {
    assert_rows("", &[]);
}

#[test]
fn commas_and_line_feeds_give_empty_fields() {
    assert_rows(",\n,", &[&["", ""], &["", ""]]);
    assert_rows(",", &[&["", ""]]);
    assert_rows(",,", &[&["", "", ""]]);
    assert_rows(",,\n", &[&["", "", ""]]);
    assert_rows("\n,\n\n,,\n", &[&["", ""], &["", "", ""]]);
    assert_rows("\n\n\n", &[]);
}

#[test]
fn trailing_blank_lines_collapse() {
    assert_rows("A\n\n\n", &[&["A"]]);
    assert_rows("A\n", &[&["A"]]);
    assert_rows("A", &[&["A"]]);
    assert_rows("A,\n\n", &[&["A", ""]]);
    assert_rows("A\r\n\r\n\n", &[&["A"]]);
}

#[test]
fn blank_lines_between_rows_give_no_row() {
    assert_rows("A\n\nB", &[&["A"], &["B"]]);
    assert_rows("\n\nA", &[&["A"]]);
    assert_rows("A\n#only a comment\nB", &[&["A"], &["B"]]);
}

#[test]
fn carriage_return_line_feed_ends_a_row_like_line_feed() {
    let with_lf = "A,B\n\"C\",D#x\n,\n\nE";
    let with_crlf = with_lf.replace('\n', "\r\n");
    assert_eq!(parse(&with_crlf), parse(with_lf));
    assert_rows(&with_crlf, &[&["A", "B"], &["C", "D"], &["", ""], &["E"]]);
}

#[test]
fn lone_carriage_return_is_content() {
    assert_rows("A\r123", &[&["A\r123"]]);
    assert_rows("A\rB,C\r", &[&["A\rB", "C\r"]]);
    assert_rows("\"A\rB\"", &[&["A\rB"]]);
    assert_rows("A#x\ry\nB", &[&["A"], &["B"]]);
    assert_rows("\r", &[&["\r"]]);
}

#[test]
fn comment_is_transparent() {
    assert_rows("#comment", &[]);
    assert_rows("#comment\nA", &[&["A"]]);
    assert_rows("A#comment", &[&["A"]]);
    assert_rows("A,#comment", &[&["A", ""]]);
    assert_rows("A,#comment\nB", &[&["A", ""], &["B"]]);
    assert_rows(",#comment", &[&["", ""]]);
    assert_rows("\"A\"#comment\n", &[&["A"]]);
}

#[test]
fn quoted_value_keeps_delimiters() {
    assert_rows("\"a,b\",c", &[&["a,b", "c"]]);
    assert_rows("\"a#b\"", &[&["a#b"]]);
    assert_rows("\"a\nb\",c\nd", &[&["a\nb", "c"], &["d"]]);
    assert_rows("\"a\r\nb\"", &[&["a\r\nb"]]);
    assert_rows("\"\"", &[&[""]]);
    assert_rows("\"\",\"\"", &[&["", ""]]);
}

#[test]
fn fields_keep_multi_byte_text() {
    assert_rows("П,🔥\n\"Q🔥\",é€", &[&["П", "🔥"], &["Q🔥", "é€"]]);
    assert_rows("é€🔥,\"é\"\"€\"", &[&["é€🔥", "é\"€"]]);
}

#[test]
fn rows_may_differ_in_length() {
    assert_rows("A\nB,C,D\nE,F", &[&["A"], &["B", "C", "D"], &["E", "F"]]);
}

#[test]
fn quote_inside_a_bare_value_is_content() {
    assert_rows("A\"B\"", &[&["A\"B\""]]);
    assert_rows("A\",B", &[&["A\"", "B"]]);
}

#[test]
fn unterminated_quote_is_an_error_at_the_token() {
    assert_eq!(parse("\"A"), Err(ParseError { kind: ErrorKind::UnterminatedQuote, offset: 0 }));
    assert_eq!(
        parse("A,\"B"),
        Err(ParseError { kind: ErrorKind::UnterminatedQuote, offset: 2 })
    );
    assert_eq!(
        parse("П,🔥\n\"B\"\"\nC"),
        Err(ParseError { kind: ErrorKind::UnterminatedQuote, offset: 8 })
    );
    assert_eq!(parse("\""), Err(ParseError { kind: ErrorKind::UnterminatedQuote, offset: 0 }));
}

#[test]
fn adjacent_values_are_an_error_at_the_second_value() {
    assert_eq!(parse("\"A\"B"), Err(ParseError { kind: ErrorKind::AdjacentValues, offset: 3 }));
    assert_eq!(
        parse("x,\"A\"B"),
        Err(ParseError { kind: ErrorKind::AdjacentValues, offset: 5 })
    );
    assert_eq!(
        parse("é\n\"A\"B,C"),
        Err(ParseError { kind: ErrorKind::AdjacentValues, offset: 6 })
    );
}

#[test]
fn pair_of_quotes_does_not_close_a_value() {
    assert_eq!(parse("\"A\"\"B"), Err(ParseError { kind: ErrorKind::UnterminatedQuote, offset: 0 }));
    assert_eq!(parse("\"A\"B\"C"), Err(ParseError { kind: ErrorKind::AdjacentValues, offset: 3 }));
    assert_eq!(parse("x,\"A\"\"B\""), Ok(rows(&[&["x", "A\"B"]])));
}

#[test]
fn first_failure_wins() {
    assert_eq!(
        parse("\"A\"B,\"C"),
        Err(ParseError { kind: ErrorKind::AdjacentValues, offset: 3 })
    );
    assert_eq!(
        parse("\"A,\nB\"C\"D"),
        Err(ParseError { kind: ErrorKind::AdjacentValues, offset: 6 })
    );
}

#[test]
fn no_row_is_empty() {
    for text in ["", "\n", "A\n\nB\n", ",\n\n,", "#c\n\n#d", "\"\"\n\n"] {
        for row in parse(text).expect("the text is a table") {
            assert!(!row.is_empty());
        }
    }
}

#[test]
fn parsing_context_parses_like_parse() {
    let text = "A,\"B\"\"\"#c\r\n,D\n";
    assert_eq!(ParsingContext::new().parse(text), parse(text));
    assert_eq!(ParsingContext::new().parse(text), Ok(rows(&[&["A", "B\""], &["", "D"]])));
}

#[test]
fn line_feed_inside_quotes_is_content_not_a_line_end() {
    assert_rows("\"a\nb\"", &[&["a\nb"]]);
    assert_rows("\"a\r\nb\"", &[&["a\r\nb"]]);
    assert_ne!(parse("\"a\nb\""), parse("\"a\r\nb\""));
}

#[test]
fn text_without_line_feed_is_one_row_at_most() {
    for text in ["", "A", "A,B\r,C", "\r\r", "A#b\rc", ",", "\"x\ry\",z"] {
        assert!(parse(text).expect("the text is a table").len() <= 1);
    }
}

#[test]
fn failure_kind_survives_carriage_returns() {
    assert_eq!(
        parse("A\n\"B"),
        Err(ParseError { kind: ErrorKind::UnterminatedQuote, offset: 2 })
    );
    assert_eq!(
        parse("A\r\n\"B"),
        Err(ParseError { kind: ErrorKind::UnterminatedQuote, offset: 3 })
    );
}
