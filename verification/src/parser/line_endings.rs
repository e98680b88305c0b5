//! Line feed and carriage return with line feed end a row alike.

use crate::lexer::lemmas::lemma_lex_first;
use crate::lexer::{
    bare_end, comment_end, first_kind, first_len, is_bare_stop_at, is_line_break_at,
    lemma_bare_end, lemma_comment_end, lemma_first_len_bounds, lemma_quoted_end, lex,
    quoted_end, Lexeme, TokenKind, Value,
};
use crate::parser::{parse_text, Failure, Machine};
use vstd::prelude::*;

verus! {

/// The text with each line feed written as carriage return and line feed,
/// unless it follows a carriage return already. `after_cr` says whether a
/// carriage return stands right before the text.
pub open spec fn expanded(s: Seq<char>, after_cr: bool) -> Seq<char>
    decreases s.len(),
{
    if s.len() == 0 {
        Seq::empty()
    } else if s[0] == '\n' && !after_cr {
        seq!['\r', '\n'] + expanded(s.drop_first(), false)
    } else {
        seq![s[0]] + expanded(s.drop_first(), s[0] == '\r')
    }
}

/// The text with every line feed that does not follow a carriage return
/// replaced by a carriage return and a line feed.
pub open spec fn with_crlf(s: Seq<char>) -> Seq<char> {
    expanded(s, false)
}

/// Whether every line feed of the text follows a carriage return.
pub open spec fn line_feeds_follow_carriage_returns(s: Seq<char>) -> bool {
    forall|i: int| 0 <= i < s.len() && #[trigger] s[i] == '\n' ==> i > 0 && s[i - 1] == '\r'
}

/// Whether no quoted value among the lexemes holds a line feed that does
/// not follow a carriage return.
pub open spec fn quoted_values_keep_line_feeds(lexemes: Seq<Lexeme>) -> bool {
    forall|i: int|
        0 <= i < lexemes.len() && (#[trigger] lexemes[i]).kind == TokenKind::Value(Value::Quoted)
            ==> line_feeds_follow_carriage_returns(lexemes[i].text)
}

/// Expanding two texts in a row is expanding their concatenation.
proof fn lemma_expanded_concat(a: Seq<char>, b: Seq<char>, after_cr: bool)
    ensures
        expanded(a + b, after_cr) == expanded(a, after_cr) + expanded(
            b,
            if a.len() > 0 {
                a.last() == '\r'
            } else {
                after_cr
            },
        ),
    decreases a.len(),
{
    if a.len() == 0 {
        assert(a + b == b);
        assert(expanded(a, after_cr) + expanded(b, after_cr) == expanded(b, after_cr));
    } else {
        let rest = a.drop_first();
        assert((a + b).drop_first() == rest + b);
        assert((a + b)[0] == a[0]);
        let next = if a[0] == '\n' && !after_cr {
            false
        } else {
            a[0] == '\r'
        };
        lemma_expanded_concat(rest, b, next);
        if rest.len() > 0 {
            assert(rest.last() == a.last());
        }
        let head = if a[0] == '\n' && !after_cr {
            seq!['\r', '\n']
        } else {
            seq![a[0]]
        };
        let tail_flag = if a.len() > 0 {
            a.last() == '\r'
        } else {
            after_cr
        };
        assert(head + (expanded(rest, next) + expanded(b, tail_flag)) == (head + expanded(
            rest,
            next,
        )) + expanded(b, tail_flag));
    }
}

/// A text whose line feeds all follow a carriage return stays as it is.
proof fn lemma_expanded_unchanged(s: Seq<char>, after_cr: bool)
    requires
        forall|i: int|
            0 <= i < s.len() && #[trigger] s[i] == '\n' ==> (i > 0 && s[i - 1] == '\r') || (i == 0
                && after_cr),
    ensures
        expanded(s, after_cr) == s,
    decreases s.len(),
{
    if s.len() > 0 {
        let rest = s.drop_first();
        assert forall|i: int| 0 <= i < rest.len() && #[trigger] rest[i] == '\n' implies (i > 0
            && rest[i - 1] == '\r') || (i == 0 && s[0] == '\r') by {
            assert(rest[i] == s[i + 1]);
            if i > 0 {
                assert(rest[i - 1] == s[i]);
            }
        }
        lemma_expanded_unchanged(rest, s[0] == '\r');
        assert(seq![s[0]] + rest == s);
    }
}

/// Behind a carriage return a text that does not start with a line feed is
/// expanded as anywhere else.
proof fn lemma_expanded_after_carriage_return(s: Seq<char>)
    requires
        s.len() == 0 || s[0] != '\n',
    ensures
        expanded(s, true) == expanded(s, false),
{
}

/// How an expanded text starts: with a carriage return in place of a line
/// feed, else as the text itself; and where the text starts with a line
/// break, so does the expanded text.
proof fn lemma_with_crlf_head(s: Seq<char>)
    requires
        s.len() > 0,
    ensures
        with_crlf(s).len() > 0,
        with_crlf(s)[0] == (if s[0] == '\n' {
            '\r'
        } else {
            s[0]
        }),
        is_line_break_at(s, 0) ==> is_line_break_at(with_crlf(s), 0),
{
    let x = with_crlf(s);
    let rest = s.drop_first();
    if s[0] == '\n' {
        assert(x == seq!['\r', '\n'] + expanded(rest, false));
        assert(x[0] == '\r' && x[1] == '\n');
    } else {
        assert(x == seq![s[0]] + expanded(rest, s[0] == '\r'));
        assert(x[0] == s[0]);
        if is_line_break_at(s, 0) {
            assert(s[0] == '\r' && rest[0] == '\n');
            assert(expanded(rest, true) == seq![rest[0]] + expanded(rest.drop_first(), false));
            assert(x[1] == expanded(rest, true)[0]);
        }
    }
}

/// A comment stops at the first line break: where no line break lies from
/// `from` up to `end`, and one lies at `end` unless the text is over there,
/// `end` is where the comment stops.
proof fn lemma_comment_end_is(s: Seq<char>, from: int, end: int)
    requires
        0 <= from <= end <= s.len(),
        forall|i: int| from <= i < end ==> !is_line_break_at(s, i),
        end < s.len() ==> is_line_break_at(s, end),
    ensures
        comment_end(s, from) == end,
    decreases end - from,
{
    if from < end {
        lemma_comment_end_is(s, from + 1, end);
    }
}

/// A bare value stops at the first comma, comment or line break.
proof fn lemma_bare_end_is(s: Seq<char>, from: int, end: int)
    requires
        0 <= from <= end <= s.len(),
        forall|i: int| from <= i < end ==> !is_bare_stop_at(s, i),
        end < s.len() ==> is_bare_stop_at(s, end),
    ensures
        bare_end(s, from) == end,
    decreases end - from,
{
    if from < end {
        lemma_bare_end_is(s, from + 1, end);
    }
}

/// A quoted value that stops before the end of the text stops behind a
/// quote.
proof fn lemma_quoted_end_closes(s: Seq<char>, from: int)
    requires
        0 <= from <= s.len(),
    ensures
        quoted_end(s, from) == s.len() || (from < quoted_end(s, from) < s.len() && s[quoted_end(
            s,
            from,
        ) - 1] == '"' && s[quoted_end(s, from)] != '"'),
    decreases s.len() - from,
{
    if from < s.len() {
        if s[from] != '"' {
            lemma_quoted_end_closes(s, from + 1);
        } else if from + 1 < s.len() && s[from + 1] == '"' {
            lemma_quoted_end_closes(s, from + 2);
        }
    }
}

/// Where a quoted value stops depends on the text up to there, and on
/// whether a quote follows.
proof fn lemma_quoted_end_agree(a: Seq<char>, b: Seq<char>, from: int)
    requires
        0 <= from <= a.len(),
        quoted_end(a, from) <= b.len(),
        forall|i: int| 0 <= i < quoted_end(a, from) ==> a[i] == b[i],
        quoted_end(a, from) == a.len() ==> quoted_end(a, from) == b.len(),
        quoted_end(a, from) < a.len() ==> quoted_end(a, from) < b.len() && b[quoted_end(a, from)]
            != '"',
    ensures
        quoted_end(b, from) == quoted_end(a, from),
    decreases a.len() - from,
{
    lemma_quoted_end(a, from);
    if from < a.len() {
        if a[from] != '"' {
            lemma_quoted_end(a, from + 1);
            lemma_quoted_end_agree(a, b, from + 1);
        } else if from + 1 < a.len() && a[from + 1] == '"' {
            lemma_quoted_end(a, from + 2);
            lemma_quoted_end_agree(a, b, from + 2);
        }
    }
}

/// No token ends between a carriage return and the line feed behind it.
proof fn lemma_token_keeps_line_break_whole(s: Seq<char>)
    requires
        s.len() > 0,
    ensures
        ({
            let n = first_len(s);
            s[n - 1] == '\r' ==> n == s.len() || s[n] != '\n'
        }),
{
    let n = first_len(s);
    let d = s.drop_first();
    let e = n - 1;
    lemma_first_len_bounds(s);
    lemma_comment_end(d, 0);
    lemma_bare_end(d, 0);
    lemma_quoted_end_closes(d, 0);
    if e > 0 && e < d.len() {
        assert(d[e - 1] == s[n - 1]);
        assert(d[e] == s[n]);
        if d[e - 1] == '\r' && d[e] == '\n' {
            assert(is_line_break_at(d, e - 1));
            assert(is_bare_stop_at(d, e - 1));
        }
    }
    if e == 0 && n < s.len() {
        assert(s[1] == d[0]);
    }
}

/// Expanding a text is expanding its first token and what is behind it.
proof fn lemma_with_crlf_splits_at_token(s: Seq<char>)
    requires
        s.len() > 0,
    ensures
        with_crlf(s) == with_crlf(s.take(first_len(s))) + with_crlf(s.skip(first_len(s))),
{
    let n = first_len(s);
    lemma_first_len_bounds(s);
    let t = s.take(n);
    let rest = s.skip(n);
    assert(s == t + rest);
    assert(t.last() == s[n - 1]);
    lemma_token_keeps_line_break_whole(s);
    lemma_expanded_concat(t, rest, false);
    if rest.len() > 0 {
        assert(rest[0] == s[n]);
    }
    if t.last() == '\r' {
        lemma_expanded_after_carriage_return(rest);
    }
}

/// Expanding leaves the text of a token as it is, unless the token is a
/// newline: that one becomes a carriage return and a line feed.
proof fn lemma_token_text_with_crlf(s: Seq<char>)
    requires
        s.len() > 0,
        first_kind(s) == TokenKind::Value(Value::Quoted) ==> line_feeds_follow_carriage_returns(
            s.take(first_len(s)),
        ),
    ensures
        first_kind(s) != TokenKind::Newline ==> with_crlf(s.take(first_len(s))) == s.take(
            first_len(s),
        ),
        first_kind(s) == TokenKind::Newline ==> with_crlf(s.take(first_len(s))) == seq![
            '\r',
            '\n',
        ],
{
    let n = first_len(s);
    let t = s.take(n);
    let d = s.drop_first();
    lemma_first_len_bounds(s);
    match first_kind(s) {
        TokenKind::Newline => {
            reveal_with_fuel(expanded, 3);
            if s[0] == '\r' {
                assert(t == seq!['\r', '\n']);
                assert(t.drop_first() == seq!['\n']);
                assert(t.drop_first().drop_first() == Seq::<char>::empty());
                assert(with_crlf(t) == seq!['\r', '\n']);
            } else {
                assert(t == seq!['\n']);
                assert(t.drop_first() == Seq::<char>::empty());
                assert(with_crlf(t) == seq!['\r', '\n']);
            }
        },
        TokenKind::Value(Value::Quoted) => {
            lemma_expanded_unchanged(t, false);
        },
        TokenKind::Comma => {
            lemma_expanded_unchanged(t, false);
        },
        TokenKind::Comment => {
            lemma_comment_end(d, 0);
            assert forall|i: int| 0 <= i < t.len() implies #[trigger] t[i] != '\n' by {
                if i > 0 {
                    assert(t[i] == d[i - 1]);
                    assert(!is_line_break_at(d, i - 1));
                }
            }
            lemma_expanded_unchanged(t, false);
        },
        TokenKind::Value(Value::Bare) => {
            lemma_bare_end(d, 0);
            assert forall|i: int| 0 <= i < t.len() implies #[trigger] t[i] != '\n' by {
                if i > 0 {
                    assert(t[i] == d[i - 1]);
                    assert(!is_bare_stop_at(d, i - 1));
                }
            }
            lemma_expanded_unchanged(t, false);
        },
    }
}

/// The first token of an expanded text is the first token of the text,
/// with a newline written as carriage return and line feed, and behind it
/// stands what is behind the token in the text, expanded.
proof fn lemma_first_token_with_crlf(s: Seq<char>)
    requires
        s.len() > 0,
        first_kind(s) == TokenKind::Value(Value::Quoted) ==> line_feeds_follow_carriage_returns(
            s.take(first_len(s)),
        ),
    ensures
        with_crlf(s).len() > 0,
        first_kind(with_crlf(s)) == first_kind(s),
        with_crlf(s).skip(first_len(with_crlf(s))) == with_crlf(s.skip(first_len(s))),
        first_kind(s) != TokenKind::Newline ==> with_crlf(s).take(first_len(with_crlf(s)))
            == s.take(first_len(s)),
{
    let n = first_len(s);
    let t = s.take(n);
    let rest = s.skip(n);
    let d = s.drop_first();
    let e = n - 1;
    let x = with_crlf(s);
    let z = with_crlf(rest);
    lemma_first_len_bounds(s);
    lemma_with_crlf_splits_at_token(s);
    lemma_token_text_with_crlf(s);
    lemma_with_crlf_head(s);
    if rest.len() > 0 {
        lemma_with_crlf_head(rest);
        assert(rest[0] == d[e]);
        if rest.len() > 1 {
            assert(rest[1] == d[e + 1]);
        }
    } else {
        assert(z.len() == 0);
    }
    if first_kind(s) == TokenKind::Newline {
        let head = seq!['\r', '\n'];
        assert(x == head + z);
        assert(x[0] == '\r' && x[1] == '\n');
        assert(first_kind(x) == TokenKind::Newline);
        assert(first_len(x) == 2);
        assert(x.skip(2) == z);
    } else {
        assert(x == t + z);
        assert(x[0] == s[0]);
        let xd = x.drop_first();
        let body = d.take(e);
        assert(t.drop_first() == body);
        assert(xd == body + z);
        assert forall|i: int| 0 <= i < e implies xd[i] == d[i] by {
            assert(xd[i] == body[i]);
        }
        if z.len() > 0 {
            assert(xd[e] == z[0]);
            if z.len() > 1 {
                assert(xd[e + 1] == z[1]);
            }
        }
        match first_kind(s) {
            TokenKind::Comma => {
                assert(first_len(x) == 1);
            },
            TokenKind::Comment => {
                lemma_comment_end(d, 0);
                assert forall|i: int| 0 <= i < e implies !is_line_break_at(xd, i) by {
                    assert(!is_line_break_at(d, i));
                    if i + 1 < e {
                        assert(!is_line_break_at(d, i + 1));
                    }
                }
                if e < xd.len() {
                    assert(is_line_break_at(d, e));
                    assert(is_line_break_at(rest, 0));
                    assert(is_line_break_at(z, 0));
                    assert(is_line_break_at(xd, e));
                }
                lemma_comment_end_is(xd, 0, e);
                assert(first_len(x) == n);
            },
            TokenKind::Value(Value::Bare) => {
                lemma_bare_end(d, 0);
                assert forall|i: int| 0 <= i < e implies !is_bare_stop_at(xd, i) by {
                    assert(!is_bare_stop_at(d, i));
                    if i + 1 < e {
                        assert(!is_bare_stop_at(d, i + 1));
                    }
                }
                if e < xd.len() {
                    assert(is_bare_stop_at(d, e));
                    if is_line_break_at(d, e) {
                        assert(is_line_break_at(rest, 0));
                        assert(is_line_break_at(z, 0));
                        assert(is_line_break_at(xd, e));
                    }
                    assert(is_bare_stop_at(xd, e));
                }
                lemma_bare_end_is(xd, 0, e);
                if x.len() > 1 {
                    assert(x[1] == xd[0]);
                    if e > 0 {
                        assert(!is_bare_stop_at(d, 0));
                    }
                }
                assert(!is_line_break_at(x, 0));
                assert(first_kind(x) == TokenKind::Value(Value::Bare));
                assert(first_len(x) == n);
            },
            TokenKind::Value(Value::Quoted) => {
                lemma_quoted_end_closes(d, 0);
                lemma_quoted_end(d, 0);
                assert(!is_line_break_at(x, 0));
                lemma_quoted_end_agree(d, xd, 0);
                assert(first_len(x) == n);
            },
            TokenKind::Newline => {},
        }
        assert(x.take(n) == t);
        assert(x.skip(n) == z);
    }
}

/// Whether two states of the parser differ in the offset at most.
pub open spec fn alike(first: Machine, second: Machine) -> bool {
    &&& first.prev == second.prev
    &&& first.line == second.line
    &&& first.lines == second.lines
}

/// Whether two runs of the parser end with the same table, or with a
/// failure of the same kind.
pub open spec fn outcomes_alike(
    first: Result<Machine, Failure>,
    second: Result<Machine, Failure>,
) -> bool {
    match (first, second) {
        (Ok(a), Ok(b)) => a.finish() == b.finish(),
        (Err(e), Err(f)) => e.kind == f.kind,
        _ => false,
    }
}

/// A token of the same kind, and with the same text if it is a value, takes
/// like states of the parser to like states, or fails alike.
proof fn lemma_step_alike(first: Machine, second: Machine, token: Lexeme, other: Lexeme)
    requires
        alike(first, second),
        token.kind == other.kind,
        token.kind is Value ==> token.text == other.text,
    ensures
        match (first.step(token), second.step(other)) {
            (Ok(a), Ok(b)) => alike(a, b),
            (Err(e), Err(f)) => e.kind == f.kind,
            _ => false,
        },
{
}

/// The parser on a text and on the expanded text, from like states.
proof fn lemma_run_with_crlf(first: Machine, second: Machine, s: Seq<char>)
    requires
        alike(first, second),
        quoted_values_keep_line_feeds(lex(s)),
    ensures
        outcomes_alike(first.run(lex(s)), second.run(lex(with_crlf(s)))),
    decreases s.len(),
{
    if s.len() > 0 {
        let x = with_crlf(s);
        lemma_lex_first(s);
        let token = lex(s)[0];
        assert(token.kind == TokenKind::Value(Value::Quoted)
            ==> line_feeds_follow_carriage_returns(token.text));
        lemma_first_token_with_crlf(s);
        lemma_lex_first(x);
        let other = lex(x)[0];
        lemma_step_alike(first, second, token, other);
        match (first.step(token), second.step(other)) {
            (Ok(a), Ok(b)) => {
                let rest = s.skip(first_len(s));
                assert forall|i: int|
                    0 <= i < lex(rest).len() && (#[trigger] lex(rest)[i]).kind
                        == TokenKind::Value(
                        Value::Quoted,
                    ) implies line_feeds_follow_carriage_returns(lex(rest)[i].text) by {
                    assert(lex(rest)[i] == lex(s)[i + 1]);
                }
                lemma_run_with_crlf(a, b, rest);
            },
            _ => {},
        }
    } else {
        assert(with_crlf(s).len() == 0);
    }
}

/// Line feed and carriage return with line feed end a row alike: where
/// every line feed that does not follow a carriage return is replaced by a
/// carriage return and a line feed, the table stays the same, and a text
/// that fails still fails for the same reason. This holds where no quoted
/// value holds such a line feed: there it is content, and the replacement
/// changes the field.
pub proof fn lemma_crlf_like_lf(text: Seq<char>)
    requires
        quoted_values_keep_line_feeds(lex(text)),
    ensures
        match (parse_text(text), parse_text(with_crlf(text))) {
            (Ok(table), Ok(other)) => table == other,
            (Err(failure), Err(other)) => failure.kind == other.kind,
            _ => false,
        },
{
    lemma_run_with_crlf(Machine::start(), Machine::start(), text);
}

} // verus!
