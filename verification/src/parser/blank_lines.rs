//! Blank lines at the end of a text.

use crate::lexer::lemmas::lemma_lex_first;
use crate::lexer::unescape::{unescape_from, unescape_step, unescaped, State};
use crate::lexer::{
    bare_end, comment_end, first_kind, first_len, first_lexeme, is_bare_stop_at,
    is_line_break_at, lex, quoted_end, Lexeme, TokenKind, Value,
};
use crate::parser::{parse_text, Failure, Machine};
use vstd::prelude::*;

verus! {

/// A text of `n` line feeds.
pub open spec fn line_feeds(n: nat) -> Seq<char> {
    Seq::new(n, |i: int| '\n')
}

/// Whether two runs of the parser end alike: with the same table, or with
/// the same failure.
pub open spec fn same_outcome(
    first: Result<Machine, Failure>,
    second: Result<Machine, Failure>,
) -> bool {
    match (first, second) {
        (Ok(a), Ok(b)) => a.finish() == b.finish(),
        (Err(e), Err(f)) => e == f,
        _ => false,
    }
}

/// A comment that is read in a text that ends with a line feed stops where
/// it stops when one more line feed follows.
proof fn lemma_comment_end_before_line_feed(d: Seq<char>, from: int)
    requires
        d.len() > 0,
        d.last() == '\n',
        0 <= from <= d.len(),
    ensures
        comment_end(d + seq!['\n'], from) == comment_end(d, from),
        from < d.len() ==> comment_end(d, from) < d.len(),
    decreases d.len() - from,
{
    let e = d + seq!['\n'];
    if from < d.len() {
        assert(e[from] == d[from]);
        if from + 1 < d.len() {
            assert(e[from + 1] == d[from + 1]);
        }
        assert(is_line_break_at(e, from) == is_line_break_at(d, from));
        if !is_line_break_at(d, from) {
            lemma_comment_end_before_line_feed(d, from + 1);
        }
    } else {
        assert(e[from] == '\n');
    }
}

/// A bare value that is read in a text that ends with a line feed stops
/// where it stops when one more line feed follows.
proof fn lemma_bare_end_before_line_feed(d: Seq<char>, from: int)
    requires
        d.len() > 0,
        d.last() == '\n',
        0 <= from <= d.len(),
    ensures
        bare_end(d + seq!['\n'], from) == bare_end(d, from),
        from < d.len() ==> bare_end(d, from) < d.len(),
    decreases d.len() - from,
{
    let e = d + seq!['\n'];
    if from < d.len() {
        assert(e[from] == d[from]);
        if from + 1 < d.len() {
            assert(e[from + 1] == d[from + 1]);
        }
        assert(is_bare_stop_at(e, from) == is_bare_stop_at(d, from));
        if !is_bare_stop_at(d, from) {
            lemma_bare_end_before_line_feed(d, from + 1);
        }
    } else {
        assert(e[from] == '\n');
    }
}

/// A quoted value that is read in a text that ends with a line feed either
/// is closed before the end, and then stops there when one more line feed
/// follows, or reaches the end either way.
proof fn lemma_quoted_end_before_line_feed(d: Seq<char>, from: int)
    requires
        d.len() > 0,
        d.last() == '\n',
        0 <= from <= d.len(),
    ensures
        quoted_end(d, from) <= d.len(),
        quoted_end(d, from) < d.len() ==> quoted_end(d + seq!['\n'], from) == quoted_end(d, from),
        quoted_end(d, from) == d.len() ==> quoted_end(d + seq!['\n'], from) == d.len() + 1,
    decreases d.len() - from,
{
    let e = d + seq!['\n'];
    if from < d.len() {
        assert(e[from] == d[from]);
        if d[from] != '"' {
            lemma_quoted_end_before_line_feed(d, from + 1);
        } else {
            assert(from + 1 < d.len());
            assert(e[from + 1] == d[from + 1]);
            if d[from + 1] == '"' {
                lemma_quoted_end_before_line_feed(d, from + 2);
            }
        }
    } else {
        assert(e[from] == '\n');
        assert(quoted_end(e, from + 1) == e.len());
    }
}

/// A text that does not end with a quote is no quoted value, whatever has
/// been read before it.
proof fn lemma_unescape_needs_closing_quote(state: State, acc: Seq<char>, raw: Seq<char>)
    requires
        raw.len() > 0,
        raw.last() != '"',
    ensures
        unescape_from(state, acc, raw) is None,
    decreases raw.len(),
{
    let rest = raw.drop_first();
    if rest.len() > 0 {
        assert(rest.last() == raw.last());
        match unescape_step(state, acc, raw[0]) {
            Some((next, grown)) => {
                lemma_unescape_needs_closing_quote(next, grown, rest);
            },
            None => {},
        }
    } else {
        assert(raw[0] == raw.last());
        reveal_with_fuel(unescape_from, 2);
    }
}

/// The first token of a text that ends with a line feed stays what it is
/// when one more line feed follows, unless it is a quoted value that is not
/// closed: that one takes the line feed in.
proof fn lemma_first_token_before_line_feed(u: Seq<char>)
    requires
        u.len() > 0,
        u.last() == '\n',
    ensures
        first_kind(u + seq!['\n']) == first_kind(u),
        first_len(u + seq!['\n']) == first_len(u) || (first_kind(u) == TokenKind::Value(
            Value::Quoted,
        ) && first_len(u) == u.len() && first_len(u + seq!['\n']) == u.len() + 1),
        first_len(u + seq!['\n']) == first_len(u) && first_len(u) == u.len() ==> first_kind(u)
            == TokenKind::Newline,
{
    let v = u + seq!['\n'];
    assert(v[0] == u[0]);
    if u.len() > 1 {
        assert(v[1] == u[1]);
        let d = u.drop_first();
        assert(d.last() == u.last());
        assert(v.drop_first() == d + seq!['\n']);
        lemma_comment_end_before_line_feed(d, 0);
        lemma_bare_end_before_line_feed(d, 0);
        lemma_quoted_end_before_line_feed(d, 0);
    } else {
        assert(u[0] == u.last());
    }
    assert(is_line_break_at(v, 0) == is_line_break_at(u, 0));
}

/// One more line feed behind a text that ends with a line feed changes
/// nothing in how the parser ends.
proof fn lemma_run_before_line_feed(machine: Machine, u: Seq<char>)
    requires
        u.len() > 0,
        u.last() == '\n',
    ensures
        same_outcome(machine.run(lex(u)), machine.run(lex(u + seq!['\n']))),
    decreases u.len(),
{
    let x = seq!['\n'];
    let v = u + x;
    let n = first_len(u);
    lemma_lex_first(u);
    lemma_lex_first(v);
    lemma_first_token_before_line_feed(u);
    if first_len(v) == n {
        assert(v.take(n) == u.take(n));
        assert(first_lexeme(v) == first_lexeme(u));
        let token = first_lexeme(u);
        match machine.step(token) {
            Err(_) => {},
            Ok(next) => {
                if n < u.len() {
                    let rest = u.skip(n);
                    assert(rest.last() == u.last());
                    assert(v.skip(n) == rest + x);
                    lemma_run_before_line_feed(next, rest);
                } else {
                    assert(token.kind == TokenKind::Newline);
                    assert(u.skip(n).len() == 0);
                    assert(lex(u.skip(n)) == Seq::<Lexeme>::empty());
                    reveal_with_fuel(Machine::run, 2);
                    assert(lex(u).drop_first().len() == 0);
                    assert(machine.run(lex(u)) == Ok::<Machine, Failure>(next));
                    assert(v.skip(n) == x);
                    lemma_lex_first(x);
                    assert(first_kind(x) == TokenKind::Newline);
                    assert(first_len(x) == 1);
                    assert(x.skip(1).len() == 0);
                    assert(lex(x.skip(1)) == Seq::<Lexeme>::empty());
                    let last = next.step(lex(x)[0]);
                    assert(last is Ok);
                    assert(lex(x).drop_first().len() == 0);
                    assert(next.run(lex(x)) == last);
                    assert(last->Ok_0.finish() == next.finish());
                }
            },
        }
    } else {
        assert(u.take(n) == u);
        assert(v.take(first_len(v)) == v);
        lemma_unescape_needs_closing_quote(State::Start, Seq::empty(), u);
        lemma_unescape_needs_closing_quote(State::Start, Seq::empty(), v);
        assert(unescaped(u) is None);
        assert(unescaped(v) is None);
        assert(machine.step(first_lexeme(u)) is Err);
        assert(machine.step(first_lexeme(v)) == machine.step(first_lexeme(u)));
    }
}

/// Trailing blank lines collapse: behind a text that ends with a line feed,
/// any number of further line feeds changes neither the table nor the
/// failure.
pub proof fn lemma_trailing_line_feeds_collapse(text: Seq<char>, extra: nat)
    requires
        text.len() > 0,
        text.last() == '\n',
    ensures
        parse_text(text + line_feeds(extra)) == parse_text(text),
    decreases extra,
{
    if extra == 0 {
        assert(text + line_feeds(0) == text);
    } else {
        let shorter = text + line_feeds((extra - 1) as nat);
        lemma_trailing_line_feeds_collapse(text, (extra - 1) as nat);
        assert(shorter.last() == '\n');
        assert(text + line_feeds(extra) == shorter + seq!['\n']);
        lemma_run_before_line_feed(Machine::start(), shorter);
    }
}

} // verus!
