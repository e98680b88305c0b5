//! Writing a value in quotes, and reading it back.

use crate::lexer::lemmas::lemma_lex_first;
use crate::lexer::unescape::{unescape_from, unescaped, State};
use crate::lexer::{first_kind, first_len, lex, quoted_end, Lexeme, TokenKind, Value};
use vstd::prelude::*;

verus! {

/// The value with each of its quotes doubled.
pub open spec fn escaped(value: Seq<char>) -> Seq<char>
    decreases value.len(),
{
    if value.len() == 0 {
        Seq::empty()
    } else if value[0] == '"' {
        seq!['"', '"'] + escaped(value.drop_first())
    } else {
        seq![value[0]] + escaped(value.drop_first())
    }
}

/// The value as a quoted field: between two quotes, with each quote of its
/// own doubled.
pub open spec fn quoted(value: Seq<char>) -> Seq<char> {
    seq!['"'] + escaped(value) + seq!['"']
}

/// A value without quotes is written as it is.
pub proof fn lemma_escaped_without_quote(value: Seq<char>)
    requires
        forall|i: int| 0 <= i < value.len() ==> value[i] != '"',
    ensures
        escaped(value) == value,
    decreases value.len(),
{
    if value.len() > 0 {
        let rest = value.drop_first();
        assert forall|i: int| 0 <= i < rest.len() implies rest[i] != '"' by {
            assert(rest[i] == value[i + 1]);
        }
        lemma_escaped_without_quote(rest);
        assert(seq![value[0]] + rest == value);
    }
}

/// Reading the inside of a quoted field, with its closing quote, gives the
/// value back behind what was read before.
proof fn lemma_unescape_inside(acc: Seq<char>, value: Seq<char>)
    ensures
        unescape_from(State::Middle, acc, escaped(value) + seq!['"']) == Some(acc + value),
    decreases value.len(),
{
    let raw = escaped(value) + seq!['"'];
    if value.len() == 0 {
        assert(raw.drop_first().len() == 0);
        assert(acc + value == acc);
        reveal_with_fuel(unescape_from, 2);
    } else {
        let rest = value.drop_first();
        if value[0] == '"' {
            assert(raw[0] == '"' && raw[1] == '"');
            assert(raw.drop_first().drop_first() == escaped(rest) + seq!['"']);
            lemma_unescape_inside(acc.push('"'), rest);
            assert(acc.push('"') + rest == acc + value);
            reveal_with_fuel(unescape_from, 2);
        } else {
            assert(raw[0] == value[0]);
            assert(raw.drop_first() == escaped(rest) + seq!['"']);
            lemma_unescape_inside(acc.push(value[0]), rest);
            assert(acc.push(value[0]) + rest == acc + value);
        }
    }
}

/// A quoted field that is being read behind `before` ends with its closing
/// quote.
proof fn lemma_quoted_end_inside(before: Seq<char>, value: Seq<char>)
    ensures
        quoted_end(before + escaped(value) + seq!['"'], before.len() as int) == before.len()
            + escaped(value).len() + 1,
    decreases value.len(),
{
    let s = before + escaped(value) + seq!['"'];
    let from = before.len() as int;
    if value.len() == 0 {
        assert(s[from] == '"');
    } else {
        let rest = value.drop_first();
        if value[0] == '"' {
            assert(s[from] == '"' && s[from + 1] == '"');
            let longer = before + seq!['"', '"'];
            assert(s == longer + escaped(rest) + seq!['"']);
            lemma_quoted_end_inside(longer, rest);
        } else {
            assert(s[from] == value[0]);
            let longer = before + seq![value[0]];
            assert(s == longer + escaped(rest) + seq!['"']);
            lemma_quoted_end_inside(longer, rest);
        }
    }
}

/// Reading a value back: a value that is wrapped in quotes, with each quote
/// of its own doubled, is one quoted token, and that token stands for the
/// value.
pub proof fn lemma_quoting_round_trip(value: Seq<char>)
    ensures
        lex(quoted(value)) == seq![
            Lexeme { kind: TokenKind::Value(Value::Quoted), text: quoted(value) },
        ],
        unescaped(quoted(value)) == Some(value),
{
    let s = quoted(value);
    let inner = escaped(value) + seq!['"'];
    assert(s.drop_first() == inner);
    assert(s[0] == '"');
    // the token
    assert(first_kind(s) == TokenKind::Value(Value::Quoted));
    lemma_quoted_end_inside(Seq::empty(), value);
    assert(Seq::<char>::empty() + escaped(value) + seq!['"'] == inner);
    assert(first_len(s) == s.len());
    lemma_lex_first(s);
    assert(s.take(s.len() as int) == s);
    assert(s.skip(s.len() as int).len() == 0);
    assert(lex(s) == seq![Lexeme { kind: TokenKind::Value(Value::Quoted), text: s }]);
    // its value
    lemma_unescape_inside(Seq::empty(), value);
    assert(Seq::<char>::empty() + value == value);
}

/// Reading a value without quotes back: wrapped in quotes as it is, it is
/// one quoted token that stands for the value.
pub proof fn lemma_quoting_round_trip_without_quote(value: Seq<char>)
    requires
        forall|i: int| 0 <= i < value.len() ==> value[i] != '"',
    ensures
        lex(seq!['"'] + value + seq!['"']) == seq![
            Lexeme {
                kind: TokenKind::Value(Value::Quoted),
                text: seq!['"'] + value + seq!['"'],
            },
        ],
        unescaped(seq!['"'] + value + seq!['"']) == Some(value),
{
    lemma_escaped_without_quote(value);
    lemma_quoting_round_trip(value);
}

} // verus!
