//! What holds of the tokens of every text.

use crate::lexer::{
    first_kind, first_len, first_lexeme, is_line_break_at, lemma_comment_end,
    lemma_first_len_bounds, lex, Lexeme, TokenKind,
};
use vstd::prelude::*;

verus! {

/// The characters of the lexemes, one lexeme after the other.
pub open spec fn spelled(lexemes: Seq<Lexeme>) -> Seq<char>
    decreases lexemes.len(),
{
    if lexemes.len() == 0 {
        Seq::empty()
    } else {
        lexemes[0].text + spelled(lexemes.drop_first())
    }
}

/// The kind of the token that the character at index `i` of the text belongs
/// to.
pub open spec fn kind_at(s: Seq<char>, i: int) -> TokenKind
    recommends
        0 <= i < s.len(),
    decreases s.len(),
    via kind_at_decreases
{
    if s.len() == 0 || i < first_len(s) {
        first_kind(s)
    } else {
        kind_at(s.skip(first_len(s)), i - first_len(s))
    }
}

#[via_fn]
proof fn kind_at_decreases(s: Seq<char>, i: int) {
    if s.len() > 0 {
        lemma_first_len_bounds(s);
    }
}

/// Whether each comment among the lexemes is the last of them or stands
/// right before a newline.
pub open spec fn comments_end_lines(lexemes: Seq<Lexeme>) -> bool {
    forall|i: int|
        0 <= i < lexemes.len() - 1 && (#[trigger] lexemes[i]).kind == TokenKind::Comment
            ==> lexemes[i + 1].kind == TokenKind::Newline
}

/// The tokens of a non-empty text are its first token and the tokens of
/// what is behind it.
pub proof fn lemma_lex_first(s: Seq<char>)
    requires
        s.len() > 0,
    ensures
        1 <= first_len(s) <= s.len(),
        lex(s) == seq![first_lexeme(s)] + lex(s.skip(first_len(s))),
        lex(s).len() > 0,
        lex(s)[0] == first_lexeme(s),
        lex(s).drop_first() == lex(s.skip(first_len(s))),
{
    lemma_first_len_bounds(s);
    assert((seq![first_lexeme(s)] + lex(s.skip(first_len(s)))).drop_first() == lex(
        s.skip(first_len(s)),
    ));
}

/// The lexemes of a text spell the text: nothing is dropped between two
/// tokens, and nothing is read twice.
pub proof fn lemma_lex_spells(s: Seq<char>)
    ensures
        spelled(lex(s)) == s,
    decreases s.len(),
{
    if s.len() == 0 {
        assert(spelled(lex(s)) == s);
    } else {
        lemma_lex_first(s);
        lemma_lex_spells(s.skip(first_len(s)));
        assert(s.take(first_len(s)) + s.skip(first_len(s)) == s);
    }
}

/// Behind a comment the text is over or a newline token follows.
pub proof fn lemma_comment_reaches_line_end(s: Seq<char>)
    requires
        s.len() > 0,
        first_kind(s) == TokenKind::Comment,
    ensures
        ({
            let rest = s.skip(first_len(s));
            rest.len() == 0 || first_kind(rest) == TokenKind::Newline
        }),
{
    let inner = s.drop_first();
    lemma_comment_end(inner, 0);
    let rest = s.skip(first_len(s));
    if rest.len() > 0 {
        let end = first_len(s) - 1;
        assert(is_line_break_at(inner, end));
        assert(rest[0] == inner[end]);
        if rest[0] == '\r' {
            assert(rest[1] == inner[end + 1]);
        }
        assert(is_line_break_at(rest, 0));
    }
}

/// In the tokens of a text every comment is the last token or stands right
/// before a newline.
pub proof fn lemma_lex_comments_end_lines(s: Seq<char>)
    ensures
        comments_end_lines(lex(s)),
    decreases s.len(),
{
    if s.len() > 0 {
        lemma_lex_first(s);
        let rest = s.skip(first_len(s));
        lemma_lex_comments_end_lines(rest);
        let lexemes = lex(s);
        assert forall|i: int|
            0 <= i < lexemes.len() - 1 && (#[trigger] lexemes[i]).kind
                == TokenKind::Comment implies lexemes[i + 1].kind == TokenKind::Newline by {
            if i == 0 {
                lemma_comment_reaches_line_end(s);
                assert(lexemes[1] == lex(rest)[0]);
                lemma_lex_first(rest);
            } else {
                assert(lexemes[i] == lex(rest)[i - 1]);
                assert(lexemes[i + 1] == lex(rest)[i]);
            }
        }
    }
}

/// A comma token is a comma, and a newline token is a line feed or a
/// carriage return with a line feed.
pub proof fn lemma_first_delimiter_text(s: Seq<char>)
    requires
        s.len() > 0,
    ensures
        first_kind(s) == TokenKind::Comma ==> first_lexeme(s).text == seq![','],
        first_kind(s) == TokenKind::Newline ==> first_lexeme(s).text == seq!['\n']
            || first_lexeme(s).text == seq!['\r', '\n'],
{
    if first_kind(s) == TokenKind::Comma {
        assert(s.take(1) == seq![',']);
    }
    if first_kind(s) == TokenKind::Newline {
        if s[0] == '\r' {
            assert(s.take(2) == seq!['\r', '\n']);
        } else {
            assert(s.take(1) == seq!['\n']);
        }
    }
}

/// Every newline token of a text is a line feed, alone or behind a carriage
/// return, and every comma token is a comma.
pub proof fn lemma_delimiter_texts(s: Seq<char>, i: int)
    requires
        0 <= i < lex(s).len(),
    ensures
        lex(s)[i].kind == TokenKind::Comma ==> lex(s)[i].text == seq![','],
        lex(s)[i].kind == TokenKind::Newline ==> lex(s)[i].text == seq!['\n'] || lex(s)[i].text
            == seq!['\r', '\n'],
    decreases s.len(),
{
    if s.len() > 0 {
        lemma_lex_first(s);
        if i == 0 {
            lemma_first_delimiter_text(s);
        } else {
            let rest = s.skip(first_len(s));
            assert(lex(s)[i] == lex(rest)[i - 1]);
            lemma_delimiter_texts(rest, i - 1);
        }
    }
}

/// A carriage return that no line feed follows is content of the token
/// that is being read: it belongs to a comment or to a value, never to a
/// newline.
pub proof fn lemma_lone_carriage_return_is_content(s: Seq<char>, i: int)
    requires
        0 <= i < s.len(),
        s[i] == '\r',
        !is_line_break_at(s, i),
    ensures
        kind_at(s, i) == TokenKind::Comment || kind_at(s, i) is Value,
    decreases s.len(),
{
    lemma_first_len_bounds(s);
    let n = first_len(s);
    if i < n {
        if first_kind(s) == TokenKind::Newline {
            if s[0] == '\r' {
                assert(i == 0 || i == 1);
            }
        }
    } else {
        let rest = s.skip(n);
        assert(rest[i - n] == s[i]);
        if i + 1 < s.len() {
            assert(rest[i - n + 1] == s[i + 1]);
        }
        lemma_lone_carriage_return_is_content(rest, i - n);
    }
}

/// A text without line feed has no newline token.
pub proof fn lemma_no_line_feed_no_newline(s: Seq<char>, i: int)
    requires
        forall|j: int| 0 <= j < s.len() ==> s[j] != '\n',
        0 <= i < lex(s).len(),
    ensures
        lex(s)[i].kind != TokenKind::Newline,
    decreases s.len(),
{
    if s.len() > 0 {
        lemma_lex_first(s);
        if i > 0 {
            let rest = s.skip(first_len(s));
            assert(lex(s)[i] == lex(rest)[i - 1]);
            assert forall|j: int| 0 <= j < rest.len() implies rest[j] != '\n' by {
                assert(rest[j] == s[j + first_len(s)]);
            }
            lemma_no_line_feed_no_newline(rest, i - 1);
        }
    }
}

} // verus!
