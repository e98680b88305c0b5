//! Cutting a text into tokens.
//!
//! The grammar is stated over sequences of characters: [`first_kind`] and
//! [`first_len`] say which token a non-empty text starts with and how many
//! characters it takes, and [`lex`] repeats that until the text is used up.
//! The executable lexer walks a [`Cursor`] over the text and is proved to
//! produce exactly the tokens of [`lex`], each with the byte length of its
//! lexeme.

pub mod cursor;
pub mod lemmas;
pub mod quoting;
pub mod unescape;

use crate::lexer::cursor::Cursor;
use crate::text::{
    byte_len, lemma_byte_len_concat, lemma_byte_len_single, lemma_byte_len_take_next,
};
use vstd::prelude::*;

verus! {

/// How the text of a field is written.
#[derive(Debug, Clone, Copy, PartialEq, Eq, Structural)]
pub enum Value {
    /// `"Foo \r""Baz"""`
    Quoted,
    /// `Foo Bar`
    Bare,
}

/// What a token is.
#[derive(Debug, Clone, Copy, PartialEq, Eq, Structural)]
pub enum TokenKind {
    /// `,`
    Comma,
    /// `#` and what follows it on the line
    Comment,
    /// `\n` or `\r\n`
    Newline,
    /// The text of a field.
    Value(Value),
}

/// A token: its kind and the number of bytes that its lexeme takes in the
/// input.
#[derive(Debug, Clone, Copy, PartialEq, Eq, Structural)]
pub struct Token {
    pub len: usize,
    pub kind: TokenKind,
}

/// A token together with the characters it was read from.
pub struct Lexeme {
    pub kind: TokenKind,
    pub text: Seq<char>,
}

impl Token {
    /// A token of the given kind and byte length.
    pub fn new(kind: TokenKind, len: usize) -> (token: Token)
        ensures
            token == (Token { len, kind }),
    {
        Token { len, kind }
    }

    /// Whether this token has the kind of `lexeme` and the byte length of its
    /// text.
    pub open spec fn measures(self, lexeme: Lexeme) -> bool {
        &&& self.kind == lexeme.kind
        &&& self.len == byte_len(lexeme.text)
    }
}

/// Whether the tokens are, one by one, those of the lexemes.
pub open spec fn tokens_measure(tokens: Seq<Token>, lexemes: Seq<Lexeme>) -> bool {
    &&& tokens.len() == lexemes.len()
    &&& forall|i: int| 0 <= i < tokens.len() ==> (#[trigger] tokens[i]).measures(lexemes[i])
}

/// Whether the text breaks into a new line at index `i`: a line feed stands
/// there, or a carriage return that a line feed follows. A carriage return
/// alone is no line break.
pub open spec fn is_line_break_at(s: Seq<char>, i: int) -> bool {
    &&& 0 <= i < s.len()
    &&& (s[i] == '\n' || (s[i] == '\r' && i + 1 < s.len() && s[i + 1] == '\n'))
}

/// Whether a bare value that has reached index `i` stops before it: at a
/// comma, at the start of a comment, or at a line break.
pub open spec fn is_bare_stop_at(s: Seq<char>, i: int) -> bool {
    &&& 0 <= i < s.len()
    &&& (s[i] == ',' || s[i] == '#' || is_line_break_at(s, i))
}

/// Where a comment that has been read up to index `from` stops: at the
/// first line break from there on, or at the end of the text.
pub open spec fn comment_end(s: Seq<char>, from: int) -> int
    decreases s.len() - from,
{
    if from >= s.len() {
        s.len() as int
    } else if is_line_break_at(s, from) {
        from
    } else {
        comment_end(s, from + 1)
    }
}

/// Where a bare value that has been read up to index `from` stops: at the
/// first comma, comment or line break from there on, or at the end of the
/// text.
pub open spec fn bare_end(s: Seq<char>, from: int) -> int
    decreases s.len() - from,
{
    if from >= s.len() {
        s.len() as int
    } else if is_bare_stop_at(s, from) {
        from
    } else {
        bare_end(s, from + 1)
    }
}

/// Where a quoted value whose inside has been read up to index `from` stops:
/// behind the first quote that is not the first of a pair, or at the end of
/// the text if every quote from there on is paired.
pub open spec fn quoted_end(s: Seq<char>, from: int) -> int
    decreases s.len() - from,
{
    if from < 0 || from >= s.len() {
        s.len() as int
    } else if s[from] != '"' {
        quoted_end(s, from + 1)
    } else if from + 1 < s.len() && s[from + 1] == '"' {
        quoted_end(s, from + 2)
    } else {
        from + 1
    }
}

/// The kind of the token that a non-empty text starts with.
pub open spec fn first_kind(s: Seq<char>) -> TokenKind
    recommends
        s.len() > 0,
{
    if s[0] == '#' {
        TokenKind::Comment
    } else if s[0] == ',' {
        TokenKind::Comma
    } else if is_line_break_at(s, 0) {
        TokenKind::Newline
    } else if s[0] == '"' {
        TokenKind::Value(Value::Quoted)
    } else {
        TokenKind::Value(Value::Bare)
    }
}

/// The number of characters of the token that a non-empty text starts with.
pub open spec fn first_len(s: Seq<char>) -> int
    recommends
        s.len() > 0,
{
    match first_kind(s) {
        TokenKind::Comment => 1 + comment_end(s.drop_first(), 0),
        TokenKind::Comma => 1,
        TokenKind::Newline => if s[0] == '\r' {
            2
        } else {
            1
        },
        TokenKind::Value(Value::Quoted) => 1 + quoted_end(s.drop_first(), 0),
        TokenKind::Value(Value::Bare) => 1 + bare_end(s.drop_first(), 0),
    }
}

/// The token that a non-empty text starts with.
pub open spec fn first_lexeme(s: Seq<char>) -> Lexeme
    recommends
        s.len() > 0,
{
    Lexeme { kind: first_kind(s), text: s.take(first_len(s)) }
}

/// The tokens of a text, in the order in which they stand in it.
pub open spec fn lex(s: Seq<char>) -> Seq<Lexeme>
    decreases s.len(),
    via lex_decreases
{
    if s.len() == 0 {
        Seq::empty()
    } else {
        seq![first_lexeme(s)] + lex(s.skip(first_len(s)))
    }
}

#[via_fn]
proof fn lex_decreases(s: Seq<char>) {
    if s.len() > 0 {
        lemma_first_len_bounds(s);
    }
}

/// A comment stops between where it is read and the end of the text; no line
/// break lies before the stop, and one lies at it unless the text is over.
pub proof fn lemma_comment_end(s: Seq<char>, from: int)
    requires
        0 <= from <= s.len(),
    ensures
        from <= comment_end(s, from) <= s.len(),
        forall|i: int| from <= i < comment_end(s, from) ==> !is_line_break_at(s, i),
        comment_end(s, from) < s.len() ==> is_line_break_at(s, comment_end(s, from)),
    decreases s.len() - from,
{
    if from < s.len() && !is_line_break_at(s, from) {
        lemma_comment_end(s, from + 1);
    }
}

/// A bare value stops between where it is read and the end of the text; no
/// comma, comment or line break lies before the stop, and one lies at it
/// unless the text is over.
pub proof fn lemma_bare_end(s: Seq<char>, from: int)
    requires
        0 <= from <= s.len(),
    ensures
        from <= bare_end(s, from) <= s.len(),
        forall|i: int| from <= i < bare_end(s, from) ==> !is_bare_stop_at(s, i),
        bare_end(s, from) < s.len() ==> is_bare_stop_at(s, bare_end(s, from)),
    decreases s.len() - from,
{
    if from < s.len() && !is_bare_stop_at(s, from) {
        lemma_bare_end(s, from + 1);
    }
}

/// A quoted value stops between where it is read and the end of the text.
pub proof fn lemma_quoted_end(s: Seq<char>, from: int)
    requires
        0 <= from <= s.len(),
    ensures
        from <= quoted_end(s, from) <= s.len(),
    decreases s.len() - from,
{
    if from < s.len() {
        if s[from] != '"' {
            lemma_quoted_end(s, from + 1);
        } else if from + 1 < s.len() && s[from + 1] == '"' {
            lemma_quoted_end(s, from + 2);
        }
    }
}

/// The first token of a non-empty text takes at least one character and no
/// more than the text has.
pub proof fn lemma_first_len_bounds(s: Seq<char>)
    requires
        s.len() > 0,
    ensures
        1 <= first_len(s) <= s.len(),
{
    lemma_comment_end(s.drop_first(), 0);
    lemma_bare_end(s.drop_first(), 0);
    lemma_quoted_end(s.drop_first(), 0);
}

/// The first `1 + n` characters take the bytes of the first character and
/// those of the `n` characters behind it.
proof fn lemma_byte_len_first_and_more(s: Seq<char>, n: int)
    requires
        s.len() > 0,
        0 <= n <= s.len() - 1,
    ensures
        byte_len(s.take(1 + n)) == byte_len(seq![s[0]]) + byte_len(s.drop_first().take(n)),
        s.skip(1 + n) == s.drop_first().skip(n),
{
    assert(s.take(1 + n) == seq![s[0]] + s.drop_first().take(n));
    lemma_byte_len_concat(seq![s[0]], s.drop_first().take(n));
    assert(s.skip(1 + n) == s.drop_first().skip(n));
}

impl<'a> Cursor<'a> {
    /// Whether a line break stands at the cursor.
    fn at_line_break(&self) -> (b: bool)
        ensures
            b == is_line_break_at(self.rest(), 0),
    {
        match self.peek_first() {
            Some('\n') => true,
            Some('\r') => self.peek_second() == Some('\n'),
            _ => false,
        }
    }

    /// Parses a token from the input string.
    pub fn eat_token(&mut self) -> (token: Option<Token>)
        requires
            old(self).wf(),
        ensures
            final(self).wf(),
            match token {
                None => old(self).rest().len() == 0 && *final(self) == *old(self),
                Some(t) => {
                    let s = old(self).rest();
                    &&& s.len() > 0
                    &&& t.kind == first_kind(s)
                    &&& t.len == old(self).pending() + byte_len(s.take(first_len(s)))
                    &&& final(self).rest() == s.skip(first_len(s))
                    &&& final(self).pending() == 0
                },
            },
    {
        let ghost s = self.rest();
        let first_char = self.eat_char()?;
        proof {
            lemma_byte_len_single(first_char);
            lemma_first_len_bounds(s);
            lemma_byte_len_first_and_more(s, first_len(s) - 1);
            assert(s.drop_first().skip(0) == s.drop_first());
            assert(s.drop_first().take(0) == Seq::<char>::empty());
        }
        let token_kind = match first_char {
            '#' => self.eat_comment(),
            ',' => TokenKind::Comma,
            '\n' => TokenKind::Newline,
            '\r' if self.peek_first() == Some('\n') => {
                self.eat_char();
                proof {
                    lemma_byte_len_take_next(s.drop_first(), 0);
                    assert(s.drop_first().drop_first() == s.drop_first().skip(1));
                }
                TokenKind::Newline
            },
            '"' => self.eat_quoted(),
            _ => self.eat_bare(),
        };
        let res = Token::new(token_kind, self.token_len());
        self.reset_token_len();
        Some(res)
    }

    /// Consumes a comment up to the end of its line; the `#` has been
    /// consumed already.
    fn eat_comment(&mut self) -> (kind: TokenKind)
        requires
            old(self).wf(),
        ensures
            kind == TokenKind::Comment,
            final(self).wf(),
            final(self).rest() == old(self).rest().skip(comment_end(old(self).rest(), 0)),
            final(self).pending() == old(self).pending() + byte_len(
                old(self).rest().take(comment_end(old(self).rest(), 0)),
            ),
    {
        let ghost start = self.rest();
        let ghost before = self.pending();
        let ghost mut k: int = 0;
        proof {
            assert(start.skip(0) == start);
            assert(start.take(0) == Seq::<char>::empty());
        }
        loop
            invariant
                self.wf(),
                0 <= k <= start.len(),
                self.rest() == start.skip(k),
                comment_end(start, k) == comment_end(start, 0),
                self.pending() == before + byte_len(start.take(k)),
            ensures
                k == comment_end(start, 0),
            decreases start.len() - k,
        {
            if self.peek_first().is_none() || self.at_line_break() {
                break ;
            }
            self.eat_char();
            proof {
                lemma_byte_len_take_next(start, k);
                assert(start.skip(k).drop_first() == start.skip(k + 1));
                k = k + 1;
            }
        }
        TokenKind::Comment
    }

    /// Consumes a quoted value up to and with its closing quote, or up to
    /// the end of the input; the opening quote has been consumed already.
    fn eat_quoted(&mut self) -> (kind: TokenKind)
        requires
            old(self).wf(),
        ensures
            kind == TokenKind::Value(Value::Quoted),
            final(self).wf(),
            final(self).rest() == old(self).rest().skip(quoted_end(old(self).rest(), 0)),
            final(self).pending() == old(self).pending() + byte_len(
                old(self).rest().take(quoted_end(old(self).rest(), 0)),
            ),
    {
        let ghost start = self.rest();
        let ghost before = self.pending();
        let ghost mut k: int = 0;
        proof {
            assert(start.skip(0) == start);
            assert(start.take(0) == Seq::<char>::empty());
        }
        loop
            invariant_except_break
                quoted_end(start, k) == quoted_end(start, 0),
            invariant
                self.wf(),
                0 <= k <= start.len(),
                self.rest() == start.skip(k),
                self.pending() == before + byte_len(start.take(k)),
            ensures
                k == quoted_end(start, 0),
            decreases start.len() - k,
        {
            match self.peek_first() {
                None => {
                    break ;
                },
                Some(c) => {
                    match (c, self.peek_second()) {
                        ('"', Some('"')) => {
                            self.eat_char();
                            self.eat_char();
                            proof {
                                lemma_byte_len_take_next(start, k);
                                lemma_byte_len_take_next(start, k + 1);
                                assert(start.skip(k).drop_first() == start.skip(k + 1));
                                assert(start.skip(k + 1).drop_first() == start.skip(k + 2));
                                k = k + 2;
                            }
                        },
                        ('"', _) => {
                            self.eat_char();
                            proof {
                                lemma_byte_len_take_next(start, k);
                                assert(start.skip(k).drop_first() == start.skip(k + 1));
                                k = k + 1;
                            }
                            break ;
                        },
                        _ => {
                            self.eat_char();
                            proof {
                                lemma_byte_len_take_next(start, k);
                                assert(start.skip(k).drop_first() == start.skip(k + 1));
                                k = k + 1;
                            }
                        },
                    }
                },
            }
        }
        TokenKind::Value(Value::Quoted)
    }

    /// Consumes a bare value up to the comma, comment or line break that
    /// ends it; its first character has been consumed already.
    fn eat_bare(&mut self) -> (kind: TokenKind)
        requires
            old(self).wf(),
        ensures
            kind == TokenKind::Value(Value::Bare),
            final(self).wf(),
            final(self).rest() == old(self).rest().skip(bare_end(old(self).rest(), 0)),
            final(self).pending() == old(self).pending() + byte_len(
                old(self).rest().take(bare_end(old(self).rest(), 0)),
            ),
    {
        let ghost start = self.rest();
        let ghost before = self.pending();
        let ghost mut k: int = 0;
        proof {
            assert(start.skip(0) == start);
            assert(start.take(0) == Seq::<char>::empty());
        }
        loop
            invariant
                self.wf(),
                0 <= k <= start.len(),
                self.rest() == start.skip(k),
                bare_end(start, k) == bare_end(start, 0),
                self.pending() == before + byte_len(start.take(k)),
            ensures
                k == bare_end(start, 0),
            decreases start.len() - k,
        {
            match self.peek_first() {
                None => {
                    break ;
                },
                Some(c) => {
                    let flag = c == ',' || c == '#';
                    if flag || self.at_line_break() {
                        break ;
                    }
                    self.eat_char();
                    proof {
                        lemma_byte_len_take_next(start, k);
                        assert(start.skip(k).drop_first() == start.skip(k + 1));
                        k = k + 1;
                    }
                },
            }
        }
        TokenKind::Value(Value::Bare)
    }
}

/// The tokens of `string`, in the order in which they stand in it.
pub fn tokenize(string: &str) -> (tokens: Vec<Token>)
    ensures
        tokens_measure(tokens@, lex(string@)),
{
    let mut tokens: Vec<Token> = Vec::new();
    let mut cursor = Cursor::new(string);
    let ghost mut done: Seq<Lexeme> = Seq::empty();
    loop
        invariant
            cursor.wf(),
            cursor.pending() == 0,
            tokens_measure(tokens@, done),
            lex(string@) == done + lex(cursor.rest()),
        ensures
            tokens_measure(tokens@, lex(string@)),
        decreases cursor.rest().len(),
    {
        let ghost s = cursor.rest();
        match cursor.eat_token() {
            None => {
                break ;
            },
            Some(token) => {
                tokens.push(token);
                proof {
                    lemma_first_len_bounds(s);
                    assert(done + lex(s) == done.push(first_lexeme(s)) + lex(
                        s.skip(first_len(s)),
                    ));
                    done = done.push(first_lexeme(s));
                }
            },
        }
    }
    tokens
}

} // verus!
