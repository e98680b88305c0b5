//! Assembling tokens into rows of fields.
//!
//! The parser is a finite-state machine whose state is the kind of the
//! previous token, the row that is being filled and the rows that are done.
//! [`Machine`] states it over sequences of characters; [`ParsingContext`] is
//! its executable form and is proved to follow it step by step.

pub mod blank_lines;
pub mod delimiters;
pub mod lemmas;
pub mod line_endings;

use crate::lexer::unescape::{unescape, unescaped};
use crate::lexer::{
    first_len, first_lexeme, lemma_first_len_bounds, lex, tokenize, tokens_measure, Lexeme,
    Token, TokenKind, Value,
};
use crate::parser::lemmas::{lemma_parse_text_outcomes, rows_have_fields};
use crate::text::{byte_len, lemma_byte_len_split, lemma_byte_len_take_monotonic, slice_chars};
use vstd::prelude::*;

verus! {

/// Why a text is no table.
#[derive(Debug, Clone, Copy, PartialEq, Eq, Structural)]
pub enum ErrorKind {
    /// A quoted value is not closed by a quote of its own.
    UnterminatedQuote,
    /// A value follows another value with no comma or line break between them.
    AdjacentValues,
    /// A comma, a comment or a value follows a comment on the same line. No
    /// text gives rise to this: a comment token reaches to the end of its
    /// line.
    TokenAfterComment,
}

/// The first place at which a text fails to be a table.
#[derive(Debug, Clone, Copy, PartialEq, Eq, Structural)]
pub struct ParseError {
    pub kind: ErrorKind,
    /// The byte offset of the offending token.
    pub offset: usize,
}

/// A [`ParseError`] with an offset that no machine word bounds.
pub struct Failure {
    pub kind: ErrorKind,
    pub offset: nat,
}

impl View for ParseError {
    type V = Failure;

    open spec fn view(&self) -> Failure {
        Failure { kind: self.kind, offset: self.offset as nat }
    }
}

/// A row: its fields from left to right.
pub type Row = Seq<Seq<char>>;

/// A table: its rows from top to bottom.
pub type Table = Seq<Row>;

/// The text that a value token stands for: a bare value stands for itself,
/// a quoted one for what is between its quotes, with each pair of quotes
/// read as one. `None` if a quoted value is malformed.
pub open spec fn decoded(value: Value, text: Seq<char>) -> Option<Seq<char>> {
    match value {
        Value::Quoted => unescaped(text),
        Value::Bare => Some(text),
    }
}

/// The state of the parser between two tokens.
pub struct Machine {
    /// The kind of the token read last, if any.
    pub prev: Option<TokenKind>,
    /// The fields of the row that is being filled.
    pub line: Row,
    /// The rows that are done.
    pub lines: Table,
    /// The byte offset of the next token.
    pub index: nat,
}

impl Machine {
    /// The parser before the first token.
    pub open spec fn start() -> Machine {
        Machine { prev: None, line: Seq::empty(), lines: Seq::empty(), index: 0 }
    }

    /// Appends a field to the open row.
    pub open spec fn push_value(self, text: Seq<char>) -> Machine {
        Machine { line: self.line.push(text), ..self }
    }

    /// Appends an empty field to the open row.
    pub open spec fn push_empty_value(self) -> Machine {
        self.push_value(Seq::empty())
    }

    /// Closes the open row. A row without fields is dropped.
    pub open spec fn push_line(self) -> Machine {
        if self.line.len() == 0 {
            self
        } else {
            Machine { line: Seq::empty(), lines: self.lines.push(self.line), ..self }
        }
    }

    /// What a token does to the open row and to the rows that are done,
    /// given the kind of the token before it.
    pub open spec fn transition(self, lexeme: Lexeme) -> Result<Machine, ErrorKind> {
        match (self.prev, lexeme.kind) {
            (None, TokenKind::Comma) => Ok(self.push_empty_value()),
            (Some(TokenKind::Comma), TokenKind::Comma) => Ok(self.push_empty_value()),
            (Some(TokenKind::Newline), TokenKind::Comma) => Ok(self.push_empty_value()),
            (Some(TokenKind::Comment), TokenKind::Comma) => Err(ErrorKind::TokenAfterComment),
            (Some(TokenKind::Value(_)), TokenKind::Comma) => Ok(self),
            (None, TokenKind::Comment) => Ok(self),
            (Some(TokenKind::Comma), TokenKind::Comment) => Ok(self.push_empty_value()),
            (Some(TokenKind::Comment), TokenKind::Comment) => Err(ErrorKind::TokenAfterComment),
            (Some(TokenKind::Newline), TokenKind::Comment) => Ok(self),
            (Some(TokenKind::Value(_)), TokenKind::Comment) => Ok(self),
            (None, TokenKind::Newline) => Ok(self),
            (Some(TokenKind::Comma), TokenKind::Newline) => Ok(
                self.push_empty_value().push_line(),
            ),
            (Some(TokenKind::Comment), TokenKind::Newline) => Ok(self.push_line()),
            (Some(TokenKind::Newline), TokenKind::Newline) => Ok(self.push_line()),
            (Some(TokenKind::Value(_)), TokenKind::Newline) => Ok(self.push_line()),
            (Some(TokenKind::Comment), TokenKind::Value(_)) => Err(ErrorKind::TokenAfterComment),
            (Some(TokenKind::Value(_)), TokenKind::Value(_)) => Err(ErrorKind::AdjacentValues),
            (_, TokenKind::Value(value)) => match decoded(value, lexeme.text) {
                Some(text) => Ok(self.push_value(text)),
                None => Err(ErrorKind::UnterminatedQuote),
            },
        }
    }

    /// The parser after one more token, or the failure that the token is.
    pub open spec fn step(self, lexeme: Lexeme) -> Result<Machine, Failure> {
        match self.transition(lexeme) {
            Ok(next) => Ok(
                Machine {
                    prev: Some(lexeme.kind),
                    index: self.index + byte_len(lexeme.text),
                    ..next
                },
            ),
            Err(kind) => Err(Failure { kind, offset: self.index }),
        }
    }

    /// The parser after the given tokens, or the first failure among them.
    pub open spec fn run(self, lexemes: Seq<Lexeme>) -> Result<Machine, Failure>
        decreases lexemes.len(),
    {
        if lexemes.len() == 0 {
            Ok(self)
        } else {
            match self.step(lexemes[0]) {
                Ok(next) => next.run(lexemes.drop_first()),
                Err(failure) => Err(failure),
            }
        }
    }

    /// The table once the input is over: a comma at the very end still has
    /// an empty field behind it, and the open row is closed.
    pub open spec fn finish(self) -> Table {
        let last = if self.prev == Some(TokenKind::Comma) {
            self.push_empty_value()
        } else {
            self
        };
        last.push_line().lines
    }
}

/// The table that a text stands for, or the first failure in it.
pub open spec fn parse_text(s: Seq<char>) -> Result<Table, Failure> {
    match Machine::start().run(lex(s)) {
        Ok(machine) => Ok(machine.finish()),
        Err(failure) => Err(failure),
    }
}

/// The executable parser.
pub struct ParsingContext {
    prev: Option<TokenKind>,
    line: Vec<String>,
    lines: Vec<Vec<String>>,
    index: usize,
}

impl View for ParsingContext {
    type V = Machine;

    closed spec fn view(&self) -> Machine {
        Machine {
            prev: self.prev,
            line: self.line.deep_view(),
            lines: self.lines.deep_view(),
            index: self.index as nat,
        }
    }
}

impl ParsingContext {
    /// A parser before the first token.
    pub fn new() -> (context: ParsingContext)
        ensures
            context@ == Machine::start(),
    {
        let context = ParsingContext { prev: None, line: vec![], lines: vec![], index: 0 };
        proof {
            assert(context.line.deep_view() =~= Seq::empty());
            assert(context.lines.deep_view() =~= Seq::empty());
        }
        context
    }

    /// Parses `string` into its table, or finds the first failure in it.
    pub fn parse(self, string: &str) -> (result: Result<Vec<Vec<String>>, ParseError>)
        requires
            self@ == Machine::start(),
        ensures
            match result {
                Ok(table) => {
                    &&& parse_text(string@) == Ok::<Table, Failure>(table.deep_view())
                    &&& rows_have_fields(table.deep_view())
                },
                Err(error) => {
                    &&& parse_text(string@) == Err::<Table, Failure>(error@)
                    &&& error.kind == ErrorKind::UnterminatedQuote || error.kind
                        == ErrorKind::AdjacentValues
                    &&& error.offset <= byte_len(string@)
                },
            },
    {
        let mut context = self;
        let tokens = tokenize(string);
        // The bytes of `string` are a slice, so their number fits `usize`,
        // and with it every offset into them.
        let _bytes = string.as_bytes().len();
        let ghost lexemes = lex(string@);
        let ghost mut at: int = 0;
        proof {
            assert(string@.skip(0) == string@);
            assert(lexemes.skip(0) == lexemes);
            assert(string@.take(0) == Seq::<char>::empty());
        }
        let mut i: usize = 0;
        while i < tokens.len()
            invariant
                0 <= i <= tokens.len(),
                tokens_measure(tokens@, lexemes),
                byte_len(string@) <= usize::MAX,
                0 <= at <= string@.len(),
                lex(string@.skip(at)) == lexemes.skip(i as int),
                context@.index == byte_len(string@.take(at)),
                Machine::start().run(lex(string@)) == context@.run(lexemes.skip(i as int)),
            decreases tokens.len() - i,
        {
            let ghost rest = string@.skip(at);
            let ghost lexeme = lexemes[i as int];
            proof {
                lemma_parse_text_outcomes(string@);
                assert(lexemes.skip(i as int)[0] == lexeme);
                assert(rest.len() > 0);
                lemma_first_len_bounds(rest);
                assert(lexeme == first_lexeme(rest));
                assert(lexemes.skip(i as int).drop_first() == lexemes.skip(i + 1));
                assert(rest.skip(first_len(rest)) == string@.skip(at + first_len(rest)));
                assert(rest.take(first_len(rest)) == string@.subrange(at, at + first_len(rest)));
                let end = at + first_len(rest);
                lemma_byte_len_split(string@.take(end), at);
                assert(string@.take(end).take(at) == string@.take(at));
                assert(string@.take(end).skip(at) == lexeme.text);
            }
            let token = tokens[i];
            context.step(token, string, Ghost(lexeme), Ghost(at))?;
            proof {
                at = at + first_len(rest);
            }
            i += 1;
        }
        proof {
            lemma_parse_text_outcomes(string@);
        }
        Ok(context.finish())
    }

    /// Feeds one token to the parser. The token lies in `string` at the
    /// byte offset that the parser has reached.
    fn step(
        &mut self,
        token: Token,
        string: &str,
        Ghost(lexeme): Ghost<Lexeme>,
        Ghost(at): Ghost<int>,
    ) -> (result: Result<(), ParseError>)
        requires
            token.measures(lexeme),
            byte_len(string@) <= usize::MAX,
            0 <= at,
            at + lexeme.text.len() <= string@.len(),
            string@.subrange(at, at + lexeme.text.len()) == lexeme.text,
            old(self)@.index == byte_len(string@.take(at)),
        ensures
            match result {
                Ok(()) => old(self)@.step(lexeme) == Ok::<Machine, Failure>(final(self)@),
                Err(error) => old(self)@.step(lexeme) == Err::<Machine, Failure>(error@),
            },
    {
        let ghost end = at + lexeme.text.len();
        proof {
            lemma_byte_len_split(string@.take(end), at);
            assert(string@.take(end).take(at) == string@.take(at));
            assert(string@.take(end).skip(at) == lexeme.text);
            lemma_byte_len_take_monotonic(string@, at, end);
        }
        match (self.prev, token.kind) {
            (None | Some(TokenKind::Comma | TokenKind::Newline), TokenKind::Comma) => {
                self.push_empty_value();
            },
            (None, TokenKind::Comment | TokenKind::Newline) => {},
            // #comment ,
            (Some(TokenKind::Comment), TokenKind::Comma) => {
                return Err(ParseError { kind: ErrorKind::TokenAfterComment, offset: self.index });
            },
            // A, | "A",
            (Some(TokenKind::Value(_)), TokenKind::Comma) => {},
            // ,#comment
            (Some(TokenKind::Comma), TokenKind::Comment) => {
                self.push_empty_value();
            },
            (Some(TokenKind::Comment), TokenKind::Comment) => {
                return Err(ParseError { kind: ErrorKind::TokenAfterComment, offset: self.index });
            },
            // \n
            // #comment
            // A#comment
            (Some(TokenKind::Newline | TokenKind::Value(_)), TokenKind::Comment) => {},
            // ,\n
            (Some(TokenKind::Comma), TokenKind::Newline) => {
                self.push_empty_value();
                self.push_line();
            },
            // #comment\n
            // \n\n
            // A\n | "A"\n
            (
                Some(TokenKind::Comment | TokenKind::Newline | TokenKind::Value(_)),
                TokenKind::Newline,
            ) => {
                self.push_line();
            },
            // ,A | ,"A"
            // \nA | \n"A"
            (None | Some(TokenKind::Comma | TokenKind::Newline), TokenKind::Value(value)) => {
                let slice = slice_chars(
                    string,
                    self.index,
                    self.index + token.len,
                    Ghost(at),
                    Ghost(end),
                );
                let to_push = match value {
                    Value::Quoted => match unescape(slice) {
                        Some(text) => text,
                        None => {
                            return Err(
                                ParseError { kind: ErrorKind::UnterminatedQuote, offset: self.index },
                            );
                        },
                    },
                    Value::Bare => slice.to_owned(),
                };
                self.push_value(to_push);
            },
            // #commentA | #comment"A"
            (Some(TokenKind::Comment), TokenKind::Value(_)) => {
                return Err(ParseError { kind: ErrorKind::TokenAfterComment, offset: self.index });
            },
            // A"A" | "A"A
            (Some(TokenKind::Value(_)), TokenKind::Value(_)) => {
                return Err(ParseError { kind: ErrorKind::AdjacentValues, offset: self.index });
            },
        }
        self.prev = Some(token.kind);
        self.index += token.len;
        Ok(())
    }

    /// Closes the last row and hands out the table.
    fn finish(self) -> (table: Vec<Vec<String>>)
        ensures
            table.deep_view() == self@.finish(),
    {
        let mut context = self;
        if let Some(TokenKind::Comma) = context.prev {
            context.push_empty_value();
        }
        context.push_line();
        context.lines
    }

    fn push_value(&mut self, text: String)
        ensures
            final(self)@ == old(self)@.push_value(text@),
    {
        self.line.push(text);
        proof {
            assert(self.line.deep_view() =~= old(self).line.deep_view().push(text@));
        }
    }

    fn push_empty_value(&mut self)
        ensures
            final(self)@ == old(self)@.push_empty_value(),
    {
        proof {
            reveal_strlit("");
        }
        let empty = "".to_owned();
        assert(empty@ =~= Seq::<char>::empty());
        self.push_value(empty);
    }

    fn push_line(&mut self)
        ensures
            final(self)@ == old(self)@.push_line(),
    {
        if self.line.is_empty() {
            return ;
        }
        let mut line = Vec::new();
        core::mem::swap(&mut line, &mut self.line);
        self.lines.push(line);
        proof {
            assert(self.line.deep_view() =~= Seq::empty());
            assert(self.lines.deep_view() =~= old(self).lines.deep_view().push(
                old(self).line.deep_view(),
            ));
        }
    }
}

} // verus!
