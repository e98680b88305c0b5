//! What holds of the parser on every sequence of tokens.

use crate::lexer::lemmas::{
    comments_end_lines, lemma_lex_comments_end_lines, lemma_lex_spells,
    lemma_no_line_feed_no_newline, spelled,
};
use crate::lexer::{lex, Lexeme, TokenKind};
use crate::parser::{parse_text, ErrorKind, Machine, Table};
use crate::text::{byte_len, lemma_byte_len_concat};
use vstd::prelude::*;

verus! {

/// Whether every row of the table has a field.
pub open spec fn rows_have_fields(table: Table) -> bool {
    forall|i: int| 0 <= i < table.len() ==> (#[trigger] table[i]).len() > 0
}

/// Whether the tokens can follow the machine's previous token: behind a
/// comment nothing comes but a newline.
pub open spec fn follows(machine: Machine, lexemes: Seq<Lexeme>) -> bool {
    machine.prev == Some(TokenKind::Comment) && lexemes.len() > 0 ==> lexemes[0].kind
        == TokenKind::Newline
}

/// A step closes rows that have fields only.
pub proof fn lemma_step_keeps_rows(machine: Machine, lexeme: Lexeme)
    requires
        rows_have_fields(machine.lines),
    ensures
        machine.step(lexeme) matches Ok(next) ==> rows_have_fields(next.lines),
{
}

/// The parser closes rows that have fields only.
pub proof fn lemma_run_keeps_rows(machine: Machine, lexemes: Seq<Lexeme>)
    requires
        rows_have_fields(machine.lines),
    ensures
        machine.run(lexemes) matches Ok(last) ==> rows_have_fields(last.lines)
            && rows_have_fields(last.finish()),
    decreases lexemes.len(),
{
    if lexemes.len() > 0 {
        lemma_step_keeps_rows(machine, lexemes[0]);
        match machine.step(lexemes[0]) {
            Ok(next) => {
                lemma_run_keeps_rows(next, lexemes.drop_first());
            },
            Err(_) => {},
        }
    }
}

/// Where every comment is followed by a newline or by nothing, no token is
/// found behind a comment on its line.
pub proof fn lemma_run_meets_no_token_after_comment(machine: Machine, lexemes: Seq<Lexeme>)
    requires
        comments_end_lines(lexemes),
        follows(machine, lexemes),
    ensures
        machine.run(lexemes) matches Err(failure) ==> failure.kind != ErrorKind::TokenAfterComment,
    decreases lexemes.len(),
{
    if lexemes.len() > 0 {
        match machine.step(lexemes[0]) {
            Ok(next) => {
                let rest = lexemes.drop_first();
                assert forall|i: int|
                    0 <= i < rest.len() - 1 && (#[trigger] rest[i]).kind
                        == TokenKind::Comment implies rest[i + 1].kind == TokenKind::Newline by {
                    assert(rest[i] == lexemes[i + 1]);
                    assert(rest[i + 1] == lexemes[i + 2]);
                }
                if rest.len() > 0 {
                    assert(rest[0] == lexemes[1]);
                }
                lemma_run_meets_no_token_after_comment(next, rest);
            },
            Err(_) => {},
        }
    }
}

/// A failure lies at the start of one of the tokens.
pub proof fn lemma_run_failure_offset(machine: Machine, lexemes: Seq<Lexeme>)
    ensures
        machine.run(lexemes) matches Err(failure) ==> machine.index <= failure.offset
            <= machine.index + byte_len(spelled(lexemes)),
        machine.run(lexemes) matches Ok(last) ==> last.index == machine.index + byte_len(
            spelled(lexemes),
        ),
    decreases lexemes.len(),
{
    if lexemes.len() > 0 {
        lemma_byte_len_concat(lexemes[0].text, spelled(lexemes.drop_first()));
        match machine.step(lexemes[0]) {
            Ok(next) => {
                lemma_run_failure_offset(next, lexemes.drop_first());
            },
            Err(_) => {},
        }
    }
}

/// A text fails to be a table only by a quote that is not closed or by two
/// values side by side, and no row of a table is without fields.
pub proof fn lemma_parse_text_outcomes(s: Seq<char>)
    ensures
        match parse_text(s) {
            Ok(table) => rows_have_fields(table),
            Err(failure) => {
                &&& failure.kind == ErrorKind::UnterminatedQuote || failure.kind
                    == ErrorKind::AdjacentValues
                &&& failure.offset <= byte_len(s)
            },
        },
{
    lemma_lex_spells(s);
    lemma_run_failure_offset(Machine::start(), lex(s));
    lemma_lex_comments_end_lines(s);
    lemma_run_meets_no_token_after_comment(Machine::start(), lex(s));
    lemma_run_keeps_rows(Machine::start(), lex(s));
}

/// Only a newline closes a row: over tokens without newline the rows that
/// are done stay as they are.
pub proof fn lemma_run_without_newline(machine: Machine, lexemes: Seq<Lexeme>)
    requires
        forall|i: int| 0 <= i < lexemes.len() ==> (#[trigger] lexemes[i]).kind != TokenKind::Newline,
    ensures
        machine.run(lexemes) matches Ok(last) ==> last.lines == machine.lines,
    decreases lexemes.len(),
{
    if lexemes.len() > 0 {
        match machine.step(lexemes[0]) {
            Ok(next) => {
                let rest = lexemes.drop_first();
                assert forall|i: int| 0 <= i < rest.len() implies (#[trigger] rest[i]).kind
                    != TokenKind::Newline by {
                    assert(rest[i] == lexemes[i + 1]);
                }
                lemma_run_without_newline(next, rest);
            },
            Err(_) => {},
        }
    }
}

/// A text without line feed is one row at most, whatever carriage returns
/// it holds.
pub proof fn lemma_one_line_is_one_row(s: Seq<char>)
    requires
        forall|i: int| 0 <= i < s.len() ==> s[i] != '\n',
    ensures
        parse_text(s) matches Ok(table) ==> table.len() <= 1,
{
    assert forall|i: int| 0 <= i < lex(s).len() implies (#[trigger] lex(s)[i]).kind
        != TokenKind::Newline by {
        lemma_no_line_feed_no_newline(s, i);
    }
    lemma_run_without_newline(Machine::start(), lex(s));
}

} // verus!
