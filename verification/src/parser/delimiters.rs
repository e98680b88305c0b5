//! Texts that hold nothing but commas and line feeds.

use crate::lexer::lemmas::lemma_lex_first;
use crate::lexer::{first_kind, first_len, lex, TokenKind};
use crate::parser::{parse_text, Failure, Machine, Row, Table};
use vstd::prelude::*;

verus! {

/// Whether the text holds commas and line feeds only.
pub open spec fn is_delimiter_text(s: Seq<char>) -> bool {
    forall|i: int| 0 <= i < s.len() ==> s[i] == ',' || s[i] == '\n'
}

/// A row of `n` empty fields.
pub open spec fn empty_fields(n: nat) -> Row {
    Seq::new(n, |i: int| Seq::<char>::empty())
}

/// What a line with the given number of commas adds to the table: nothing
/// if it has no comma, else one row with one empty field more than it has
/// commas.
pub open spec fn delimiter_row(commas: nat) -> Table {
    if commas == 0 {
        Seq::empty()
    } else {
        seq![empty_fields(commas + 1)]
    }
}

/// The table of a text of commas and line feeds of which the line that is
/// being read has had `commas` commas so far: every line with a comma is a
/// row, with an empty field before, between and behind its commas.
pub open spec fn delimiter_table(s: Seq<char>, commas: nat) -> Table
    decreases s.len(),
{
    if s.len() == 0 {
        delimiter_row(commas)
    } else if s[0] == ',' {
        delimiter_table(s.drop_first(), commas + 1)
    } else {
        delimiter_row(commas) + delimiter_table(s.drop_first(), 0)
    }
}

/// The parser on commas and line feeds, from a state in which the open row
/// holds one empty field for each comma of its line.
proof fn lemma_run_on_delimiters(machine: Machine, s: Seq<char>, commas: nat)
    requires
        is_delimiter_text(s),
        machine.line == empty_fields(commas),
        commas > 0 ==> machine.prev == Some(TokenKind::Comma),
        commas == 0 ==> machine.prev is None || machine.prev == Some(TokenKind::Newline),
    ensures
        machine.run(lex(s)) is Ok,
        machine.run(lex(s))->Ok_0.finish() == machine.lines + delimiter_table(s, commas),
    decreases s.len(),
{
    let more = empty_fields(commas + 1);
    assert(empty_fields(commas).push(Seq::<char>::empty()) == more);
    if s.len() == 0 {
        assert(machine.run(lex(s)) == Ok::<Machine, Failure>(machine));
        if commas > 0 {
            assert(machine.finish() == machine.lines.push(more));
            assert(machine.lines.push(more) == machine.lines + seq![more]);
        } else {
            assert(machine.finish() == machine.lines);
            assert(machine.lines == machine.lines + Seq::<Row>::empty());
        }
    } else {
        lemma_lex_first(s);
        let rest = s.drop_first();
        assert(rest == s.skip(1));
        assert forall|i: int| 0 <= i < rest.len() implies rest[i] == ',' || rest[i] == '\n' by {
            assert(rest[i] == s[i + 1]);
        }
        if s[0] == ',' {
            assert(first_kind(s) == TokenKind::Comma);
            assert(first_len(s) == 1);
            let next = machine.step(lex(s)[0])->Ok_0;
            assert(machine.step(lex(s)[0]) is Ok);
            assert(next.line == more);
            lemma_run_on_delimiters(next, rest, commas + 1);
        } else {
            assert(s[0] == '\n');
            assert(first_kind(s) == TokenKind::Newline);
            assert(first_len(s) == 1);
            let next = machine.step(lex(s)[0])->Ok_0;
            assert(machine.step(lex(s)[0]) is Ok);
            assert(next.line == empty_fields(0));
            if commas > 0 {
                assert(next.lines == machine.lines.push(more));
                assert(machine.lines.push(more) == machine.lines + delimiter_row(commas));
            } else {
                assert(next.lines == machine.lines);
                assert(machine.lines == machine.lines + delimiter_row(commas));
            }
            lemma_run_on_delimiters(next, rest, 0);
            assert(next.lines + delimiter_table(rest, 0) == machine.lines + (delimiter_row(commas)
                + delimiter_table(rest, 0)));
        }
    }
}

/// A text of commas and line feeds only is a table of empty fields: each of
/// its lines that holds a comma is a row, with one field more than the line
/// has commas, and a line without comma is no row.
pub proof fn lemma_delimiters_give_empty_fields(s: Seq<char>)
    requires
        is_delimiter_text(s),
    ensures
        parse_text(s) == Ok::<Table, Failure>(delimiter_table(s, 0)),
{
    assert(Machine::start().line == empty_fields(0));
    lemma_run_on_delimiters(Machine::start(), s, 0);
    assert(Seq::<Row>::empty() + delimiter_table(s, 0) == delimiter_table(s, 0));
}

} // verus!
