//! A parser for delimited text: fields separated by commas, `#` comments up
//! to the end of the line, fields in double quotes with inner quotes
//! doubled, and lines ended by LF or CR LF.

pub mod lexer;
pub mod parser;
pub mod text;

use crate::parser::lemmas::rows_have_fields;
use crate::parser::{parse_text, ErrorKind, Failure, ParseError, ParsingContext, Table};
use crate::text::byte_len;
use vstd::prelude::*;

verus! {

/// Parses `string` into rows of fields. A text that is no table is answered
/// with the first failure in it.
pub fn parse(string: &str) -> (result: Result<Vec<Vec<String>>, ParseError>)
    ensures
        match result {
            Ok(table) => {
                &&& parse_text(string@) == Ok::<Table, Failure>(table.deep_view())
                &&& rows_have_fields(table.deep_view())
            },
            Err(error) => {
                &&& parse_text(string@) == Err::<Table, Failure>(error@)
                &&& error.kind == ErrorKind::UnterminatedQuote || error.kind
                    == ErrorKind::AdjacentValues
                &&& error.offset <= byte_len(string@)
            },
        },
{
    let parser = ParsingContext::new();
    parser.parse(string)
}

} // verus!
