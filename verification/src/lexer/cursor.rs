//! A character-at-a-time view of the input with two characters of lookahead.

use crate::text::{byte_len, char_byte_len, lemma_byte_len_single, lemma_byte_len_split, split_at_chars};
use vstd::prelude::*;

verus! {

/// Walks over a text without copying it, and counts the bytes that were
/// consumed since the count was last reset.
pub struct Cursor<'a> {
    rest: &'a str,
    token_len: usize,
}

impl<'a> Cursor<'a> {
    /// The characters that have not been consumed yet.
    pub closed spec fn rest(&self) -> Seq<char> {
        self.rest@
    }

    /// The number of bytes consumed since the last reset.
    pub closed spec fn pending(&self) -> nat {
        self.token_len as nat
    }

    /// The byte count can still grow by everything that is left to consume.
    pub closed spec fn wf(&self) -> bool {
        self.token_len + byte_len(self.rest@) <= usize::MAX
    }

    /// A cursor at the start of `input`.
    pub fn new(input: &'a str) -> (cursor: Cursor<'a>)
        ensures
            cursor.wf(),
            cursor.rest() == input@,
            cursor.pending() == 0,
    {
        // The bytes of `input` are a slice, so their number fits `usize`:
        // the count cannot overflow while the cursor walks over them.
        let _bytes = input.as_bytes().len();
        Cursor { rest: input, token_len: 0 }
    }

    /// The next character, which stays unconsumed.
    pub fn peek_first(&self) -> (c: Option<char>)
        ensures
            c == (if self.rest().len() > 0 {
                Some(self.rest()[0])
            } else {
                None
            }),
    {
        broadcast use vstd::string::group_string_axioms;

        let mut chars = self.rest.chars();
        chars.next()
    }

    /// The character after the next one, which stays unconsumed too.
    pub fn peek_second(&self) -> (c: Option<char>)
        ensures
            c == (if self.rest().len() > 1 {
                Some(self.rest()[1])
            } else {
                None
            }),
    {
        broadcast use vstd::string::group_string_axioms;

        let mut chars = self.rest.chars();
        chars.next();
        chars.next()
    }

    /// Consumes the next character and adds its bytes to the count.
    pub fn eat_char(&mut self) -> (c: Option<char>)
        requires
            old(self).wf(),
        ensures
            final(self).wf(),
            old(self).rest().len() == 0 ==> c is None && *final(self) == *old(self),
            old(self).rest().len() > 0 ==> {
                &&& c == Some(old(self).rest()[0])
                &&& final(self).rest() == old(self).rest().drop_first()
                &&& final(self).pending() == old(self).pending() + char_byte_len(
                    old(self).rest()[0],
                )
            },
    {
        broadcast use vstd::string::group_string_axioms;

        let mut chars = self.rest.chars();
        match chars.next() {
            None => None,
            Some(c) => {
                let n = c.len_utf8();
                proof {
                    lemma_byte_len_split(self.rest@, 1);
                    assert(self.rest@.take(1) == seq![c]);
                    lemma_byte_len_single(c);
                    assert(self.rest@.skip(1) == self.rest@.drop_first());
                }
                let (_, tail) = split_at_chars(self.rest, n, Ghost(1));
                self.rest = tail;
                self.token_len = self.token_len + n;
                Some(c)
            },
        }
    }

    /// The number of bytes consumed since the last reset.
    pub fn token_len(&self) -> (n: usize)
        ensures
            n == self.pending(),
    {
        self.token_len
    }

    /// Starts the byte count again at zero.
    pub fn reset_token_len(&mut self)
        requires
            old(self).wf(),
        ensures
            final(self).wf(),
            final(self).rest() == old(self).rest(),
            final(self).pending() == 0,
    {
        self.token_len = 0;
    }
}

} // verus!
