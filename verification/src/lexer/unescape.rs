//! Decoding the text of a quoted value.

use vstd::prelude::*;

verus! {

/// Where the decoder stands in a quoted value.
#[derive(Debug, Clone, Copy, PartialEq, Eq, Structural)]
pub enum State {
    /// Before the opening quote.
    Start,
    /// Inside the quotes.
    Middle,
    /// Behind a quote that either closes the value or starts a pair.
    MetQuote,
}

/// The decoder after one more character, or `None` if the character cannot
/// stand where the decoder is.
pub open spec fn unescape_step(state: State, acc: Seq<char>, c: char) -> Option<(State, Seq<char>)> {
    match state {
        State::Start => if c == '"' {
            Some((State::Middle, acc))
        } else {
            None
        },
        State::Middle => if c == '"' {
            Some((State::MetQuote, acc))
        } else {
            Some((State::Middle, acc.push(c)))
        },
        State::MetQuote => if c == '"' {
            Some((State::Middle, acc.push(c)))
        } else {
            None
        },
    }
}

/// What a decoder in the given state makes of the rest of a quoted value.
pub open spec fn unescape_from(state: State, acc: Seq<char>, raw: Seq<char>) -> Option<Seq<char>>
    decreases raw.len(),
{
    if raw.len() == 0 {
        if state == State::MetQuote {
            Some(acc)
        } else {
            None
        }
    } else {
        match unescape_step(state, acc, raw[0]) {
            Some((next, grown)) => unescape_from(next, grown, raw.drop_first()),
            None => None,
        }
    }
}

/// The text that a quoted value stands for, or `None` if it is malformed.
pub open spec fn unescaped(raw: Seq<char>) -> Option<Seq<char>> {
    unescape_from(State::Start, Seq::empty(), raw)
}

/// The decoder of a quoted value: where it stands, and the text that it has
/// decoded so far.
pub struct UnescapeContext {
    state: State,
    acc: String,
}

impl UnescapeContext {
    /// Where the decoder stands.
    pub closed spec fn state(&self) -> State {
        self.state
    }

    /// The text decoded so far.
    pub closed spec fn acc(&self) -> Seq<char> {
        self.acc@
    }

    /// A decoder before the opening quote.
    pub fn new() -> (context: UnescapeContext)
        ensures
            context.state() == State::Start,
            context.acc() == Seq::<char>::empty(),
    {
        UnescapeContext { state: State::Start, acc: String::new() }
    }

    /// The decoded text, if the quoted value may end where the decoder
    /// stands: behind its closing quote.
    pub fn finish(self) -> (decoded: Option<String>)
        ensures
            match decoded {
                Some(text) => self.state() == State::MetQuote && text@ == self.acc(),
                None => self.state() != State::MetQuote,
            },
    {
        if self.state == State::MetQuote {
            Some(self.acc)
        } else {
            None
        }
    }

    /// Feeds one character to the decoder. A character that cannot stand
    /// where the decoder is leaves it as it was and is answered with
    /// `false`.
    pub fn eat_char(&mut self, char: char) -> (accepted: bool)
        ensures
            match unescape_step(old(self).state(), old(self).acc(), char) {
                Some((next, grown)) => accepted && final(self).state() == next && final(self).acc()
                    == grown,
                None => !accepted && *final(self) == *old(self),
            },
    {
        match (self.state, char) {
            (State::Start, '"') => {
                self.state = State::Middle;
                true
            },
            (State::Start, _) => false,
            (State::Middle, '"') => {
                self.state = State::MetQuote;
                true
            },
            (State::Middle, _) => {
                self.acc.push(char);
                true
            },
            // "AA""B""A" -> AA"B"A
            (State::MetQuote, '"') => {
                self.acc.push(char);
                self.state = State::Middle;
                true
            },
            (State::MetQuote, _) => false,
        }
    }
}

/// Decodes a quoted value, given with its quotes: `None` if it does not
/// start with a quote, is not closed by one, or goes on behind the closing
/// quote.
pub fn unescape(string: &str) -> (decoded: Option<String>)
    ensures
        match decoded {
            Some(text) => unescaped(string@) == Some(text@),
            None => unescaped(string@) is None,
        },
{
    broadcast use vstd::string::group_string_axioms;

    let mut context = UnescapeContext::new();
    proof {
        assert(string@.skip(0) == string@);
    }
    for char in it: string.chars()
        invariant
            it.seq() == string@,
            unescaped(string@) == unescape_from(
                context.state(),
                context.acc(),
                string@.skip(it.index()),
            ),
    {
        proof {
            assert(string@.skip(it.index()).drop_first() == string@.skip(it.index() + 1));
        }
        if !context.eat_char(char) {
            return None;
        }
    }
    proof {
        assert(string@.skip(string@.len() as int).len() == 0);
    }
    context.finish()
}

} // verus!
