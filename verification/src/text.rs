//! Texts as sequences of characters, measured in bytes of their UTF-8 encoding.
//!
//! Token lengths and offsets are byte counts, while the grammar is stated over
//! characters. This module connects the two: it names the byte length of a
//! text, proves how it behaves under concatenation, and cuts a `&str` at byte
//! offsets that are known to fall between two characters.

use vstd::prelude::*;
use vstd::string::StringSliceAdditionalSpecFns;
use vstd::utf8::*;

verus! {

/// The number of bytes that the UTF-8 encoding of one character takes.
pub open spec fn char_byte_len(c: char) -> nat {
    encode_scalar(c as u32).len()
}

/// The number of bytes that the UTF-8 encoding of a text takes.
pub open spec fn byte_len(s: Seq<char>) -> nat {
    encode_utf8(s).len()
}

/// `char::len_utf8`: the number of bytes the character needs when it is
/// encoded in UTF-8. The contract identifies that number with the length of
/// the encoding that `vstd::utf8` defines for the character's scalar value.
pub assume_specification[ char::len_utf8 ](c: char) -> (n: usize)
    ensures
        n == char_byte_len(c),
;

/// `String::push`: appends the given character to the end of the string and
/// leaves the characters before it as they were.
pub assume_specification[ String::push ](s: &mut String, c: char)
    ensures
        final(s)@ == old(s)@.push(c),
;

/// Every character takes between one and four bytes.
pub proof fn lemma_char_byte_len_bounds(c: char)
    ensures
        1 <= char_byte_len(c) <= 4,
{
    char_is_scalar(c);
}

/// Encoding distributes over concatenation.
pub proof fn lemma_encode_concat(a: Seq<char>, b: Seq<char>)
    ensures
        encode_utf8(a + b) == encode_utf8(a) + encode_utf8(b),
    decreases a.len(),
{
    if a.len() == 0 {
        assert(a + b == b);
        assert(encode_utf8(a) + encode_utf8(b) == encode_utf8(b));
    } else {
        lemma_encode_concat(a.drop_first(), b);
        assert((a + b).drop_first() == a.drop_first() + b);
        assert(encode_utf8(a + b) == encode_scalar(a[0] as u32) + encode_utf8(
            a.drop_first() + b,
        ));
        assert(encode_utf8(a + b) == encode_utf8(a) + encode_utf8(b));
    }
}

/// The byte length of a concatenation is the sum of the byte lengths.
pub proof fn lemma_byte_len_concat(a: Seq<char>, b: Seq<char>)
    ensures
        byte_len(a + b) == byte_len(a) + byte_len(b),
{
    lemma_encode_concat(a, b);
}

/// A text of one character is as long as that character.
pub proof fn lemma_byte_len_single(c: char)
    ensures
        byte_len(seq![c]) == char_byte_len(c),
{
    reveal_with_fuel(encode_utf8, 2);
    assert(encode_utf8(seq![c]) =~= encode_scalar(c as u32));
}

/// Cutting a text in two keeps the total byte length.
pub proof fn lemma_byte_len_split(s: Seq<char>, k: int)
    requires
        0 <= k <= s.len(),
    ensures
        byte_len(s) == byte_len(s.take(k)) + byte_len(s.skip(k)),
{
    assert(s == s.take(k) + s.skip(k));
    lemma_byte_len_concat(s.take(k), s.skip(k));
}

/// Taking one more character adds that character's bytes.
pub proof fn lemma_byte_len_take_next(s: Seq<char>, k: int)
    requires
        0 <= k < s.len(),
    ensures
        byte_len(s.take(k + 1)) == byte_len(s.take(k)) + char_byte_len(s[k]),
{
    assert(s.take(k + 1) == s.take(k) + seq![s[k]]);
    lemma_byte_len_concat(s.take(k), seq![s[k]]);
    lemma_byte_len_single(s[k]);
}

/// A prefix is never longer in bytes than the whole, and a longer prefix
/// never takes fewer bytes than a shorter one.
pub proof fn lemma_byte_len_take_monotonic(s: Seq<char>, j: int, k: int)
    requires
        0 <= j <= k <= s.len(),
    ensures
        byte_len(s.take(j)) <= byte_len(s.take(k)) <= byte_len(s),
{
    lemma_byte_len_split(s, k);
    lemma_byte_len_split(s.take(k), j);
    assert(s.take(k).take(j) == s.take(j));
}

/// The end of an encoded prefix is a character boundary of the encoded whole.
pub proof fn lemma_prefix_is_char_boundary(a: Seq<char>, b: Seq<char>)
    ensures
        is_char_boundary(encode_utf8(a + b), encode_utf8(a).len() as int),
    decreases a.len(),
{
    broadcast use encode_utf8_valid_utf8;

    if a.len() > 0 {
        let s = a + b;
        lemma_prefix_is_char_boundary(a.drop_first(), b);
        assert(s.drop_first() == a.drop_first() + b);
        encode_utf8_first_scalar(s);
        lemma_char_byte_len_bounds(a[0]);
        assert(pop_first_scalar(encode_utf8(s)) =~= encode_utf8(s.drop_first()));
        lemma_encode_concat(a, b);
    }
}

/// Cuts `text` at the byte offset `mid`, which is where its first `k`
/// characters end.
pub(crate) fn split_at_chars<'a>(text: &'a str, mid: usize, Ghost(k): Ghost<int>) -> (r: (
    &'a str,
    &'a str,
))
    requires
        0 <= k <= text@.len(),
        mid == byte_len(text@.take(k)),
    ensures
        r.0@ == text@.take(k),
        r.1@ == text@.skip(k),
{
    let ghost a = text@.take(k);
    let ghost b = text@.skip(k);
    proof {
        assert(text@ == a + b);
        lemma_prefix_is_char_boundary(a, b);
        lemma_encode_concat(a, b);
    }
    let r = text.split_at(mid);
    proof {
        assert(r.0.spec_bytes() =~= encode_utf8(a));
        assert(r.1.spec_bytes() =~= encode_utf8(b));
        encode_utf8_decode_utf8(r.0@);
        encode_utf8_decode_utf8(r.1@);
        encode_utf8_decode_utf8(a);
        encode_utf8_decode_utf8(b);
    }
    r
}

/// The part of `text` between the byte offsets `from` and `to`, which are
/// where its first `i` and its first `j` characters end.
pub(crate) fn slice_chars<'a>(
    text: &'a str,
    from: usize,
    to: usize,
    Ghost(i): Ghost<int>,
    Ghost(j): Ghost<int>,
) -> (r: &'a str)
    requires
        0 <= i <= j <= text@.len(),
        from == byte_len(text@.take(i)),
        to == byte_len(text@.take(j)),
    ensures
        r@ == text@.subrange(i, j),
{
    let (head, _) = split_at_chars(text, to, Ghost(j));
    proof {
        assert(head@.take(i) == text@.take(i));
    }
    let (_, tail) = split_at_chars(head, from, Ghost(i));
    proof {
        assert(text@.take(j).skip(i) == text@.subrange(i, j));
    }
    tail
}

} // verus!
