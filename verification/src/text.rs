//! Character-level reasoning about string slices.
//!
//! A `&str` is viewed as a `Seq<char>`, while slicing works on byte offsets
//! into its UTF-8 encoding. The lemmas here connect the two, so that the
//! parsers can be specified purely over sequences of characters.

use vstd::prelude::*;
use vstd::utf8::*;
use vstd::string::*;

verus! {

/// Whether `c` has the Unicode `Alphabetic` property, as `char::is_alphabetic` reports it.
pub uninterp spec fn unicode_alphabetic(c: char) -> bool;

/// Whether `c` is a number in Unicode's sense, as `char::is_numeric` reports it.
pub uninterp spec fn unicode_numeric(c: char) -> bool;

/// `char::is_alphabetic`: a fixed classification of the character by the
/// Unicode character database, known here only by the name [`unicode_alphabetic`].
pub assume_specification[ char::is_alphabetic ](c: char) -> (b: bool)
    ensures
        b == unicode_alphabetic(c),
;

/// `char::is_alphanumeric`: true of the characters that `char::is_alphabetic`
/// or `char::is_numeric` accepts, and of no others.
pub assume_specification[ char::is_alphanumeric ](c: char) -> (b: bool)
    ensures
        b == (unicode_alphabetic(c) || unicode_numeric(c)),
;

/// `char::len_utf8`: the number of bytes that the character takes up when it
/// is encoded as UTF-8.
pub assume_specification[ char::len_utf8 ](c: char) -> (n: usize)
    ensures
        n == encode_scalar(c as u32).len(),
;

/// `String::push`: puts one character at the end of the string.
pub assume_specification[ String::push ](s: &mut String, c: char)
    ensures
        final(s)@ == old(s)@.push(c),
;

/// The number of bytes that the UTF-8 encoding of `chars` occupies.
pub open spec fn byte_len(chars: Seq<char>) -> nat {
    encode_utf8(chars).len()
}

/// Encoding distributes over concatenation.
pub proof fn lemma_encode_concat(a: Seq<char>, b: Seq<char>)
    ensures
        encode_utf8(a + b) == encode_utf8(a) + encode_utf8(b),
    decreases a.len(),
{
    if a.len() == 0 {
        assert(a + b =~= b);
        assert(encode_utf8(a) + encode_utf8(b) =~= encode_utf8(b));
    } else {
        lemma_encode_concat(a.drop_first(), b);
        assert((a + b).drop_first() =~= a.drop_first() + b);
        assert(encode_utf8(a + b) =~= encode_utf8(a) + encode_utf8(b));
    }
}

/// Two character sequences with the same encoding are the same sequence.
pub proof fn lemma_encode_injective(a: Seq<char>, b: Seq<char>)
    requires
        encode_utf8(a) == encode_utf8(b),
    ensures
        a == b,
{
    encode_utf8_decode_utf8(a);
    encode_utf8_decode_utf8(b);
}

/// The end of an encoded prefix is a character boundary of the whole encoding.
pub proof fn lemma_prefix_boundary(a: Seq<char>, b: Seq<char>)
    ensures
        is_char_boundary(encode_utf8(a + b), byte_len(a) as int),
    decreases a.len(),
{
    let whole = encode_utf8(a + b);
    encode_utf8_valid_utf8(a + b);
    if a.len() == 0 {
    } else {
        lemma_encode_concat(a, b);
        encode_utf8_first_scalar(a + b);
        encode_utf8_first_scalar(a);
        assert((a + b).drop_first() =~= a.drop_first() + b);
        assert(pop_first_scalar(whole) =~= encode_utf8(a.drop_first() + b));
        lemma_prefix_boundary(a.drop_first(), b);
        assert(byte_len(a) == length_of_first_scalar(whole) + byte_len(a.drop_first()));
    }
}

/// A longer prefix occupies strictly more bytes than a shorter one.
pub proof fn lemma_byte_len_strict(s: Seq<char>, i: int, j: int)
    requires
        0 <= i < j <= s.len(),
    ensures
        byte_len(s.take(i)) < byte_len(s.take(j)),
{
    let gap = s.subrange(i, j);
    assert(s.take(j) =~= s.take(i) + gap);
    lemma_encode_concat(s.take(i), gap);
    assert(encode_utf8(gap).len() >= 1) by {
        assert(encode_utf8(gap) == encode_scalar(gap[0] as u32) + encode_utf8(gap.drop_first()));
    }
}

/// Cutting an encoding at a character boundary cuts the character sequence:
/// the two halves decode to a prefix and the matching suffix.
pub proof fn lemma_split_at_boundary(s: Seq<char>, n: int, head: Seq<char>, tail: Seq<char>)
    requires
        is_char_boundary(encode_utf8(s), n),
        encode_utf8(head) == encode_utf8(s).subrange(0, n),
        encode_utf8(tail) == encode_utf8(s).subrange(n, encode_utf8(s).len() as int),
    ensures
        0 <= n <= encode_utf8(s).len(),
        s == head + tail,
        head == s.take(head.len() as int),
        tail == s.skip(head.len() as int),
{
    let bytes = encode_utf8(s);
    encode_utf8_valid_utf8(s);
    decode_utf8_split(bytes, n);
    encode_utf8_decode_utf8(s);
    encode_utf8_decode_utf8(head);
    encode_utf8_decode_utf8(tail);
    assert(s =~= head + tail);
    assert(head =~= s.take(head.len() as int));
    assert(tail =~= s.skip(head.len() as int));
}

/// The length of `s` in bytes, which is the length of its UTF-8 encoding.
pub(crate) fn byte_length(s: &str) -> (n: usize)
    ensures
        n == byte_len(s@),
{
    let bytes = s.as_bytes();
    assert(bytes@.len() <= usize::MAX) by {
        vstd::slice::axiom_spec_len(bytes);
    }
    s.len()
}

/// Whether two string slices hold the same text, decided byte by byte.
pub(crate) fn same_text(a: &str, b: &str) -> (same: bool)
    ensures
        same == (a@ == b@),
{
    let left = a.as_bytes();
    let right = b.as_bytes();
    if left.len() != right.len() {
        return false;
    }
    let mut i: usize = 0;
    while i < left.len()
        invariant
            left@ == a.spec_bytes(),
            right@ == b.spec_bytes(),
            left@.len() == right@.len(),
            0 <= i <= left@.len(),
            forall|j: int| 0 <= j < i ==> left@[j] == right@[j],
        decreases left@.len() - i,
    {
        if left[i] != right[i] {
            return false;
        }
        i += 1;
    }
    proof {
        assert(left@ =~= right@);
        lemma_encode_injective(a@, b@);
    }
    true
}

/// Splits `input` at byte offset `n`, which must fall between two characters.
pub(crate) fn split_at_boundary<'a>(input: &'a str, n: usize) -> (parts: (&'a str, &'a str))
    requires
        is_char_boundary(input.spec_bytes(), n as int),
    ensures
        input@ == parts.0@ + parts.1@,
        byte_len(parts.0@) == n,
        parts.0@ == input@.take(parts.0@.len() as int),
        parts.1@ == input@.skip(parts.0@.len() as int),
        forall|k: int| 0 <= k <= input@.len() && byte_len(#[trigger] input@.take(k)) == n ==> parts.0@.len() == k,
{
    let parts = input.split_at(n);
    proof {
        lemma_split_at_boundary(input@, n as int, parts.0@, parts.1@);
        let cut = parts.0@.len() as int;
        assert forall|k: int| 0 <= k <= input@.len() && byte_len(#[trigger] input@.take(k)) == n implies cut == k by {
            if k < cut {
                lemma_byte_len_strict(input@, k, cut);
            } else if cut < k {
                lemma_byte_len_strict(input@, cut, k);
            }
        }
    }
    parts
}

} // verus!
