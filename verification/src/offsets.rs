//! Byte offsets of characters in UTF-8 text, and slicing between them.

use vstd::prelude::*;
use vstd::string::StringSliceAdditionalSpecFns;
use vstd::utf8::{encode_utf8, encode_utf8_decode_utf8, encode_utf8_first_scalar,
    encode_utf8_valid_utf8, is_char_boundary, length_of_first_scalar, pop_first_scalar};

verus! {

/// The byte offset at which character `i` of `text` starts in its UTF-8
/// encoding; for `i == text.len()`, the length of the encoding.
pub open spec fn byte_offset(text: Seq<char>, i: int) -> nat {
    encode_utf8(text.take(i)).len()
}

/// The encoding of a concatenation is the concatenation of the encodings.
pub proof fn lemma_encode_concat(a: Seq<char>, b: Seq<char>)
    ensures
        encode_utf8(a + b) == encode_utf8(a) + encode_utf8(b),
    decreases a.len(),
{
    if a.len() == 0 {
        assert(a + b == b);
        assert(encode_utf8(a) + encode_utf8(b) == encode_utf8(b));
    } else {
        assert((a + b).drop_first() == a.drop_first() + b);
        lemma_encode_concat(a.drop_first(), b);
        assert(encode_utf8(a + b) == encode_utf8(a) + encode_utf8(b));
    }
}

/// The end of an encoded prefix is a character boundary of the whole encoding.
pub proof fn lemma_prefix_boundary(a: Seq<char>, b: Seq<char>)
    ensures
        is_char_boundary(encode_utf8(a + b), encode_utf8(a).len() as int),
    decreases a.len(),
{
    let whole = encode_utf8(a + b);
    encode_utf8_valid_utf8(a + b);
    if a.len() > 0 {
        let rest = a.drop_first() + b;
        assert((a + b).drop_first() == rest);
        encode_utf8_first_scalar(a + b);
        assert(pop_first_scalar(whole) == encode_utf8(rest));
        lemma_prefix_boundary(a.drop_first(), b);
        lemma_encode_concat(a, b);
        assert(encode_utf8(a).len() - length_of_first_scalar(whole) == encode_utf8(
            a.drop_first(),
        ).len());
    }
}

/// The number of bytes that the UTF-8 encoding of a character takes.
pub fn char_len_utf8(c: char) -> (n: usize)
    ensures
        n == encode_utf8(seq![c]).len(),
{
    proof {
        let one = seq![c];
        assert(one.drop_first() == Seq::<char>::empty());
        assert(encode_utf8(one) == vstd::utf8::encode_scalar(c as u32) + encode_utf8(
            Seq::<char>::empty(),
        ));
    }
    let code = c as u32;
    if code < 0x80 {
        1
    } else if code < 0x800 {
        2
    } else if code < 0x10000 {
        3
    } else {
        4
    }
}

/// Offsets grow with the position, up to the length of the encoding.
pub proof fn lemma_offset_step(text: Seq<char>, i: int)
    requires
        0 <= i < text.len(),
    ensures
        byte_offset(text, i + 1) == byte_offset(text, i) + encode_utf8(seq![text[i]]).len(),
        byte_offset(text, i + 1) <= encode_utf8(text).len(),
        byte_offset(text, 0) == 0,
{
    assert(text.take(i + 1) == text.take(i) + seq![text[i]]);
    lemma_encode_concat(text.take(i), seq![text[i]]);
    assert(text == text.take(i + 1) + text.skip(i + 1));
    lemma_encode_concat(text.take(i + 1), text.skip(i + 1));
    assert(text.take(0) == Seq::<char>::empty());
}

/// Later characters start at later bytes.
pub proof fn lemma_offsets_ascend(text: Seq<char>, i: int, j: int)
    requires
        0 <= i <= j <= text.len(),
    ensures
        byte_offset(text, i) <= byte_offset(text, j),
        i < j ==> byte_offset(text, i) < byte_offset(text, j),
    decreases j - i,
{
    if i < j {
        lemma_offsets_ascend(text, i, j - 1);
        lemma_offset_step(text, j - 1);
        let last = seq![text[j - 1]];
        assert(last.drop_first() == Seq::<char>::empty());
        assert(encode_utf8(last) == vstd::utf8::encode_scalar(text[j - 1] as u32) + encode_utf8(
            Seq::<char>::empty(),
        ));
    }
}

/// The part of `text` from character `from` up to character `to`, given the
/// byte offsets of the two.
pub(crate) fn slice_between<'a>(
    text: &'a str,
    start: usize,
    end: usize,
    Ghost(from): Ghost<int>,
    Ghost(to): Ghost<int>,
) -> (part: &'a str)
    requires
        0 <= from <= to <= text@.len(),
        start == byte_offset(text@, from),
        end == byte_offset(text@, to),
    ensures
        part@ == text@.subrange(from, to),
{
    let ghost s = text@;
    let ghost head = s.take(from);
    let ghost wanted = s.subrange(from, to);
    let ghost rest = s.skip(to);
    proof {
        assert(s == head + s.skip(from));
        lemma_encode_concat(head, s.skip(from));
        lemma_prefix_boundary(head, s.skip(from));
        assert(s.take(to) == head + wanted);
        lemma_encode_concat(head, wanted);
    }
    let (_, tail) = text.split_at(start);
    proof {
        assert(tail.spec_bytes() == encode_utf8(s.skip(from)));
        encode_utf8_decode_utf8(tail@);
        encode_utf8_decode_utf8(s.skip(from));
        assert(tail@ == s.skip(from));
        assert(s.skip(from) == wanted + rest);
        lemma_encode_concat(wanted, rest);
        lemma_prefix_boundary(wanted, rest);
    }
    let (part, _) = tail.split_at(end - start);
    proof {
        assert(part.spec_bytes() == encode_utf8(wanted));
        encode_utf8_decode_utf8(part@);
        encode_utf8_decode_utf8(wanted);
    }
    part
}

} // verus!
