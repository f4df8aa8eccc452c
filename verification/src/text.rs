//! UTF-8 text as a sequence of characters addressed by byte offset.
//!
//! A text is modelled by its characters, `Seq<char>`; positions in it are byte
//! offsets into its UTF-8 encoding, as `str` counts them.

use vstd::prelude::*;
use vstd::string::*;
use vstd::utf8::*;

verus! {

/// The number of bytes that encode `c` in UTF-8.
pub open spec fn char_width(c: char) -> int {
    encode_scalar(c as u32).len() as int
}

/// The number of bytes that encode the whole of `text`.
pub open spec fn byte_len(text: Seq<char>) -> int {
    encode_utf8(text).len() as int
}

/// The byte offset at which the character of index `k` starts: the number of
/// bytes that encode the `k` characters before it.
pub open spec fn byte_offset(text: Seq<char>, k: int) -> int {
    encode_utf8(text.take(k)).len() as int
}

/// `at` is the byte offset of a character of `text`, or its end.
pub open spec fn is_boundary(text: Seq<char>, at: int) -> bool {
    0 <= at <= byte_len(text) && is_char_boundary(encode_utf8(text), at)
}

/// `start..end` is a byte range of `text` that cuts no character in two.
pub open spec fn is_span(text: Seq<char>, start: int, end: int) -> bool {
    start <= end && is_boundary(text, start) && is_boundary(text, end)
}

/// The characters of `text` encoded by the bytes `start..end`.
pub open spec fn slice_of(text: Seq<char>, start: int, end: int) -> Seq<char> {
    decode_utf8(encode_utf8(text).subrange(start, end))
}

/// Every character takes between one and four bytes.
pub proof fn lemma_char_width_bounds(c: char)
    ensures
        1 <= char_width(c) <= 4,
{
}

/// Encoding distributes over concatenation.
pub proof fn lemma_encode_concat(a: Seq<char>, b: Seq<char>)
    ensures
        encode_utf8(a + b) == encode_utf8(a) + encode_utf8(b),
    decreases a.len(),
{
    if a.len() == 0 {
        assert(a + b == b);
        assert(encode_utf8(a) + encode_utf8(b) == encode_utf8(b));
    } else {
        lemma_encode_concat(a.drop_first(), b);
        assert((a + b).drop_first() == a.drop_first() + b);
        assert(encode_utf8(a + b) == encode_scalar(a[0] as u32) + (encode_utf8(a.drop_first())
            + encode_utf8(b)));
        assert(encode_utf8(a) + encode_utf8(b) == encode_scalar(a[0] as u32) + (encode_utf8(
            a.drop_first(),
        ) + encode_utf8(b)));
    }
}

/// The encoding of a single character.
pub proof fn lemma_encode_one(c: char)
    ensures
        encode_utf8(seq![c]) == encode_scalar(c as u32),
{
    reveal_with_fuel(encode_utf8, 2);
    assert(seq![c].drop_first() == Seq::<char>::empty());
    assert(encode_scalar(c as u32) + Seq::<u8>::empty() == encode_scalar(c as u32));
}

/// Offsets grow by the width of each character passed, and stay within the
/// text.
pub proof fn lemma_byte_offset_step(text: Seq<char>, k: int)
    requires
        0 <= k < text.len(),
    ensures
        byte_offset(text, k + 1) == byte_offset(text, k) + char_width(text[k]),
        0 <= byte_offset(text, k) < byte_offset(text, k + 1) <= byte_len(text),
{
    lemma_encode_one(text[k]);
    lemma_encode_concat(text.take(k), seq![text[k]]);
    assert(text.take(k + 1) == text.take(k) + seq![text[k]]);
    lemma_char_width_bounds(text[k]);
    lemma_encode_concat(text.take(k + 1), text.skip(k + 1));
    assert(text.take(k + 1) + text.skip(k + 1) == text);
}

/// Offsets start at zero and end at the length of the text.
pub proof fn lemma_byte_offset_ends(text: Seq<char>)
    ensures
        byte_offset(text, 0) == 0,
        byte_offset(text, text.len() as int) == byte_len(text),
{
    assert(text.take(0) == Seq::<char>::empty());
    assert(text.take(text.len() as int) == text);
}

/// The offset of every character, and of the end, is a boundary.
pub proof fn lemma_offset_is_boundary(text: Seq<char>, k: int)
    requires
        0 <= k <= text.len(),
    ensures
        is_boundary(text, byte_offset(text, k)),
{
    lemma_encode_concat(text.take(k), text.skip(k));
    assert(text.take(k) + text.skip(k) == text);
    lemma_concat_boundary(text.take(k), text.skip(k));
}

/// Where one text ends and the next begins is a boundary of the two joined.
proof fn lemma_concat_boundary(a: Seq<char>, b: Seq<char>)
    ensures
        is_char_boundary(encode_utf8(a + b), encode_utf8(a).len() as int),
    decreases a.len(),
{
    broadcast use encode_utf8_valid_utf8;

    let whole = encode_utf8(a + b);
    if a.len() > 0 {
        let rest = a.drop_first();
        lemma_concat_boundary(rest, b);
        lemma_encode_concat(a, b);
        lemma_char_width_bounds(a[0]);
        encode_utf8_first_scalar(a + b);
        assert((a + b).drop_first() == rest + b);
        assert(pop_first_scalar(whole) =~= encode_utf8(rest + b));
    }
}

/// The bytes between the offsets of two characters encode the characters
/// between them.
pub proof fn lemma_slice_of_offsets(text: Seq<char>, i: int, j: int)
    requires
        0 <= i <= j <= text.len(),
    ensures
        slice_of(text, byte_offset(text, i), byte_offset(text, j)) == text.subrange(i, j),
        byte_offset(text, i) <= byte_offset(text, j) <= byte_len(text),
{
    broadcast use encode_utf8_decode_utf8;

    let head = text.take(i);
    let mid = text.subrange(i, j);
    let tail = text.skip(j);
    assert(text.take(j) == head + mid);
    assert(text == text.take(j) + tail);
    lemma_encode_concat(head, mid);
    lemma_encode_concat(text.take(j), tail);
    assert(encode_utf8(text).subrange(byte_offset(text, i), byte_offset(text, j)) =~= encode_utf8(
        mid,
    ));
}

/// A boundary of the whole is a boundary of every prefix that reaches it.
proof fn lemma_boundary_in_prefix(bytes: Seq<u8>, start: int, end: int)
    requires
        valid_utf8(bytes),
        0 <= start <= end <= bytes.len(),
        is_char_boundary(bytes, start),
        is_char_boundary(bytes, end),
    ensures
        is_char_boundary(bytes.subrange(0, end), start),
    decreases bytes.len(),
{
    valid_utf8_split(bytes, end);
    if start > 0 {
        let width = length_of_first_scalar(bytes);
        let prefix = bytes.subrange(0, end);
        reveal_with_fuel(is_char_boundary, 2);
        assert(width <= start);
        lemma_boundary_in_prefix(pop_first_scalar(bytes), start - width, end - width);
        assert(pop_first_scalar(prefix) =~= pop_first_scalar(bytes).subrange(0, end - width));
    }
}

/// The length of `input` in bytes.
pub fn byte_length(input: &str) -> (n: usize)
    ensures
        n as int == byte_len(input@),
{
    input.as_bytes().len()
}

/// The part of `input` between two byte offsets.
pub fn slice(input: &str, start: usize, end: usize) -> (part: &str)
    requires
        is_span(input@, start as int, end as int),
    ensures
        part@ == slice_of(input@, start as int, end as int),
{
    broadcast use encode_utf8_valid_utf8, encode_utf8_decode_utf8;

    proof {
        lemma_boundary_in_prefix(input.spec_bytes(), start as int, end as int);
    }
    let (head, _) = input.split_at(end);
    let (_, part) = head.split_at(start);
    assert(part.spec_bytes() =~= input.spec_bytes().subrange(start as int, end as int));
    part
}

/// Whether `c` has Unicode's `White_Space` property, as `char::is_whitespace`
/// reports it.
pub uninterp spec fn has_white_space(c: char) -> bool;

/// `char::is_whitespace`: the result is the `White_Space` property of the
/// character, which this library leaves to the standard library.
pub assume_specification[ char::is_whitespace ](c: char) -> (b: bool)
    ensures
        b == has_white_space(c),
;

/// `char::len_utf8`: the number of bytes that the character takes in UTF-8.
pub assume_specification[ char::len_utf8 ](c: char) -> (n: usize)
    ensures
        n as int == char_width(c),
;

/// A character of the ASCII range takes one byte.
pub proof fn lemma_ascii_width(c: char)
    requires
        c as u32 <= 0x7f,
    ensures
        char_width(c) == 1,
{
}

/// Whether `start..end` is a byte range of `input` that cuts no character in
/// two.
pub fn is_span_of(input: &str, start: usize, end: usize) -> (fits: bool)
    ensures
        fits == is_span(input@, start as int, end as int),
{
    broadcast use encode_utf8_valid_utf8;

    proof {
        reveal_with_fuel(is_char_boundary, 2);
    }
    start <= end && input.is_char_boundary(start) && input.is_char_boundary(end)
}

/// The byte offset of the first `c` in `input`, if there is one.
pub fn find_char(input: &str, c: char) -> (found: Option<usize>)
    ensures
        match input@.index_of_first(c) {
            Some(k) => found matches Some(at) && at as int == byte_offset(input@, k),
            None => found is None,
        },
{
    let mut at: usize = 0;
    let total = byte_length(input);
    proof {
        input@.index_of_first_ensures(c);
        lemma_byte_offset_ends(input@);
    }
    for here in it: input.chars()
        invariant
            it.seq() == input@,
            total as int == byte_len(input@),
            at as int == byte_offset(input@, it.index() as int),
            forall|j: int| 0 <= j < it.index() ==> input@[j] != c,
            input@.index_of_first(c) matches Some(k) ==> {
                &&& 0 <= k < input@.len()
                &&& input@[k] == c
                &&& forall|j: int| 0 <= j < k ==> input@[j] != c
            },
            input@.index_of_first(c) is None ==> !input@.contains(c),
    {
        proof {
            lemma_byte_offset_step(input@, it.index() as int);
        }
        if here == c {
            assert(input@.contains(c));
            return Some(at);
        }
        at = at + here.len_utf8();
    }
    None
}

/// The byte offset of the last `c` in `input`, if there is one.
pub fn rfind_char(input: &str, c: char) -> (found: Option<usize>)
    ensures
        match input@.index_of_last(c) {
            Some(k) => found matches Some(at) && at as int == byte_offset(input@, k),
            None => found is None,
        },
{
    let mut at: usize = 0;
    let mut last: Option<usize> = None;
    let ghost mut seen: int = -1;
    let total = byte_length(input);
    proof {
        input@.index_of_last_ensures(c);
        lemma_byte_offset_ends(input@);
    }
    for here in it: input.chars()
        invariant
            it.seq() == input@,
            total as int == byte_len(input@),
            at as int == byte_offset(input@, it.index() as int),
            -1 <= seen < it.index(),
            seen == -1 ==> last is None,
            seen >= 0 ==> input@[seen] == c && (last matches Some(found) && found as int
                == byte_offset(input@, seen)),
            forall|j: int| seen < j < it.index() ==> input@[j] != c,
            input@.index_of_last(c) matches Some(k) ==> {
                &&& 0 <= k < input@.len()
                &&& input@[k] == c
                &&& forall|j: int| k < j < input@.len() ==> input@[j] != c
            },
            input@.index_of_last(c) is None ==> !input@.contains(c),
    {
        proof {
            lemma_byte_offset_step(input@, it.index() as int);
        }
        if here == c {
            last = Some(at);
            proof {
                seen = it.index() as int;
            }
        }
        at = at + here.len_utf8();
    }
    proof {
        if seen >= 0 {
            assert(input@.contains(c));
        }
    }
    last
}

} // verus!
