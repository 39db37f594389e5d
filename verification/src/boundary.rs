//! Character boundaries in UTF-8 text: what the chunker's cursor rests on.

use vstd::prelude::*;
use vstd::utf8::*;

verus! {

/// A place where the bytes fall apart into two well-formed halves is a
/// character boundary, and the whole is well formed.
pub proof fn lemma_split_is_boundary(bytes: Seq<u8>, index: int)
    requires
        0 <= index <= bytes.len(),
        valid_utf8(bytes.subrange(0, index)),
        valid_utf8(bytes.subrange(index, bytes.len() as int)),
    ensures
        valid_utf8(bytes),
        is_char_boundary(bytes, index),
    decreases index,
{
    let head = bytes.subrange(0, index);
    let tail = bytes.subrange(index, bytes.len() as int);
    assert(bytes =~= head + tail);
    if index > 0 {
        let n = length_of_first_scalar(head);
        let rest = pop_first_scalar(bytes);
        assert(rest.subrange(0, index - n) =~= pop_first_scalar(head));
        assert(rest.subrange(index - n, rest.len() as int) =~= tail);
        lemma_split_is_boundary(rest, index - n);
    }
}

/// From a character boundary short of the end, the next boundary is one
/// character further on.
pub proof fn lemma_boundary_step(bytes: Seq<u8>, index: int)
    requires
        valid_utf8(bytes),
        is_char_boundary(bytes, index),
        index < bytes.len(),
    ensures
        valid_first_scalar(bytes.subrange(index, bytes.len() as int)),
        index + length_of_first_scalar(bytes.subrange(index, bytes.len() as int)) <= bytes.len(),
        is_char_boundary(
            bytes,
            index + length_of_first_scalar(bytes.subrange(index, bytes.len() as int)),
        ),
{
    valid_utf8_split(bytes, index);
    let tail = bytes.subrange(index, bytes.len() as int);
    let n = length_of_first_scalar(tail);
    partial_valid_utf8_extend(bytes, index);
    assert(pop_first_scalar(tail) =~= bytes.subrange(index + n, bytes.len() as int));
    lemma_split_is_boundary(bytes, index + n);
}

/// A boundary of what lies behind a boundary is a boundary of the whole.
pub proof fn lemma_boundary_offset(bytes: Seq<u8>, index: int, more: int)
    requires
        valid_utf8(bytes),
        is_char_boundary(bytes, index),
        is_char_boundary(bytes.subrange(index, bytes.len() as int), more),
    ensures
        0 <= index <= index + more <= bytes.len(),
        is_char_boundary(bytes, index + more),
{
    valid_utf8_split(bytes, index);
    let tail = bytes.subrange(index, bytes.len() as int);
    valid_utf8_split(tail, more);
    valid_utf8_concat(bytes.subrange(0, index), tail.subrange(0, more));
    assert(bytes.subrange(0, index + more) =~= bytes.subrange(0, index) + tail.subrange(0, more));
    assert(bytes.subrange(index + more, bytes.len() as int) =~= tail.subrange(
        more,
        tail.len() as int,
    ));
    lemma_split_is_boundary(bytes, index + more);
}

} // verus!
