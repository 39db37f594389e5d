//! Reading one character from the front of a UTF-8 byte sequence.
//!
//! The length of a character's encoding is read off its leading byte:
//!
//! | leading byte  | length | value                                          |
//! |---------------|--------|------------------------------------------------|
//! | `0x00..=0x7F` | 1      | the byte itself                                |
//! | `0xC2..=0xDF` | 2      | 5 bits of the leading byte, 6 of the next      |
//! | `0xE0..=0xEF` | 3      | 4 bits of the leading byte, 6 of each next one |
//! | `0xF0..=0xF4` | 4      | 3 bits of the leading byte, 6 of each next one |
//!
//! No other byte leads a well-formed encoding. [`next_utf8_char`] decodes
//! where the caller knows the bytes to be well formed, as those of a `str`
//! are; [`decode_one`] takes any bytes and checks them first.

use vstd::prelude::*;
use vstd::slice::slice_subrange;
use vstd::utf8::*;

verus! {

/// `char::from_u32` turns a number into the character with that scalar value.
/// The contract says what its documentation says: the result is `None` exactly
/// when the number is not a Unicode scalar value (a surrogate, or above
/// `0x10FFFF`), and otherwise the character whose value is that number.
pub assume_specification[ char::from_u32 ](i: u32) -> (r: Option<char>)
    ensures
        r == (if is_scalar(i) {
            Some(i as char)
        } else {
            None::<char>
        }),
;

/// How many bytes a character takes, read off its leading byte; 0 for a byte
/// that leads no well-formed encoding.
pub open spec fn sequence_length(lead: u8) -> nat {
    if lead < 0x80 {
        1
    } else if 0xC2 <= lead < 0xE0 {
        2
    } else if 0xE0 <= lead < 0xF0 {
        3
    } else if 0xF0 <= lead < 0xF5 {
        4
    } else {
        0
    }
}

/// Whether the byte after the leading byte lies in the range that the leading
/// byte allows. The range is that of a continuation byte, `0x80..=0xBF`, cut
/// down after four leading bytes: after `0xE0` and `0xF0` to keep out
/// encodings longer than the value needs, after `0xED` to keep out the
/// surrogates, after `0xF4` to keep out values above `0x10FFFF`.
pub open spec fn second_byte_fits(lead: u8, second: u8) -> bool {
    if lead == 0xE0 {
        0xA0 <= second <= 0xBF
    } else if lead == 0xED {
        0x80 <= second <= 0x9F
    } else if lead == 0xF0 {
        0x90 <= second <= 0xBF
    } else if lead == 0xF4 {
        0x80 <= second <= 0x8F
    } else {
        0x80 <= second <= 0xBF
    }
}

/// Whether `bytes` begin with the complete, well-formed encoding of one
/// character, told by the ranges of the bytes alone.
pub open spec fn well_formed_first(bytes: Seq<u8>) -> bool {
    let n = sequence_length(bytes[0]);
    &&& bytes.len() >= 1
    &&& 1 <= n <= bytes.len()
    &&& n >= 2 ==> second_byte_fits(bytes[0], bytes[1])
    &&& n >= 3 ==> is_continuation_byte(bytes[2])
    &&& n >= 4 ==> is_continuation_byte(bytes[3])
}

/// A one-byte encoding holds its own value.
proof fn lemma_width_1(b0: u8)
    by (bit_vector)
    requires
        b0 < 0x80,
    ensures
        codepoint_width_1(b0) == b0,
{
}

/// A two-byte encoding holds a value that needs two bytes exactly when its
/// leading byte is `0xC2` or more.
proof fn lemma_width_2(b0: u8, b1: u8)
    by (bit_vector)
    requires
        0xC0 <= b0 <= 0xDF,
    ensures
        codepoint_width_2(b0, b1) <= 0x7FF,
        0x80 <= codepoint_width_2(b0, b1) <==> 0xC2 <= b0,
{
}

/// A three-byte encoding holds a value that needs three bytes, and no
/// surrogate, exactly when its second byte fits its leading byte.
proof fn lemma_width_3(b0: u8, b1: u8, b2: u8)
    by (bit_vector)
    requires
        0xE0 <= b0 <= 0xEF,
        0x80 <= b1 <= 0xBF,
    ensures
        codepoint_width_3(b0, b1, b2) <= 0xFFFF,
        0x800 <= codepoint_width_3(b0, b1, b2) <==> !(b0 == 0xE0 && b1 < 0xA0),
        0xD800 <= codepoint_width_3(b0, b1, b2) <= 0xDFFF <==> b0 == 0xED && 0xA0 <= b1,
{
}

/// A four-byte encoding holds a value that needs four bytes, and none above
/// `0x10FFFF`, exactly when its leading byte is `0xF4` or less and its second
/// byte fits it.
proof fn lemma_width_4(b0: u8, b1: u8, b2: u8, b3: u8)
    by (bit_vector)
    requires
        0xF0 <= b0 <= 0xF7,
        0x80 <= b1 <= 0xBF,
    ensures
        0x10000 <= codepoint_width_4(b0, b1, b2, b3) <==> !(b0 == 0xF0 && b1 < 0x90),
        codepoint_width_4(b0, b1, b2, b3) <= 0x10FFFF <==> b0 < 0xF4 || (b0 == 0xF4 && b1 < 0x90),
        b0 <= 0xF4 ==> codepoint_width_4(b0, b1, b2, b3) == (((b0 & 0x0F) as u32) << 18) | (((b1
            & 0x3F) as u32) << 12) | (((b2 & 0x3F) as u32) << 6) | ((b3 & 0x3F) as u32),
{
}

/// The ranges of the bytes tell a well-formed first character: one whose
/// bytes have the shape of an encoding, that is no longer than its value
/// needs, and whose value is a Unicode scalar value.
pub proof fn lemma_well_formed_first(bytes: Seq<u8>)
    ensures
        well_formed_first(bytes) <==> valid_first_scalar(bytes),
        valid_first_scalar(bytes) ==> sequence_length(bytes[0]) == length_of_first_scalar(bytes),
{
    if bytes.len() >= 1 {
        let b0 = bytes[0];
        if is_leading_byte_width_2(b0) && bytes.len() >= 2 {
            lemma_width_2(b0, bytes[1]);
        } else if is_leading_byte_width_3(b0) && bytes.len() >= 3 && is_continuation_byte(
            bytes[1],
        ) {
            lemma_width_3(b0, bytes[1], bytes[2]);
        } else if is_leading_byte_width_4(b0) && bytes.len() >= 4 && is_continuation_byte(
            bytes[1],
        ) {
            lemma_width_4(b0, bytes[1], bytes[2], bytes[3]);
        }
    }
}

/// Reads the character at the front of `bytes`, and says how many bytes it
/// takes.
///
/// `bytes` must begin with the complete, well-formed encoding of one
/// character; what follows it is not looked at.
pub fn next_utf8_char(bytes: &[u8]) -> (r: (char, usize))
    requires
        valid_first_scalar(bytes@),
    ensures
        r.0 == decode_first_scalar(bytes@) as char,
        r.1 == length_of_first_scalar(bytes@),
        r.1 == sequence_length(bytes@[0]),
        1 <= r.1 <= 4,
        r.1 <= bytes@.len(),
{
    proof {
        lemma_well_formed_first(bytes@);
    }
    let x: u8 = bytes[0];
    let (len, ch): (usize, u32) = if x < 0x80 {
        proof {
            lemma_width_1(x);
        }
        (1, x as u32)
    } else if x >= 0xC2 && x < 0xE0 {
        proof {
            lemma_width_2(x, bytes@[1]);
        }
        (2, ((x & 0b0001_1111) as u32) << 6 | ((bytes[1] & 0x3F) as u32))
    } else if x >= 0xE0 && x < 0xF0 {
        proof {
            lemma_width_3(x, bytes@[1], bytes@[2]);
        }
        (
            3,
            ((x & 0b0000_1111) as u32) << 12 | ((bytes[1] & 0x3F) as u32) << 6 | ((bytes[2]
                & 0x3F) as u32),
        )
    } else {
        proof {
            lemma_width_4(x, bytes@[1], bytes@[2], bytes@[3]);
        }
        (
            4,
            ((x & 0b0000_1111) as u32) << 18 | ((bytes[1] & 0x3F) as u32) << 12 | ((bytes[2]
                & 0x3F) as u32) << 6 | ((bytes[3] & 0x3F) as u32),
        )
    };
    (char::from_u32(ch).unwrap(), len)
}

/// Why bytes could not be decoded: no complete, well-formed character
/// begins at `offset`.
#[derive(Debug, Clone, Copy, PartialEq, Eq, Structural)]
pub struct InvalidEncoding {
    pub offset: usize,
}

/// Whether `b` is a continuation byte.
fn is_continuation(b: u8) -> (r: bool)
    ensures
        r == is_continuation_byte(b),
{
    0x80 <= b && b < 0xC0
}

/// Whether `second` may follow the leading byte `lead`.
fn second_byte_ok(lead: u8, second: u8) -> (r: bool)
    ensures
        r == second_byte_fits(lead, second),
{
    if lead == 0xE0 {
        0xA0 <= second && second < 0xC0
    } else if lead == 0xED {
        0x80 <= second && second < 0xA0
    } else if lead == 0xF0 {
        0x90 <= second && second < 0xC0
    } else if lead == 0xF4 {
        0x80 <= second && second < 0x90
    } else {
        is_continuation(second)
    }
}

/// Whether `bytes` begin with the complete, well-formed encoding of one
/// character.
pub fn begins_with_char(bytes: &[u8]) -> (ok: bool)
    ensures
        ok == valid_first_scalar(bytes@),
{
    proof {
        lemma_well_formed_first(bytes@);
    }
    if bytes.len() == 0 {
        return false;
    }
    let x: u8 = bytes[0];
    if x < 0x80 {
        true
    } else if x >= 0xC2 && x < 0xE0 {
        bytes.len() >= 2 && second_byte_ok(x, bytes[1])
    } else if x >= 0xE0 && x < 0xF0 {
        bytes.len() >= 3 && second_byte_ok(x, bytes[1]) && is_continuation(bytes[2])
    } else if x >= 0xF0 && x < 0xF5 {
        bytes.len() >= 4 && second_byte_ok(x, bytes[1]) && is_continuation(bytes[2])
            && is_continuation(bytes[3])
    } else {
        false
    }
}

/// Whether a complete, well-formed character begins at `offset` in `bytes`.
pub open spec fn decodable_at(bytes: Seq<u8>, offset: int) -> bool {
    0 <= offset < bytes.len() && valid_first_scalar(bytes.subrange(offset, bytes.len() as int))
}

/// Reads the character that begins at `offset` in `bytes`, and says how many
/// bytes it takes; fails where no complete, well-formed character begins
/// there, be it that `offset` is out of bounds, that the encoding is cut
/// short, or that the bytes are not UTF-8.
pub fn decode_one(bytes: &[u8], offset: usize) -> (r: Result<(char, usize), InvalidEncoding>)
    ensures
        r is Ok <==> decodable_at(bytes@, offset as int),
        r matches Ok((c, n)) ==> {
            &&& c == decode_first_scalar(bytes@.subrange(offset as int, bytes@.len() as int)) as char
            &&& n == length_of_first_scalar(bytes@.subrange(offset as int, bytes@.len() as int))
            &&& n == sequence_length(bytes@[offset as int])
            &&& offset + n <= bytes@.len()
        },
        r matches Err(e) ==> e.offset == offset,
{
    if offset >= bytes.len() {
        return Err(InvalidEncoding { offset });
    }
    let tail = slice_subrange(bytes, offset, bytes.len());
    if begins_with_char(tail) {
        Ok(next_utf8_char(tail))
    } else {
        Err(InvalidEncoding { offset })
    }
}

} // verus!
