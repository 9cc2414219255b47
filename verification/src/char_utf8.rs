//! UTF-8 encoding and decoding of single characters on byte buffers,
//! proved against the UTF-8 specification functions of vstd.

use vstd::prelude::*;
use vstd::utf8::{codepoint_width_1, codepoint_width_2, codepoint_width_3, codepoint_width_4,
    decode_first_scalar, encode_scalar, length_of_first_scalar, valid_first_scalar};
use crate::chars::{char_from_u32, char_utf8_len, lemma_char_utf8_len};

verus! {

/// The number of bytes of a UTF-8 encoding announced by its first byte;
/// zero for a byte that can open no encoding (a continuation byte, an
/// overlong two-byte opener, or an opener beyond the last code point).
pub open spec fn spec_utf8_char_width(b: u8) -> int {
    if b < 0x80 {
        1
    } else if b < 0xC2 {
        0
    } else if b < 0xE0 {
        2
    } else if b < 0xF0 {
        3
    } else if b < 0xF5 {
        4
    } else {
        0
    }
}

/// Given a first byte, determines how many bytes are in this UTF-8
/// character.
pub fn utf8_char_width(b: u8) -> (w: usize)
    ensures
        w as int == spec_utf8_char_width(b),
{
    if b < 0x80 {
        1
    } else if b < 0xC2 {
        0
    } else if b < 0xE0 {
        2
    } else if b < 0xF0 {
        3
    } else if b < 0xF5 {
        4
    } else {
        0
    }
}

/// Converts the start of a byte sequence into a character, if possible,
/// together with the byte length of its encoding: exactly when the
/// sequence begins with a well-formed UTF-8 encoding of a Unicode scalar.
pub fn decode_utf8(src: &[u8]) -> (r: Option<(usize, char)>)
    ensures
        r is Some <==> valid_first_scalar(src@),
        r is Some ==> r->Some_0.0 as int == length_of_first_scalar(src@),
        r is Some ==> r->Some_0.1 as u32 == decode_first_scalar(src@),
{
    let n = src.len();
    if n == 0 {
        return None;
    }
    let b0 = src[0];
    if b0 < 0x80 {
        proof {
            assert(codepoint_width_1(b0) == b0 as u32) by (bit_vector)
                requires
                    b0 < 0x80,
            ;
            assert((b0 as char) as u32 == b0 as u32);
        }
        Some((1, b0 as char))
    } else if 0xC2 <= b0 && b0 < 0xE0 {
        if n < 2 {
            return None;
        }
        let b1 = src[1];
        if !(0x80 <= b1 && b1 < 0xC0) {
            return None;
        }
        let cp: u32 = (((b0 & 0x1F) as u32) << 6u32) | ((b1 & 0x3F) as u32);
        proof {
            assert(cp == codepoint_width_2(b0, b1));
            assert(cp >= 0x80 && cp <= 0x7FF) by (bit_vector)
                requires
                    cp == (((b0 & 0x1F) as u32) << 6u32) | ((b1 & 0x3F) as u32),
                    0xC2 <= b0 < 0xE0,
                    0x80 <= b1 < 0xC0,
            ;
        }
        proof {
            assert(valid_first_scalar(src@));
        }
        match char_from_u32(cp) {
            Some(c) => Some((2, c)),
            None => None,
        }
    } else if 0xE0 <= b0 && b0 < 0xF0 {
        if n < 3 {
            return None;
        }
        let b1 = src[1];
        let b2 = src[2];
        if !(0x80 <= b1 && b1 < 0xC0) || !(0x80 <= b2 && b2 < 0xC0) {
            return None;
        }
        let cp: u32 = (((b0 & 0x0F) as u32) << 12u32) | (((b1 & 0x3F) as u32) << 6u32) | ((b2
            & 0x3F) as u32);
        proof {
            assert(cp == codepoint_width_3(b0, b1, b2));
            assert(cp <= 0xFFFF) by (bit_vector)
                requires
                    cp == (((b0 & 0x0F) as u32) << 12u32) | (((b1 & 0x3F) as u32) << 6u32) | ((b2
                        & 0x3F) as u32),
            ;
        }
        if cp < 0x800 {
            return None;
        }
        match char_from_u32(cp) {
            Some(c) => {
                proof {
                    assert(valid_first_scalar(src@));
                }
                Some((3, c))
            },
            None => {
                proof {
                    assert(!vstd::utf8::not_surrogate(cp));
                }
                None
            },
        }
    } else if 0xF0 <= b0 && b0 < 0xF5 {
        if n < 4 {
            return None;
        }
        let b1 = src[1];
        let b2 = src[2];
        let b3 = src[3];
        if !(0x80 <= b1 && b1 < 0xC0) || !(0x80 <= b2 && b2 < 0xC0) || !(0x80 <= b3 && b3 < 0xC0) {
            return None;
        }
        let cp: u32 = (((b0 & 0x07) as u32) << 18u32) | (((b1 & 0x3F) as u32) << 12u32) | (((b2
            & 0x3F) as u32) << 6u32) | ((b3 & 0x3F) as u32);
        proof {
            assert(cp == codepoint_width_4(b0, b1, b2, b3));
            assert(cp <= 0x1FFFFF) by (bit_vector)
                requires
                    cp == (((b0 & 0x07) as u32) << 18u32) | (((b1 & 0x3F) as u32) << 12u32) | (((b2
                        & 0x3F) as u32) << 6u32) | ((b3 & 0x3F) as u32),
            ;
        }
        if cp < 0x10000 || cp > 0x10FFFF {
            return None;
        }
        proof {
            assert(valid_first_scalar(src@));
        }
        match char_from_u32(cp) {
            Some(c) => Some((4, c)),
            None => None,
        }
    } else {
        // a continuation byte, an overlong two-byte opener, or an opener
        // beyond the last code point
        proof {
            if 0xC0 <= b0 && b0 <= 0xC1 && src@.len() >= 2 && 0x80 <= src@[1] && src@[1] <= 0xBF {
                let b1 = src@[1];
                assert((((b0 & 0x1F) as u32) << 6) | ((b1 & 0x3F) as u32) < 0x80) by (bit_vector)
                    requires
                        0xC0 <= b0 <= 0xC1,
                        0x80 <= b1 <= 0xBF,
                ;
                assert(codepoint_width_2(b0, b1) < 0x80);
            }
            if 0xF5 <= b0 && b0 <= 0xF7 && src@.len() >= 4 && 0x80 <= src@[1] && src@[1] <= 0xBF
                && 0x80 <= src@[2] && src@[2] <= 0xBF && 0x80 <= src@[3] && src@[3] <= 0xBF {
                let b1 = src@[1];
                let b2 = src@[2];
                let b3 = src@[3];
                assert((((b0 & 0x07) as u32) << 18) | (((b1 & 0x3F) as u32) << 12) | (((b2
                    & 0x3F) as u32) << 6) | ((b3 & 0x3F) as u32) > 0x10FFFF) by (bit_vector)
                    requires
                        0xF5 <= b0 <= 0xF7,
                        0x80 <= b1 <= 0xBF,
                        0x80 <= b2 <= 0xBF,
                        0x80 <= b3 <= 0xBF,
                ;
                assert(codepoint_width_4(b0, b1, b2, b3) > 0x10FFFF);
            }
        }
        None
    }
}

/// Writes the UTF-8 encoding of a character over the start of the buffer,
/// returning its byte length; none when the buffer is too short, which
/// leaves the buffer unchanged.
pub fn encode_utf8(character: char, dst: &mut Vec<u8>) -> (r: Option<usize>)
    ensures
        r is Some <==> old(dst)@.len() >= char_utf8_len(character),
        r is Some ==> r->Some_0 as int == char_utf8_len(character),
        r is Some ==> final(dst)@ =~= encode_scalar(character as u32) + old(dst)@.skip(
            char_utf8_len(character),
        ),
        r is None ==> final(dst)@ == old(dst)@,
{
    proof {
        broadcast use vstd::utf8::char_is_scalar;

        lemma_char_utf8_len(character);
    }
    let code = character as u32;
    if code < 0x80 && dst.len() >= 1 {
        dst[0] = (code & 0x7F) as u8;
        proof {
            assert(dst@ =~= encode_scalar(character as u32) + old(dst)@.skip(1));
        }
        Some(1)
    } else if code < 0x800 && dst.len() >= 2 {
        dst[0] = 0xC0 | (((code >> 6u32) & 0x1F) as u8);
        dst[1] = 0x80 | ((code & 0x3F) as u8);
        proof {
            assert(dst@ =~= encode_scalar(character as u32) + old(dst)@.skip(2));
        }
        Some(2)
    } else if code < 0x10000 && dst.len() >= 3 {
        dst[0] = 0xE0 | (((code >> 12u32) & 0x0F) as u8);
        dst[1] = 0x80 | (((code >> 6u32) & 0x3F) as u8);
        dst[2] = 0x80 | ((code & 0x3F) as u8);
        proof {
            assert(dst@ =~= encode_scalar(character as u32) + old(dst)@.skip(3));
        }
        Some(3)
    } else if code >= 0x10000 && dst.len() >= 4 {
        dst[0] = 0xF0 | (((code >> 18u32) & 0x07) as u8);
        dst[1] = 0x80 | (((code >> 12u32) & 0x3F) as u8);
        dst[2] = 0x80 | (((code >> 6u32) & 0x3F) as u8);
        dst[3] = 0x80 | ((code & 0x3F) as u8);
        proof {
            assert(dst@ =~= encode_scalar(character as u32) + old(dst)@.skip(4));
        }
        Some(4)
    } else {
        None
    }
}

/// Decoding reads back what encoding wrote: the encoding of any character
/// is a well-formed first scalar, of that character's byte length and
/// value.
pub proof fn lemma_encode_decode(c: char, rest: Seq<u8>)
    ensures
        valid_first_scalar(encode_scalar(c as u32) + rest),
        length_of_first_scalar(encode_scalar(c as u32) + rest) == char_utf8_len(c),
        decode_first_scalar(encode_scalar(c as u32) + rest) == c as u32,
{
    broadcast use vstd::utf8::char_is_scalar;

    lemma_char_utf8_len(c);
    vstd::utf8::encode_utf8_first_scalar(seq![c]);
    assert(vstd::utf8::encode_utf8(seq![c]) =~= encode_scalar(c as u32)) by {
        assert(seq![c].drop_first() =~= Seq::<char>::empty());
        reveal_with_fuel(vstd::utf8::encode_utf8, 2);
    }
    let whole = encode_scalar(c as u32) + rest;
    assert(whole.take(char_utf8_len(c)) =~= encode_scalar(c as u32));
    lemma_first_scalar_prefix(encode_scalar(c as u32), rest);
}

/// The first-scalar functions look only at the encoding's own bytes: any
/// suffix may follow.
proof fn lemma_first_scalar_prefix(head: Seq<u8>, rest: Seq<u8>)
    requires
        valid_first_scalar(head),
        length_of_first_scalar(head) <= head.len(),
    ensures
        valid_first_scalar(head + rest),
        length_of_first_scalar(head + rest) == length_of_first_scalar(head),
        decode_first_scalar(head + rest) == decode_first_scalar(head),
{
    let whole = head + rest;
    assert(whole[0] == head[0]);
    if head.len() >= 2 {
        assert(whole[1] == head[1]);
    }
    if head.len() >= 3 {
        assert(whole[2] == head[2]);
    }
    if head.len() >= 4 {
        assert(whole[3] == head[3]);
    }
}

} // verus!
