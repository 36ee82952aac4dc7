//! Text validation: deciding whether a sequence of bytes is a valid UTF-8
//! encoding. A file qualifies as text when a bounded prefix of it passes
//! this check.

use vstd::prelude::*;
use vstd::slice::slice_index_get;
use vstd::utf8::codepoint_width_2;
use vstd::utf8::codepoint_width_3;
use vstd::utf8::codepoint_width_4;
use vstd::utf8::decode_first_codepoint;
use vstd::utf8::is_leading_byte_width_1;
use vstd::utf8::is_leading_byte_width_2;
use vstd::utf8::is_leading_byte_width_3;
use vstd::utf8::is_leading_byte_width_4;
use vstd::utf8::length_of_first_scalar;
use vstd::utf8::not_overlong_encoding;
use vstd::utf8::not_surrogate;
use vstd::utf8::partial_valid_partial_invalid_utf8;
use vstd::utf8::partial_valid_utf8;
use vstd::utf8::partial_valid_utf8_extend;
use vstd::utf8::valid_first_scalar;
use vstd::utf8::valid_leading_and_continuation_bytes_first_codepoint;
use vstd::utf8::valid_utf8;

verus! {

/// When the suffix starting at `i` does not begin with a well-formed scalar
/// encoding, the whole byte sequence is not valid UTF-8.
proof fn lemma_invalid_here(bytes: Seq<u8>, i: int)
    requires
        partial_valid_utf8(bytes, i),
        0 <= i < bytes.len(),
        !valid_first_scalar(bytes.subrange(i, bytes.len() as int)),
    ensures
        !valid_utf8(bytes),
{
    let suf = bytes.subrange(i, bytes.len() as int);
    assert(suf.len() > 0);
    assert(!valid_utf8(suf));
    partial_valid_partial_invalid_utf8(bytes, i);
}

/// Decides whether the given bytes are a valid UTF-8 encoding.
///
/// This is the text validator: a file is treated as text exactly when the
/// bounded prefix handed to this function decodes as UTF-8. An empty input
/// is trivially valid.
pub fn is_valid_text(bytes: &[u8]) -> (r: bool)
    ensures
        r == valid_utf8(bytes@),
{
    let n = bytes.len();
    let mut i: usize = 0;
    while i < n
        invariant
            n == bytes@.len(),
            0 <= i <= n,
            partial_valid_utf8(bytes@, i as int),
        decreases n - i,
    {
        let ghost suf = bytes@.subrange(i as int, n as int);
        let b0 = *slice_index_get(bytes, i);
        proof {
            assert(suf[0] == bytes@[i as int]);
        }
        if b0 < 0x80 {
            proof {
                assert(is_leading_byte_width_1(suf[0]));
                assert((b0 & 0x7f) < 0x800) by (bit_vector);
                assert(valid_first_scalar(suf));
                assert(length_of_first_scalar(suf) == 1);
                partial_valid_utf8_extend(bytes@, i as int);
            }
            i = i + 1;
        } else if b0 < 0xc0 {
            proof {
                assert(!valid_leading_and_continuation_bytes_first_codepoint(suf));
                lemma_invalid_here(bytes@, i as int);
            }
            return false;
        } else if b0 < 0xe0 {
            if n - i < 2 {
                proof {
                    assert(!valid_leading_and_continuation_bytes_first_codepoint(suf));
                    lemma_invalid_here(bytes@, i as int);
                }
                return false;
            }
            let b1 = *slice_index_get(bytes, i + 1);
            proof {
                assert(suf[1] == bytes@[i + 1]);
            }
            if b1 < 0x80 || b1 > 0xbf {
                proof {
                    assert(!valid_leading_and_continuation_bytes_first_codepoint(suf));
                    lemma_invalid_here(bytes@, i as int);
                }
                return false;
            }
            let cp: u32 = (((b0 & 0x1f) as u32) << 6u32) | ((b1 & 0x3f) as u32);
            proof {
                assert(is_leading_byte_width_2(suf[0]));
                assert(cp == codepoint_width_2(b0, b1));
                assert(cp == decode_first_codepoint(suf));
            }
            if cp < 0x80 {
                proof {
                    assert(!not_overlong_encoding(cp, 2));
                    lemma_invalid_here(bytes@, i as int);
                }
                return false;
            }
            proof {
                assert(((((b0 & 0x1f) as u32) << 6u32) | ((b1 & 0x3f) as u32)) <= 0x7ff)
                    by (bit_vector);
                assert(not_surrogate(cp));
                assert(valid_first_scalar(suf));
                assert(length_of_first_scalar(suf) == 2);
                partial_valid_utf8_extend(bytes@, i as int);
            }
            i = i + 2;
        } else if b0 < 0xf0 {
            if n - i < 3 {
                proof {
                    assert(!valid_leading_and_continuation_bytes_first_codepoint(suf));
                    lemma_invalid_here(bytes@, i as int);
                }
                return false;
            }
            let b1 = *slice_index_get(bytes, i + 1);
            let b2 = *slice_index_get(bytes, i + 2);
            proof {
                assert(suf[1] == bytes@[i + 1]);
                assert(suf[2] == bytes@[i + 2]);
            }
            if b1 < 0x80 || b1 > 0xbf || b2 < 0x80 || b2 > 0xbf {
                proof {
                    assert(!valid_leading_and_continuation_bytes_first_codepoint(suf));
                    lemma_invalid_here(bytes@, i as int);
                }
                return false;
            }
            let cp: u32 = (((b0 & 0x0f) as u32) << 12u32) | (((b1 & 0x3f) as u32) << 6u32) | ((b2
                & 0x3f) as u32);
            proof {
                assert(is_leading_byte_width_3(suf[0]));
                assert(!is_leading_byte_width_2(suf[0]));
                assert(cp == codepoint_width_3(b0, b1, b2));
                assert(cp == decode_first_codepoint(suf));
            }
            if cp < 0x800 || (0xd800 <= cp && cp <= 0xdfff) {
                proof {
                    assert(!not_overlong_encoding(cp, 3) || !not_surrogate(cp));
                    lemma_invalid_here(bytes@, i as int);
                }
                return false;
            }
            proof {
                assert(valid_first_scalar(suf));
                assert(length_of_first_scalar(suf) == 3);
                partial_valid_utf8_extend(bytes@, i as int);
            }
            i = i + 3;
        } else if b0 < 0xf8 {
            if n - i < 4 {
                proof {
                    assert(!valid_leading_and_continuation_bytes_first_codepoint(suf));
                    lemma_invalid_here(bytes@, i as int);
                }
                return false;
            }
            let b1 = *slice_index_get(bytes, i + 1);
            let b2 = *slice_index_get(bytes, i + 2);
            let b3 = *slice_index_get(bytes, i + 3);
            proof {
                assert(suf[1] == bytes@[i + 1]);
                assert(suf[2] == bytes@[i + 2]);
                assert(suf[3] == bytes@[i + 3]);
            }
            if b1 < 0x80 || b1 > 0xbf || b2 < 0x80 || b2 > 0xbf || b3 < 0x80 || b3 > 0xbf {
                proof {
                    assert(!valid_leading_and_continuation_bytes_first_codepoint(suf));
                    lemma_invalid_here(bytes@, i as int);
                }
                return false;
            }
            let cp: u32 = (((b0 & 0x07) as u32) << 18u32) | (((b1 & 0x3f) as u32) << 12u32) | (((b2
                & 0x3f) as u32) << 6u32) | ((b3 & 0x3f) as u32);
            proof {
                assert(is_leading_byte_width_4(suf[0]));
                assert(!is_leading_byte_width_3(suf[0]));
                assert(!is_leading_byte_width_2(suf[0]));
                assert(cp == codepoint_width_4(b0, b1, b2, b3));
                assert(cp == decode_first_codepoint(suf));
            }
            if cp < 0x10000 || cp > 0x10ffff {
                proof {
                    assert(!not_overlong_encoding(cp, 4));
                    lemma_invalid_here(bytes@, i as int);
                }
                return false;
            }
            proof {
                assert(not_surrogate(cp));
                assert(valid_first_scalar(suf));
                assert(length_of_first_scalar(suf) == 4);
                partial_valid_utf8_extend(bytes@, i as int);
            }
            i = i + 4;
        } else {
            proof {
                assert(!valid_leading_and_continuation_bytes_first_codepoint(suf));
                lemma_invalid_here(bytes@, i as int);
            }
            return false;
        }
    }
    proof {
        assert(bytes@.subrange(0, n as int) == bytes@);
    }
    true
}

} // verus!
