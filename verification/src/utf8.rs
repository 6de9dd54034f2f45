//! Decode engine for the `utf8` encoding: a lossy, forward-scanning decoder
//! that turns each well-formed multi-byte sequence into its character and
//! each malformed maximal subpart (orphan continuation byte, invalid lead, or
//! lead with too few continuation bytes) into one replacement character.
//!
//! The companion boundary analysis classifies how many trailing bytes of a
//! buffer form a still-incomplete sequence and must be withheld until more
//! input arrives.

use vstd::prelude::*;
use vstd::utf8::decode_first_codepoint;
use vstd::utf8::is_continuation_byte;
use vstd::utf8::is_leading_byte_width_1;
use vstd::utf8::is_leading_byte_width_2;
use vstd::utf8::is_leading_byte_width_3;
use vstd::utf8::is_leading_byte_width_4;
use vstd::utf8::not_overlong_encoding;
use vstd::utf8::not_surrogate;
use crate::chars::REPLACEMENT_CHAR;
use crate::chars::scalar_to_char;

verus! {

/// How many continuation bytes a lead byte announces; zero for anything that
/// is not the lead of a multi-byte sequence.
pub open spec fn utf8_need(b: u8) -> nat {
    if is_leading_byte_width_2(b) {
        1
    } else if is_leading_byte_width_3(b) {
        2
    } else if is_leading_byte_width_4(b) {
        3
    } else {
        0
    }
}

/// How many trailing bytes of a buffer form an incomplete multi-byte
/// sequence: a lead byte, possibly followed by fewer continuation bytes than
/// it announces, at the very end. Never more than three bytes.
pub open spec fn utf8_incomplete_len(b: Seq<u8>) -> nat {
    let n = b.len() as int;
    if n >= 1 && utf8_need(b[n - 1]) >= 1 {
        1
    } else if n >= 2 && is_continuation_byte(b[n - 1]) && utf8_need(b[n - 2]) >= 2 {
        2
    } else if n >= 3 && is_continuation_byte(b[n - 1]) && is_continuation_byte(b[n - 2])
        && utf8_need(b[n - 3]) >= 3 {
        3
    } else {
        0
    }
}

/// How many bytes the scan consumes for the first unit: one for an ASCII
/// byte, an orphan continuation byte or an invalid lead; otherwise the lead
/// plus the continuation bytes that actually follow it, capped at what the
/// lead announces.
pub open spec fn utf8_unit_len(b: Seq<u8>) -> nat
    recommends
        b.len() > 0,
{
    let need = utf8_need(b[0]);
    if need == 0 {
        1
    } else if b.len() < 2 || !is_continuation_byte(b[1]) {
        1
    } else if need == 1 {
        2
    } else if b.len() < 3 || !is_continuation_byte(b[2]) {
        2
    } else if need == 2 {
        3
    } else if b.len() < 4 || !is_continuation_byte(b[3]) {
        3
    } else {
        4
    }
}

/// The character the scan emits for the first unit: the encoded character
/// when the unit is complete and encodes a Unicode scalar minimally, the
/// replacement character otherwise.
pub open spec fn utf8_unit_char(b: Seq<u8>) -> char
    recommends
        b.len() > 0,
{
    let c = b[0];
    let need = utf8_need(c);
    if is_leading_byte_width_1(c) {
        c as char
    } else if need >= 1 && utf8_unit_len(b) == need + 1 {
        let cp = decode_first_codepoint(b);
        if not_overlong_encoding(cp, need as int + 1) && not_surrogate(cp) {
            cp as char
        } else {
            REPLACEMENT_CHAR
        }
    } else {
        REPLACEMENT_CHAR
    }
}

/// Lossy text for a byte span: the scan consumes one unit at a time and emits
/// one character per unit.
pub open spec fn utf8_lossy(b: Seq<u8>) -> Seq<char>
    decreases b.len(),
{
    if b.len() == 0 {
        Seq::empty()
    } else {
        seq![utf8_unit_char(b)] + utf8_lossy(b.skip(utf8_unit_len(b) as int))
    }
}

/// A suffix of a buffer with no incomplete tail has no incomplete tail
/// either.
pub proof fn lemma_utf8_incomplete_zero_skip(b: Seq<u8>, k: int)
    requires
        utf8_incomplete_len(b) == 0,
        0 <= k <= b.len(),
    ensures
        utf8_incomplete_len(b.skip(k)) == 0,
{
    let s = b.skip(k);
    let n = b.len() as int;
    let m = s.len() as int;
    if m >= 1 {
        assert(s[m - 1] == b[n - 1]);
    }
    if m >= 2 {
        assert(s[m - 2] == b[n - 2]);
    }
    if m >= 3 {
        assert(s[m - 3] == b[n - 3]);
    }
}

/// The withheld tail, taken on its own, is withheld in full again: what
/// `write` buffers is exactly a well-formed incomplete prefix of a unit.
pub proof fn lemma_utf8_incomplete_suffix(b: Seq<u8>)
    ensures
        utf8_incomplete_len(b.skip(b.len() - utf8_incomplete_len(b))) == utf8_incomplete_len(b),
{
    let inc = utf8_incomplete_len(b) as int;
    let s = b.skip(b.len() - inc);
    let n = b.len() as int;
    if inc >= 1 {
        assert(s[inc - 1] == b[n - 1]);
    }
    if inc >= 2 {
        assert(s[inc - 2] == b[n - 2]);
    }
    if inc >= 3 {
        assert(s[inc - 3] == b[n - 3]);
    }
}

/// The first unit of `a + b` is the first unit of `a`, as long as either `b`
/// cannot continue a sequence or `a` has no incomplete tail.
proof fn lemma_utf8_first_unit_append(a: Seq<u8>, b: Seq<u8>)
    requires
        a.len() > 0,
        b.len() == 0 || !is_continuation_byte(b[0]) || utf8_incomplete_len(a) == 0,
    ensures
        utf8_unit_len(a + b) == utf8_unit_len(a),
        utf8_unit_char(a + b) == utf8_unit_char(a),
{
    let ab = a + b;
    let n = a.len() as int;
    assert(ab[0] == a[0]);
    let need = utf8_need(a[0]);
    if need >= 1 {
        if n >= 2 {
            assert(ab[1] == a[1]);
        }
        if n >= 3 {
            assert(ab[2] == a[2]);
        }
        if n >= 4 {
            assert(ab[3] == a[3]);
        }
        // when the unit would run past the end of `a`, the byte after `a`
        // is not a continuation byte: if it were, `a` would end in an
        // incomplete tail
        if b.len() > 0 && is_continuation_byte(b[0]) {
            assert(utf8_incomplete_len(a) == 0);
            if n == 1 {
                assert(utf8_incomplete_len(a) >= 1);
            }
            if n == 2 && is_continuation_byte(a[1]) && need >= 2 {
                assert(utf8_incomplete_len(a) >= 1);
            }
            if n == 3 && is_continuation_byte(a[1]) && is_continuation_byte(a[2]) && need >= 3 {
                assert(utf8_incomplete_len(a) >= 1);
            }
        }
        assert(utf8_unit_len(ab) == utf8_unit_len(a));
        if utf8_unit_len(a) == need + 1 {
            assert(decode_first_codepoint(ab) == decode_first_codepoint(a));
        }
    }
}

/// Decoding a concatenation concatenates the decodings, as long as either `b`
/// cannot continue a sequence or `a` has no incomplete tail.
pub proof fn lemma_utf8_lossy_append(a: Seq<u8>, b: Seq<u8>)
    requires
        b.len() == 0 || !is_continuation_byte(b[0]) || utf8_incomplete_len(a) == 0,
    ensures
        utf8_lossy(a + b) == utf8_lossy(a) + utf8_lossy(b),
    decreases a.len(),
{
    if a.len() == 0 {
        assert(a + b =~= b);
        assert(utf8_lossy(a) + utf8_lossy(b) =~= utf8_lossy(b));
    } else {
        lemma_utf8_first_unit_append(a, b);
        let u = utf8_unit_len(a) as int;
        assert(1 <= u <= a.len());
        if utf8_incomplete_len(a) == 0 {
            lemma_utf8_incomplete_zero_skip(a, u);
        }
        lemma_utf8_lossy_append(a.skip(u), b);
        assert((a + b).skip(u) =~= a.skip(u) + b);
        assert(utf8_lossy(a + b) =~= utf8_lossy(a) + utf8_lossy(b));
    }
}

/// Exactly the continuation-byte test.
pub fn is_cont(b: u8) -> (r: bool)
    ensures
        r == is_continuation_byte(b),
{
    0x80 <= b && b <= 0xbf
}

/// Exactly [`utf8_need`], as executable code.
pub fn utf8_need_of(b: u8) -> (r: u8)
    ensures
        r as nat == utf8_need(b),
{
    if 0xc0 <= b && b <= 0xdf {
        1
    } else if 0xe0 <= b && b <= 0xef {
        2
    } else if 0xf0 <= b && b <= 0xf7 {
        3
    } else {
        0
    }
}

/// How many trailing bytes of the buffer must be withheld as an incomplete
/// multi-byte sequence.
pub fn utf8_incomplete(v: &Vec<u8>) -> (r: usize)
    ensures
        r as nat == utf8_incomplete_len(v@),
{
    let n = v.len();
    if n >= 1 && utf8_need_of(v[n - 1]) >= 1 {
        1
    } else if n >= 2 && is_cont(v[n - 1]) && utf8_need_of(v[n - 2]) >= 2 {
        2
    } else if n >= 3 && is_cont(v[n - 1]) && is_cont(v[n - 2]) && utf8_need_of(v[n - 3]) >= 3 {
        3
    } else {
        0
    }
}

proof fn lemma_cp2_bound(b1: u8, b2: u8)
    ensures
        ((((b1 & 0x1f) as u32) << 6) | ((b2 & 0x3f) as u32)) < 0x800,
{
    assert(((((b1 & 0x1f) as u32) << 6) | ((b2 & 0x3f) as u32)) < 0x800) by (bit_vector);
}

proof fn lemma_cp3_bound(b1: u8, b2: u8, b3: u8)
    ensures
        ((((b1 & 0x0f) as u32) << 12) | (((b2 & 0x3f) as u32) << 6) | ((b3 & 0x3f) as u32))
            < 0x10000,
{
    assert(((((b1 & 0x0f) as u32) << 12) | (((b2 & 0x3f) as u32) << 6) | ((b3 & 0x3f) as u32))
        < 0x10000) by (bit_vector);
}

proof fn lemma_cp4_bound(b1: u8, b2: u8, b3: u8, b4: u8)
    ensures
        ((((b1 & 0x07) as u32) << 18) | (((b2 & 0x3f) as u32) << 12) | (((b3 & 0x3f) as u32) << 6)
            | ((b4 & 0x3f) as u32)) < 0x200000,
{
    assert(((((b1 & 0x07) as u32) << 18) | (((b2 & 0x3f) as u32) << 12) | (((b3 & 0x3f) as u32)
        << 6) | ((b4 & 0x3f) as u32)) < 0x200000) by (bit_vector);
}

/// Converts a byte span into text, lossily: each malformed maximal subpart
/// becomes one replacement character.
pub fn utf8_decode(v: &[u8]) -> (out: String)
    ensures
        out@ == utf8_lossy(v@),
{
    let mut out = String::new();
    let n = v.len();
    let mut i: usize = 0;
    proof {
        assert(v@.skip(0) =~= v@);
    }
    while i < n
        invariant
            i <= n,
            n == v@.len(),
            utf8_lossy(v@) == out@ + utf8_lossy(v@.skip(i as int)),
        decreases n - i,
    {
        let ghost rest = v@.skip(i as int);
        proof {
            assert(rest[0] == v@[i as int]);
            if n - i >= 2 {
                assert(rest[1] == v@[i as int + 1]);
            }
            if n - i >= 3 {
                assert(rest[2] == v@[i as int + 2]);
            }
            if n - i >= 4 {
                assert(rest[3] == v@[i as int + 3]);
            }
        }
        let c = v[i];
        let need = utf8_need_of(c);
        let ulen: usize;
        let ch: char;
        if need == 0 {
            if c < 0x80 {
                ch = c as char;
            } else {
                ch = REPLACEMENT_CHAR;
            }
            ulen = 1;
            proof {
                assert(utf8_unit_len(rest) == 1);
            }
        } else {
            if n - i < 2 || !is_cont(v[i + 1]) {
                ulen = 1;
            } else if need == 1 {
                ulen = 2;
            } else if n - i < 3 || !is_cont(v[i + 2]) {
                ulen = 2;
            } else if need == 2 {
                ulen = 3;
            } else if n - i < 4 || !is_cont(v[i + 3]) {
                ulen = 3;
            } else {
                ulen = 4;
            }
            proof {
                assert(ulen as nat == utf8_unit_len(rest));
            }
            if ulen == need as usize + 1 {
                // a complete sequence: decode its codepoint and validate it
                let cp: u32;
                if need == 1 {
                    cp = (((c & 0x1f) as u32) << 6) | ((v[i + 1] & 0x3f) as u32);
                    proof {
                        lemma_cp2_bound(c, v@[i as int + 1]);
                    }
                } else if need == 2 {
                    cp = (((c & 0x0f) as u32) << 12) | (((v[i + 1] & 0x3f) as u32) << 6) | ((v[i
                        + 2] & 0x3f) as u32);
                    proof {
                        lemma_cp3_bound(c, v@[i as int + 1], v@[i as int + 2]);
                    }
                } else {
                    cp = (((c & 0x07) as u32) << 18) | (((v[i + 1] & 0x3f) as u32) << 12) | (((v[i
                        + 2] & 0x3f) as u32) << 6) | ((v[i + 3] & 0x3f) as u32);
                    proof {
                        lemma_cp4_bound(c, v@[i as int + 1], v@[i as int + 2], v@[i as int + 3]);
                    }
                }
                proof {
                    assert(cp == decode_first_codepoint(rest));
                }
                let valid = (need != 1 || cp >= 0x80) && (need != 2 || cp >= 0x800) && (need != 3
                    || (cp >= 0x10000 && cp <= 0x10ffff)) && !(0xd800 <= cp && cp <= 0xdfff);
                if valid {
                    ch = scalar_to_char(cp);
                } else {
                    ch = REPLACEMENT_CHAR;
                }
            } else {
                ch = REPLACEMENT_CHAR;
            }
        }
        proof {
            assert(ch == utf8_unit_char(rest));
            assert(rest.skip(ulen as int) =~= v@.skip(i as int + ulen as int));
        }
        out.push(ch);
        i += ulen;
    }
    proof {
        assert(v@.skip(n as int) =~= Seq::<u8>::empty());
    }
    out
}

} // verus!
