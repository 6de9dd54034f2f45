//! Decode engine for the `utf16le` encoding: little-endian 16-bit code units,
//! with surrogate pairs combined into one character and any unpaired
//! surrogate replaced. An odd trailing byte is withheld by the caller, so the
//! engine always sees an even number of bytes.

use vstd::prelude::*;
use crate::chars::REPLACEMENT_CHAR;
use crate::chars::scalar_to_char;

verus! {

/// The 16-bit code unit starting at byte index `i`, little endian.
pub open spec fn code_unit(b: Seq<u8>, i: int) -> u32
    recommends
        0 <= i,
        i + 2 <= b.len(),
{
    (b[i] as u32 + (b[i + 1] as u32) * 256) as u32
}

/// Whether a code unit is a high (leading) surrogate.
pub open spec fn is_high_surrogate(u: u32) -> bool {
    0xd800 <= u && u <= 0xdbff
}

/// Whether a code unit is a low (trailing) surrogate.
pub open spec fn is_low_surrogate(u: u32) -> bool {
    0xdc00 <= u && u <= 0xdfff
}

/// The scalar value encoded by a high/low surrogate pair.
pub open spec fn pair_scalar(hi: u32, lo: u32) -> u32
    recommends
        is_high_surrogate(hi),
        is_low_surrogate(lo),
{
    (0x10000 + (hi - 0xd800) * 0x400 + (lo - 0xdc00)) as u32
}

/// Text for an even-length byte span: one character per code unit, a
/// surrogate pair giving the character it encodes and an unpaired surrogate
/// giving the replacement character.
pub open spec fn utf16le_chars(b: Seq<u8>) -> Seq<char>
    recommends
        b.len() % 2 == 0,
    decreases b.len(),
{
    if b.len() < 2 {
        Seq::empty()
    } else {
        let u = code_unit(b, 0);
        if is_high_surrogate(u) && b.len() >= 4 && is_low_surrogate(code_unit(b, 2)) {
            seq![pair_scalar(u, code_unit(b, 2)) as char] + utf16le_chars(b.skip(4))
        } else if is_high_surrogate(u) || is_low_surrogate(u) {
            seq![REPLACEMENT_CHAR] + utf16le_chars(b.skip(2))
        } else {
            seq![u as char] + utf16le_chars(b.skip(2))
        }
    }
}

/// Whether decoding `a + b` concatenates the two spans' decodings: it does
/// unless the split lands between the halves of a surrogate pair, which is
/// itself malformed input for either side alone.
pub open spec fn utf16_split_clean(a: Seq<u8>, b: Seq<u8>) -> bool {
    !(a.len() >= 2 && is_high_surrogate(code_unit(a, a.len() - 2)) && b.len() >= 2
        && is_low_surrogate(code_unit(b, 0)))
}

/// Decoding a concatenation concatenates the decodings, as long as the split
/// is even and does not part a surrogate pair.
pub proof fn lemma_utf16le_chars_append(a: Seq<u8>, b: Seq<u8>)
    requires
        a.len() % 2 == 0,
        b.len() % 2 == 0,
        utf16_split_clean(a, b),
    ensures
        utf16le_chars(a + b) == utf16le_chars(a) + utf16le_chars(b),
    decreases a.len(),
{
    if a.len() == 0 {
        assert(a + b =~= b);
        assert(utf16le_chars(a) + utf16le_chars(b) =~= utf16le_chars(b));
    } else {
        let ab = a + b;
        assert(code_unit(ab, 0) == code_unit(a, 0));
        let u = code_unit(a, 0);
        if is_high_surrogate(u) && a.len() >= 4 && is_low_surrogate(code_unit(a, 2)) {
            // a pair wholly inside a
            assert(code_unit(ab, 2) == code_unit(a, 2));
            assert(utf16_split_clean(a.skip(4), b)) by {
                if a.len() - 4 >= 2 {
                    assert(code_unit(a.skip(4), a.len() - 4 - 2) == code_unit(a, a.len() - 2));
                }
            }
            lemma_utf16le_chars_append(a.skip(4), b);
            assert(ab.skip(4) =~= a.skip(4) + b);
            assert(utf16le_chars(ab) =~= utf16le_chars(a) + utf16le_chars(b));
        } else {
            if is_high_surrogate(u) && a.len() == 2 {
                // the pair cannot continue into b: the split is clean
                assert(!(b.len() >= 2 && is_low_surrogate(code_unit(b, 0))));
                if ab.len() >= 4 {
                    assert(code_unit(ab, 2) == code_unit(b, 0));
                }
            }
            if is_high_surrogate(u) && a.len() >= 4 {
                assert(code_unit(ab, 2) == code_unit(a, 2));
            }
            assert(utf16_split_clean(a.skip(2), b)) by {
                if a.len() - 2 >= 2 {
                    assert(code_unit(a.skip(2), a.len() - 2 - 2) == code_unit(a, a.len() - 2));
                }
            }
            lemma_utf16le_chars_append(a.skip(2), b);
            assert(ab.skip(2) =~= a.skip(2) + b);
            assert(utf16le_chars(ab) =~= utf16le_chars(a) + utf16le_chars(b));
        }
    }
}

/// Converts an even-length byte span of little-endian code units into text.
pub fn utf16le_decode(v: &[u8]) -> (out: String)
    requires
        v@.len() % 2 == 0,
    ensures
        out@ == utf16le_chars(v@),
{
    let mut out = String::new();
    let n = v.len();
    let mut i: usize = 0;
    proof {
        assert(v@.skip(0) =~= v@);
    }
    while n - i >= 2
        invariant
            i <= n,
            n == v@.len(),
            n % 2 == 0,
            i % 2 == 0,
            utf16le_chars(v@) == out@ + utf16le_chars(v@.skip(i as int)),
        decreases n - i,
    {
        let ghost rest = v@.skip(i as int);
        proof {
            assert(rest[0] == v@[i as int]);
            assert(rest[1] == v@[i as int + 1]);
        }
        let u: u32 = v[i] as u32 + (v[i + 1] as u32) * 256;
        let mut step: usize = 2;
        if 0xd800 <= u && u <= 0xdbff {
            let mut paired = false;
            if n - i >= 4 {
                proof {
                    assert(rest[2] == v@[i as int + 2]);
                    assert(rest[3] == v@[i as int + 3]);
                }
                let u2: u32 = v[i + 2] as u32 + (v[i + 3] as u32) * 256;
                if 0xdc00 <= u2 && u2 <= 0xdfff {
                    out.push(scalar_to_char(0x10000 + (u - 0xd800) * 0x400 + (u2 - 0xdc00)));
                    step = 4;
                    paired = true;
                }
            }
            if !paired {
                out.push(REPLACEMENT_CHAR);
            }
        } else if 0xdc00 <= u && u <= 0xdfff {
            out.push(REPLACEMENT_CHAR);
        } else {
            out.push(scalar_to_char(u));
        }
        proof {
            assert(rest.skip(2) =~= v@.skip(i as int + 2));
            if n - i >= 4 {
                assert(rest.skip(4) =~= v@.skip(i as int + 4));
            }
        }
        i += step;
    }
    proof {
        assert(i == n);
        assert(v@.skip(n as int) =~= Seq::<u8>::empty());
    }
    out
}

} // verus!
