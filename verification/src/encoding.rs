//! The encoding resolver: maps a user-supplied encoding name, case-normalized
//! and with its known aliases, to one of the closed set of supported
//! encodings. An unrecognized name is the library's single error condition.

use vstd::prelude::*;

verus! {

/// The closed set of supported encodings. Resolved once, at construction,
/// from the user-supplied name; all later decode logic dispatches on this.
#[derive(Clone, Copy, PartialEq, Eq, Structural, Debug)]
pub enum Encoding {
    Utf8,
    Utf16Le,
    Base64,
    Base64Url,
    Hex,
    Ascii,
    Latin1,
}

/// The one error this library raises: the encoding name given at construction
/// matches no supported encoding or alias.
#[derive(Clone, Copy, PartialEq, Eq, Structural, Debug)]
pub struct InvalidEncoding;

/// ASCII lower-casing of a single byte; bytes outside `A`..`Z` are unchanged.
pub open spec fn ascii_lower(b: u8) -> u8 {
    if 0x41 <= b && b <= 0x5a {
        (b + 0x20) as u8
    } else {
        b
    }
}

/// ASCII lower-casing of a byte sequence.
pub open spec fn lower_seq(s: Seq<u8>) -> Seq<u8> {
    s.map_values(|b: u8| ascii_lower(b))
}

/// The encoding denoted by a name, compared case-insensitively against every
/// accepted spelling, or `None` when no spelling matches.
pub open spec fn parse_encoding(name: Seq<u8>) -> Option<Encoding> {
    let t = lower_seq(name);
    if t == seq![0x75u8, 0x74u8, 0x66u8, 0x38u8] || t == seq![0x75u8, 0x74u8, 0x66u8, 0x2du8, 0x38u8] {
        Some(Encoding::Utf8)
    } else if t == seq![0x75u8, 0x74u8, 0x66u8, 0x31u8, 0x36u8, 0x6cu8, 0x65u8] || t == seq![0x75u8, 0x63u8, 0x73u8, 0x32u8]
        || t == seq![0x75u8, 0x63u8, 0x73u8, 0x2du8, 0x32u8] {
        Some(Encoding::Utf16Le)
    } else if t == seq![0x62u8, 0x61u8, 0x73u8, 0x65u8, 0x36u8, 0x34u8] {
        Some(Encoding::Base64)
    } else if t == seq![0x62u8, 0x61u8, 0x73u8, 0x65u8, 0x36u8, 0x34u8, 0x75u8, 0x72u8, 0x6cu8] {
        Some(Encoding::Base64Url)
    } else if t == seq![0x68u8, 0x65u8, 0x78u8] {
        Some(Encoding::Hex)
    } else if t == seq![0x61u8, 0x73u8, 0x63u8, 0x69u8, 0x69u8] {
        Some(Encoding::Ascii)
    } else if t == seq![0x6cu8, 0x61u8, 0x74u8, 0x69u8, 0x6eu8, 0x31u8] || t == seq![0x62u8, 0x69u8, 0x6eu8, 0x61u8, 0x72u8, 0x79u8] {
        Some(Encoding::Latin1)
    } else {
        None
    }
}

/// ASCII lower-casing of a single byte.
pub fn to_lower(b: u8) -> (r: u8)
    ensures
        r == ascii_lower(b),
{
    if b >= 0x41 && b <= 0x5a {
        b + 0x20
    } else {
        b
    }
}

/// Whether the name bytes, lower-cased, spell exactly the given pattern.
fn name_is(n: &[u8], pat: &[u8]) -> (r: bool)
    ensures
        r <==> lower_seq(n@) == pat@,
{
    if n.len() != pat.len() {
        proof {
            assert(lower_seq(n@).len() == n@.len());
        }
        return false;
    }
    let mut i: usize = 0;
    while i < n.len()
        invariant
            i <= n@.len(),
            n@.len() == pat@.len(),
            forall|j: int| 0 <= j < i ==> ascii_lower(n@[j]) == pat@[j],
        decreases n@.len() - i,
    {
        if to_lower(n[i]) != pat[i] {
            proof {
                assert(lower_seq(n@)[i as int] != pat@[i as int]);
            }
            return false;
        }
        i += 1;
    }
    proof {
        assert(lower_seq(n@) =~= pat@);
    }
    true
}

/// Resolves an encoding name to its encoding, or `None` when the name is not
/// recognized.
pub fn resolve_encoding(name: &[u8]) -> (r: Option<Encoding>)
    ensures
        r == parse_encoding(name@),
{
    let utf8: [u8; 4] = [0x75, 0x74, 0x66, 0x38];
    let utf8_dash: [u8; 5] = [0x75, 0x74, 0x66, 0x2d, 0x38];
    let utf16le: [u8; 7] = [0x75, 0x74, 0x66, 0x31, 0x36, 0x6c, 0x65];
    let ucs2: [u8; 4] = [0x75, 0x63, 0x73, 0x32];
    let ucs2_dash: [u8; 5] = [0x75, 0x63, 0x73, 0x2d, 0x32];
    let base64: [u8; 6] = [0x62, 0x61, 0x73, 0x65, 0x36, 0x34];
    let base64url: [u8; 9] = [0x62, 0x61, 0x73, 0x65, 0x36, 0x34, 0x75, 0x72, 0x6c];
    let hex: [u8; 3] = [0x68, 0x65, 0x78];
    let ascii: [u8; 5] = [0x61, 0x73, 0x63, 0x69, 0x69];
    let latin1: [u8; 6] = [0x6c, 0x61, 0x74, 0x69, 0x6e, 0x31];
    let binary: [u8; 6] = [0x62, 0x69, 0x6e, 0x61, 0x72, 0x79];
    proof {
        assert(utf8@ =~= seq![0x75u8, 0x74u8, 0x66u8, 0x38u8]);
        assert(utf8_dash@ =~= seq![0x75u8, 0x74u8, 0x66u8, 0x2du8, 0x38u8]);
        assert(utf16le@ =~= seq![0x75u8, 0x74u8, 0x66u8, 0x31u8, 0x36u8, 0x6cu8, 0x65u8]);
        assert(ucs2@ =~= seq![0x75u8, 0x63u8, 0x73u8, 0x32u8]);
        assert(ucs2_dash@ =~= seq![0x75u8, 0x63u8, 0x73u8, 0x2du8, 0x32u8]);
        assert(base64@ =~= seq![0x62u8, 0x61u8, 0x73u8, 0x65u8, 0x36u8, 0x34u8]);
        assert(base64url@ =~= seq![0x62u8, 0x61u8, 0x73u8, 0x65u8, 0x36u8, 0x34u8, 0x75u8, 0x72u8, 0x6cu8]);
        assert(hex@ =~= seq![0x68u8, 0x65u8, 0x78u8]);
        assert(ascii@ =~= seq![0x61u8, 0x73u8, 0x63u8, 0x69u8, 0x69u8]);
        assert(latin1@ =~= seq![0x6cu8, 0x61u8, 0x74u8, 0x69u8, 0x6eu8, 0x31u8]);
        assert(binary@ =~= seq![0x62u8, 0x69u8, 0x6eu8, 0x61u8, 0x72u8, 0x79u8]);
    }
    if name_is(name, utf8.as_slice()) || name_is(name, utf8_dash.as_slice()) {
        Some(Encoding::Utf8)
    } else if name_is(name, utf16le.as_slice()) || name_is(name, ucs2.as_slice()) || name_is(
        name,
        ucs2_dash.as_slice(),
    ) {
        Some(Encoding::Utf16Le)
    } else if name_is(name, base64.as_slice()) {
        Some(Encoding::Base64)
    } else if name_is(name, base64url.as_slice()) {
        Some(Encoding::Base64Url)
    } else if name_is(name, hex.as_slice()) {
        Some(Encoding::Hex)
    } else if name_is(name, ascii.as_slice()) {
        Some(Encoding::Ascii)
    } else if name_is(name, latin1.as_slice()) || name_is(name, binary.as_slice()) {
        Some(Encoding::Latin1)
    } else {
        None
    }
}

} // verus!
