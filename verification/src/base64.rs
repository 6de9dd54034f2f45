//! Decode engine for the `base64` and `base64url` encodings: groups of three
//! raw bytes become four alphabet characters; at end of stream a held-back
//! group of one or two bytes is completed with `=` padding.

use vstd::prelude::*;

verus! {

/// The alphabet byte (ASCII) for a 6-bit value; the two variants differ only
/// in the last two entries (`+`/`/` against `-`/`_`).
pub open spec fn b64_byte(url: bool, v: u8) -> u8
    recommends
        v < 64,
{
    if v < 26 {
        (0x41 + v) as u8
    } else if v < 52 {
        (0x61 + (v - 26)) as u8
    } else if v < 62 {
        (0x30 + (v - 52)) as u8
    } else if v == 62 {
        if url {
            0x2d
        } else {
            0x2b
        }
    } else {
        if url {
            0x5f
        } else {
            0x2f
        }
    }
}

/// The alphabet character for a 6-bit value.
pub open spec fn b64_char(url: bool, v: u8) -> char {
    b64_byte(url, v) as char
}

/// The four characters encoding one complete group of three bytes.
pub open spec fn b64_group(url: bool, x: u8, y: u8, z: u8) -> Seq<char> {
    seq![
        b64_char(url, x / 4),
        b64_char(url, ((x % 4) * 16 + y / 16) as u8),
        b64_char(url, ((y % 16) * 4 + z / 64) as u8),
        b64_char(url, z % 64),
    ]
}

/// Base64 text for a byte span whose length is a multiple of three.
pub open spec fn base64_chars(url: bool, b: Seq<u8>) -> Seq<char>
    recommends
        b.len() % 3 == 0,
    decreases b.len(),
{
    if b.len() < 3 {
        Seq::empty()
    } else {
        b64_group(url, b[0], b[1], b[2]) + base64_chars(url, b.skip(3))
    }
}

/// The padded four-character group completing a leftover of one or two bytes
/// at end of stream; an empty leftover produces no output.
pub open spec fn base64_flush(url: bool, l: Seq<u8>) -> Seq<char> {
    if l.len() == 1 {
        seq![b64_char(url, l[0] / 4), b64_char(url, ((l[0] % 4) * 16) as u8), '=', '=']
    } else if l.len() == 2 {
        seq![
            b64_char(url, l[0] / 4),
            b64_char(url, ((l[0] % 4) * 16 + l[1] / 16) as u8),
            b64_char(url, ((l[1] % 16) * 4) as u8),
            '=',
        ]
    } else {
        Seq::empty()
    }
}

/// Encoding a concatenation concatenates the encodings, as long as the split
/// falls on a group boundary.
pub proof fn lemma_base64_chars_append(url: bool, a: Seq<u8>, b: Seq<u8>)
    requires
        a.len() % 3 == 0,
    ensures
        base64_chars(url, a + b) == base64_chars(url, a) + base64_chars(url, b),
    decreases a.len(),
{
    if a.len() == 0 {
        assert(a + b =~= b);
        assert(base64_chars(url, a) + base64_chars(url, b) =~= base64_chars(url, b));
    } else {
        lemma_base64_chars_append(url, a.skip(3), b);
        assert((a + b).skip(3) =~= a.skip(3) + b);
        assert(base64_chars(url, a + b) =~= base64_chars(url, a) + base64_chars(url, b));
    }
}

/// The alphabet character for a 6-bit value.
pub fn b64_char_of(url: bool, v: u8) -> (c: char)
    requires
        v < 64,
    ensures
        c == b64_char(url, v),
{
    let b: u8 = if v < 26 {
        0x41 + v
    } else if v < 52 {
        0x61 + (v - 26)
    } else if v < 62 {
        0x30 + (v - 52)
    } else if v == 62 {
        if url {
            0x2d
        } else {
            0x2b
        }
    } else {
        if url {
            0x5f
        } else {
            0x2f
        }
    };
    b as char
}

/// Converts a byte span whose length is a multiple of three into base64 text.
pub fn base64_decode(url: bool, v: &[u8]) -> (out: String)
    requires
        v@.len() % 3 == 0,
    ensures
        out@ == base64_chars(url, v@),
{
    let mut out = String::new();
    let n = v.len();
    let mut i: usize = 0;
    proof {
        assert(v@.skip(0) =~= v@);
    }
    while n - i >= 3
        invariant
            i <= n,
            n == v@.len(),
            n % 3 == 0,
            i % 3 == 0,
            base64_chars(url, v@) == out@ + base64_chars(url, v@.skip(i as int)),
        decreases n - i,
    {
        let x = v[i];
        let y = v[i + 1];
        let z = v[i + 2];
        out.push(b64_char_of(url, x / 4));
        out.push(b64_char_of(url, (x % 4) * 16 + y / 16));
        out.push(b64_char_of(url, (y % 16) * 4 + z / 64));
        out.push(b64_char_of(url, z % 64));
        proof {
            assert(v@.skip(i as int).skip(3) =~= v@.skip(i + 3));
            assert(v@.skip(i as int)[0] == v@[i as int]);
            assert(v@.skip(i as int)[1] == v@[i as int + 1]);
            assert(v@.skip(i as int)[2] == v@[i as int + 2]);
        }
        i += 3;
    }
    proof {
        assert(i == n);
        assert(v@.skip(n as int) =~= Seq::<u8>::empty());
    }
    out
}

/// Completes a leftover of one or two bytes with padding at end of stream.
pub fn base64_flush_pending(url: bool, l: &Vec<u8>) -> (out: String)
    requires
        l@.len() <= 2,
    ensures
        out@ == base64_flush(url, l@),
{
    let mut out = String::new();
    if l.len() == 1 {
        let x = l[0];
        out.push(b64_char_of(url, x / 4));
        out.push(b64_char_of(url, (x % 4) * 16));
        out.push('=');
        out.push('=');
    } else if l.len() == 2 {
        let x = l[0];
        let y = l[1];
        out.push(b64_char_of(url, x / 4));
        out.push(b64_char_of(url, (x % 4) * 16 + y / 16));
        out.push(b64_char_of(url, (y % 16) * 4));
        out.push('=');
    }
    proof {
        assert(out@ =~= base64_flush(url, l@));
    }
    out
}

} // verus!
