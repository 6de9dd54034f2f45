//! Decode engines for the encodings whose input needs no buffering at all
//! (`ascii`, `latin1`) or only pair alignment (`hex`). Each engine converts a
//! byte span into text one byte at a time.

use vstd::prelude::*;

verus! {

/// The hex digit (as an ASCII byte, lower case) for a value below 16.
pub open spec fn hex_digit(v: u8) -> u8
    recommends
        v < 16,
{
    if v < 10 {
        (0x30 + v) as u8
    } else {
        (0x57 + v) as u8
    }
}

/// Hexadecimal text for a byte span: two lower-case digits per byte, high
/// nibble first.
pub open spec fn hex_chars(b: Seq<u8>) -> Seq<char>
    decreases b.len(),
{
    if b.len() == 0 {
        Seq::empty()
    } else {
        seq![hex_digit(b[0] / 16) as char, hex_digit(b[0] % 16) as char] + hex_chars(b.skip(1))
    }
}

/// ASCII text for a byte span: each byte's low seven bits become one
/// character, as the classic single-byte `ascii` decoding does.
pub open spec fn ascii_chars(b: Seq<u8>) -> Seq<char>
    decreases b.len(),
{
    if b.len() == 0 {
        Seq::empty()
    } else {
        seq![(b[0] & 0x7f) as char] + ascii_chars(b.skip(1))
    }
}

/// Latin-1 text for a byte span: each byte becomes the character with that
/// scalar value.
pub open spec fn latin1_chars(b: Seq<u8>) -> Seq<char>
    decreases b.len(),
{
    if b.len() == 0 {
        Seq::empty()
    } else {
        seq![b[0] as char] + latin1_chars(b.skip(1))
    }
}

/// Decoding a concatenation concatenates the decodings (hex).
pub proof fn lemma_hex_chars_append(a: Seq<u8>, b: Seq<u8>)
    ensures
        hex_chars(a + b) == hex_chars(a) + hex_chars(b),
    decreases a.len(),
{
    if a.len() == 0 {
        assert(a + b =~= b);
        assert(hex_chars(a) + hex_chars(b) =~= hex_chars(b));
    } else {
        lemma_hex_chars_append(a.skip(1), b);
        assert((a + b).skip(1) =~= a.skip(1) + b);
        assert(hex_chars(a + b) =~= hex_chars(a) + hex_chars(b));
    }
}

/// Decoding a concatenation concatenates the decodings (ascii).
pub proof fn lemma_ascii_chars_append(a: Seq<u8>, b: Seq<u8>)
    ensures
        ascii_chars(a + b) == ascii_chars(a) + ascii_chars(b),
    decreases a.len(),
{
    if a.len() == 0 {
        assert(a + b =~= b);
        assert(ascii_chars(a) + ascii_chars(b) =~= ascii_chars(b));
    } else {
        lemma_ascii_chars_append(a.skip(1), b);
        assert((a + b).skip(1) =~= a.skip(1) + b);
        assert(ascii_chars(a + b) =~= ascii_chars(a) + ascii_chars(b));
    }
}

/// Decoding a concatenation concatenates the decodings (latin1).
pub proof fn lemma_latin1_chars_append(a: Seq<u8>, b: Seq<u8>)
    ensures
        latin1_chars(a + b) == latin1_chars(a) + latin1_chars(b),
    decreases a.len(),
{
    if a.len() == 0 {
        assert(a + b =~= b);
        assert(latin1_chars(a) + latin1_chars(b) =~= latin1_chars(b));
    } else {
        lemma_latin1_chars_append(a.skip(1), b);
        assert((a + b).skip(1) =~= a.skip(1) + b);
        assert(latin1_chars(a + b) =~= latin1_chars(a) + latin1_chars(b));
    }
}

/// Converts a byte span to hexadecimal text.
pub fn hex_decode(v: &[u8]) -> (out: String)
    ensures
        out@ == hex_chars(v@),
{
    let mut out = String::new();
    let n = v.len();
    let mut i: usize = 0;
    proof {
        assert(v@.skip(0) =~= v@);
    }
    while i < n
        invariant
            i <= n,
            n == v@.len(),
            hex_chars(v@) == out@ + hex_chars(v@.skip(i as int)),
        decreases n - i,
    {
        let b = v[i];
        let hi = b / 16;
        let lo = b % 16;
        out.push((if hi < 10 { 0x30 + hi } else { 0x57 + hi }) as char);
        out.push((if lo < 10 { 0x30 + lo } else { 0x57 + lo }) as char);
        proof {
            assert(v@.skip(i as int).skip(1) =~= v@.skip(i + 1));
            assert(v@.skip(i as int)[0] == v@[i as int]);
        }
        i += 1;
    }
    proof {
        assert(v@.skip(n as int) =~= Seq::<u8>::empty());
    }
    out
}

/// Converts a byte span to ASCII text, masking each byte to its low seven
/// bits.
pub fn ascii_decode(v: &[u8]) -> (out: String)
    ensures
        out@ == ascii_chars(v@),
{
    let mut out = String::new();
    let n = v.len();
    let mut i: usize = 0;
    proof {
        assert(v@.skip(0) =~= v@);
    }
    while i < n
        invariant
            i <= n,
            n == v@.len(),
            ascii_chars(v@) == out@ + ascii_chars(v@.skip(i as int)),
        decreases n - i,
    {
        out.push((v[i] & 0x7f) as char);
        proof {
            assert(v@.skip(i as int).skip(1) =~= v@.skip(i + 1));
            assert(v@.skip(i as int)[0] == v@[i as int]);
        }
        i += 1;
    }
    proof {
        assert(v@.skip(n as int) =~= Seq::<u8>::empty());
    }
    out
}

/// Converts a byte span to Latin-1 text.
pub fn latin1_decode(v: &[u8]) -> (out: String)
    ensures
        out@ == latin1_chars(v@),
{
    let mut out = String::new();
    let n = v.len();
    let mut i: usize = 0;
    proof {
        assert(v@.skip(0) =~= v@);
    }
    while i < n
        invariant
            i <= n,
            n == v@.len(),
            latin1_chars(v@) == out@ + latin1_chars(v@.skip(i as int)),
        decreases n - i,
    {
        out.push(v[i] as char);
        proof {
            assert(v@.skip(i as int).skip(1) =~= v@.skip(i + 1));
            assert(v@.skip(i as int)[0] == v@[i as int]);
        }
        i += 1;
    }
    proof {
        assert(v@.skip(n as int) =~= Seq::<u8>::empty());
    }
    out
}

} // verus!
