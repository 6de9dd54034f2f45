//! The incremental decoder itself: a [`StringDecoder`] holds the encoding
//! chosen at construction and the few bytes of the previous call that did not
//! yet form a complete unit. `write` decodes everything decodable and buffers
//! the rest; `end` resolves or discards the buffer and resets the decoder.
//!
//! The module also states and proves the decoder's streaming laws: feeding a
//! byte stream in any chunking produces the same text as feeding it whole,
//! and the buffered leftover never exceeds the encoding's maximum
//! incomplete-unit size.

use vstd::prelude::*;
use vstd::arithmetic::div_mod::lemma_add_mod_noop;
use vstd::string::StringExecFns;
use vstd::string::StringSliceAdditionalSpecFns;
use crate::base64::base64_chars;
use crate::base64::base64_decode;
use crate::base64::base64_flush;
use crate::base64::base64_flush_pending;
use crate::base64::lemma_base64_chars_append;
use crate::chars::REPLACEMENT_CHAR;
use crate::encoding::Encoding;
use crate::encoding::InvalidEncoding;
use crate::encoding::parse_encoding;
use crate::encoding::resolve_encoding;
use crate::single_byte::ascii_chars;
use crate::single_byte::ascii_decode;
use crate::single_byte::hex_chars;
use crate::single_byte::hex_decode;
use crate::single_byte::latin1_chars;
use crate::single_byte::latin1_decode;
use crate::single_byte::lemma_ascii_chars_append;
use crate::single_byte::lemma_hex_chars_append;
use crate::single_byte::lemma_latin1_chars_append;
use crate::utf16::lemma_utf16le_chars_append;
use crate::utf16::utf16_split_clean;
use crate::utf16::utf16le_chars;
use crate::utf16::utf16le_decode;
use vstd::utf8::is_continuation_byte;
use crate::utf8::lemma_utf8_incomplete_suffix;
use crate::utf8::lemma_utf8_lossy_append;
use crate::utf8::utf8_decode;
use crate::utf8::utf8_incomplete;
use crate::utf8::utf8_incomplete_len;
use crate::utf8::utf8_lossy;
use crate::utf8::utf8_need;

verus! {

/// The largest number of bytes an incomplete unit of the encoding can leave
/// buffered between calls.
pub open spec fn max_incomplete(e: Encoding) -> nat {
    match e {
        Encoding::Utf8 => 3,
        Encoding::Utf16Le => 1,
        Encoding::Base64 => 2,
        Encoding::Base64Url => 2,
        Encoding::Hex => 1,
        Encoding::Ascii => 0,
        Encoding::Latin1 => 0,
    }
}

/// How many trailing bytes of a buffer cannot be decoded yet and must be
/// withheld until more input arrives.
pub open spec fn incomplete_len(e: Encoding, b: Seq<u8>) -> nat {
    match e {
        Encoding::Utf8 => utf8_incomplete_len(b),
        Encoding::Utf16Le => b.len() % 2,
        Encoding::Base64 => b.len() % 3,
        Encoding::Base64Url => b.len() % 3,
        Encoding::Hex => b.len() % 2,
        Encoding::Ascii => 0,
        Encoding::Latin1 => 0,
    }
}

/// The text for a fully decodable byte span of the encoding.
pub open spec fn decode_span(e: Encoding, b: Seq<u8>) -> Seq<char> {
    match e {
        Encoding::Utf8 => utf8_lossy(b),
        Encoding::Utf16Le => utf16le_chars(b),
        Encoding::Base64 => base64_chars(false, b),
        Encoding::Base64Url => base64_chars(true, b),
        Encoding::Hex => hex_chars(b),
        Encoding::Ascii => ascii_chars(b),
        Encoding::Latin1 => latin1_chars(b),
    }
}

/// The text `end` produces for a buffered leftover: one replacement character
/// for a truncated utf8 or utf16le unit, a padded group for base64, nothing
/// for the rest.
pub open spec fn flush_chars(e: Encoding, l: Seq<u8>) -> Seq<char> {
    match e {
        Encoding::Utf8 => if l.len() > 0 {
            seq![REPLACEMENT_CHAR]
        } else {
            Seq::empty()
        },
        Encoding::Utf16Le => if l.len() > 0 {
            seq![REPLACEMENT_CHAR]
        } else {
            Seq::empty()
        },
        Encoding::Base64 => base64_flush(false, l),
        Encoding::Base64Url => base64_flush(true, l),
        Encoding::Hex => Seq::empty(),
        Encoding::Ascii => Seq::empty(),
        Encoding::Latin1 => Seq::empty(),
    }
}

/// A well-formed leftover: every byte of it is part of the withheld
/// incomplete unit, so nothing in it could have been decoded earlier.
pub open spec fn wf_leftover(e: Encoding, l: Seq<u8>) -> bool {
    incomplete_len(e, l) == l.len()
}

/// The decodable span a call to `write` sees: the old leftover followed by
/// the chunk, minus the new incomplete tail.
pub open spec fn write_span(e: Encoding, l: Seq<u8>, c: Seq<u8>) -> Seq<u8> {
    let m = l + c;
    m.take(m.len() - incomplete_len(e, m))
}

/// The text a call to `write` returns.
pub open spec fn spec_write_out(e: Encoding, l: Seq<u8>, c: Seq<u8>) -> Seq<char> {
    decode_span(e, write_span(e, l, c))
}

/// The leftover a call to `write` leaves buffered.
pub open spec fn spec_write_left(e: Encoding, l: Seq<u8>, c: Seq<u8>) -> Seq<u8> {
    let m = l + c;
    m.skip(m.len() - incomplete_len(e, m))
}

/// Whether splitting the input after `c1` is clean: always, except a utf16le
/// split that parts a surrogate pair between the two decoded spans, which is
/// itself malformed input for either span alone.
pub open spec fn clean_split(e: Encoding, l: Seq<u8>, c1: Seq<u8>, c2: Seq<u8>) -> bool {
    match e {
        Encoding::Utf16Le => utf16_split_clean(
            write_span(e, l, c1),
            write_span(e, spec_write_left(e, l, c1), c2),
        ),
        _ => true,
    }
}

/// The incomplete tail never exceeds the buffer's length, nor the encoding's
/// maximum incomplete-unit size.
pub proof fn lemma_incomplete_le(e: Encoding, b: Seq<u8>)
    ensures
        incomplete_len(e, b) <= b.len(),
        incomplete_len(e, b) <= max_incomplete(e),
{
}

/// What `write` leaves buffered is itself a well-formed leftover.
pub proof fn lemma_wf_write_left(e: Encoding, l: Seq<u8>, c: Seq<u8>)
    ensures
        wf_leftover(e, spec_write_left(e, l, c)),
{
    let m = l + c;
    lemma_incomplete_le(e, m);
    match e {
        Encoding::Utf8 => {
            lemma_utf8_incomplete_suffix(m);
        },
        _ => {},
    }
}

/// Decoding the empty span yields no text.
pub proof fn lemma_decode_span_empty(e: Encoding)
    ensures
        decode_span(e, Seq::empty()) == Seq::<char>::empty(),
{
    assert(decode_span(e, Seq::empty()) =~= Seq::<char>::empty());
}

/// Writing two chunks produces the same text and the same leftover as
/// writing their concatenation in one call, as long as the split is clean.
pub proof fn lemma_write_split(e: Encoding, l: Seq<u8>, c1: Seq<u8>, c2: Seq<u8>)
    requires
        wf_leftover(e, l),
        clean_split(e, l, c1, c2),
    ensures
        spec_write_out(e, l, c1) + spec_write_out(e, spec_write_left(e, l, c1), c2)
            == spec_write_out(e, l, c1 + c2),
        spec_write_left(e, spec_write_left(e, l, c1), c2) == spec_write_left(e, l, c1 + c2),
{
    let m1 = l + c1;
    let i1 = incomplete_len(e, m1) as int;
    let k1 = m1.len() - i1;
    let a = m1.take(k1);
    let w = m1.skip(k1);
    let r = w + c2;
    let i2 = incomplete_len(e, r) as int;
    let k2 = r.len() - i2;
    let b = r.take(k2);
    let m = l + (c1 + c2);
    lemma_incomplete_le(e, m1);
    lemma_incomplete_le(e, r);
    assert(m =~= m1 + c2);
    assert(m =~= a + r);
    // the incomplete tail of the whole equals the incomplete tail of the
    // second combined buffer
    match e {
        Encoding::Utf8 => {
            lemma_utf8_incomplete_suffix(m1);
            if w.len() == 0 {
                assert(a =~= m1);
            }
            lemma_utf8_inc_prepend(a, w, c2);
            assert(utf8_incomplete_len(a + (w + c2)) == utf8_incomplete_len(r));
            assert(incomplete_len(e, m) == i2);
        },
        Encoding::Ascii => {},
        Encoding::Latin1 => {},
        _ => {
            let kk = max_incomplete(e) as int + 1;
            assert(incomplete_len(e, m1) == m1.len() % (kk as nat));
            lemma_add_mod_noop(m1.len() as int, c2.len() as int, kk);
            lemma_add_mod_noop(i1, c2.len() as int, kk);
            assert(i1 % kk == i1);
            assert(incomplete_len(e, m) == i2);
        },
    }
    assert(m.take(m.len() - i2) =~= a + b);
    assert(m.skip(m.len() - i2) =~= r.skip(k2));
    // decoding the one span equals decoding the two spans one after the other
    match e {
        Encoding::Utf8 => {
            if b.len() > 0 && is_continuation_byte(b[0]) {
                assert(b[0] == w_first_or_c2(w, c2));
                if w.len() > 0 {
                    lemma_utf8_incomplete_suffix(m1);
                    assert(utf8_incomplete_len(w) == w.len());
                    lemma_utf8_leftover_starts_with_lead(w);
                    assert(false);
                } else {
                    assert(a =~= m1);
                    assert(utf8_incomplete_len(a) == 0);
                }
            }
            lemma_utf8_lossy_append(a, b);
        },
        Encoding::Utf16Le => {
            lemma_utf16le_chars_append(a, b);
        },
        Encoding::Base64 => {
            lemma_base64_chars_append(false, a, b);
        },
        Encoding::Base64Url => {
            lemma_base64_chars_append(true, a, b);
        },
        Encoding::Hex => {
            lemma_hex_chars_append(a, b);
        },
        Encoding::Ascii => {
            lemma_ascii_chars_append(a, b);
        },
        Encoding::Latin1 => {
            lemma_latin1_chars_append(a, b);
        },
    }
}

/// The first byte of the second combined buffer, for the proof above.
spec fn w_first_or_c2(w: Seq<u8>, c2: Seq<u8>) -> u8 {
    if w.len() > 0 {
        w[0]
    } else {
        c2[0]
    }
}

/// A fully incomplete leftover starts with a lead byte, never a continuation
/// byte.
proof fn lemma_utf8_leftover_starts_with_lead(w: Seq<u8>)
    requires
        utf8_incomplete_len(w) == w.len(),
        w.len() > 0,
    ensures
        !is_continuation_byte(w[0]),
        utf8_need(w[0]) >= 1,
{
    let n = w.len() as int;
    if n == 1 {
        assert(utf8_need(w[0]) >= 1);
    } else if n == 2 {
        assert(utf8_need(w[0]) >= 2);
    } else {
        assert(n == 3);
        assert(utf8_need(w[0]) >= 3);
    }
}

/// Prepending an already fully decoded span does not change a buffer's
/// incomplete tail. The decoded span is constrained only through the leftover
/// `w` that followed it: either `w` is empty and the span itself had no
/// incomplete tail, or `w` is the span's withheld tail in full.
proof fn lemma_utf8_inc_prepend(a: Seq<u8>, w: Seq<u8>, c: Seq<u8>)
    requires
        utf8_incomplete_len(w) == w.len(),
        w.len() == 0 ==> utf8_incomplete_len(a) == 0,
    ensures
        utf8_incomplete_len(a + (w + c)) == utf8_incomplete_len(w + c),
{
    let r = w + c;
    let s = a + r;
    let ns = s.len() as int;
    let nr = r.len() as int;
    let na = a.len() as int;
    assert(forall|j: int| 0 <= j < nr ==> s[ns - nr + j] == r[j]);
    assert(forall|j: int| 0 <= j < na ==> s[j] == a[j]);
    if nr >= 3 {
        // the scan looks only at the last three bytes, all inside r
        assert(s[ns - 1] == r[nr - 1]);
        assert(s[ns - 2] == r[nr - 2]);
        assert(s[ns - 3] == r[nr - 3]);
    } else if na == 0 {
        assert(s =~= r);
    } else if nr == 0 {
        assert(s =~= a);
        assert(utf8_incomplete_len(a) == 0);
    } else if nr == 1 {
        assert(s[ns - 1] == r[0]);
        assert(s[ns - 2] == a[na - 1]);
        if w.len() == 1 {
            lemma_utf8_leftover_starts_with_lead(w);
            assert(utf8_need(r[0]) >= 1);
        } else {
            // w is empty, so a had no incomplete tail
            assert(utf8_incomplete_len(a) == 0);
            assert(utf8_need(a[na - 1]) == 0);
            if na >= 2 {
                assert(s[ns - 3] == a[na - 2]);
                if is_continuation_byte(a[na - 1]) && utf8_need(a[na - 2]) >= 2 {
                    assert(utf8_incomplete_len(a) >= 2);
                }
            }
        }
    } else {
        assert(nr == 2);
        assert(s[ns - 1] == r[1]);
        assert(s[ns - 2] == r[0]);
        if na >= 1 {
            assert(s[ns - 3] == a[na - 1]);
        }
        if w.len() == 2 {
            assert(is_continuation_byte(w[1]) && utf8_need(w[0]) >= 2);
        } else if w.len() == 1 {
            lemma_utf8_leftover_starts_with_lead(w);
            assert(!is_continuation_byte(r[0]));
        } else {
            assert(utf8_incomplete_len(a) == 0);
            assert(utf8_need(a[na - 1]) == 0);
        }
    }
}

/// The bytes of a whole stream, chunk by chunk.
pub open spec fn concat_chunks(chunks: Seq<Seq<u8>>) -> Seq<u8>
    decreases chunks.len(),
{
    if chunks.len() == 0 {
        Seq::empty()
    } else {
        chunks[0] + concat_chunks(chunks.drop_first())
    }
}

/// All the text a fresh decoder returns when fed the chunks one `write` at a
/// time, ending with `end`.
pub open spec fn stream_output(e: Encoding, l: Seq<u8>, chunks: Seq<Seq<u8>>) -> Seq<char>
    decreases chunks.len(),
{
    if chunks.len() == 0 {
        flush_chars(e, l)
    } else {
        spec_write_out(e, l, chunks[0]) + stream_output(
            e,
            spec_write_left(e, l, chunks[0]),
            chunks.drop_first(),
        )
    }
}

/// Whether every split point of the chunking is clean (trivially true for
/// every encoding but utf16le; see [`clean_split`]).
pub open spec fn clean_chunking(e: Encoding, l: Seq<u8>, chunks: Seq<Seq<u8>>) -> bool
    decreases chunks.len(),
{
    chunks.len() == 0 || (clean_split(e, l, chunks[0], concat_chunks(chunks.drop_first()))
        && clean_chunking(e, spec_write_left(e, l, chunks[0]), chunks.drop_first()))
}

/// Streaming equivalence from any well-formed state: feeding the chunks one
/// at a time and flushing gives the same text as feeding their concatenation
/// in one `write` and flushing.
pub proof fn lemma_stream_output_concat(e: Encoding, l: Seq<u8>, chunks: Seq<Seq<u8>>)
    requires
        wf_leftover(e, l),
        clean_chunking(e, l, chunks),
    ensures
        stream_output(e, l, chunks) == spec_write_out(e, l, concat_chunks(chunks)) + flush_chars(
            e,
            spec_write_left(e, l, concat_chunks(chunks)),
        ),
    decreases chunks.len(),
{
    if chunks.len() == 0 {
        let m = l + concat_chunks(chunks);
        assert(m =~= l);
        assert(incomplete_len(e, m) == m.len());
        assert(write_span(e, l, concat_chunks(chunks)) =~= Seq::<u8>::empty());
        lemma_decode_span_empty(e);
        assert(spec_write_left(e, l, concat_chunks(chunks)) =~= l);
        assert(stream_output(e, l, chunks) =~= spec_write_out(e, l, concat_chunks(chunks))
            + flush_chars(e, spec_write_left(e, l, concat_chunks(chunks))));
    } else {
        let c0 = chunks[0];
        let rest = chunks.drop_first();
        lemma_wf_write_left(e, l, c0);
        lemma_stream_output_concat(e, spec_write_left(e, l, c0), rest);
        lemma_write_split(e, l, c0, concat_chunks(rest));
        assert(concat_chunks(chunks) == c0 + concat_chunks(rest));
        assert(stream_output(e, l, chunks) =~= spec_write_out(e, l, concat_chunks(chunks))
            + flush_chars(e, spec_write_left(e, l, concat_chunks(chunks))));
    }
}

/// Streaming equivalence for a fresh decoder: for every clean chunking of a
/// byte stream, the concatenation of everything `write` and `end` return
/// equals the text of decoding the whole stream in a single `write` followed
/// by `end`.
pub proof fn lemma_streaming_equivalence(e: Encoding, chunks: Seq<Seq<u8>>)
    requires
        clean_chunking(e, Seq::empty(), chunks),
    ensures
        stream_output(e, Seq::empty(), chunks) == stream_output(
            e,
            Seq::empty(),
            seq![concat_chunks(chunks)],
        ),
{
    assert(wf_leftover(e, Seq::empty()));
    lemma_stream_output_concat(e, Seq::empty(), chunks);
    let c = concat_chunks(chunks);
    let whole = seq![c];
    assert(whole[0] == c);
    assert(whole.drop_first() =~= Seq::<Seq<u8>>::empty());
    lemma_wf_write_left(e, Seq::empty(), c);
    let left = spec_write_left(e, Seq::empty(), c);
    assert(stream_output(e, left, whole.drop_first()) == flush_chars(e, left));
    assert(stream_output(e, Seq::empty(), whole) == spec_write_out(e, Seq::empty(), c)
        + flush_chars(e, left));
}

/// The two byte runs, one after the other, in one fresh buffer.
fn concat_bytes(a: &Vec<u8>, b: &[u8]) -> (r: Vec<u8>)
    ensures
        r@ == a@ + b@,
{
    let mut r: Vec<u8> = Vec::new();
    let mut i: usize = 0;
    while i < a.len()
        invariant
            i <= a@.len(),
            r@ == a@.take(i as int),
        decreases a@.len() - i,
    {
        r.push(a[i]);
        proof {
            assert(r@ =~= a@.take(i + 1));
        }
        i += 1;
    }
    proof {
        assert(r@ =~= a@);
    }
    let mut j: usize = 0;
    while j < b.len()
        invariant
            j <= b@.len(),
            r@ == a@ + b@.take(j as int),
        decreases b@.len() - j,
    {
        r.push(b[j]);
        proof {
            assert(r@ =~= a@ + b@.take(j + 1));
        }
        j += 1;
    }
    proof {
        assert(r@ =~= a@ + b@);
    }
    r
}

/// The first `k` bytes, in a fresh buffer.
fn prefix_of(v: &Vec<u8>, k: usize) -> (r: Vec<u8>)
    requires
        k <= v@.len(),
    ensures
        r@ == v@.take(k as int),
{
    let mut r: Vec<u8> = Vec::new();
    let mut i: usize = 0;
    while i < k
        invariant
            i <= k <= v@.len(),
            r@ == v@.take(i as int),
        decreases k - i,
    {
        r.push(v[i]);
        proof {
            assert(r@ =~= v@.take(i + 1));
        }
        i += 1;
    }
    r
}

/// Everything from byte `k` on, in a fresh buffer.
fn suffix_of(v: &Vec<u8>, k: usize) -> (r: Vec<u8>)
    requires
        k <= v@.len(),
    ensures
        r@ == v@.skip(k as int),
{
    let mut r: Vec<u8> = Vec::new();
    let mut i: usize = k;
    proof {
        assert(v@.subrange(k as int, k as int) =~= Seq::<u8>::empty());
    }
    while i < v.len()
        invariant
            k <= i <= v@.len(),
            r@ == v@.subrange(k as int, i as int),
        decreases v@.len() - i,
    {
        r.push(v[i]);
        proof {
            assert(r@ =~= v@.subrange(k as int, i + 1));
        }
        i += 1;
    }
    proof {
        assert(r@ =~= v@.skip(k as int));
    }
    r
}

/// How many trailing bytes of the buffer must be withheld for the encoding.
fn incomplete_of(e: Encoding, v: &Vec<u8>) -> (r: usize)
    ensures
        r as nat == incomplete_len(e, v@),
        r <= v@.len(),
{
    proof {
        lemma_incomplete_le(e, v@);
    }
    match e {
        Encoding::Utf8 => utf8_incomplete(v),
        Encoding::Utf16Le => v.len() % 2,
        Encoding::Base64 => v.len() % 3,
        Encoding::Base64Url => v.len() % 3,
        Encoding::Hex => v.len() % 2,
        Encoding::Ascii => 0,
        Encoding::Latin1 => 0,
    }
}

/// Converts a fully decodable span into text for the encoding.
fn decode_complete(e: Encoding, v: &[u8]) -> (out: String)
    requires
        (e == Encoding::Base64 || e == Encoding::Base64Url) ==> v@.len() % 3 == 0,
        e == Encoding::Utf16Le ==> v@.len() % 2 == 0,
    ensures
        out@ == decode_span(e, v@),
{
    match e {
        Encoding::Utf8 => utf8_decode(v),
        Encoding::Utf16Le => utf16le_decode(v),
        Encoding::Base64 => base64_decode(false, v),
        Encoding::Base64Url => base64_decode(true, v),
        Encoding::Hex => hex_decode(v),
        Encoding::Ascii => ascii_decode(v),
        Encoding::Latin1 => latin1_decode(v),
    }
}

/// Resolves or discards a buffered leftover at end of stream.
fn flush_pending(e: Encoding, l: &Vec<u8>) -> (out: String)
    requires
        wf_leftover(e, l@),
    ensures
        out@ == flush_chars(e, l@),
{
    proof {
        lemma_incomplete_le(e, l@);
    }
    let mut out = String::new();
    match e {
        Encoding::Utf8 => {
            if l.len() > 0 {
                out.push(REPLACEMENT_CHAR);
                proof {
                    assert(out@ =~= flush_chars(e, l@));
                }
            }
        },
        Encoding::Utf16Le => {
            if l.len() > 0 {
                out.push(REPLACEMENT_CHAR);
                proof {
                    assert(out@ =~= flush_chars(e, l@));
                }
            }
        },
        Encoding::Base64 => {
            out = base64_flush_pending(false, l);
        },
        Encoding::Base64Url => {
            out = base64_flush_pending(true, l);
        },
        Encoding::Hex => {},
        Encoding::Ascii => {},
        Encoding::Latin1 => {},
    }
    proof {
        assert(out@ =~= flush_chars(e, l@));
    }
    out
}

/// An incremental decoder for one encoding: bytes go in through `write` in
/// chunks of any size, text comes out, and no multi-byte unit is ever emitted
/// truncated. `end` closes the current stream and resets the decoder to its
/// freshly constructed state.
pub struct StringDecoder {
    encoding: Encoding,
    leftover: Vec<u8>,
}

impl StringDecoder {
    /// The encoding fixed at construction.
    pub closed spec fn enc(&self) -> Encoding {
        self.encoding
    }

    /// The bytes withheld from the previous call.
    pub closed spec fn pending(&self) -> Seq<u8> {
        self.leftover@
    }

    /// The decoder's invariant: everything buffered is part of one withheld
    /// incomplete unit.
    pub open spec fn wf(&self) -> bool {
        wf_leftover(self.enc(), self.pending())
    }

    /// A decoder for an already resolved encoding, with nothing buffered.
    pub fn with_encoding(e: Encoding) -> (d: StringDecoder)
        ensures
            d.enc() == e,
            d.pending() == Seq::<u8>::empty(),
            d.wf(),
    {
        StringDecoder { encoding: e, leftover: Vec::new() }
    }

    /// A decoder for the named encoding, or `InvalidEncoding` when the name,
    /// case-normalized and with known aliases, matches no supported encoding.
    pub fn new(name: &str) -> (r: Result<StringDecoder, InvalidEncoding>)
        ensures
            match parse_encoding(name.spec_bytes()) {
                Some(e) => r matches Ok(d) && d.enc() == e && d.pending()
                    == Seq::<u8>::empty() && d.wf(),
                None => r is Err,
            },
    {
        match resolve_encoding(name.as_bytes()) {
            Some(e) => Ok(StringDecoder::with_encoding(e)),
            None => Err(InvalidEncoding),
        }
    }

    /// The encoding fixed at construction.
    pub fn encoding(&self) -> (e: Encoding)
        ensures
            e == self.enc(),
    {
        self.encoding
    }

    /// How many bytes are currently buffered as an incomplete unit.
    pub fn buffered_len(&self) -> (n: usize)
        ensures
            n as nat == self.pending().len(),
    {
        self.leftover.len()
    }

    /// Decodes a chunk: the buffered leftover followed by the chunk is split
    /// into a decodable prefix, whose text is returned, and a new incomplete
    /// tail, which is buffered for the next call. Never fails; malformed
    /// spans inside the prefix become replacement characters.
    pub fn write(&mut self, bytes: &[u8]) -> (out: String)
        requires
            old(self).wf(),
        ensures
            final(self).wf(),
            final(self).enc() == old(self).enc(),
            out@ == spec_write_out(old(self).enc(), old(self).pending(), bytes@),
            final(self).pending() == spec_write_left(old(self).enc(), old(self).pending(), bytes@),
    {
        let comb = concat_bytes(&self.leftover, bytes);
        let inc = incomplete_of(self.encoding, &comb);
        let k = comb.len() - inc;
        let head = prefix_of(&comb, k);
        let tail = suffix_of(&comb, k);
        proof {
            lemma_wf_write_left(self.encoding, self.leftover@, bytes@);
            if self.encoding == Encoding::Base64 || self.encoding == Encoding::Base64Url {
                lemma_span_mod(comb@.len() as int, 3);
            }
            if self.encoding == Encoding::Utf16Le {
                lemma_span_mod(comb@.len() as int, 2);
            }
        }
        let out = decode_complete(self.encoding, head.as_slice());
        self.leftover = tail;
        out
    }

    /// Ends the stream: resolves or discards the buffered leftover (one
    /// replacement character for a truncated utf8 or utf16le unit, a padded
    /// final group for base64, nothing otherwise) and resets the decoder, so
    /// a new stream may begin on the same instance.
    pub fn end(&mut self) -> (out: String)
        requires
            old(self).wf(),
        ensures
            final(self).wf(),
            final(self).enc() == old(self).enc(),
            final(self).pending() == Seq::<u8>::empty(),
            out@ == flush_chars(old(self).enc(), old(self).pending()),
    {
        let out = flush_pending(self.encoding, &self.leftover);
        self.leftover = Vec::new();
        out
    }

    /// Writes a final chunk and immediately ends the stream: behaves exactly
    /// as `write(bytes)` followed by `end()`, returning both texts in one.
    pub fn end_with(&mut self, bytes: &[u8]) -> (out: String)
        requires
            old(self).wf(),
        ensures
            final(self).wf(),
            final(self).enc() == old(self).enc(),
            final(self).pending() == Seq::<u8>::empty(),
            out@ == spec_write_out(old(self).enc(), old(self).pending(), bytes@) + flush_chars(
                old(self).enc(),
                spec_write_left(old(self).enc(), old(self).pending(), bytes@),
            ),
    {
        let mut out = self.write(bytes);
        let rest = self.end();
        out.append(rest.as_str());
        out
    }
}

/// Removing a length's remainder leaves a multiple.
proof fn lemma_span_mod(n: int, k: int)
    requires
        0 <= n,
        1 < k,
    ensures
        (n - n % k) % k == 0,
{
    vstd::arithmetic::div_mod::lemma_fundamental_div_mod(n, k);
    assert(n - n % k == (n / k) * k);
    vstd::arithmetic::div_mod::lemma_mod_multiples_basic(n / k, k);
}

/// The buffered leftover never exceeds the encoding's maximum
/// incomplete-unit size: three bytes for utf8, one for utf16le, two for the
/// base64 variants, one for hex, none for ascii and latin1.
pub proof fn lemma_leftover_bound(d: &StringDecoder)
    requires
        d.wf(),
    ensures
        d.pending().len() <= max_incomplete(d.enc()),
{
    lemma_incomplete_le(d.enc(), d.pending());
}

} // verus!
