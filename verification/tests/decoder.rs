//! End-to-end tests of the incremental decoder: the scenarios the decoder is
//! specified by, one per encoding, plus construction and reset behavior.

use string_decoder::decoder::StringDecoder;
use string_decoder::encoding::Encoding;

#[test]
fn test_utf_8() {
    let mut decoder = StringDecoder::new("utf-8").unwrap();
    let cent = [0xC2u8, 0xA2];
    assert_eq!(decoder.write(&cent), "\u{00A2}");
}

#[test]
fn test_base64() {
    let mut decoder = StringDecoder::new("base64").unwrap();
    let mut res = String::new();
    res += &decoder.write(&[0x61]);
    res += &decoder.end();
    res += &decoder.write(&[]);
    res += &decoder.end();
    assert_eq!(res, "YQ==");
}

#[test]
fn test_utf16le() {
    let mut decoder = StringDecoder::new("utf16le").unwrap();
    let mut res = String::new();
    res += &decoder.write(&[0x61, 0x00]);
    res += &decoder.end();
    res += &decoder.write(&[]);
    res += &decoder.end();
    assert_eq!(res, "a");
}

#[test]
fn utf8_split_lead_continuation() {
    let mut d = StringDecoder::new("utf8").unwrap();
    assert_eq!(d.write(&[0xC2]), "");
    assert_eq!(d.write(&[0xA2]), "\u{00A2}");
    let mut single = StringDecoder::new("utf8").unwrap();
    assert_eq!(single.write(&[0xC2, 0xA2]), "\u{00A2}");
}

#[test]
fn utf8_three_byte_unit_one_byte_at_a_time() {
    // the euro sign is three bytes; any chunking decodes to the same text
    let euro = [0xE2u8, 0x82, 0xAC];
    let mut whole = StringDecoder::new("utf8").unwrap();
    let mut expected = whole.write(&euro);
    expected += &whole.end();
    assert_eq!(expected, "\u{20AC}");

    let mut split = StringDecoder::new("utf8").unwrap();
    let mut got = String::new();
    for byte in euro.iter() {
        got += &split.write(&[*byte]);
    }
    got += &split.end();
    assert_eq!(got, expected);
}

#[test]
fn utf8_truncated_unit_flushes_to_one_replacement() {
    let mut d = StringDecoder::new("utf8").unwrap();
    assert_eq!(d.write(&[0xE2, 0x82]), "");
    assert_eq!(d.end(), "\u{FFFD}");
    // and the decoder is reset afterwards
    assert_eq!(d.write(&[0x61]), "a");
    assert_eq!(d.end(), "");
}

#[test]
fn utf8_disproven_lead_is_replaced() {
    let mut d = StringDecoder::new("utf8").unwrap();
    assert_eq!(d.write(&[0xE2]), "");
    assert_eq!(d.write(&[0x41]), "\u{FFFD}A");
}

#[test]
fn utf8_malformed_bytes_are_replaced() {
    let mut d = StringDecoder::new("utf8").unwrap();
    // orphan continuation byte
    assert_eq!(d.write(&[0x80]), "\u{FFFD}");
    // invalid lead, then plain ASCII
    assert_eq!(d.write(&[0xFF, 0x41]), "\u{FFFD}A");
    // overlong two-byte encoding of NUL: one replacement for the whole unit
    assert_eq!(d.write(&[0xC0, 0x80]), "\u{FFFD}");
    // an encoded surrogate is not a scalar
    assert_eq!(d.write(&[0xED, 0xA0, 0x80]), "\u{FFFD}");
    assert_eq!(d.end(), "");
}

#[test]
fn utf8_four_byte_unit() {
    let mut d = StringDecoder::new("utf8").unwrap();
    assert_eq!(d.write(&[0xF0, 0x90, 0x90]), "");
    assert_eq!(d.buffered_len(), 3);
    assert_eq!(d.write(&[0xB7]), "\u{10437}");
    assert_eq!(d.buffered_len(), 0);
}

#[test]
fn base64_carry_and_reset() {
    let mut d = StringDecoder::new("base64").unwrap();
    assert_eq!(d.write(&[0x61]), "");
    assert_eq!(d.end(), "YQ==");
    assert_eq!(d.write(&[]), "");
    assert_eq!(d.end(), "");
}

#[test]
fn base64_two_byte_flush_and_groups() {
    let mut d = StringDecoder::new("base64").unwrap();
    assert_eq!(d.write(&[0x61, 0x62]), "");
    assert_eq!(d.end(), "YWI=");
    assert_eq!(d.write(&[0x61, 0x62, 0x63]), "YWJj");
    assert_eq!(d.end(), "");
}

#[test]
fn base64_url_alphabet_differs() {
    let bytes = [0xFBu8, 0xEF, 0xBE];
    let mut plain = StringDecoder::new("base64").unwrap();
    assert_eq!(plain.write(&bytes), "++++");
    let mut url = StringDecoder::new("base64url").unwrap();
    assert_eq!(url.write(&bytes), "----");
}

#[test]
fn utf16le_pairing() {
    let mut d = StringDecoder::new("utf16le").unwrap();
    let mut res = d.write(&[0x61, 0x00]);
    res += &d.end();
    assert_eq!(res, "a");

    let mut split = StringDecoder::new("utf16le").unwrap();
    assert_eq!(split.write(&[0x61]), "");
    assert_eq!(split.write(&[0x00]), "a");
    assert_eq!(split.end(), "");
}

#[test]
fn utf16le_surrogate_pair_in_one_write() {
    let mut d = StringDecoder::new("utf16le").unwrap();
    assert_eq!(d.write(&[0x01, 0xD8, 0x37, 0xDC]), "\u{10437}");
    assert_eq!(d.end(), "");
}

#[test]
fn utf16le_unpaired_surrogate_is_replaced() {
    let mut d = StringDecoder::new("utf16le").unwrap();
    assert_eq!(d.write(&[0x01, 0xD8, 0x61, 0x00]), "\u{FFFD}a");
    assert_eq!(d.write(&[0x37, 0xDC]), "\u{FFFD}");
    assert_eq!(d.end(), "");
}

#[test]
fn utf16le_odd_byte_flushes_to_replacement() {
    let mut d = StringDecoder::new("utf16le").unwrap();
    assert_eq!(d.write(&[0x61]), "");
    assert_eq!(d.end(), "\u{FFFD}");
}

#[test]
fn hex_pairs() {
    let mut d = StringDecoder::new("hex").unwrap();
    assert_eq!(d.write(&[0xAB]), "");
    assert_eq!(d.write(&[0xCD]), "abcd");
    // a trailing odd byte is dropped at end of stream
    assert_eq!(d.write(&[0x01]), "");
    assert_eq!(d.end(), "");
    assert_eq!(d.write(&[0x0F, 0x10]), "0f10");
}

#[test]
fn ascii_masks_high_bit() {
    let mut d = StringDecoder::new("ascii").unwrap();
    assert_eq!(d.write(&[0x41, 0xC1]), "AA");
    assert_eq!(d.end(), "");
}

#[test]
fn latin1_maps_bytes_directly() {
    let mut d = StringDecoder::new("latin1").unwrap();
    assert_eq!(d.write(&[0x41, 0xE9]), "A\u{00E9}");
    assert_eq!(d.end(), "");
}

#[test]
fn end_with_writes_then_flushes() {
    let mut d = StringDecoder::new("base64").unwrap();
    assert_eq!(d.end_with(&[0x61]), "YQ==");
    let mut u = StringDecoder::new("utf8").unwrap();
    assert_eq!(u.write(&[0xC2]), "");
    assert_eq!(u.end_with(&[0xA2, 0x21]), "\u{00A2}!");
}

#[test]
fn construction_validation() {
    assert!(StringDecoder::new("utf-7").is_err());
    assert!(StringDecoder::new("").is_err());
    assert!(StringDecoder::new("base-64").is_err());
    assert!(StringDecoder::new("utf8").is_ok());
    assert!(StringDecoder::new("UTF-8").is_ok());
    assert!(StringDecoder::new("ucs2").is_ok());
    assert!(StringDecoder::new("UCS-2").is_ok());
    assert!(StringDecoder::new("Binary").is_ok());
    assert!(StringDecoder::new("LATIN1").is_ok());
    assert!(StringDecoder::new("Base64URL").is_ok());
    assert!(StringDecoder::new("HEX").is_ok());
    assert!(StringDecoder::new("ASCII").is_ok());
}

#[test]
fn aliases_behave_as_their_canonical_form() {
    let bytes = [0x61u8, 0x00, 0xC2, 0x00];
    let mut canonical = StringDecoder::new("utf16le").unwrap();
    let mut alias = StringDecoder::new("UCS-2").unwrap();
    assert_eq!(canonical.encoding(), alias.encoding());
    assert_eq!(canonical.write(&bytes), alias.write(&bytes));
    assert_eq!(canonical.end(), alias.end());
}

#[test]
fn with_encoding_matches_name_resolution() {
    let mut by_name = StringDecoder::new("hex").unwrap();
    let mut by_variant = StringDecoder::with_encoding(Encoding::Hex);
    assert_eq!(by_name.encoding(), by_variant.encoding());
    assert_eq!(by_name.write(&[0x7F, 0x80]), by_variant.write(&[0x7F, 0x80]));
}

#[test]
fn leftover_stays_within_bound() {
    let mut utf8 = StringDecoder::new("utf8").unwrap();
    utf8.write(&[0xF0]);
    assert_eq!(utf8.buffered_len(), 1);
    utf8.write(&[0x90]);
    assert_eq!(utf8.buffered_len(), 2);
    utf8.write(&[0x90]);
    assert_eq!(utf8.buffered_len(), 3);
    utf8.write(&[0xB7]);
    assert_eq!(utf8.buffered_len(), 0);

    let mut b64 = StringDecoder::new("base64").unwrap();
    b64.write(&[0x01]);
    assert_eq!(b64.buffered_len(), 1);
    b64.write(&[0x02]);
    assert_eq!(b64.buffered_len(), 2);
    b64.write(&[0x03]);
    assert_eq!(b64.buffered_len(), 0);

    let mut u16 = StringDecoder::new("utf16le").unwrap();
    u16.write(&[0x61]);
    assert_eq!(u16.buffered_len(), 1);

    let mut ascii = StringDecoder::new("ascii").unwrap();
    ascii.write(&[0x61]);
    assert_eq!(ascii.buffered_len(), 0);
}

#[test]
fn streaming_equivalence_across_random_cut_points() {
    // every cut point of a mixed utf8 stream gives the same total text
    let bytes = [
        0x61u8, 0xC2, 0xA2, 0xE2, 0x82, 0xAC, 0xF0, 0x90, 0x90, 0xB7, 0x80, 0xFF, 0x7A,
    ];
    let mut whole = StringDecoder::new("utf8").unwrap();
    let mut expected = whole.write(&bytes);
    expected += &whole.end();
    for cut in 0..=bytes.len() {
        let mut d = StringDecoder::new("utf8").unwrap();
        let mut got = d.write(&bytes[..cut]);
        got += &d.write(&bytes[cut..]);
        got += &d.end();
        assert_eq!(got, expected, "cut at {}", cut);
    }
}

#[test]
fn module_name_is_fixed() {
    assert_eq!(string_decoder::StringDecoderModule::name(), "string_decoder");
}

#[test]
fn streaming_equivalence_base64_and_hex_cut_points() {
    let bytes = [0x00u8, 0x10, 0x83, 0xFB, 0xEF, 0xBE, 0x61];
    for name in ["base64", "base64url", "hex"] {
        let mut whole = StringDecoder::new(name).unwrap();
        let mut expected = whole.write(&bytes);
        expected += &whole.end();
        for cut in 0..=bytes.len() {
            let mut d = StringDecoder::new(name).unwrap();
            let mut got = d.write(&bytes[..cut]);
            got += &d.write(&bytes[cut..]);
            got += &d.end();
            assert_eq!(got, expected, "{} cut at {}", name, cut);
        }
    }
}

#[test]
fn streaming_equivalence_utf16le_cut_points() {
    // no surrogate pairs in the stream, so every cut point is a clean split
    let bytes = [0x61u8, 0x00, 0xAC, 0x20, 0x42, 0x30, 0x7A];
    let mut whole = StringDecoder::new("utf16le").unwrap();
    let mut expected = whole.write(&bytes);
    expected += &whole.end();
    for cut in 0..=bytes.len() {
        let mut d = StringDecoder::new("utf16le").unwrap();
        let mut got = d.write(&bytes[..cut]);
        got += &d.write(&bytes[cut..]);
        got += &d.end();
        assert_eq!(got, expected, "cut at {}", cut);
    }
}

#[test]
fn streaming_equivalence_single_byte_cut_points() {
    let bytes = [0x00u8, 0x41, 0x7F, 0x80, 0xC1, 0xFF];
    for name in ["ascii", "latin1"] {
        let mut whole = StringDecoder::new(name).unwrap();
        let mut expected = whole.write(&bytes);
        expected += &whole.end();
        for cut in 0..=bytes.len() {
            let mut d = StringDecoder::new(name).unwrap();
            let mut got = d.write(&bytes[..cut]);
            got += &d.write(&bytes[cut..]);
            got += &d.end();
            assert_eq!(got, expected, "{} cut at {}", name, cut);
        }
    }
}
