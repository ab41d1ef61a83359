use postcss::vlq::{base64_decode, base64_encode, decode_vlq, encode_vlq};

#[test]
fn round_trips_vlq() {
    for value in [-100000, -257, -256, -16, -1, 0, 1, 15, 16, 255, 256, 123456] {
        let mut encoded = String::new();
        encode_vlq(value, &mut encoded);
        let (decoded, read) = decode_vlq(encoded.as_bytes()).unwrap();
        assert_eq!(decoded, value, "value {value} encoded as {encoded}");
        assert_eq!(read, encoded.len());
    }
}

#[test]
fn matches_known_vlq_encodings() {
    let mut out = String::new();
    encode_vlq(0, &mut out);
    assert_eq!(out, "A");
    out.clear();
    encode_vlq(1, &mut out);
    assert_eq!(out, "C");
    out.clear();
    encode_vlq(-1, &mut out);
    assert_eq!(out, "D");
    out.clear();
    encode_vlq(16, &mut out);
    assert_eq!(out, "gB");
}

#[test]
fn round_trips_base64() {
    for text in ["", "a", "ab", "abc", "abcd", "{\"version\":3}"] {
        let encoded = base64_encode(text.as_bytes());
        let decoded = base64_decode(&encoded).unwrap();
        assert_eq!(String::from_utf8(decoded).unwrap(), text);
    }
    assert_eq!(base64_encode(b"sure"), "c3VyZQ==");
    assert_eq!(base64_encode(b"sure."), "c3VyZS4=");
}

#[test]
fn rejects_bad_vlq_and_base64() {
    // A continuation bit with nothing after it.
    assert_eq!(decode_vlq(b"g"), None);
    // Not a base64 digit.
    assert_eq!(decode_vlq(b"*"), None);
    assert_eq!(base64_decode("c3V*"), None);
    // Thirteen digits do not fit the accumulator.
    assert_eq!(decode_vlq(b"gggggggggggggA"), None);
}

#[test]
fn base64_skips_whitespace_anywhere() {
    let data = b"postcss maps";
    let encoded = base64_encode(data);
    let spaced: String = encoded.chars().flat_map(|c| [c, '\n', ' ']).collect();
    assert_eq!(base64_decode(&spaced), Some(data.to_vec()));
}

#[test]
fn base64_refuses_a_foreign_byte_before_padding() {
    assert_eq!(base64_decode("YW*J"), None);
    assert_eq!(base64_decode("YWJj=*"), Some(b"abc".to_vec()));
}
