use tinyurl::Codec;
use tinyurl::DecodeError;

#[test]
fn first_encode_uses_identifier_one() {
    let mut codec = Codec::new();
    let short = codec.encode(String::from("https://www.google.com"));
    assert_eq!(short, "http://tinyurl.com/b");
    let back = codec.decode(short);
    assert_eq!(back, Ok(String::from("https://www.google.com")));
}

#[test]
fn repeated_encode_is_idempotent() {
    let mut codec = Codec::new();
    let first = codec.encode(String::from("https://example.com/a"));
    let second = codec.encode(String::from("https://example.com/a"));
    assert_eq!(first, second);
    // The repeated call did not advance the counter: a distinct URL
    // encoded afterward receives identifier 2, not 3.
    let other = codec.encode(String::from("https://example.com/b"));
    assert_eq!(other, "http://tinyurl.com/c");
}

#[test]
fn distinct_urls_get_distinct_short_urls() {
    let mut codec = Codec::new();
    let s1 = codec.encode(String::from("https://example.com/one"));
    let s2 = codec.encode(String::from("https://example.com/two"));
    assert_ne!(s1, s2);
}

#[test]
fn round_trip_many_urls() {
    let mut codec = Codec::new();
    let mut shorts = Vec::new();
    for i in 0..200 {
        shorts.push(codec.encode(format!("https://example.com/page/{}", i)));
    }
    for i in 0..200 {
        let back = codec.decode(shorts[i].clone());
        assert_eq!(back, Ok(format!("https://example.com/page/{}", i)));
    }
}

#[test]
fn monotonic_allocation_renders_base62() {
    let mut codec = Codec::new();
    let mut shorts = Vec::new();
    for i in 0..100 {
        shorts.push(codec.encode(format!("https://example.com/item/{}", i)));
    }
    // identifier 1 renders as "b", 61 as "9", 62 as "ab" (least
    // significant digit first), 63 as "bb"
    assert_eq!(shorts[0], "http://tinyurl.com/b");
    assert_eq!(shorts[60], "http://tinyurl.com/9");
    assert_eq!(shorts[61], "http://tinyurl.com/ab");
    assert_eq!(shorts[62], "http://tinyurl.com/bb");
}

#[test]
fn short_codes_stay_inside_the_alphabet() {
    let mut codec = Codec::new();
    for i in 0..150 {
        let short = codec.encode(format!("https://example.com/doc/{}", i));
        let code = short.rsplit('/').next().unwrap();
        assert!(!code.is_empty());
        assert!(code.chars().all(|c| c.is_ascii_alphanumeric()));
    }
}

#[test]
fn unknown_code_is_rejected() {
    let codec = Codec::new();
    // syntactically valid, never issued
    assert_eq!(
        codec.decode(String::from("http://tinyurl.com/b")),
        Err(DecodeError::UnknownIdentifier)
    );
    let mut seeded = Codec::new();
    seeded.encode(String::from("https://example.com"));
    // identifier 2 was never issued on this instance
    assert_eq!(
        seeded.decode(String::from("http://tinyurl.com/c")),
        Err(DecodeError::UnknownIdentifier)
    );
}

#[test]
fn zero_valued_code_is_unknown() {
    let mut codec = Codec::new();
    codec.encode(String::from("https://example.com"));
    // "a" denotes 0, an identifier the counter never assigns
    assert_eq!(
        codec.decode(String::from("http://tinyurl.com/a")),
        Err(DecodeError::UnknownIdentifier)
    );
}

#[test]
fn overlong_code_is_unknown() {
    let mut codec = Codec::new();
    codec.encode(String::from("https://example.com"));
    // a value far beyond any identifier this instance could have issued
    assert_eq!(
        codec.decode(String::from("http://tinyurl.com/99999999999999")),
        Err(DecodeError::UnknownIdentifier)
    );
}

#[test]
fn malformed_codes_are_rejected() {
    let codec = Codec::new();
    // no code segment after the final '/'
    assert_eq!(
        codec.decode(String::from("http://tinyurl.com/")),
        Err(DecodeError::MalformedShortCode)
    );
    assert_eq!(codec.decode(String::new()), Err(DecodeError::MalformedShortCode));
    // a character outside the 62-symbol alphabet
    assert_eq!(
        codec.decode(String::from("http://tinyurl.com/b!")),
        Err(DecodeError::MalformedShortCode)
    );
    assert_eq!(
        codec.decode(String::from("http://tinyurl.com/b-c")),
        Err(DecodeError::MalformedShortCode)
    );
}

#[test]
fn decode_reads_digits_least_significant_first() {
    let mut codec = Codec::new();
    let long = String::from("https://www.google.com");
    codec.encode(long.clone());
    // "ba" denotes 1 * 62^0 + 0 * 62^1 == 1: the registered identifier
    assert_eq!(codec.decode(String::from("http://tinyurl.com/ba")), Ok(long));
    // "ab" denotes 0 * 62^0 + 1 * 62^1 == 62, which was never issued
    assert_eq!(
        codec.decode(String::from("http://tinyurl.com/ab")),
        Err(DecodeError::UnknownIdentifier)
    );
}

#[test]
fn decode_does_not_validate_the_prefix() {
    let mut codec = Codec::new();
    let long = String::from("https://example.com");
    codec.encode(long.clone());
    // only the substring after the last '/' matters
    assert_eq!(codec.decode(String::from("anything/at/all/b")), Ok(long.clone()));
    assert_eq!(codec.decode(String::from("b")), Ok(long));
}

#[test]
fn insert_registers_under_current_identifier() {
    let mut codec = Codec::new();
    codec.insert(String::from("https://example.com"), "b");
    // the URL is now registered: encode returns its short URL unchanged
    assert_eq!(codec.encode(String::from("https://example.com")), "http://tinyurl.com/b");
    assert_eq!(
        codec.decode(String::from("http://tinyurl.com/b")),
        Ok(String::from("https://example.com"))
    );
}
