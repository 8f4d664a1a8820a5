//! Tests of the streaming Ascii85 encoder and decoder.

use ascii85_codec::ascii85::decoding::Ascii85Decoding;
use ascii85_codec::ascii85::decoding::Ascii85DecodingExtension;
use ascii85_codec::ascii85::encoding::Ascii85Encoding;
use ascii85_codec::ascii85::encoding::Ascii85EncodingExtension;
use ascii85_codec::errors::CodecError;

fn encode_all(mut e: Ascii85Encoding) -> Result<String, CodecError> {
    let mut s = String::new();
    loop {
        match e.next() {
            None => return Ok(s),
            Some(Ok(c)) => s.push(c),
            Some(Err(err)) => return Err(err),
        }
    }
}

fn decode_all(mut d: Ascii85Decoding) -> Result<Vec<u8>, CodecError> {
    let mut out: Vec<u8> = Vec::new();
    loop {
        match d.next() {
            None => return Ok(out),
            Some(Ok(b)) => out.push(b),
            Some(Err(err)) => return Err(err),
        }
    }
}

fn chars_of(s: &str) -> Vec<char> {
    s.chars().collect()
}

fn bytes_of(s: &str) -> Vec<u8> {
    s.bytes().collect()
}

#[test]
fn test_ascii85_encode() {
    let test_data = vec![0_u8, 1, 2, 3];
    let source = test_data.clone();
    let encoded = encode_all(source.ascii85_encoding()).unwrap();
    assert_eq!("!!*-'", encoded);
}

#[test]
fn test_ascii85_encode2() {
    let test_data = vec![Ok(0_u8), Err(CodecError::UpstreamFailure), Ok(2), Ok(3)];
    let source = test_data.clone();
    let encoded = encode_all(source.ascii85_encoding());
    match encoded {
        Err(x) => println!("error: {:?}", x),
        _ => panic!("should be an error"),
    };
}

#[test]
fn test_ascii85_encode_string() {
    let test_data = "test string";
    let source = bytes_of(test_data);
    let encoded = encode_all(source.ascii85_encoding()).unwrap();

    assert_eq!("FCfN8+EMXFBl7P", encoded);
}

#[test]
fn test_ascii85_encode_zeros() {
    let test_data = "test\0\0\0\0string";
    let source = bytes_of(test_data);
    let encoded = encode_all(source.ascii85_encoding()).unwrap();

    assert_eq!("FCfN8zF*)G:DJ&", encoded);
}

#[test]
fn test_decode() {
    let test_data = "!!*-'";
    let result = decode_all(chars_of(test_data).ascii85_decoding()).unwrap();
    assert_eq!(4, result.len());
    assert_eq!(0, result[0]);
    assert_eq!(1, result[1]);
    assert_eq!(2, result[2]);
    assert_eq!(3, result[3]);
}

#[test]
fn test_decode_2() {
    let test_data = "FCfN8+EMXFBl7P";
    let expected = "test string";

    let result = decode_all(chars_of(test_data).ascii85_decoding()).unwrap();
    assert_eq!(expected.len(), result.len());
    for (x, y) in expected.bytes().zip(result) {
        assert_eq!(x, y);
    }
}

#[test]
fn test_decode_3() {
    let test_data = "FCfN8zF*)G:DJ&";
    let expected = "test\0\0\0\0string";

    let result = decode_all(chars_of(test_data).ascii85_decoding()).unwrap();
    assert_eq!(expected.len(), result.len());
    for (x, y) in expected.bytes().zip(result) {
        assert_eq!(x, y);
    }
}

#[test]
fn test_encode_empty() {
    let encoded = encode_all(Vec::<u8>::new().ascii85_encoding()).unwrap();
    assert_eq!("", encoded);
}

#[test]
fn test_decode_empty() {
    let decoded = decode_all(Vec::<char>::new().ascii85_decoding()).unwrap();
    assert_eq!(0, decoded.len());
}

#[test]
fn test_encode_full_zero_group_is_shorthand() {
    let encoded = encode_all(vec![0_u8, 0, 0, 0].ascii85_encoding()).unwrap();
    assert_eq!("z", encoded);
}

#[test]
fn test_decode_shorthand_is_four_zeros() {
    let decoded = decode_all(chars_of("z").ascii85_decoding()).unwrap();
    assert_eq!(vec![0_u8, 0, 0, 0], decoded);
}

#[test]
fn test_encode_partial_zero_group_is_expanded() {
    // The shorthand applies only to a complete all-zero group: a trailing
    // single zero byte is padded and expanded instead.
    let encoded = encode_all(vec![0_u8].ascii85_encoding()).unwrap();
    assert_eq!("!!", encoded);
}

#[test]
fn test_round_trip_various_lengths() {
    let samples: Vec<Vec<u8>> = vec![
        vec![],
        vec![7],
        vec![7, 8],
        vec![7, 8, 9],
        vec![7, 8, 9, 10],
        vec![7, 8, 9, 10, 11],
        vec![255, 255, 255, 255],
        vec![0, 0, 0, 0, 1],
        vec![1, 0, 0, 0, 0, 2],
        bytes_of("The quick brown fox jumps over the lazy dog."),
    ];
    for data in samples {
        let encoded = encode_all(data.clone().ascii85_encoding()).unwrap();
        let decoded = decode_all(chars_of(&encoded).ascii85_decoding()).unwrap();
        assert_eq!(data, decoded);
    }
}

#[test]
fn test_round_trip_with_zero_run() {
    let data = bytes_of("ab\0\0\0\0\0\0cd");
    let encoded = encode_all(data.clone().ascii85_encoding()).unwrap();
    let decoded = decode_all(chars_of(&encoded).ascii85_decoding()).unwrap();
    assert_eq!(data, decoded);
}

#[test]
fn test_decode_invalid_character_low() {
    let result = decode_all(chars_of(" !!!!").ascii85_decoding());
    assert_eq!(Err(CodecError::InvalidCharacter(' ')), result);
}

#[test]
fn test_decode_invalid_character_high() {
    let result = decode_all(chars_of("!!v").ascii85_decoding());
    assert_eq!(Err(CodecError::InvalidCharacter('v')), result);
}

#[test]
fn test_decode_invalid_character_position() {
    // Bytes decoded before the offending block are still delivered.
    let mut d = chars_of("zv").ascii85_decoding();
    for _ in 0..4 {
        assert_eq!(Some(Ok(0)), d.next());
    }
    assert_eq!(Some(Err(CodecError::InvalidCharacter('v'))), d.next());
    assert_eq!(None, d.next());
}

#[test]
fn test_decode_misplaced_shorthand() {
    let result = decode_all(chars_of("!z").ascii85_decoding());
    assert_eq!(Err(CodecError::MisplacedShorthand), result);
}

#[test]
fn test_decode_lone_trailing_character() {
    // A final group of one character that is not the shorthand marks the
    // end of the input without a decodable byte.
    let result = decode_all(chars_of("!").ascii85_decoding()).unwrap();
    assert_eq!(0, result.len());
}

#[test]
fn test_encode_failure_after_full_groups() {
    // Characters of the groups before the failing element still come out,
    // then the failure is reported in place.
    let mut source: Vec<Result<u8, CodecError>> = vec![Ok(0), Ok(1), Ok(2), Ok(3)];
    source.push(Err(CodecError::UpstreamFailure));
    let mut e = source.ascii85_encoding();
    let expected = "!!*-'";
    for c in expected.chars() {
        assert_eq!(Some(Ok(c)), e.next());
    }
    assert_eq!(Some(Err(CodecError::UpstreamFailure)), e.next());
    assert_eq!(None, e.next());
}

#[test]
fn test_decode_failure_after_full_groups() {
    let mut source: Vec<Result<char, CodecError>> = "!!*-'".chars().map(Ok).collect();
    source.push(Err(CodecError::UpstreamFailure));
    let mut d = source.ascii85_decoding();
    for b in [0_u8, 1, 2, 3] {
        assert_eq!(Some(Ok(b)), d.next());
    }
    assert_eq!(Some(Err(CodecError::UpstreamFailure)), d.next());
    assert_eq!(None, d.next());
}

#[test]
fn test_decode_two_character_final_group() {
    // Two final characters decode to one byte.
    let encoded = encode_all(vec![200_u8].ascii85_encoding()).unwrap();
    assert_eq!(2, encoded.len());
    let decoded = decode_all(chars_of(&encoded).ascii85_decoding()).unwrap();
    assert_eq!(vec![200_u8], decoded);
}
