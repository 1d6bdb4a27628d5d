use hibp_ranges::decode::{decode_line, hash_and_prevalance, parse_decimal, DecodeError};
use hibp_ranges::lines::lines;
use hibp_ranges::output::{
    encode, encode_binary, encode_text, Format, OutputMode, SinkKind,
};
use hibp_ranges::ranges::all_ranges_iter;

#[test]
fn text_encoding_puts_key_before_each_line() {
    let line = b"0000000000000000000000000000000001:5\r\n";
    let out = encode_text(b"00000", line);
    let mut expected = b"00000".to_vec();
    expected.extend_from_slice(line);
    expected.extend_from_slice(b"\r\n");
    assert_eq!(out, expected);
    assert!(out.starts_with(b"000000000000000000000000000000000000001:5\r\n"));
}

#[test]
fn text_encoding_of_two_lines() {
    let out = encode_text(b"ABCDE", b"X:1\r\nY:2\r\n");
    assert_eq!(out, b"ABCDEX:1\r\nABCDEY:2\r\n\r\n".to_vec());
}

#[test]
fn binary_decoding_of_one_line() {
    let mut line = vec![b'A'; 35];
    line.extend_from_slice(b":42\r\n");
    let out = encode_binary(b"AAAAA", &line).unwrap();
    assert_eq!(out.len(), 28);
    assert_eq!(&out[..20], &[0xAAu8; 20]);
    assert_eq!(&out[20..], &42u64.to_be_bytes());
    let (hash, count) = decode_line(b"AAAAA", &line).unwrap();
    assert_eq!(hash, [0xAA; 20]);
    assert_eq!(count, 42);
}

#[test]
fn binary_decoding_reads_mixed_digits() {
    let line = b"0123456789abcdefABCDEF0123456789ABC:18446744073709551615";
    let (hash, count) = decode_line(b"FEDCB", line).unwrap();
    assert_eq!(hash[0], 0xFE);
    assert_eq!(hash[1], 0xDC);
    assert_eq!(hash[2], 0xB0);
    assert_eq!(hash[3], 0x12);
    assert_eq!(count, u64::MAX);
}

#[test]
fn decode_errors() {
    assert_eq!(decode_line(b"00000", b"short:1"), Err(DecodeError::MalformedLine));
    let no_colon = b"00000000000000000000000000000000000;1\r\n";
    assert_eq!(decode_line(b"00000", no_colon), Err(DecodeError::MalformedLine));
    let bad_hex = b"0000000000000000000000000000000000G:1\r\n";
    assert_eq!(decode_line(b"00000", bad_hex), Err(DecodeError::InvalidHash));
    assert_eq!(decode_line(b"0000Z", b"00000000000000000000000000000000000:1"), Err(DecodeError::InvalidHash));
    let bad_count = b"00000000000000000000000000000000000:1x\r\n";
    assert_eq!(decode_line(b"00000", bad_count), Err(DecodeError::InvalidCount));
    let empty_count = b"00000000000000000000000000000000000:\r\n";
    assert_eq!(decode_line(b"00000", empty_count), Err(DecodeError::InvalidCount));
    let too_big = b"00000000000000000000000000000000000:18446744073709551616";
    assert_eq!(decode_line(b"00000", too_big), Err(DecodeError::InvalidCount));
    let body = b"00000000000000000000000000000000000:1\r\nbad\r\n";
    assert_eq!(hash_and_prevalance(b"00000", body), Err(DecodeError::MalformedLine));
}

#[test]
fn decimal_parsing() {
    assert_eq!(parse_decimal(b"x123y", 1, 4), Some(123));
    assert_eq!(parse_decimal(b"", 0, 0), None);
    assert_eq!(parse_decimal(b"+1", 0, 2), None);
    assert_eq!(parse_decimal(b"0007", 0, 4), Some(7));
}

#[test]
fn line_splitting_ignores_final_terminator() {
    let with = lines(b"A:1\r\nB:2\r\n");
    let without = lines(b"A:1\r\nB:2");
    assert_eq!(with.len(), 2);
    assert_eq!(without.len(), 2);
    assert_eq!(with[0], without[0]);
    assert_eq!(without[1], b"B:2".to_vec());
    let p = b"00000";
    let l1 = b"00000000000000000000000000000000001:5\r\n00000000000000000000000000000000002:6\r\n";
    let l2 = b"00000000000000000000000000000000001:5\r\n00000000000000000000000000000000002:6";
    assert_eq!(hash_and_prevalance(p, l1), hash_and_prevalance(p, l2));
    assert_eq!(encode_binary(p, l1), encode_binary(p, l2));
    assert!(lines(b"").is_empty());
    assert_eq!(lines(b"\n\r\n").len(), 1);
}

#[test]
fn output_mode_and_sink_selection() {
    assert!(matches!(OutputMode::parse("-"), OutputMode::Stdout));
    match OutputMode::parse("out.bin") {
        OutputMode::SingleFile(p) => assert_eq!(p, "out.bin"),
        OutputMode::Stdout => panic!("expected a file"),
    }
    assert!(!OutputMode::Stdout.is_not_stdout());
    assert!(OutputMode::SingleFile("x".to_string()).is_not_stdout());
    assert_eq!(OutputMode::Stdout.sink_kind(Format::Binary), SinkKind::Stdout);
    let file = OutputMode::SingleFile("x".to_string());
    assert_eq!(file.sink_kind(Format::Text), SinkKind::TextFile);
    assert_eq!(file.sink_kind(Format::Binary), SinkKind::BinaryFile);
    assert_eq!(Format::Text.name(), "text");
    assert_eq!(Format::Binary.name(), "binary");
}

#[test]
fn end_to_end_with_a_fixed_body() {
    let body = b"0123456789ABCDEF0123456789ABCDEF012:7\r\n";
    let mut text_lines = 0usize;
    let mut binary_len = 0usize;
    for key in all_ranges_iter() {
        let text = encode(SinkKind::TextFile, &key, body).unwrap();
        assert_eq!(text.len(), 5 + body.len() + 2);
        text_lines += 1;
        binary_len += encode(SinkKind::BinaryFile, &key, body).unwrap().len();
    }
    assert_eq!(text_lines, 1_048_576);
    assert_eq!(binary_len, 1_048_576 * 28);
}
