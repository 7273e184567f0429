use hexdump::decode::decode;
use hexdump::decode::DecodeError;
use hexdump::encode::encode;

fn dump_string(input: &[u8]) -> String {
    String::from_utf8(encode(input)).unwrap()
}

fn sample(len: usize) -> Vec<u8> {
    let mut v = Vec::new();
    let mut i: usize = 0;
    while i < len {
        v.push((i * 7 % 256) as u8);
        i += 1;
    }
    v
}

fn assert_round_trip(input: &[u8]) {
    let dumped = encode(input);
    let back = decode(&dumped).unwrap();
    assert_eq!(back, input);
}

#[test]
fn round_trip_empty() {
    assert_round_trip(b"");
}

#[test]
fn round_trip_one_byte() {
    assert_round_trip(b"\x00");
    assert_round_trip(b"\xff");
}

#[test]
fn round_trip_short_lengths() {
    assert_round_trip(b"Hi");
    assert_round_trip(&sample(15));
    assert_round_trip(&sample(16));
    assert_round_trip(&sample(17));
}

#[test]
fn round_trip_hex_looking_sidebar() {
    assert_round_trip(b"ab");
    assert_round_trip(b"deadbeef");
}

#[test]
fn round_trip_large() {
    assert_round_trip(&sample(300));
    let mut all: Vec<u8> = Vec::new();
    for b in 0..=255u8 {
        all.push(b);
    }
    assert_round_trip(&all);
}

#[test]
fn encode_hi_line() {
    let expected = format!("00000000: 4869 {}Hi\n", " ".repeat(36));
    assert_eq!(dump_string(b"Hi"), expected);
}

#[test]
fn encode_empty_line() {
    let expected = format!("00000000: {}\n", " ".repeat(41));
    assert_eq!(dump_string(b""), expected);
}

#[test]
fn encode_full_line_and_empty_tail() {
    let input = b"0123456789abcdef";
    let expected = format!(
        "00000000: 3031 3233 3435 3637 3839 6162 6364 6566  0123456789abcdef\n00000010: {}\n",
        " ".repeat(41)
    );
    assert_eq!(dump_string(input), expected);
}

#[test]
fn encode_seventeen_bytes_two_lines() {
    let input = b"0123456789abcdefG";
    let expected = format!(
        "00000000: 3031 3233 3435 3637 3839 6162 6364 6566  0123456789abcdef\n00000010: 47{}\n",
        " ".repeat(41)
    );
    assert_eq!(dump_string(input), expected);
}

#[test]
fn encode_odd_trailing_byte() {
    let input = &sample(15);
    let text = dump_string(input);
    assert_eq!(text.len(), 10 + 35 + 2 + 6 + 14 + 1);
    assert!(text.starts_with("00000000: "));
}

#[test]
fn encode_addresses_per_line() {
    let text = dump_string(&sample(48));
    let lines: Vec<&str> = text.lines().collect();
    assert_eq!(lines.len(), 4);
    assert!(lines[0].starts_with("00000000: "));
    assert!(lines[1].starts_with("00000010: "));
    assert!(lines[2].starts_with("00000020: "));
    assert!(lines[3].starts_with("00000030: "));
}

#[test]
fn encode_sidebar_classification() {
    let input = [0x00u8, 0x1f, 0x20, 0x7e, 0x7f];
    let expected = format!("00000000: 001f 207e 7f{}.. ~\n", " ".repeat(31));
    assert_eq!(dump_string(&input), expected);
}

#[test]
fn encode_is_deterministic() {
    let input = sample(100);
    assert_eq!(encode(&input), encode(&input));
}

#[test]
fn decode_empty_input() {
    assert_eq!(decode(b"").unwrap(), Vec::<u8>::new());
}

#[test]
fn decode_rejects_stray_non_hex() {
    let text = format!("00000000: 4g69 {}Hi\n", " ".repeat(36));
    assert_eq!(
        decode(text.as_bytes()).unwrap_err(),
        DecodeError::MalformedHexDigit
    );
}

#[test]
fn decode_rejects_uppercase_hex() {
    assert_eq!(
        decode(b"00000000: 4A\n").unwrap_err(),
        DecodeError::MalformedHexDigit
    );
}

#[test]
fn decode_graceful_exhaustion_mid_byte() {
    assert_eq!(decode(b"00000000: 4").unwrap(), Vec::<u8>::new());
    assert_eq!(decode(b"00000000: 48").unwrap(), vec![0x48]);
    assert_eq!(decode(b"00000000: 48 ").unwrap(), vec![0x48]);
}

#[test]
fn decode_ignores_address_contents() {
    assert_eq!(decode(b"zzzzzzzz: 4869\n").unwrap(), b"Hi".to_vec());
}

#[test]
fn decode_ignores_sidebar_text() {
    let mut dumped = encode(b"Hi");
    let n = dumped.len();
    dumped[n - 3] = b'Z';
    dumped[n - 2] = b'z';
    assert_eq!(decode(&dumped).unwrap(), b"Hi".to_vec());
}

#[test]
fn decode_padding_gap_ends_line_data() {
    assert_eq!(decode(b"00000000: 4869  6261\n").unwrap(), b"Hi".to_vec());
}

#[test]
fn round_trip_all_short_lengths() {
    let mut n: usize = 0;
    while n <= 48 {
        assert_round_trip(&sample(n));
        n += 1;
    }
}
