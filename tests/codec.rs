use hexcodec::chunked::{decode_chunk, encode_chunk, BYTE_BUFFER_SIZE, HEX_BUFFER_SIZE};
use hexcodec::codec::{hex_decode, hex_encode, hex_value, HexError, LOWER, UPPER};

fn encode(bytes: &[u8], lower: bool) -> String {
    let mut res = String::new();
    hex_encode(bytes, &mut res, lower);
    res
}

fn decode(text: &[u8]) -> Result<Vec<u8>, HexError> {
    let mut res = Vec::new();
    hex_decode(text, &mut res).map(|_| res)
}

fn encode_in_chunks(bytes: &[u8], size: usize, lower: bool) -> String {
    let mut out = String::new();
    let mut buf = String::from("left over");
    let mut start = 0;
    while start < bytes.len() {
        start = encode_chunk(bytes, start, size, &mut buf, lower);
        out.push_str(&buf);
    }
    out
}

fn decode_in_chunks(text: &[u8], size: usize) -> Result<Vec<u8>, HexError> {
    let mut out = Vec::new();
    let mut buf = vec![1u8, 2, 3];
    let mut start = 0;
    while start < text.len() {
        start = decode_chunk(text, start, size, &mut buf)?;
        out.extend_from_slice(&buf);
    }
    Ok(out)
}

fn sample(n: usize) -> Vec<u8> {
    (0..n).map(|i| ((i * 37 + 11) % 256) as u8).collect()
}

#[test]
fn hex_value_maps_each_digit_class() {
    assert_eq!(hex_value(b'0'), Ok(0));
    assert_eq!(hex_value(b'9'), Ok(9));
    assert_eq!(hex_value(b'A'), Ok(10));
    assert_eq!(hex_value(b'F'), Ok(15));
    assert_eq!(hex_value(b'a'), Ok(10));
    assert_eq!(hex_value(b'f'), Ok(15));
    assert_eq!(hex_value(b'g'), Err(HexError::InvalidChar(b'g')));
    assert_eq!(hex_value(b'G'), Err(HexError::InvalidChar(b'G')));
    assert_eq!(hex_value(b'/'), Err(HexError::InvalidChar(b'/')));
    assert_eq!(hex_value(b':'), Err(HexError::InvalidChar(b':')));
    assert_eq!(hex_value(b'@'), Err(HexError::InvalidChar(b'@')));
}

#[test]
fn alphabets_hold_sixteen_digits() {
    assert_eq!(LOWER.iter().collect::<String>(), "0123456789abcdef");
    assert_eq!(UPPER.iter().collect::<String>(), "0123456789ABCDEF");
}

#[test]
fn alphabet_selection() {
    assert_eq!(encode(&[0xAB], true), "ab");
    assert_eq!(encode(&[0xAB], false), "AB");
}

#[test]
fn encode_appends_to_accumulator() {
    let mut res = String::from("x:");
    hex_encode(&[0x01, 0xF0], &mut res, true);
    assert_eq!(res, "x:01f0");
}

#[test]
fn invalid_character_is_rejected() {
    assert_eq!(decode(b"zz"), Err(HexError::InvalidChar(b'z')));
    assert_eq!(decode(b"0g"), Err(HexError::InvalidChar(b'g')));
}

#[test]
fn first_invalid_character_is_reported() {
    assert_eq!(decode(b"00x1y"), Err(HexError::InvalidChar(b'x')));
    // an invalid dangling digit is reported as such, not as odd length
    assert_eq!(decode(b"00z"), Err(HexError::InvalidChar(b'z')));
}

#[test]
fn pairs_before_failure_are_kept() {
    let mut res = vec![9u8];
    assert_eq!(hex_decode(b"0aff1x", &mut res), Err(HexError::InvalidChar(b'x')));
    assert_eq!(res, vec![9, 0x0a, 0xff]);
}

#[test]
fn odd_length_is_rejected() {
    let mut res = Vec::new();
    assert_eq!(hex_decode(b"abc", &mut res), Err(HexError::OddLength));
    assert_eq!(res, vec![0xab]);
}

#[test]
fn empty_input() {
    assert_eq!(encode(&[], true), "");
    assert_eq!(encode(&[], false), "");
    assert_eq!(decode(b""), Ok(vec![]));
}

#[test]
fn end_to_end() {
    assert_eq!(encode(&[0x00, 0xFF, 0x0A], false), "00FF0A");
    assert_eq!(decode(b"00ff0a"), Ok(vec![0x00, 0xFF, 0x0A]));
}

#[test]
fn round_trip_every_byte_both_alphabets() {
    let all: Vec<u8> = (0..=255u8).collect();
    for lower in [true, false] {
        let text = encode(&all, lower);
        assert_eq!(decode(text.as_bytes()), Ok(all.clone()));
    }
}

#[test]
fn decode_ignores_case() {
    let b = sample(100);
    let lo = decode(encode(&b, true).as_bytes());
    let up = decode(encode(&b, false).as_bytes());
    assert_eq!(lo, up);
    assert_eq!(lo, Ok(b));
    assert_eq!(decode(b"aBcD"), Ok(vec![0xab, 0xcd]));
}

#[test]
fn length_law() {
    for n in [0usize, 1, 2, 5, 300] {
        let b = sample(n);
        let text = encode(&b, true);
        assert_eq!(text.len(), 2 * n);
        assert_eq!(decode(text.as_bytes()).unwrap().len(), text.len() / 2);
    }
}

#[test]
fn buffer_sizes() {
    assert_eq!(BYTE_BUFFER_SIZE, 4096);
    assert_eq!(HEX_BUFFER_SIZE, 8192);
}

#[test]
fn encode_chunk_replaces_buffer_and_reports_end() {
    let mut buf = String::from("stale");
    let end = encode_chunk(&[1, 2, 3, 4, 5], 1, 3, &mut buf, false);
    assert_eq!(end, 4);
    assert_eq!(buf, "020304");
    let end = encode_chunk(&[1, 2, 3, 4, 5], 4, 3, &mut buf, true);
    assert_eq!(end, 5);
    assert_eq!(buf, "05");
}

#[test]
fn decode_chunk_replaces_buffer_and_reports_end() {
    let mut buf = vec![7u8, 7, 7];
    assert_eq!(decode_chunk(b"0102030405", 2, 4, &mut buf), Ok(6));
    assert_eq!(buf, vec![0x02, 0x03]);
    assert_eq!(decode_chunk(b"0102030405", 8, 4, &mut buf), Ok(10));
    assert_eq!(buf, vec![0x05]);
    assert_eq!(decode_chunk(b"01020q", 4, 4, &mut buf), Err(HexError::InvalidChar(b'q')));
    assert_eq!(buf, vec![]);
}

#[test]
fn chunked_encode_matches_whole() {
    let b = sample(1000);
    for size in [1usize, 2, 3, 7, 64, 999, 1000, 4096] {
        for lower in [true, false] {
            assert_eq!(encode_in_chunks(&b, size, lower), encode(&b, lower));
        }
    }
    assert_eq!(encode_in_chunks(&[], 4, true), "");
}

#[test]
fn chunked_decode_matches_whole() {
    let b = sample(1000);
    let text = encode(&b, true);
    for size in [2usize, 4, 6, 64, 1998, 2000, HEX_BUFFER_SIZE] {
        assert_eq!(decode_in_chunks(text.as_bytes(), size), Ok(b.clone()));
    }
}

#[test]
fn chunked_decode_reports_same_errors() {
    let mut odd = encode(&sample(20), false).into_bytes();
    odd.push(b'7');
    let mut bad = encode(&sample(20), false).into_bytes();
    bad[25] = b'#';
    for size in [2usize, 4, 10] {
        assert_eq!(decode_in_chunks(&odd, size), decode(&odd));
        assert_eq!(decode_in_chunks(&odd, size), Err(HexError::OddLength));
        assert_eq!(decode_in_chunks(&bad, size), Err(HexError::InvalidChar(b'#')));
    }
}

#[test]
fn large_input_in_buffer_sized_chunks() {
    let b = sample(3 * BYTE_BUFFER_SIZE + 17);
    let text = encode_in_chunks(&b, BYTE_BUFFER_SIZE, false);
    assert_eq!(text, encode(&b, false));
    assert_eq!(decode_in_chunks(text.as_bytes(), HEX_BUFFER_SIZE), Ok(b));
}
