use ccwc::counter::CodepointCounter;
use ccwc::mode::{parse_mode, Mode};
use ccwc::utf8::validate_utf8;

/// Feeds `data` to a counter of the given capacity, at most `step` bytes at a
/// time, and returns the final count.
fn count_in_chunks(data: &[u8], capacity: usize, step: usize) -> usize {
    let mut counter = CodepointCounter::new(capacity);
    let mut pos = 0;
    loop {
        let n = step.min(counter.room()).min(data.len() - pos);
        if let Some(total) = counter.feed(&data[pos..pos + n]) {
            return total;
        }
        pos += n;
    }
}

#[test]
fn ascii_count_is_byte_length_at_any_capacity() {
    let data = b"hello, world\nsecond line\n";
    for capacity in [4, 5, 16, data.len(), data.len() + 1, 4096] {
        for step in [1, 2, 3, 7, data.len()] {
            assert_eq!(count_in_chunks(data, capacity, step), data.len());
        }
    }
}

#[test]
fn one_byte_chunks_match_one_chunk() {
    let data = "añ€😀z\u{7ff}\u{800}\u{ffff}\u{10000}\u{10ffff}".as_bytes();
    let whole = count_in_chunks(data, 4096, data.len());
    assert_eq!(whole, 10);
    assert_eq!(count_in_chunks(data, 4096, 1), whole);
    assert_eq!(count_in_chunks(data, 4, 1), whole);
}

#[test]
fn round_trip_at_every_split() {
    let text = "a\u{e9}\u{20ac}\u{1f600}b\u{3b1}\u{4e2d}\u{10348}";
    let data = text.as_bytes();
    let expected = text.chars().count();
    assert_eq!(expected, 8);
    for capacity in 4..=data.len() + 1 {
        for step in 1..=data.len() {
            assert_eq!(count_in_chunks(data, capacity, step), expected);
        }
    }
}

#[test]
fn empty_input_counts_zero() {
    let mut counter = CodepointCounter::new(4096);
    assert_eq!(counter.feed(&[]), Some(0));
    assert_eq!(count_in_chunks(&[], 4, 1), 0);
}

#[test]
fn truncated_end_is_not_counted() {
    // "ab" then the lead byte of a three-byte encoding.
    let data = [b'a', b'b', 0xe2];
    assert_eq!(count_in_chunks(&data, 4096, 3), 2);
    assert_eq!(count_in_chunks(&data, 4, 1), 2);
    // Two bytes out of three.
    let data = [b'a', 0xe2, 0x82];
    assert_eq!(count_in_chunks(&data, 4096, 3), 1);
    assert_eq!(count_in_chunks(&data, 4, 1), 1);
    // Three bytes out of four.
    let data = [0xf0, 0x9f, 0x98];
    assert_eq!(count_in_chunks(&data, 4, 1), 0);
}

#[test]
fn cafe_in_one_byte_chunks() {
    let data = "café".as_bytes();
    assert_eq!(data.len(), 5);
    assert_eq!(count_in_chunks(data, 4096, 1), 4);
}

#[test]
fn ascii_one_past_capacity() {
    let data = vec![b'x'; 4097];
    let mut counter = CodepointCounter::new(4096);
    assert_eq!(counter.room(), 4096);
    assert_eq!(counter.feed(&data[..4096]), None);
    assert_eq!(counter.total(), 4096);
    assert_eq!(counter.room(), 4096);
    assert_eq!(counter.feed(&data[4096..]), None);
    assert_eq!(counter.feed(&[]), Some(4097));
}

#[test]
fn three_byte_scalar_split_after_its_lead_byte() {
    let euro = "€".as_bytes();
    assert_eq!(euro.len(), 3);
    let mut counter = CodepointCounter::new(4);
    assert_eq!(counter.feed(&[b'a', b'b', b'c', euro[0]]), None);
    assert_eq!(counter.total(), 3);
    assert_eq!(counter.room(), 3);
    assert_eq!(counter.feed(&euro[1..]), None);
    assert_eq!(counter.total(), 4);
    assert_eq!(counter.room(), 4);
    assert_eq!(counter.feed(&[]), Some(4));
}

#[test]
fn invalid_bytes_end_the_count() {
    // Four or more bytes after the well-formed prefix make the count final.
    let data = [b'a', b'b', 0xff, b'c', b'd', b'e'];
    let mut counter = CodepointCounter::new(4096);
    assert_eq!(counter.feed(&data), Some(2));
    assert_eq!(count_in_chunks(&data, 4, 1), 2);
    // Fewer are carried and dropped at the end.
    assert_eq!(count_in_chunks(&[b'a', 0xff, b'c'], 4096, 3), 1);
}

#[test]
fn malformed_encodings_are_not_counted() {
    // Overlong encoding of '/'.
    assert_eq!(count_in_chunks(&[0xc0, 0xaf], 4096, 2), 0);
    // An encoded surrogate.
    assert_eq!(count_in_chunks(&[b'a', 0xed, 0xa0, 0x80], 4096, 4), 1);
    // Beyond U+10FFFF.
    assert_eq!(count_in_chunks(&[0xf4, 0x90, 0x80, 0x80], 4096, 4), 0);
    // A lone continuation byte.
    assert_eq!(count_in_chunks(&[b'a', 0x80], 4096, 2), 1);
}

#[test]
fn validate_utf8_whole_and_prefix() {
    assert_eq!(validate_utf8("café".as_bytes()), Ok(4));
    assert_eq!(validate_utf8(&[]), Ok(0));
    assert_eq!(validate_utf8(&[b'a', b'b', 0xe2, 0x82]), Err((2, 2)));
    assert_eq!(validate_utf8(&[0xff]), Err((0, 1)));
    assert_eq!(validate_utf8("😀".as_bytes()), Ok(1));
}

#[test]
fn option_words_select_modes() {
    assert_eq!(parse_mode(b"-c"), Some(Mode::Bytes));
    assert_eq!(parse_mode(b"-l"), Some(Mode::Lines));
    assert_eq!(parse_mode(b"-w"), Some(Mode::Words));
    assert_eq!(parse_mode(b"-m"), Some(Mode::Characters));
    assert_eq!(parse_mode(b"default"), Some(Mode::All));
    assert_eq!(parse_mode(b"-x"), None);
    assert_eq!(parse_mode(b""), None);
    assert_eq!(parse_mode(b"defaults"), None);
}
