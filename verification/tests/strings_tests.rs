use annul::strings::strings;
use annul::strings::satrings;
use annul::strings::find_chars;
use annul::strings::classify;
use annul::strings::get_char;
use annul::strings::follower;
use annul::strings::Char;
use annul::strings::Classification;
use annul::strings::ShortArray;
use annul::strings::StringBuf;

fn check(expected: &[u8], data: &[u8]) {
    let actual = strings(data);

    assert_eq!(
        String::from_utf8_lossy(expected),
        String::from_utf8_lossy(&actual)
    );
    assert_eq!(expected, actual.as_slice());
}

#[test]
fn strings_all_ascii() {
    check(b"hello", b"hello");
}

#[test]
fn strings_crush_unprintable() {
    check(b"hello\0world", b"hello\0\x01\x02\x03world");
}

#[test]
fn plain_text_round_trip_any_chunking() {
    let data: &[u8] = b"line one\nline two\ttabbed\r\nend";
    // one chunk
    assert_eq!(strings(data), data.to_vec());
    // byte-at-a-time
    assert_eq!(satrings(data), data.to_vec());
    // a few uneven chunkings
    for split in [1usize, 3, 7, 11, 28] {
        let mut sb = StringBuf::new();
        let mut out = Vec::new();
        sb.accept(&data[..split], &mut out);
        sb.accept(&data[split..], &mut out);
        sb.finish(&mut out);
        assert_eq!(out, data.to_vec());
    }
}

#[test]
fn noise_collapse() {
    let mut input = Vec::new();
    input.extend_from_slice(b"hello");
    input.extend_from_slice(&[0x01, 0x02, 0x03]);
    input.extend_from_slice(b"world");
    let mut expected = Vec::new();
    expected.extend_from_slice(b"hello");
    expected.push(0x00);
    expected.extend_from_slice(b"world");
    assert_eq!(strings(&input), expected);
}

#[test]
fn short_run_discarded() {
    // at most three text bytes before a third consecutive binary byte
    let input = [b'a', b'b', 0x01, 0x02, 0x03];
    assert_eq!(strings(&input), Vec::<u8>::new());
    let input3 = [b'a', b'b', b'c', 0x01, 0x02, 0x03];
    assert_eq!(strings(&input3), Vec::<u8>::new());
    // four text bytes survive, with a NUL marking the suppressed noise
    let input4 = [b'a', b'b', b'c', b'd', 0x01, 0x02, 0x03];
    assert_eq!(strings(&input4), vec![b'a', b'b', b'c', b'd', 0x00]);
}

#[test]
fn multibyte_preserved_across_chunks() {
    // U+20AC in UTF-8: three bytes
    let euro = [0xe2u8, 0x82, 0xac];
    let mut whole = Vec::new();
    whole.extend_from_slice(b"cost ");
    whole.extend_from_slice(&euro);
    whole.extend_from_slice(b"5");

    let at_once = strings(&whole);

    let mut sb = StringBuf::new();
    let mut split = Vec::new();
    sb.accept(&whole[..6], &mut split); // one byte of the sequence
    sb.accept(&whole[6..], &mut split); // the other two
    sb.finish(&mut split);

    assert_eq!(at_once, split);
    assert_eq!(at_once, whole);
}

#[test]
fn invalid_continuation_resumes_at_next_byte() {
    // a two-byte lead followed by plain ASCII: the lead alone becomes noise,
    // the ASCII byte is scanned normally and not consumed twice
    let input = [0xc3u8, b'a', b'b', b'c', b'd'];
    assert_eq!(strings(&input), b"abcd".to_vec());
}

#[test]
fn incomplete_sequence_at_end_flushed_verbatim() {
    // a four-byte lead with only two continuation bytes at end of input
    let input = [b'w', b'o', b'r', b'd', 0xf0u8, 0x90, 0x8d];
    assert_eq!(strings(&input), input.to_vec());
}

#[test]
fn long_run_force_flush_keeps_bytes() {
    let data = vec![b'x'; 1000];
    assert_eq!(strings(&data), data);
    // the same when fed in small chunks
    let mut sb = StringBuf::new();
    let mut out = Vec::new();
    for chunk in data.chunks(17) {
        sb.accept(chunk, &mut out);
    }
    sb.finish(&mut out);
    assert_eq!(out, data);
}

#[test]
fn find_chars_units() {
    // 'a', then U+00E9 (two bytes), then a binary byte
    let data = [b'a', 0xc3, 0xa9, 0x01];
    let chars = find_chars(&data);
    assert_eq!(chars.len(), 3);
    assert!(matches!(chars[0], Char::Printable(ShortArray::One(b'a'))));
    assert!(matches!(chars[1], Char::Printable(ShortArray::Two(0xc3, 0xa9))));
    assert!(matches!(chars[2], Char::Binary(0x01)));
    // an undecided trailing lead yields no unit
    let tail = [b'a', 0xe2, 0x82];
    let chars = find_chars(&tail);
    assert_eq!(chars.len(), 1);
}

#[test]
fn classify_all_classes() {
    assert_eq!(classify(0x00), Classification::Binary);
    assert_eq!(classify(b'\t'), Classification::Ascii);
    assert_eq!(classify(b'\n'), Classification::Ascii);
    assert_eq!(classify(b'\r'), Classification::Ascii);
    assert_eq!(classify(b'a'), Classification::Ascii);
    assert_eq!(classify(0x80), Classification::UtfFollower);
    assert_eq!(classify(0xc3), Classification::Utf2);
    assert_eq!(classify(0xe2), Classification::Utf3);
    assert_eq!(classify(0xf0), Classification::Utf4);
    assert_eq!(classify(0x7f), Classification::Binary); // DEL is not printable
    assert_eq!(classify(0xff), Classification::Binary);
    assert!(follower(0xa9));
    assert!(!follower(b'a'));
}

#[test]
fn get_char_lookahead() {
    assert!(matches!(get_char(&[]), Char::Short(1)));
    assert!(matches!(get_char(&[0xc3]), Char::Short(1)));
    assert!(matches!(get_char(&[0xe2]), Char::Short(2)));
    assert!(matches!(get_char(&[0xe2, 0x82]), Char::Short(1)));
    assert!(matches!(get_char(&[0xf0]), Char::Short(3)));
    assert!(matches!(get_char(&[0xf0, 0x90]), Char::Short(2)));
    assert!(matches!(get_char(&[0xf0, 0x90, 0x8d]), Char::Short(1)));
    assert!(matches!(
        get_char(&[0xf0, 0x90, 0x8d, 0x88]),
        Char::Printable(ShortArray::Four(0xf0, 0x90, 0x8d, 0x88))
    ));
    assert!(matches!(get_char(&[0x1b, b'a']), Char::Binary(0x1b)));
    assert!(matches!(get_char(&[0x80]), Char::Binary(0x80)));
}

#[test]
fn char_lengths_and_push() {
    assert_eq!(Char::Binary(7).len(), 1);
    assert_eq!(Char::Printable(ShortArray::Three(1, 2, 3)).len(), 3);
    assert_eq!(Char::Short(2).len(), 2);
    assert_eq!(ShortArray::One(9).len(), 1);
    assert_eq!(ShortArray::Four(1, 2, 3, 4).len(), 4);
    let mut v = vec![0u8];
    ShortArray::Two(5, 6).push_to(&mut v);
    assert_eq!(v, vec![0, 5, 6]);
}

#[test]
fn empty_input_empty_output() {
    assert_eq!(strings(b""), Vec::<u8>::new());
    assert_eq!(satrings(b""), Vec::<u8>::new());
    assert_eq!(find_chars(b""), Vec::new());
}

#[test]
fn trailing_tolerated_noise_kept_at_end() {
    // up to two binary bytes at end of input stay in the flushed run
    let input = [b'o', b'k', 0x01, 0x02];
    assert_eq!(strings(&input), input.to_vec());
}

#[test]
fn satrings_matches_strings_on_mixed_input() {
    let mut input = Vec::new();
    input.extend_from_slice(b"mixed ");
    input.extend_from_slice(&[0xe2, 0x82, 0xac, 0x07, 0x08]);
    input.extend_from_slice(b" tail");
    input.extend_from_slice(&[0x01, 0x02, 0x03, 0x04]);
    assert_eq!(strings(&input), satrings(&input));
}
