use std::borrow::Cow;

use p1689::json::{self, Bool, DecUint, Parser};
use p1689::number::{self, from_radix_10, from_radix_16};
use p1689::r5::parsers::{dep_file, ErrorKind};
use p1689::stream::{ErrorKind as StreamErrorKind, ParseStream, State};
use p1689::string::{bstr_to_utf8, json_string, json_string_sans_memchr, unescape_unicode};
use p1689::util::{count_escaped_strings, count_escapes};

fn stream(input: &[u8]) -> ParseStream<'_, ErrorKind> {
    ParseStream::new("test.ddi", input, State::default())
}

#[test]
#[should_panic(expected = "test.ddi:0:1: error: No remaining bytes\n")]
fn peek_byte() {
    let mut stream = stream(b"");
    if let Err(err) = stream.next_byte() {
        panic!("{}", err.to_string());
    }
}

#[test]
#[should_panic(expected = "test.ddi:1:2: error: Byte mismatch: expected `1`, actual `0`\n")]
fn match_byte() {
    let mut stream = stream(b"0");
    if let Err(err) = stream.match_byte(b'1') {
        panic!("{}", err.to_string());
    }
}

#[test]
#[should_panic(expected = "test.ddi:0:1: error: Remaining bytes less than requested slice length: remaining: 3, requested: 6\n")]
fn next_slice() {
    let mut stream = stream(b"foo");
    if let Err(err) = stream.next_slice(b"barbaz".len()) {
        panic!("{}", err.to_string());
    }
}

#[test]
#[should_panic(expected = "test.ddi:1:7: error: Slice mismatch: expected `barbaz`, actual `foobar`\n")]
fn match_slice() {
    let mut stream = stream(b"foobar");
    if let Err(err) = stream.match_slice(b"barbaz") {
        panic!("{}", err.to_string());
    }
}

#[test]
#[should_panic(expected = "test.ddi:1:2: error: Failed parsing bool\n")]
fn bool() {
    let mut stream = stream(b"#rue");
    if let Err(err) = Bool.parse(&mut stream) {
        panic!("{}", err.to_string());
    }
}

#[test]
#[should_panic(expected = "test.ddi:1:10: error: Failed parsing JSON object property:\nexpected one of: { ',', '}' }\n")]
fn field() {
    let mut stream = stream(b"\"key\": 0 #");
    let mut p = json::field(b"\"key\"".as_slice(), DecUint);
    if let Err(err) = p.parse(&mut stream) {
        panic!("{}", err.to_string());
    }
}

#[test]
#[should_panic(expected = "test.ddi:1:6: error: Failed parsing JSON array:\nexpected one of: { ',', ']' }\n")]
fn parsers_vec() {
    let mut stream = stream(b"[ 0 #");
    let mut p = json::vec(DecUint);
    if let Err(err) = p.parse(&mut stream) {
        panic!("{}", err.to_string());
    }
}

#[test]
fn parsers_number_from_radix_16_correct_static() {
    let char = '💯';
    let text = char.escape_unicode().to_string();
    let text = text.strip_prefix("\\u{").unwrap();
    let input = text.as_bytes();
    let (number, index) = from_radix_16(input);
    assert_eq!(number, u32::from(char));
    assert_eq!(index, text.strip_suffix("}").unwrap().len());
}

#[test]
fn winnow_number_from_radix_16_correct_static() {
    let char = '💯';
    let text = char.escape_unicode().to_string();
    let text = text.strip_prefix("\\u{").unwrap();
    let input = text.as_bytes();
    let (number, index) = from_radix_16(input);
    assert_eq!(number, u32::from(char));
    assert_eq!(index, text.strip_suffix("}").unwrap().len());
}

#[test]
fn number_from_radix_16_every_char_of_a_range() {
    for u in (0u32 .. 0x3000).chain(0x1f000 .. 0x1f800) {
        if let Some(char) = char::from_u32(u) {
            let text = char.escape_unicode().to_string();
            let text = text.strip_prefix("\\u{").unwrap();
            let (number, index) = from_radix_16(text.as_bytes());
            assert_eq!(number, u);
            assert_eq!(index, text.len() - 1);
        }
    }
}

#[test]
fn number_from_radix_10_stops_at_the_first_non_digit() {
    assert_eq!((4096, 4), from_radix_10(b"4096, 1"));
    assert_eq!((0, 0), from_radix_10(b"x"));
    assert_eq!((0, 0), from_radix_10(b""));
}

#[test]
fn number_from_radix_10_wraps_on_overflow() {
    assert_eq!((u32::MAX, 10), from_radix_10(b"4294967295"));
    assert_eq!((0, 10), from_radix_10(b"4294967296"));
}

#[test]
#[should_panic(expected = "test.ddi:0:1: error: Failed parsing JSON unsigned integer\n")]
fn dec_uint() {
    let mut stream = stream(b"true");
    if let Err(err) = number::dec_uint(&mut stream) {
        panic!("{}", err.to_string());
    }
}

#[test]
fn dec_uint_reads_the_digits_only() {
    let mut stream = stream(b"1689 ,");
    assert_eq!(1689, number::dec_uint(&mut stream).unwrap());
    assert_eq!(b" ,", stream.remaining());
}

#[test]
fn json_string_borrows_when_no_escapes_present() {
    let mut stream = stream(b"\"foobar\"");
    let val = json_string(&mut stream).unwrap();
    assert!(matches!(val, Cow::Borrowed(_)));
}

#[test]
fn json_string_borrows_when_escapes_present() {
    let mut stream = stream(b"\"foo\\nbar\"");
    let val = json_string(&mut stream).unwrap();
    assert!(matches!(val, Cow::Owned(_)));
}

#[test]
fn json_string_correctly_unescapes_while_parsing() {
    for (esc, raw) in [
        ('"', b'"'),
        ('\\', b'\\'),
        ('/', b'/'),
        ('b', 0x08),
        ('f', 0x0c),
        ('n', b'\n'),
        ('r', b'\r'),
        ('t', b'\t'),
    ] {
        let text = std::format!("\"foo\\{esc}bar\"");
        let mut stream = ParseStream::<()>::new("test.ddi", text.as_bytes(), State::default());
        let lhs = json_string(&mut stream).unwrap();
        let rhs = std::format!("\"foo{}bar\"", char::from(raw));
        assert_eq!(lhs, rhs);
    }
}

#[test]
fn json_string_sans_memchr_correctly_unescapes_while_parsing() {
    for (esc, raw) in [
        ('"', b'"'),
        ('\\', b'\\'),
        ('/', b'/'),
        ('b', 0x08),
        ('f', 0x0c),
        ('n', b'\n'),
        ('r', b'\r'),
        ('t', b'\t'),
    ] {
        let text = std::format!("\"foo\\{esc}bar\"");
        let mut stream = ParseStream::<()>::new("test.ddi", text.as_bytes(), State::default());
        let lhs = json_string_sans_memchr(&mut stream).unwrap();
        let rhs = std::format!("\"foo{}bar\"", char::from(raw));
        assert_eq!(lhs, rhs);
    }
}

#[test]
fn json_string_unescapes_unicode_escapes() {
    let text = "\"fo\\u{2764}o.\\u{1f4af}o\"";
    let mut stream = stream(text.as_bytes());
    let val = json_string(&mut stream).unwrap();
    assert_eq!(val, "\"fo\u{2764}o.\u{1f4af}o\"");
    let mut stream = self::stream(text.as_bytes());
    let val = json_string_sans_memchr(&mut stream).unwrap();
    assert_eq!(val, "\"fo\u{2764}o.\u{1f4af}o\"");
}

#[test]
fn json_string_stops_after_the_closing_quote() {
    let text = b"\"a\\tb\", \"c\"";
    let mut stream = stream(text);
    assert_eq!(json_string(&mut stream).unwrap(), "\"a\tb\"");
    assert_eq!(b", \"c\"", stream.remaining());
    let mut stream = self::stream(text);
    assert_eq!(json_string_sans_memchr(&mut stream).unwrap(), "\"a\tb\"");
    assert_eq!(b", \"c\"", stream.remaining());
}

#[test]
#[should_panic(expected = "test.ddi:0:1: error: UTF-8 validation failed:")]
fn bstr_to_utf8_expectedly_fails_invalid_utf8_borrowed() {
    let stream = stream(b"");
    let bor = [0xedu8, 0xa0u8, 0x80u8];
    if let Err(err) = bstr_to_utf8(&stream, Cow::Borrowed(bor.as_slice())) {
        panic!("{}", err.to_string());
    }
}

#[test]
#[should_panic(expected = "test.ddi:0:1: error: UTF-8 validation failed:")]
fn bstr_to_utf8_expectedly_fails_invalid_utf8_owned() {
    let stream = stream(b"");
    if let Err(err) = bstr_to_utf8(&stream, Cow::Owned(vec![0xed, 0xa0, 0x80])) {
        panic!("{}", err.to_string());
    }
}

#[test]
fn bstr_to_utf8_keeps_borrowed_and_owned_apart() {
    let stream = stream(b"");
    let bor = bstr_to_utf8(&stream, Cow::Borrowed(b"abc".as_slice())).unwrap();
    assert!(matches!(bor, Cow::Borrowed("abc")));
    let own = bstr_to_utf8(&stream, Cow::Owned(b"d\xc3\xa9f".to_vec())).unwrap();
    assert!(matches!(&own, Cow::Owned(s) if s == "d\u{e9}f"));
}

#[test]
#[should_panic(expected = "test.ddi:1:7: error: Conversion of unicode u32 to char failed: u32 value: 55296\n")]
fn unescape_unicode_expectedly_fails_invalid_utf8() {
    let mut dst = Cow::Owned(vec![]);
    let src: &[u8] = &[];
    let mut stream = stream(b"{D800}");
    if let Err(err) = unescape_unicode(&mut stream, &mut dst, src) {
        panic!("{}", err.to_string());
    }
}

#[test]
fn unescape_unicode_appends_the_encoding() {
    let mut dst = Cow::Owned(b"x".to_vec());
    let src: &[u8] = b"ab";
    let mut stream = stream(b"{1F4AF}rest");
    unescape_unicode(&mut stream, &mut dst, src).unwrap();
    assert_eq!(dst.as_ref(), b"xab\xf0\x9f\x92\xaf");
    assert_eq!(b"rest", stream.remaining());
}

#[test]
#[should_panic(expected = "test.ddi:0:1: error: End of string not found\n")]
fn json_string_partial_string() {
    let mut stream = stream(b"\"foo");
    if let Err(err) = json_string(&mut stream) {
        panic!("{}", err.to_string());
    }
}

#[test]
#[should_panic(expected = "test.ddi:0:1: error: End of string not found\n")]
fn json_string_sans_memchr_partial_string() {
    let mut stream = stream(b"\"foob4");
    if let Err(err) = json_string_sans_memchr(&mut stream) {
        panic!("{}", err.to_string());
    }
}

#[test]
#[should_panic(expected = "test.ddi:0:1: error: Byte mismatch: expected `\\\"`, actual `t`\n")]
fn json_string_non_string() {
    let mut stream = stream(b"true");
    if let Err(err) = json_string(&mut stream) {
        panic!("{}", err.to_string());
    }
}

#[test]
#[should_panic(expected = "test.ddi:0:1: error: Byte mismatch: expected `\\\"`, actual `t`\n")]
fn json_string_sans_memchr_non_string() {
    let mut stream = stream(b"true");
    if let Err(err) = json_string_sans_memchr(&mut stream) {
        panic!("{}", err.to_string());
    }
}

#[test]
#[should_panic(expected = "test.ddi:1:4: error: Failed parsing JSON string escape:\nexpected one of: { '\"', '\\', '/', 'b', 'f', 'n', 'r', 't', 'u' }\n")]
fn unescape() {
    let mut stream = stream(b"\"\\#\"");
    if let Err(err) = json_string(&mut stream) {
        panic!("{}", err.to_string());
    }
}

#[test]
fn error() {
    let input = b"";
    let stream = &mut stream(input);
    for e in [
        ErrorKind::DepFile,
        ErrorKind::DepInfo,
        ErrorKind::LookupMethod,
        ErrorKind::ProvidedModuleDesc,
        ErrorKind::RequiredModuleDesc,
    ] {
        match e.error(stream).error {
            StreamErrorKind::Other { error } => assert_eq!(e, error),
            _ => panic!(),
        }
    }
}

#[test]
fn parsers_check_has_escapes() {
    let text = r#"
            {
                "version": 1,
                "revision": 0,
                "rules": [
                    {
                        "work-directory": "build",
                        "primary-output": "fo\u{2764}o.\u{1f4af}o",
                        "outputs": [
                            "foo.d"
                        ],
                        "provides": [],
                        "requires": []
                    }
                ]
            }
            "#;
    let mut stream = stream(text.as_bytes());
    let dep_file = dep_file(&mut stream).unwrap();
    assert_eq!(2, count_escapes(text));
    assert_eq!(1, count_escaped_strings(text).1);
    assert_eq!(0, dep_file.count_escapes_total());
    assert_eq!(1, dep_file.count_copies());
}

#[test]
fn json_string_readers_agree_when_no_escape_precedes_a_stop() {
    for text in [&b"\"plain\""[..], b"\"a\\nb\\u{41}c\"", b"\"\\tx\\\\y\""] {
        let mut fst = stream(text);
        let mut snd = stream(text);
        let a = json_string(&mut fst).unwrap();
        let b = json_string_sans_memchr(&mut snd).unwrap();
        assert_eq!(a, b);
        assert_eq!(matches!(a, Cow::Owned(_)), matches!(b, Cow::Owned(_)));
        assert_eq!(fst.remaining(), snd.remaining());
    }
}

#[test]
fn json_string_sans_memchr_skips_the_byte_after_an_escape() {
    let text = b"\"a\\n\"";
    let mut fst = stream(text);
    assert_eq!(json_string(&mut fst).unwrap(), "\"a\n\"");
    let mut snd = stream(text);
    let err = json_string_sans_memchr(&mut snd).unwrap_err();
    assert!(matches!(err.error, StreamErrorKind::EndOfStringNotFound));
}

#[test]
fn error_messages_escape_bytes_as_ascii() {
    let mut stream = stream(b"\x01");
    let err = stream.match_byte(0xff).unwrap_err();
    assert_eq!("test.ddi:1:2: error: Byte mismatch: expected `\\xff`, actual `\\x01`\n", err.to_string());
    let mut stream = self::stream(b"a\tb\n");
    let err = stream.match_slice(b"a'\\\n").unwrap_err();
    assert_eq!(
        "test.ddi:1:4: error: Slice mismatch: expected `a\\'\\\\\\n`, actual `a\\tb\\n`\n",
        err.to_string()
    );
}

#[test]
fn error_messages_count_rows_and_columns_by_lines() {
    let mut stream = stream(b"ab\r\ncd");
    stream.next_slice(6).unwrap();
    let err = stream.next_byte().unwrap_err();
    assert_eq!((2, 3), err.context());
    assert_eq!("test.ddi:2:3: error: No remaining bytes\n", err.to_string());
    let mut stream = self::stream(b"ab\r\n");
    stream.next_slice(4).unwrap();
    let err = stream.next_byte().unwrap_err();
    assert_eq!((1, 3), err.context());
}

#[test]
fn failed_reads_leave_the_stream_where_the_error_was_raised() {
    let mut st = stream(b"foo");
    assert!(st.next_slice(6).is_err());
    assert_eq!(b"foo", st.remaining());

    let mut st = stream(b"foobar");
    assert!(st.match_slice(b"barbaz").is_err());
    assert!(st.remaining().is_empty());

    let mut st = stream(b"0");
    assert!(st.match_byte(b'1').is_err());
    assert!(st.remaining().is_empty());

    let mut st = stream(b"true");
    assert!(number::dec_uint(&mut st).is_err());
    assert_eq!(b"true", st.remaining());

    let mut st = stream(b"#rue");
    assert!(Bool.parse(&mut st).is_err());
    assert_eq!(b"rue", st.remaining());
}

#[test]
fn unescape_unicode_leaves_the_destination_on_failure() {
    let mut dst = Cow::Owned(b"kept".to_vec());
    let src: &[u8] = b"ab";
    let mut st = stream(b"{D800}");
    assert!(unescape_unicode(&mut st, &mut dst, src).is_err());
    assert!(matches!(&dst, Cow::Owned(v) if v.as_slice() == b"kept"));
}

#[test]
fn context_counts_invalid_utf8_as_replacement_characters() {
    let input: &[u8] = b"\xff\n\xffab";
    let err = p1689::stream::Error::<'_, ErrorKind> {
        path: "test.ddi",
        input,
        bytes: &input[input.len()..],
        error: StreamErrorKind::NextByte,
    };
    assert_eq!((2, 6), err.context());
    assert_eq!(Some((2, 6)), err.try_context());
    assert_eq!("test.ddi:2:6: error: No remaining bytes\n", err.try_to_string().unwrap());
}

#[test]
fn context_is_refused_inside_a_character() {
    let input: &[u8] = "\u{e9}".as_bytes();
    let err = p1689::stream::Error::<'_, ErrorKind> {
        path: "test.ddi",
        input,
        bytes: &input[1..],
        error: StreamErrorKind::NextByte,
    };
    assert_eq!(None, err.try_context());
    assert!(err.try_to_string().is_none());
}
