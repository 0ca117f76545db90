use resp::command::Command;
use resp::parser::{read_i64, read_str, ParseError, ParseErrorKind, RespParser};
use resp::types::{BulkString, ErrorString, RespReadable, RespValue, RespWritable};
use resp::writer::{RespWriter, WriteBuf};

fn encode(v: &RespValue) -> Vec<u8> {
    let mut buf = WriteBuf::new(Vec::new());
    let mut writer = RespWriter::new(&mut buf);
    v.write(&mut writer).unwrap();
    buf.get().clone()
}

fn decode(bytes: &[u8]) -> Result<RespValue, ParseError> {
    let mut parser = RespParser::new(bytes);
    RespValue::parse(&mut parser)
}

fn kind(k: ParseErrorKind) -> ParseError {
    ParseError::new(k)
}

fn bulk(s: &str) -> RespValue {
    RespValue::Bulk(BulkString::new(s.to_string()))
}

#[test]
fn bulk_drops_bytes_past_its_length() {
    assert_eq!(decode(b"$3\r\nGET2\r\n"), Ok(bulk("GET")));
}

#[test]
fn missing_terminator_on_each_line_kind() {
    let e = Err(kind(ParseErrorKind::MissingCRLF));
    assert_eq!(decode(b"+OK"), e);
    assert_eq!(decode(b"-ERR bad"), e);
    assert_eq!(decode(b":12"), e);
    assert_eq!(decode(b"$2\r\nab"), e);
    assert_eq!(decode(b"$2"), e);
    assert_eq!(decode(b"+OK\r"), e);
    assert_eq!(decode(b"+OK\n"), e);
}

#[test]
fn negative_lengths_and_counts() {
    assert_eq!(decode(b"$-1\r\n"), Err(kind(ParseErrorKind::InvalidLength { len: -1 })));
    assert_eq!(decode(b"$-1234\r\n"), Err(kind(ParseErrorKind::InvalidLength { len: -1234 })));
    assert_eq!(decode(b"*-1\r\n"), Err(kind(ParseErrorKind::InvalidLength { len: -1 })));
    let mut parser = RespParser::new(b"*-5\r\n$1\r\nx\r\n");
    assert_eq!(
        Vec::<BulkString>::parse(&mut parser),
        Err(kind(ParseErrorKind::InvalidLength { len: -5 }))
    );
}

#[test]
fn literal_scenarios() {
    assert_eq!(decode(b":5\r\n"), Ok(RespValue::Integer(5)));
    assert_eq!(
        decode(b":12345678901234567890\r\n"),
        Err(kind(ParseErrorKind::IntegerOverflow))
    );
    assert_eq!(decode(b"$12\r\nHello, World\r\n"), Ok(bulk("Hello, World")));
    assert_eq!(
        decode(b"*2\r\n$3\r\nGET\r\n$3\r\nkey\r\n"),
        Ok(RespValue::Array(vec![bulk("GET"), bulk("key")]))
    );
    assert_eq!(
        decode(b"*3\r\n$3\r\nset\r\n$3\r\nkey\r\n$5\r\nvalue_someextradata\r\n"),
        Ok(RespValue::Array(vec![bulk("set"), bulk("key"), bulk("value")]))
    );
}

#[test]
fn error_reader_rejects_plus_only_through_its_own_tags() {
    let mut parser = RespParser::new(b"+Unknown tag\r\n");
    assert_eq!(String::parse(&mut parser), Ok("Unknown tag".to_string()));
    let mut parser = RespParser::new(b"+Unknown tag\r\n");
    assert_eq!(
        ErrorString::parse(&mut parser),
        Err(kind(ParseErrorKind::InvalidTag { tag: b'+' }))
    );
    let mut parser = RespParser::new(b"-Unknown tag\r\n");
    assert_eq!(ErrorString::parse(&mut parser), Ok(ErrorString("Unknown tag".to_string())));
    let mut parser = RespParser::new(b"-Incomplete");
    assert_eq!(ErrorString::parse(&mut parser), Err(kind(ParseErrorKind::MissingCRLF)));
}

#[test]
fn integer_boundaries() {
    assert_eq!(read_i64(b"9223372036854775799"), Ok(9223372036854775799));
    assert_eq!(read_i64(b"-9223372036854775799"), Ok(-9223372036854775799));
    assert_eq!(read_i64(b"+1234567890123456789"), Ok(1234567890123456789));
    assert_eq!(read_i64(b"9223372036854775800"), Err(kind(ParseErrorKind::IntegerOverflow)));
    assert_eq!(read_i64(b"9223372036854775807"), Err(kind(ParseErrorKind::IntegerOverflow)));
    assert_eq!(read_i64(b"10000000000000000000"), Err(kind(ParseErrorKind::IntegerOverflow)));
    assert_eq!(read_i64(b"-10000000000000000000"), Err(kind(ParseErrorKind::IntegerOverflow)));
    assert_eq!(read_i64(b"+10000000000000000000"), Err(kind(ParseErrorKind::IntegerOverflow)));
    assert_eq!(read_i64(b"000000000000000000001"), Err(kind(ParseErrorKind::IntegerOverflow)));
    assert_eq!(read_i64(b""), Ok(0));
    assert_eq!(read_i64(b"-"), Ok(0));
    assert_eq!(read_i64(b"-0"), Ok(0));
    assert_eq!(read_i64(b"12x"), Err(kind(ParseErrorKind::InvalidIntegerData { data: b'x' })));
}

#[test]
fn empty_input_errors() {
    assert_eq!(decode(b""), Err(kind(ParseErrorKind::EmptyData)));
    let mut parser = RespParser::new(b"");
    assert_eq!(BulkString::parse(&mut parser), Err(kind(ParseErrorKind::EmptyData)));
    let mut parser = RespParser::new(b"");
    assert_eq!(String::parse(&mut parser), Err(kind(ParseErrorKind::MissingData { needed: 1 })));
    assert_eq!(decode(b"?x\r\n"), Err(kind(ParseErrorKind::InvalidTag { tag: b'?' })));
}

#[test]
fn invalid_utf8_is_rejected() {
    assert_eq!(read_str(&[0xff, 0x41]), Err(kind(ParseErrorKind::InvalidUtf8Data)));
    assert_eq!(read_str("h\u{e9}".as_bytes()), Ok("h\u{e9}".to_string()));
    assert_eq!(decode(b"$1\r\n\xc3\xa9\r\n"), Err(kind(ParseErrorKind::InvalidUtf8Data)));
}

#[test]
fn cursor_reads() {
    let mut parser = RespParser::new(b"ab\r\ncd");
    assert_eq!(parser.peek_first(), Some(&b'a'));
    assert_eq!(parser.read_bytes(1), Ok(&b"a"[..]));
    assert_eq!(parser.read_line(), Ok(&b"b"[..]));
    assert_eq!(
        parser.read_bytes(5),
        Err(kind(ParseErrorKind::MissingData { needed: 3 }))
    );
    assert_eq!(parser.read_line(), Err(kind(ParseErrorKind::MissingCRLF)));
    assert_eq!(parser.read_bytes(2), Ok(&b"cd"[..]));
    assert_eq!(parser.peek_first(), None);
    assert_eq!(parser.read_line(), Err(kind(ParseErrorKind::MissingCRLF)));
}

#[test]
fn command_frame_of_bulk_strings() {
    let mut parser = RespParser::new(b"*2\r\n$3\r\nGET\r\n$3\r\nkey\r\n");
    let frame = Vec::<BulkString>::parse(&mut parser).unwrap();
    assert_eq!(frame, vec![BulkString::new("GET".to_string()), BulkString::new("key".to_string())]);
    let mut parser = RespParser::new(b"*1\r\n+GET\r\n");
    assert_eq!(
        Vec::<BulkString>::parse(&mut parser),
        Err(kind(ParseErrorKind::InvalidTag { tag: b'+' }))
    );
}

#[test]
fn wire_forms() {
    assert_eq!(encode(&RespValue::Null), b"$-1\r\n".to_vec());
    assert_eq!(encode(&RespValue::Simple("OK".to_string())), b"+OK\r\n".to_vec());
    assert_eq!(encode(&RespValue::Error("bad".to_string())), b"-bad\r\n".to_vec());
    assert_eq!(encode(&RespValue::Integer(-42)), b":-42\r\n".to_vec());
    assert_eq!(encode(&RespValue::Integer(0)), b":0\r\n".to_vec());
    assert_eq!(
        encode(&RespValue::Integer(i64::MIN)),
        b":-9223372036854775808\r\n".to_vec()
    );
    assert_eq!(encode(&bulk("h\u{e9}")), b"$3\r\nh\xc3\xa9\r\n".to_vec());
    assert_eq!(
        encode(&RespValue::Array(vec![bulk("GET"), RespValue::Integer(7)])),
        b"*2\r\n$3\r\nGET\r\n:7\r\n".to_vec()
    );
    assert_eq!(encode(&RespValue::Array(vec![])), b"*0\r\n".to_vec());
}

#[test]
fn round_trips() {
    let values = vec![
        RespValue::Simple("hello world".to_string()),
        RespValue::Error("ERR oops".to_string()),
        RespValue::Integer(-9223372036854775799),
        RespValue::Integer(9223372036854775799),
        bulk(""),
        bulk("caf\u{e9}"),
        RespValue::Array(vec![
            bulk("SET"),
            RespValue::Array(vec![RespValue::Integer(1), RespValue::Simple("x".to_string())]),
        ]),
    ];
    for v in values {
        assert_eq!(decode(&encode(&v)), Ok(v));
    }
}

#[test]
fn values_outside_the_round_trip() {
    assert_eq!(
        decode(&encode(&RespValue::Integer(i64::MAX))),
        Err(kind(ParseErrorKind::IntegerOverflow))
    );
    assert_eq!(
        decode(&encode(&RespValue::Null)),
        Err(kind(ParseErrorKind::InvalidLength { len: -1 }))
    );
}

#[test]
fn write_buffer_appends() {
    let mut buf = WriteBuf::new(vec![1]);
    assert!(!buf.is_empty());
    buf.push_u8(2).unwrap();
    buf.push_bytes(&[3, 4]).unwrap();
    assert_eq!(buf.get(), &vec![1, 2, 3, 4]);
    assert_eq!(buf.len(), 4);
    buf.get_mut().clear();
    assert!(buf.is_empty());
    let mut writer = RespWriter::new(&mut buf);
    writer.write_u8(b'+').unwrap();
    writer.write_crlf().unwrap();
    writer.write_value(&"x".to_string()).unwrap();
    writer.write_value(&12i64).unwrap();
    assert_eq!(writer.buffer().get(), &b"+\r\n+x\r\n:12\r\n".to_vec());
}

#[test]
fn commands_from_frames() {
    let frame = |items: &[&str]| -> Vec<BulkString> {
        items.iter().map(|s| BulkString::new(s.to_string())).collect()
    };
    match Command::from_cmd(&frame(&["GET", "k"])) {
        Some(Command::Get { key }) => assert_eq!(key.value(), "k"),
        other => panic!("unexpected {:?}", other),
    }
    match Command::from_cmd(&frame(&["SET", "k", "v"])) {
        Some(Command::SetValue { key, value }) => {
            assert_eq!(key.value(), "k");
            assert_eq!(value.value(), "v");
        }
        other => panic!("unexpected {:?}", other),
    }
    match Command::from_cmd(&frame(&["DEL", "k"])) {
        Some(Command::Del { key }) => assert_eq!(key.value(), "k"),
        other => panic!("unexpected {:?}", other),
    }
    assert!(Command::from_cmd(&frame(&["get", "k"])).is_none());
    assert!(Command::from_cmd(&frame(&["GET"])).is_none());
    assert!(Command::from_cmd(&frame(&["SET", "k"])).is_none());
    assert!(Command::from_cmd(&frame(&[])).is_none());
}

#[test]
fn command_responses() {
    let key = BulkString::new("k".to_string());
    let get = Command::Get { key: key.clone() };
    assert_eq!(get.response(Some("v".to_string())), bulk("v"));
    assert_eq!(get.response(None), RespValue::Null);
    let set = Command::SetValue { key: key.clone(), value: key.clone() };
    assert_eq!(set.response(None), RespValue::Simple("OK".to_string()));
    let del = Command::Del { key };
    assert_eq!(del.response(Some("v".to_string())), RespValue::Simple("OK".to_string()));
    assert_eq!(del.response(None), RespValue::Null);
}

#[test]
fn bulk_string_accessors() {
    let mut b = BulkString::new("ab".to_string());
    b.value_mut().push('c');
    assert_eq!(b.value(), "abc");
    assert!(<Vec<RespValue>>::can_parse(b'*'));
    assert!(!BulkString::can_parse(b'*'));
    assert!(i64::can_parse(b'$'));
    assert!(String::can_parse(b'-'));
    assert!(RespValue::can_parse(b'x'));
}
