use resp::parser::{ParseError, ParseErrorKind, ParseResult, RespParser};
use resp::types::{BulkString, RespReadable, RespValue};

#[test]
fn test_parse_i64() {
    let inputs = [
        b":5\r\n".to_vec(),
        b":1234\r\n".to_vec(),
        b":32345678\r\n".to_vec(),
        b":48713467133413751634\r\n".to_vec(),
        b":48a71346713a\r\n".to_vec(),
        b":48a\r\n".to_vec(),
        b":48a".to_vec(),
        b"48\r\n".to_vec(),
        b"1234".to_vec(),
        b":-5712346\r\n".to_vec(),
        b":-1234567890123456789\r\n".to_vec(),
        b":1234567890123456789\r\n".to_vec(),
        b":12345678901234567890\r\n".to_vec(),
        b":+1234567890123456789\r\n".to_vec(),
        b":+12345678901234567890\r\n".to_vec(),
        b":-12345678901234567890\r\n".to_vec(),
    ];
    let expects: &[ParseResult<i64>] = &[
        Ok(5),
        Ok(1234),
        Ok(32345678),
        Err(ParseError::new(ParseErrorKind::IntegerOverflow)),
        Err(ParseError::new(ParseErrorKind::InvalidIntegerData { data: b'a' })),
        Err(ParseError::new(ParseErrorKind::InvalidIntegerData { data: b'a' })),
        Err(ParseError::new(ParseErrorKind::MissingCRLF)),
        Err(ParseError::new(ParseErrorKind::InvalidTag { tag: b'4' })),
        Err(ParseError::new(ParseErrorKind::InvalidTag { tag: b'1' })),
        Ok(-5712346),
        Ok(-1234567890123456789),
        Ok(1234567890123456789),
        Err(ParseError::new(ParseErrorKind::IntegerOverflow)),
        Ok(1234567890123456789),
        Err(ParseError::new(ParseErrorKind::IntegerOverflow)),
        Err(ParseError::new(ParseErrorKind::IntegerOverflow)),
    ];

    assert_eq!(inputs.len(), expects.len());
    for i in 0..inputs.len() {
        let mut parser = RespParser::new(inputs[i].as_slice());
        let val = i64::parse(&mut parser);
        assert_eq!(val, expects[i]);
    }
}

#[test]
fn test_parse_simple() {
    let inputs = [
        b"+This is a simple string\r\n".to_vec(),
        b"+This is another simple string that is longer than other simple string\r\n".to_vec(),
        b"+GET\r\n".to_vec(),
        b"Unknown tag\r\n".to_vec(),
        b"-Unknown tag\r\n".to_vec(),
        b"+Incomplete data".to_vec(),
        b"+Incomplete data\r".to_vec(),
    ];
    let expects: &[ParseResult<String>] = &[
        Ok("This is a simple string".to_string()),
        Ok("This is another simple string that is longer than other simple string".to_string()),
        Ok("GET".to_string()),
        Err(ParseError::new(ParseErrorKind::InvalidTag { tag: b'U' })),
        Ok("Unknown tag".to_string()),
        Err(ParseError::new(ParseErrorKind::MissingCRLF)),
        Err(ParseError::new(ParseErrorKind::MissingCRLF)),
    ];

    assert_eq!(inputs.len(), expects.len());
    for i in 0..inputs.len() {
        let mut parser = RespParser::new(&inputs[i]);
        let val = String::parse(&mut parser);
        assert_eq!(val, expects[i]);
    }
}

#[test]
fn test_parse_error() {
    let inputs = [
        b"-This is a simple string\r\n".to_vec(),
        b"-This is another simple string that is longer than other simple string\r\n".to_vec(),
        b"-GET\r\n".to_vec(),
        b"Unknown tag\r\n".to_vec(),
        b"+Unknown tag\r\n".to_vec(),
        b"-Incomplete data".to_vec(),
        b"-Incomplete data\r".to_vec(),
    ];
    let expects: &[ParseResult<String>] = &[
        Ok("This is a simple string".to_string()),
        Ok("This is another simple string that is longer than other simple string".to_string()),
        Ok("GET".to_string()),
        Err(ParseError::new(ParseErrorKind::InvalidTag { tag: b'U' })),
        Ok("Unknown tag".to_string()),
        Err(ParseError::new(ParseErrorKind::MissingCRLF)),
        Err(ParseError::new(ParseErrorKind::MissingCRLF)),
    ];

    assert_eq!(inputs.len(), expects.len());
    for i in 0..inputs.len() {
        let mut parser = RespParser::new(&inputs[i]);
        let val = String::parse(&mut parser);
        assert_eq!(val, expects[i]);
    }
}

#[test]
fn test_parse_bulk() {
    let inputs = [
        b"$12\r\nHello, World\r\n".to_vec(),
        b"$3\r\nGET\r\n".to_vec(),
        b"$25\r\nAAAAAAAAAAAAAAAAAAAAAAAAA\r\n".to_vec(),
        b"*3\r\nGET\r\n".to_vec(),
        b"3\r\nGET\r\n".to_vec(),
        b"$3\r\nGE\r\n".to_vec(),
        b"$3\r\nGET2\r\n".to_vec(),
        b"$3\r\nGET".to_vec(),
        b"$3GET\r\n".to_vec(),
        b"$-1\r\n".to_vec(),
        b"$-1234\r\n".to_vec(),
    ];
    let expects: &[ParseResult<BulkString>] = &[
        Ok(BulkString::new("Hello, World".to_string())),
        Ok(BulkString::new("GET".to_string())),
        Ok(BulkString::new("AAAAAAAAAAAAAAAAAAAAAAAAA".to_string())),
        Err(ParseError::new(ParseErrorKind::InvalidTag { tag: b'*' })),
        Err(ParseError::new(ParseErrorKind::InvalidTag { tag: b'3' })),
        Err(ParseError::new(ParseErrorKind::MissingData { needed: 1 })),
        Ok(BulkString::new("GET".to_string())),
        Err(ParseError::new(ParseErrorKind::MissingCRLF)),
        Err(ParseError::new(ParseErrorKind::InvalidIntegerData { data: b'G' })),
        Err(ParseError::new(ParseErrorKind::InvalidLength { len: -1 })),
        Err(ParseError::new(ParseErrorKind::InvalidLength { len: -1234 })),
    ];

    assert_eq!(inputs.len(), expects.len());
    for i in 0..inputs.len() {
        let mut parser = RespParser::new(&inputs[i]);
        let val = BulkString::parse(&mut parser);
        assert_eq!(val, expects[i]);
    }
}

#[test]
fn test_parse_array() {
    let inputs = [
        b"*-1\r\n".to_vec(),
        b"*1\r\n+Simple\r\n".to_vec(),
        b"*1\r\n:-7364\r\n".to_vec(),
        b"*1\r\n-Error\r\n".to_vec(),
        b"*2\r\n$3\r\nGET\r\nkey\r\n".to_vec(),
        b"*2\r\n$3\r\nGET_SomeExtraData\r\n$3\r\nkey\r\n".to_vec(),
        b"*3\r\n$3\r\nset\r\n$3\r\nkey\r\n$5\r\nvalue_someextradata\r\n".to_vec(),
        b"*3\r\n$3$3\r\nset\r\n$3\r\nkey\r\n$5\r\nvalue_someextradata\r\n".to_vec(),
        b"*2\r\n$3\r\nGET_SomeExtraDatakey\r\n".to_vec(),
    ];
    let expects: &[ParseResult<RespValue>] = &[
        Err(ParseError::new(ParseErrorKind::InvalidLength { len: -1 })),
        Ok(RespValue::Array(vec![RespValue::Simple("Simple".to_string())])),
        Ok(RespValue::Array(vec![RespValue::Integer(-7364)])),
        Ok(RespValue::Array(vec![RespValue::Error("Error".to_string())])),
        Err(ParseError::new(ParseErrorKind::InvalidTag { tag: b'k' })),
        Ok(RespValue::Array(vec![
            RespValue::Bulk(BulkString::new("GET".to_string())),
            RespValue::Bulk(BulkString::new("key".to_string())),
        ])),
        Ok(RespValue::Array(vec![
            RespValue::Bulk(BulkString::new("set".to_string())),
            RespValue::Bulk(BulkString::new("key".to_string())),
            RespValue::Bulk(BulkString::new("value".to_string())),
        ])),
        Err(ParseError::new(ParseErrorKind::InvalidIntegerData { data: b'$' })),
        Err(ParseError::new(ParseErrorKind::EmptyData)),
    ];

    assert_eq!(inputs.len(), expects.len());
    for i in 0..inputs.len() {
        println!("Case {}", i + 1);
        let mut parser = RespParser::new(&inputs[i]);
        let val = RespValue::parse(&mut parser);
        assert_eq!(val, expects[i]);
    }
}
