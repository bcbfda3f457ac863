use minikv::resp::{read_resp, read_resp_from_stream, write_resp, decode_at, RespError, RespValue};

fn bulk(s: &str) -> RespValue {
    RespValue::BulkString(Some(s.to_string()))
}

fn encoded(v: &RespValue) -> Vec<u8> {
    let mut out = Vec::new();
    write_resp(v, &mut out);
    out
}

#[test]
fn test_simple_string() {
    let input = "+OK\r\n";
    assert_eq!(
        read_resp(input.as_bytes()).unwrap(),
        RespValue::SimpleString("OK".to_string())
    );
}

#[test]
fn test_error() {
    let input = "-Error message\r\n";
    assert_eq!(
        read_resp(input.as_bytes()).unwrap(),
        RespValue::Error("Error message".to_string())
    );
}

#[test]
fn test_integer() {
    let input = ":1234\r\n";
    assert_eq!(read_resp(input.as_bytes()).unwrap(), RespValue::Integer(1234));
}

#[test]
fn test_bulk_string() {
    let input = "$6\r\nfoobar\r\n";
    assert_eq!(
        read_resp(input.as_bytes()).unwrap(),
        RespValue::BulkString(Some("foobar".to_string()))
    );
}

#[test]
fn test_null_bulk_string() {
    let input = "$-1\r\n";
    assert_eq!(read_resp(input.as_bytes()).unwrap(), RespValue::BulkString(None));
}

#[test]
fn test_array() {
    let input = "*2\r\n$3\r\nGET\r\n$4\r\nkeys\r\n";
    assert_eq!(
        read_resp(input.as_bytes()).unwrap(),
        RespValue::Array(Some(vec![
            RespValue::BulkString(Some("GET".to_string())),
            RespValue::BulkString(Some("keys".to_string())),
        ]))
    );
}

#[test]
fn test_null_array() {
    let input = "*-1\r\n";
    assert_eq!(read_resp(input.as_bytes()).unwrap(), RespValue::Array(None));
}

#[test]
fn test_nested_array() {
    let input = "*2\r\n*2\r\n+OK\r\n:1234\r\n$6\r\nfoobar\r\n";
    assert_eq!(
        read_resp(input.as_bytes()).unwrap(),
        RespValue::Array(Some(vec![
            RespValue::Array(Some(vec![
                RespValue::SimpleString("OK".to_string()),
                RespValue::Integer(1234),
            ])),
            RespValue::BulkString(Some("foobar".to_string())),
        ]))
    );
}

#[test]
fn encodes_each_kind_canonically() {
    assert_eq!(encoded(&RespValue::SimpleString("OK".to_string())), b"+OK\r\n".to_vec());
    assert_eq!(encoded(&RespValue::Error("ERR x".to_string())), b"-ERR x\r\n".to_vec());
    assert_eq!(encoded(&RespValue::Integer(-42)), b":-42\r\n".to_vec());
    assert_eq!(encoded(&RespValue::Integer(i64::MIN)), b":-9223372036854775808\r\n".to_vec());
    assert_eq!(encoded(&bulk("bar")), b"$3\r\nbar\r\n".to_vec());
    assert_eq!(encoded(&RespValue::BulkString(None)), b"$-1\r\n".to_vec());
    assert_eq!(encoded(&RespValue::Array(None)), b"*-1\r\n".to_vec());
    assert_eq!(
        encoded(&RespValue::Array(Some(vec![bulk("a"), RespValue::Integer(7)]))),
        b"*2\r\n$1\r\na\r\n:7\r\n".to_vec()
    );
    assert_eq!(encoded(&RespValue::Array(Some(vec![]))), b"*0\r\n".to_vec());
}

#[test]
fn bulk_length_counts_bytes_not_chars() {
    assert_eq!(encoded(&bulk("é")), "$2\r\né\r\n".as_bytes().to_vec());
}

#[test]
fn round_trip_keeps_values_and_tags() {
    let values = vec![
        RespValue::SimpleString("hello world".to_string()),
        RespValue::Error("ERR bad".to_string()),
        RespValue::Integer(0),
        RespValue::Integer(i64::MAX),
        RespValue::Integer(i64::MIN),
        bulk(""),
        bulk("line\r\nbreak"),
        bulk("ünïcödé"),
        RespValue::BulkString(None),
        RespValue::Array(None),
        RespValue::Array(Some(vec![
            RespValue::Array(Some(vec![bulk("x"), RespValue::Error("E".to_string())])),
            RespValue::SimpleString("s".to_string()),
        ])),
    ];
    for v in values {
        let mut bytes = encoded(&v);
        let n = bytes.len();
        bytes.extend_from_slice(b"+rest\r\n");
        let (back, used) = decode_at(&bytes, 0, 32).unwrap();
        assert_eq!(back, v);
        assert_eq!(used, n);
    }
}

#[test]
fn incomplete_input_is_truncated() {
    assert_eq!(read_resp(b""), Err(RespError::Truncated));
    assert_eq!(read_resp(b"+OK"), Err(RespError::Truncated));
    assert_eq!(read_resp(b"+OK\r"), Err(RespError::Truncated));
    assert_eq!(read_resp(b"$6\r\nfoo"), Err(RespError::Truncated));
    assert_eq!(read_resp(b"*2\r\n:1\r\n"), Err(RespError::Truncated));
}

#[test]
fn bad_framing_is_malformed() {
    assert_eq!(read_resp(b"+OK\n"), Err(RespError::Malformed));
    assert_eq!(read_resp(b"+OK\rX"), Err(RespError::Malformed));
    assert_eq!(read_resp(b":12a\r\n"), Err(RespError::Malformed));
    assert_eq!(read_resp(b":99999999999999999999\r\n"), Err(RespError::Malformed));
    assert_eq!(read_resp(b"$-2\r\n"), Err(RespError::Malformed));
    assert_eq!(read_resp(b"$x\r\n"), Err(RespError::Malformed));
    assert_eq!(read_resp(b"*-5\r\n"), Err(RespError::Malformed));
    assert_eq!(read_resp(b"$3\r\nfooXY"), Err(RespError::Malformed));
    assert_eq!(read_resp(b"$536870913\r\n"), Err(RespError::Malformed));
}

#[test]
fn unknown_tag_is_bad_tag() {
    assert_eq!(read_resp(b"!OK\r\n"), Err(RespError::BadTag));
    assert_eq!(read_resp(b"*1\r\n?\r\n"), Err(RespError::BadTag));
}

#[test]
fn invalid_text_is_an_encoding_error() {
    assert_eq!(read_resp(b"+\xff\r\n"), Err(RespError::Encoding));
    assert_eq!(read_resp(b"$2\r\n\xc3\x28\r\n"), Err(RespError::Encoding));
}

#[test]
fn nesting_beyond_the_cap_is_malformed() {
    let mut deep = Vec::new();
    for _ in 0..33 {
        deep.extend_from_slice(b"*1\r\n");
    }
    deep.extend_from_slice(b":1\r\n");
    assert_eq!(read_resp(&deep), Err(RespError::Malformed));
    let ok = &deep[4..];
    assert!(read_resp(ok).is_ok());
}

#[test]
fn stream_reads_one_value_at_a_time() {
    let mut buf = b"+A\r\n:2\r\n$1".to_vec();
    assert_eq!(read_resp_from_stream(&mut buf), Ok(RespValue::SimpleString("A".to_string())));
    assert_eq!(buf, b":2\r\n$1".to_vec());
    assert_eq!(read_resp_from_stream(&mut buf), Ok(RespValue::Integer(2)));
    assert_eq!(read_resp_from_stream(&mut buf), Err(RespError::Truncated));
    assert_eq!(buf, b"$1".to_vec());
    buf.extend_from_slice(b"\r\nz\r\n");
    assert_eq!(read_resp_from_stream(&mut buf), Ok(bulk("z")));
    assert!(buf.is_empty());
}
