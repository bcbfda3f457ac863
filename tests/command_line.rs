use minikv::decimal::{parse_i64, write_int};
use minikv::resp_handler::{select_keys, RespHandler};
use minikv::resp_string::{CommandType, RespString};

fn line(s: &str) -> RespString {
    RespString::from_string(s.to_string())
}

fn answer(h: &mut RespHandler, s: &str) -> String {
    h.handle(line(s)).to_string()
}

#[test]
fn from_string_builds_an_array_of_bulk_strings() {
    let r = line("SET key value");
    assert_eq!(r.to_string(), "*3\r\n$3\r\nSET\r\n$3\r\nkey\r\n$5\r\nvalue\r\n");
    let c = r.to_command();
    assert_eq!(c.kind, CommandType::SetValue);
    assert_eq!(c.tokens, vec!["SET".to_string(), "key".to_string(), "value".to_string()]);
}

#[test]
fn from_string_keeps_empty_words() {
    let r = line("GET  k");
    assert_eq!(r.to_string(), "*3\r\n$3\r\nGET\r\n$0\r\n\r\n$1\r\nk\r\n");
    let r = line("");
    assert_eq!(r.to_string(), "*1\r\n$0\r\n\r\n");
    let r = line("ünï cödé");
    assert_eq!(r.to_string(), "*2\r\n$5\r\nünï\r\n$6\r\ncödé\r\n");
}

#[test]
fn single_value_forms() {
    assert_eq!(RespString::simple_from_string("OK".to_string()).to_string(), "+OK\r\n");
    assert_eq!(RespString::bulk_from_string("foobar".to_string()).to_string(), "$6\r\nfoobar\r\n");
    assert_eq!(RespString::integer_from_string("+042".to_string()).to_string(), ":42\r\n");
    assert_eq!(RespString::integer_from_string("-7".to_string()).to_string(), ":-7\r\n");
}

#[test]
fn strings_to_array_joins_simple_strings() {
    let r = RespString::strings_to_array(vec!["a".to_string(), "b".to_string()]);
    assert_eq!(r.to_string(), "*2\r\n+a\r\n\r\n+b\r\n");
    let r = RespString::strings_to_array(vec![]);
    assert_eq!(r.to_string(), "*0\r\n");
}

#[test]
fn handler_get_set_and_nil() {
    let mut h = RespHandler::new();
    assert_eq!(answer(&mut h, "GET k"), "+(nil)\r\n");
    assert_eq!(answer(&mut h, "SET k v"), "+OK\r\n");
    assert_eq!(answer(&mut h, "GET k"), "+v\r\n");
    assert_eq!(answer(&mut h, "GET"), "+(error) ERR wrong number of arguments for command\r\n");
    assert_eq!(answer(&mut h, "SET k"), "+(error) ERR wrong number of arguments for command\r\n");
}

#[test]
fn handler_ping() {
    let mut h = RespHandler::new();
    assert_eq!(answer(&mut h, "PING"), "+PONG\r\n");
    assert_eq!(answer(&mut h, "PING hello"), "$5\r\nhello\r\n");
}

#[test]
fn handler_del_and_exists_count() {
    let mut h = RespHandler::new();
    answer(&mut h, "SET a 1");
    answer(&mut h, "SET b 2");
    assert_eq!(answer(&mut h, "EXISTS a b c a"), ":3\r\n");
    assert_eq!(answer(&mut h, "DEL a c a"), ":1\r\n");
    assert_eq!(answer(&mut h, "EXISTS a b"), ":1\r\n");
}

#[test]
fn handler_incr() {
    let mut h = RespHandler::new();
    assert_eq!(answer(&mut h, "INCR n"), ":1\r\n");
    assert_eq!(answer(&mut h, "INCR n"), ":2\r\n");
    assert_eq!(answer(&mut h, "GET n"), "+2\r\n");
    answer(&mut h, "SET t x");
    assert_eq!(answer(&mut h, "INCR t"), "+(error) value is not an integer or out of range\r\n");
    answer(&mut h, "SET m 9223372036854775807");
    assert_eq!(answer(&mut h, "INCR m"), "+(error) value is not an integer or out of range\r\n");
    assert_eq!(answer(&mut h, "INCR n x"), "+(error) ERR wrong number of arguments for command\r\n");
}

#[test]
fn handler_keys_uses_glob_patterns() {
    let mut h = RespHandler::new();
    answer(&mut h, "SET cat 1");
    answer(&mut h, "SET cot 2");
    answer(&mut h, "SET dog 3");
    assert_eq!(answer(&mut h, "KEYS c?t"), "*2\r\n+cat\r\n\r\n+cot\r\n");
    assert_eq!(answer(&mut h, "KEYS d*"), "*1\r\n+dog\r\n");
    assert_eq!(answer(&mut h, "KEYS x*"), "*0\r\n");
    assert_eq!(answer(&mut h, "KEYS [a"), "+(error) ERR invalid pattern\r\n");
    assert_eq!(answer(&mut h, "KEYS"), "+(error) ERR wrong number of arguments for command\r\n");
}

#[test]
fn decimal_text_and_parsing() {
    let mut out = Vec::new();
    write_int(-1234, &mut out);
    assert_eq!(out, b"-1234".to_vec());
    assert_eq!(parse_i64(b"-9223372036854775808"), Some(i64::MIN));
    assert_eq!(parse_i64(b"9223372036854775808"), None);
    assert_eq!(parse_i64(b"+5"), Some(5));
    assert_eq!(parse_i64(b"-"), None);
    assert_eq!(parse_i64(b""), None);
    assert_eq!(parse_i64(b"1 "), None);
}

#[test]
fn select_keys_keeps_flagged_keys_in_order() {
    let keys = vec!["a".to_string(), "b".to_string(), "c".to_string()];
    assert_eq!(select_keys(&keys, &vec![true, false, true]), vec!["a".to_string(), "c".to_string()]);
    assert_eq!(select_keys(&keys, &vec![false, false, false]), Vec::<String>::new());
}
