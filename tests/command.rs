use minikv::command::{Command, CommandError};
use minikv::resp::RespValue;

fn bulk(s: &str) -> RespValue {
    RespValue::BulkString(Some(s.to_string()))
}

fn request(parts: &[&str]) -> RespValue {
    RespValue::Array(Some(parts.iter().map(|p| bulk(p)).collect()))
}

#[test]
fn test_parse_get() {
    let input = RespValue::Array(Some(vec![
        RespValue::BulkString(Some("GET".to_string())),
        RespValue::BulkString(Some("mykey".to_string())),
    ]));

    assert_eq!(
        Command::try_from(input).unwrap(),
        Command::Get {
            key: "mykey".to_string()
        }
    );
}

#[test]
fn test_parse_set() {
    let input = RespValue::Array(Some(vec![
        RespValue::BulkString(Some("SET".to_string())),
        RespValue::BulkString(Some("mykey".to_string())),
        RespValue::BulkString(Some("myvalue".to_string())),
    ]));

    assert_eq!(
        Command::try_from(input).unwrap(),
        Command::SetValue {
            key: "mykey".to_string(),
            value: "myvalue".to_string(),
        }
    );
}

#[test]
fn test_parse_del() {
    let input = RespValue::Array(Some(vec![
        RespValue::BulkString(Some("DEL".to_string())),
        RespValue::BulkString(Some("key1".to_string())),
        RespValue::BulkString(Some("key2".to_string())),
    ]));

    assert_eq!(
        Command::try_from(input).unwrap(),
        Command::Del {
            keys: vec!["key1".to_string(), "key2".to_string()],
        }
    );
}

#[test]
fn test_parse_ping() {
    let input = RespValue::Array(Some(vec![RespValue::BulkString(Some("PING".to_string()))]));

    assert_eq!(Command::try_from(input).unwrap(), Command::Ping);
}

#[test]
fn test_unknown_command() {
    let input = RespValue::Array(Some(vec![RespValue::BulkString(Some(
        "UNKNOWN".to_string(),
    ))]));

    assert!(matches!(
        Command::try_from(input),
        Err(CommandError::UnknownCommand(_))
    ));
}

#[test]
fn test_wrong_number_of_arguments() {
    let input = RespValue::Array(Some(vec![RespValue::BulkString(Some("GET".to_string()))]));

    assert!(matches!(
        Command::try_from(input),
        Err(CommandError::WrongNumberOfArguments { .. })
    ));
}

#[test]
fn get_arity_is_exactly_one_key() {
    assert_eq!(
        Command::try_from(request(&["GET"])),
        Err(CommandError::WrongNumberOfArguments { cmd: "GET".to_string(), expected: 2, got: 1 })
    );
    assert_eq!(
        Command::try_from(request(&["GET", "a", "b"])),
        Err(CommandError::WrongNumberOfArguments { cmd: "GET".to_string(), expected: 2, got: 3 })
    );
    assert_eq!(
        Command::try_from(request(&["GET", "k"])),
        Ok(Command::Get { key: "k".to_string() })
    );
}

#[test]
fn names_are_case_insensitive() {
    assert_eq!(
        Command::try_from(request(&["get", "k"])),
        Ok(Command::Get { key: "k".to_string() })
    );
    assert_eq!(Command::try_from(request(&["FlushAll"])), Ok(Command::FlushAll));
    assert_eq!(
        Command::try_from(request(&["nope"])),
        Err(CommandError::UnknownCommand("NOPE".to_string()))
    );
}

#[test]
fn every_family_parses() {
    let k = || "k".to_string();
    assert_eq!(Command::try_from(request(&["MGET", "a", "b"])), Ok(Command::MGet { keys: vec!["a".to_string(), "b".to_string()] }));
    assert_eq!(Command::try_from(request(&["INCRBY", "k", "5"])), Ok(Command::IncrBy { key: k(), value: "5".to_string() }));
    assert_eq!(Command::try_from(request(&["INCR", "k"])), Ok(Command::Incr { key: k() }));
    assert_eq!(Command::try_from(request(&["DECRBY", "k", "5"])), Ok(Command::DecrBy { key: k(), value: "5".to_string() }));
    assert_eq!(Command::try_from(request(&["DECR", "k"])), Ok(Command::Decr { key: k() }));
    assert_eq!(Command::try_from(request(&["EXISTS", "a"])), Ok(Command::Exists { keys: vec!["a".to_string()] }));
    assert_eq!(Command::try_from(request(&["EXPIRE", "k", "10"])), Ok(Command::Expire { key: k(), expire: "10".to_string() }));
    assert_eq!(Command::try_from(request(&["TTL", "k"])), Ok(Command::TTL { key: k() }));
    assert_eq!(Command::try_from(request(&["COMMAND", "DOCS"])), Ok(Command::CommandDocs));
}

#[test]
fn variadic_families_need_one_key() {
    for name in ["MGET", "DEL", "EXISTS"] {
        assert_eq!(
            Command::try_from(request(&[name])),
            Err(CommandError::WrongNumberOfArguments { cmd: name.to_string(), expected: 2, got: 1 })
        );
    }
    assert_eq!(
        Command::try_from(request(&["PING", "x"])),
        Err(CommandError::WrongNumberOfArguments { cmd: "PING".to_string(), expected: 1, got: 2 })
    );
}

#[test]
fn simple_strings_count_as_arguments() {
    let input = RespValue::Array(Some(vec![
        RespValue::SimpleString("set".to_string()),
        RespValue::SimpleString("k".to_string()),
        bulk("v"),
    ]));
    assert_eq!(
        Command::try_from(input),
        Ok(Command::SetValue { key: "k".to_string(), value: "v".to_string() })
    );
}

#[test]
fn non_string_arguments_are_refused() {
    let input = RespValue::Array(Some(vec![bulk("GET"), RespValue::Integer(1)]));
    assert_eq!(Command::try_from(input), Err(CommandError::NotAString));
    let input = RespValue::Array(Some(vec![RespValue::Integer(1)]));
    assert_eq!(Command::try_from(input), Err(CommandError::NotAString));
    let input = RespValue::Array(Some(vec![bulk("GET"), RespValue::BulkString(None)]));
    assert_eq!(Command::try_from(input), Err(CommandError::NotAString));
}

#[test]
fn empty_and_non_array_requests() {
    assert_eq!(Command::try_from(RespValue::Array(Some(vec![]))), Err(CommandError::EmptyCommand));
    assert_eq!(Command::try_from(RespValue::Array(None)), Err(CommandError::EmptyCommand));
    assert_eq!(Command::try_from(bulk("GET")), Err(CommandError::NotAnArray));
}

#[test]
fn from_parts_takes_the_name_as_given() {
    let items = vec![bulk("ignored"), bulk("k")];
    assert_eq!(
        Command::from_parts("GET".to_string(), &items),
        Ok(Command::Get { key: "k".to_string() })
    );
    assert_eq!(
        Command::from_parts("get".to_string(), &items),
        Err(CommandError::UnknownCommand("get".to_string()))
    );
}
