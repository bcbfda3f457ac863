use minikv::command::CommandError;
use minikv::command_handler::{handle_command, handle_command_at, respond_at};
use minikv::handler::from_resp;
use minikv::command::Command;
use minikv::resp::{write_resp, RespValue};
use minikv::storage::Storage;

fn bulk(s: &str) -> RespValue {
    RespValue::BulkString(Some(s.to_string()))
}

fn simple(s: &str) -> RespValue {
    RespValue::SimpleString(s.to_string())
}

fn send(st: &mut Storage, parts: &[&str], now: u64) -> RespValue {
    let req = RespValue::Array(Some(parts.iter().map(|p| bulk(p)).collect()));
    respond_at(req, st, now).unwrap()
}

const NOT_INT: &str = "ERR value is not an integer or out of range";

#[test]
fn set_then_get_scenario() {
    let mut st = Storage::new();
    assert_eq!(send(&mut st, &["SET", "foo", "bar"], 1), simple("OK"));
    assert_eq!(send(&mut st, &["GET", "foo"], 1), bulk("bar"));
}

#[test]
fn get_missing_is_null_bulk() {
    let mut st = Storage::new();
    let reply = send(&mut st, &["GET", "missing"], 1);
    assert_eq!(reply, RespValue::BulkString(None));
    let mut out = Vec::new();
    write_resp(&reply, &mut out);
    assert_eq!(out, b"$-1\r\n".to_vec());
}

#[test]
fn incr_counts_up_from_nothing() {
    let mut st = Storage::new();
    assert_eq!(send(&mut st, &["INCR", "counter"], 1), RespValue::Integer(1));
    assert_eq!(send(&mut st, &["INCR", "counter"], 1), RespValue::Integer(2));
    assert_eq!(send(&mut st, &["INCR", "counter"], 1), RespValue::Integer(3));
    assert_eq!(send(&mut st, &["GET", "counter"], 1), bulk("3"));
}

#[test]
fn incr_of_text_is_an_error() {
    let mut st = Storage::new();
    assert_eq!(send(&mut st, &["SET", "k", "notanumber"], 1), simple("OK"));
    assert_eq!(send(&mut st, &["INCR", "k"], 1), RespValue::Error(NOT_INT.to_string()));
    assert_eq!(send(&mut st, &["GET", "k"], 1), bulk("notanumber"));
}

#[test]
fn expire_scenario() {
    let mut st = Storage::new();
    assert_eq!(send(&mut st, &["EXPIRE", "missing", "10"], 100), simple("0"));
    assert_eq!(send(&mut st, &["SET", "k", "v"], 100), simple("OK"));
    assert_eq!(send(&mut st, &["EXPIRE", "k", "10"], 100), simple("1"));
    match send(&mut st, &["TTL", "k"], 100) {
        RespValue::Integer(t) => assert!((0..=10).contains(&t)),
        other => panic!("unexpected reply {:?}", other),
    }
    assert_eq!(send(&mut st, &["TTL", "k"], 111), RespValue::Integer(-2));
    assert_eq!(
        send(&mut st, &["EXPIRE", "k", "ten"], 100),
        RespValue::Error("value is not an integer or out of range".to_string())
    );
}

#[test]
fn exists_counts_live_keys() {
    let mut st = Storage::new();
    send(&mut st, &["SET", "a", "1"], 1);
    send(&mut st, &["SET", "c", "3"], 1);
    assert_eq!(send(&mut st, &["EXISTS", "a", "b", "c"], 1), RespValue::Integer(2));
    assert_eq!(send(&mut st, &["EXISTS", "a", "a"], 1), RespValue::Integer(2));
}

#[test]
fn ping_and_flushall() {
    let mut st = Storage::new();
    assert_eq!(send(&mut st, &["PING"], 1), simple("PONG"));
    send(&mut st, &["SET", "a", "1"], 1);
    assert_eq!(send(&mut st, &["FLUSHALL"], 1), simple("OK"));
    assert_eq!(send(&mut st, &["EXISTS", "a"], 1), RespValue::Integer(0));
}

#[test]
fn del_answers_ok_not_a_count() {
    let mut st = Storage::new();
    send(&mut st, &["SET", "a", "1"], 1);
    assert_eq!(send(&mut st, &["DEL", "a", "nope"], 1), simple("OK"));
    assert_eq!(send(&mut st, &["GET", "a"], 1), RespValue::BulkString(None));
}

#[test]
fn mget_with_one_key_is_unwrapped() {
    let mut st = Storage::new();
    send(&mut st, &["SET", "a", "1"], 1);
    assert_eq!(send(&mut st, &["MGET", "a"], 1), bulk("1"));
    assert_eq!(
        send(&mut st, &["MGET", "a", "b", "a"], 1),
        RespValue::Array(Some(vec![bulk("1"), RespValue::BulkString(None), bulk("1")]))
    );
}

#[test]
fn incrby_decrby_and_decr() {
    let mut st = Storage::new();
    assert_eq!(send(&mut st, &["INCRBY", "n", "10"], 1), RespValue::Integer(10));
    assert_eq!(send(&mut st, &["DECRBY", "n", "15"], 1), RespValue::Integer(-5));
    assert_eq!(send(&mut st, &["DECR", "n"], 1), RespValue::Integer(-6));
    assert_eq!(send(&mut st, &["GET", "n"], 1), bulk("-6"));
    assert_eq!(send(&mut st, &["INCRBY", "n", "x"], 1), RespValue::Error(NOT_INT.to_string()));
    assert_eq!(send(&mut st, &["DECRBY", "n", "+2"], 1), RespValue::Integer(-8));
}

#[test]
fn arithmetic_overflow_is_an_error() {
    let mut st = Storage::new();
    send(&mut st, &["SET", "n", "9223372036854775807"], 1);
    assert_eq!(send(&mut st, &["INCR", "n"], 1), RespValue::Error(NOT_INT.to_string()));
    send(&mut st, &["SET", "m", "-1"], 1);
    assert_eq!(
        send(&mut st, &["DECRBY", "m", "-9223372036854775808"], 1),
        RespValue::Integer(9223372036854775807)
    );
}

#[test]
fn command_docs_answers_ok() {
    let mut st = Storage::new();
    assert_eq!(send(&mut st, &["COMMAND", "DOCS"], 1), simple("OK"));
}

#[test]
fn requests_that_form_no_command() {
    let mut st = Storage::new();
    assert_eq!(respond_at(bulk("GET"), &mut st, 1), Err(CommandError::NotAnArray));
    assert_eq!(
        respond_at(RespValue::Array(Some(vec![bulk("GET")])), &mut st, 1),
        Err(CommandError::WrongNumberOfArguments { cmd: "GET".to_string(), expected: 2, got: 1 })
    );
}

#[test]
fn handle_command_uses_the_clock() {
    let mut st = Storage::new();
    st.set("k".to_string(), "v".to_string());
    assert_eq!(handle_command(Command::Get { key: "k".to_string() }, &mut st), bulk("v"));
    assert_eq!(handle_command_at(Command::TTL { key: "k".to_string() }, &mut st, 5), RespValue::Integer(-1));
}

#[test]
fn from_resp_answers_ping() {
    assert_eq!(from_resp("PING".to_string()), simple("PONG"));
}
