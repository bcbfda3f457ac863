//! Running a command against the store, and the reply it gets.
use vstd::prelude::*;
use vstd::utf8::*;
use crate::command::{Cmd, Command, CommandError, command_of, parsed};
use crate::decimal::{int_text, parse_int, in_i64, parse_i64, write_int, lemma_int_text_bytes, is_digit};
use crate::resp::{Resp, RespValue, text_from, ascii_text, lemma_ascii_round_trip};
use crate::storage::{StoreModel, Storage, unix_now};

verus! {

/// The decimal text of an integer, as characters.
pub open spec fn int_chars(n: int) -> Seq<char> {
    ascii_text(int_text(n))
}

/// The integer that a text writes, as `parse_int` reads its UTF-8 bytes.
pub open spec fn int_of(s: Seq<char>) -> Option<int> {
    parse_int(encode_utf8(s))
}

pub open spec fn negated(d: Option<int>) -> Option<int> {
    match d {
        Some(x) => Some(-x),
        None => None,
    }
}

/// The reply to an operand that is not a 64-bit integer.
pub open spec fn not_an_integer() -> Seq<char> {
    "ERR value is not an integer or out of range"@
}

/// The reply to an EXPIRE whose seconds are not an integer.
pub open spec fn bad_seconds() -> Seq<char> {
    "value is not an integer or out of range"@
}

/// INCR and its kin: the live value of `k` (zero when there is none) plus
/// `delta`, stored back as decimal text; an operand that is no integer, or
/// a sum beyond 64 bits, is an error.
pub open spec fn numeric(m: StoreModel, k: Seq<char>, delta: Option<int>, now: u64) -> (
    Resp,
    StoreModel,
) {
    match delta {
        None => (Resp::Error(not_an_integer()), m),
        Some(d) => {
            let seen = m.observe(k, now);
            let current = match m.lookup(k, now) {
                Some(v) => int_of(v),
                None => Some(0),
            };
            match current {
                None => (Resp::Error(not_an_integer()), seen),
                Some(c) => if in_i64(c + d) {
                    (Resp::Integer(c + d), seen.with_value(k, int_chars(c + d)))
                } else {
                    (Resp::Error(not_an_integer()), seen)
                },
            }
        },
    }
}

/// The store after deleting `keys` in order.
pub open spec fn del_all(m: StoreModel, keys: Seq<Seq<char>>) -> StoreModel
    decreases keys.len(),
{
    if keys.len() == 0 {
        m
    } else {
        del_all(m, keys.drop_last()).without(keys.last())
    }
}

/// How many of `keys` are live, looked at in order, and the store after.
pub open spec fn count_live(m: StoreModel, keys: Seq<Seq<char>>, now: u64) -> (int, StoreModel)
    decreases keys.len(),
{
    if keys.len() == 0 {
        (0, m)
    } else {
        let (c, m1) = count_live(m, keys.drop_last(), now);
        let k = keys.last();
        (c + if m1.live(k, now) {
            1int
        } else {
            0int
        }, m1.observe(k, now))
    }
}

/// The live values of `keys`, looked at in order, and the store after.
pub open spec fn lookup_all(m: StoreModel, keys: Seq<Seq<char>>, now: u64) -> (
    Seq<Option<Seq<char>>>,
    StoreModel,
)
    decreases keys.len(),
{
    if keys.len() == 0 {
        (seq![], m)
    } else {
        let (vs, m1) = lookup_all(m, keys.drop_last(), now);
        let k = keys.last();
        (vs.push(m1.lookup(k, now)), m1.observe(k, now))
    }
}

proof fn lemma_lookup_all_len(m: StoreModel, keys: Seq<Seq<char>>, now: u64)
    ensures
        lookup_all(m, keys, now).0.len() == keys.len(),
    decreases keys.len(),
{
    if keys.len() > 0 {
        lemma_lookup_all_len(m, keys.drop_last(), now);
    }
}

pub open spec fn bulks(vs: Seq<Option<Seq<char>>>) -> Seq<Resp> {
    Seq::new(vs.len(), |i: int| Resp::Bulk(vs[i]))
}

/// MGET answers one key with its bulk string alone, and any other number of
/// keys with an array of them.
pub open spec fn mget_reply(vs: Seq<Option<Seq<char>>>) -> Resp {
    if vs.len() == 1 {
        Resp::Bulk(vs[0])
    } else {
        Resp::Array(Some(bulks(vs)))
    }
}

/// A count as a 64-bit integer reply, held at `i64::MAX`.
pub open spec fn capped(n: int) -> int {
    if n > i64::MAX {
        i64::MAX as int
    } else {
        n
    }
}

/// The reply to `c` on store `m` at time `now`, and the store after it.
pub open spec fn run(c: Cmd, m: StoreModel, now: u64) -> (Resp, StoreModel) {
    match c {
        Cmd::Ping => (Resp::Simple("PONG"@), m),
        Cmd::Get(k) => (Resp::Bulk(m.lookup(k, now)), m.observe(k, now)),
        Cmd::SetValue(k, v) => (Resp::Simple("OK"@), m.with_value(k, v)),
        Cmd::Del(keys) => (Resp::Simple("OK"@), del_all(m, keys)),
        Cmd::CommandDocs => (Resp::Simple("OK"@), m),
        Cmd::IncrBy(k, a) => numeric(m, k, int_of(a), now),
        Cmd::Incr(k) => numeric(m, k, Some(1), now),
        Cmd::DecrBy(k, a) => numeric(m, k, negated(int_of(a)), now),
        Cmd::Decr(k) => numeric(m, k, Some(-1), now),
        Cmd::MGet(keys) => {
            let (vs, m1) = lookup_all(m, keys, now);
            (mget_reply(vs), m1)
        },
        Cmd::FlushAll => (Resp::Simple("OK"@), StoreModel::empty()),
        Cmd::Exists(keys) => {
            let (n, m1) = count_live(m, keys, now);
            (Resp::Integer(capped(n)), m1)
        },
        Cmd::Expire(k, s) => match int_of(s) {
            None => (Resp::Error(bad_seconds()), m),
            Some(secs) => if !m.live(k, now) {
                (Resp::Simple("0"@), m.observe(k, now))
            } else {
                (Resp::Simple("1"@), m.observe(k, now).with_expiry(k, secs, now))
            },
        },
        Cmd::Ttl(k) => (Resp::Integer(m.ttl(k, now)), m.observe(k, now)),
    }
}

/// The decimal text of `n` as a string.
pub(crate) fn int_string(n: i64) -> (r: String)
    ensures
        r@ == int_chars(n as int),
{
    let mut bytes: Vec<u8> = Vec::new();
    write_int(n, &mut bytes);
    proof {
        lemma_int_text_bytes(n as int);
        let t = int_text(n as int);
        assert(bytes@ =~= t);
        assert forall|i: int| 0 <= i < t.len() implies #[trigger] t[i] < 0x80 by {
            assert(is_digit(t[i]) || t[i] == 45u8);
        }
        lemma_ascii_round_trip(t);
        encode_utf8_valid_utf8(ascii_text(t));
        encode_utf8_decode_utf8(ascii_text(t));
    }
    match text_from(bytes.as_slice()) {
        Ok(s) => s,
        Err(_) => String::new(),
    }
}

/// The integer that `s` writes.
fn int_of_text(s: &String) -> (r: Option<i64>)
    ensures
        match r {
            Some(n) => int_of(s@) == Some(n as int),
            None => int_of(s@) is None,
        },
{
    parse_i64(s.as_str().as_bytes())
}

/// Adds `value` (subtracts it, when `subtract` holds) to the integer held
/// by `key`, as `numeric` describes, and gives the new value or the error
/// text.
fn handle_numeric_operation(
    storage: &mut Storage,
    key: String,
    value: Option<i64>,
    subtract: bool,
    now: u64,
) -> (r: Result<i64, String>)
    requires
        old(storage).wf(),
    ensures
        final(storage).wf(),
        ({
            let delta = match value {
                Some(v) => Some(if subtract {
                    -v
                } else {
                    v as int
                }),
                None => None,
            };
            let (reply, after) = numeric(old(storage).view(), key@, delta, now);
            &&& final(storage).view() == after
            &&& match r {
                Ok(n) => reply == Resp::Integer(n as int),
                Err(e) => reply == Resp::Error(e@),
            }
        }),
{
    let v = match value {
        Some(v) => v,
        None => {
            return Err("ERR value is not an integer or out of range".to_string());
        },
    };
    let current = match storage.get_at(key.clone(), now) {
        Some(s) => int_of_text(&s),
        None => Some(0),
    };
    let c = match current {
        Some(c) => c,
        None => {
            return Err("ERR value is not an integer or out of range".to_string());
        },
    };
    let next = if subtract {
        c.checked_sub(v)
    } else {
        c.checked_add(v)
    };
    match next {
        Some(n) => {
            storage.set(key, int_string(n));
            Ok(n)
        },
        None => Err("ERR value is not an integer or out of range".to_string()),
    }
}

fn ok_reply() -> (r: RespValue)
    ensures
        r@ == Resp::Simple("OK"@),
{
    RespValue::SimpleString("OK".to_string())
}

fn numeric_reply(r: Result<i64, String>) -> (v: RespValue)
    ensures
        v@ == match r {
            Ok(n) => Resp::Integer(n as int),
            Err(e) => Resp::Error(e@),
        },
{
    match r {
        Ok(n) => RespValue::Integer(n),
        Err(e) => RespValue::Error(e),
    }
}

/// MGET: the live values of `keys`, as `lookup_all` and `mget_reply` give
/// them.
fn read_keys(storage: &mut Storage, keys: &Vec<String>, now: u64) -> (r: RespValue)
    requires
        old(storage).wf(),
    ensures
        final(storage).wf(),
        ({
            let (vs, m1) = lookup_all(old(storage).view(), crate::table::texts_of(keys@), now);
            &&& final(storage).view() == m1
            &&& r@ == mget_reply(vs)
        }),
{
    let ghost ks = crate::table::texts_of(keys@);
    let mut values: Vec<RespValue> = Vec::new();
    let mut i: usize = 0;
    while i < keys.len()
        invariant
            0 <= i <= keys@.len(),
            ks == crate::table::texts_of(keys@),
            values@.len() == i,
            storage.wf(),
            ({
                let (vs, m1) = lookup_all(old(storage).view(), ks.subrange(0, i as int), now);
                &&& storage.view() == m1
                &&& crate::resp::views_of(values@) == bulks(vs)
            }),
        decreases keys@.len() - i,
    {
        let ghost before = ks.subrange(0, i as int);
        let ghost prev = values@;
        let v = match storage.get_at(keys[i].clone(), now) {
            Some(value) => RespValue::BulkString(Some(value)),
            None => RespValue::BulkString(None),
        };
        values.push(v);
        proof {
            assert(ks.subrange(0, i as int + 1).drop_last() =~= before);
            let (vs, m1) = lookup_all(old(storage).view(), before, now);
            let (vs2, m2) = lookup_all(old(storage).view(), ks.subrange(0, i as int + 1), now);
            assert(vs2 == vs.push(m1.lookup(ks[i as int], now)));
            lemma_lookup_all_len(old(storage).view(), before, now);
            assert(keys@[i as int]@ == ks[i as int]);
            assert(values@[i as int]@ == Resp::Bulk(m1.lookup(ks[i as int], now)));
            assert forall|j: int| 0 <= j < i implies #[trigger] values@[j] == prev[j] by {}
            assert(crate::resp::views_of(prev) == bulks(vs));
            assert forall|j: int| 0 <= j < i implies #[trigger] crate::resp::views_of(values@)[j] == bulks(vs2)[j] by {
                assert(crate::resp::views_of(prev)[j] == bulks(vs)[j]);
                assert(vs2[j] == vs[j]);
            }
            assert(crate::resp::views_of(values@) =~= bulks(vs2));
        }
        i = i + 1;
    }
    assert(ks.subrange(0, keys@.len() as int) =~= ks);
    proof {
        lemma_lookup_all_len(old(storage).view(), ks, now);
    }
    if values.len() == 1 {
        assert(crate::resp::views_of(values@)[0] == values@[0]@);
        values.remove(0)
    } else {
        RespValue::Array(Some(values))
    }
}

/// Runs `command` against `storage` at time `now`, as `run` describes.
pub fn handle_command_at(command: Command, storage: &mut Storage, now: u64) -> (r: RespValue)
    requires
        old(storage).wf(),
    ensures
        final(storage).wf(),
        (r@, final(storage).view()) == run(command.view(), old(storage).view(), now),
{
    match command {
        Command::Ping => RespValue::SimpleString("PONG".to_string()),
        Command::Get { key } => match storage.get_at(key, now) {
            Some(value) => RespValue::BulkString(Some(value)),
            None => RespValue::BulkString(None),
        },
        Command::SetValue { key, value } => {
            storage.set(key, value);
            ok_reply()
        },
        Command::Del { keys } => {
            let ghost ks = crate::table::texts_of(keys@);
            let mut i: usize = 0;
            while i < keys.len()
                invariant
                    0 <= i <= keys@.len(),
                    ks == crate::table::texts_of(keys@),
                    storage.wf(),
                    storage.view() == del_all(old(storage).view(), ks.subrange(0, i as int)),
                decreases keys@.len() - i,
            {
                let ghost before = ks.subrange(0, i as int);
                storage.del(keys[i].clone());
                assert(ks.subrange(0, i as int + 1).drop_last() =~= before);
                i = i + 1;
            }
            assert(ks.subrange(0, keys@.len() as int) =~= ks);
            ok_reply()
        },
        Command::CommandDocs => ok_reply(),
        Command::IncrBy { key, value } => {
            let delta = int_of_text(&value);
            numeric_reply(handle_numeric_operation(storage, key, delta, false, now))
        },
        Command::Incr { key } => numeric_reply(
            handle_numeric_operation(storage, key, Some(1), false, now),
        ),
        Command::DecrBy { key, value } => {
            let delta = int_of_text(&value);
            numeric_reply(handle_numeric_operation(storage, key, delta, true, now))
        },
        Command::Decr { key } => numeric_reply(
            handle_numeric_operation(storage, key, Some(1), true, now),
        ),
        Command::MGet { keys } => read_keys(storage, &keys, now),
        Command::FlushAll => {
            storage.clear();
            ok_reply()
        },
        Command::Exists { keys } => {
            let ghost ks = crate::table::texts_of(keys@);
            let mut count: u64 = 0;
            let mut i: usize = 0;
            while i < keys.len()
                invariant
                    0 <= i <= keys@.len(),
                    count <= i,
                    ks == crate::table::texts_of(keys@),
                    storage.wf(),
                    ({
                        let (n, m1) = count_live(old(storage).view(), ks.subrange(0, i as int), now);
                        &&& storage.view() == m1
                        &&& count == n
                    }),
                decreases keys@.len() - i,
            {
                let ghost before = ks.subrange(0, i as int);
                if storage.has_at(keys[i].clone(), now) {
                    count = count + 1;
                }
                assert(ks.subrange(0, i as int + 1).drop_last() =~= before);
                i = i + 1;
            }
            assert(ks.subrange(0, keys@.len() as int) =~= ks);
            if count > i64::MAX as u64 {
                RespValue::Integer(i64::MAX)
            } else {
                RespValue::Integer(count as i64)
            }
        },
        Command::Expire { key, expire } => {
            let secs = match int_of_text(&expire) {
                Some(t) => t,
                None => {
                    return RespValue::Error("value is not an integer or out of range".to_string());
                },
            };
            if !storage.has_at(key.clone(), now) {
                return RespValue::SimpleString("0".to_string());
            }
            let _ = storage.set_expire_at(key, secs, now);
            RespValue::SimpleString("1".to_string())
        },
        Command::TTL { key } => RespValue::Integer(storage.get_ttl_at(key, now)),
    }
}

/// `r` is the answer to request `v` on store `before` at `now`, leaving
/// `after`: the reply of the command it forms, or the reason it forms none
/// with the store untouched.
pub open spec fn answers(
    v: Resp,
    r: Result<RespValue, CommandError>,
    before: StoreModel,
    after: StoreModel,
    now: u64,
) -> bool {
    match command_of(v) {
        Ok(c) => r matches Ok(reply) && (reply@, after) == run(c, before, now),
        Err(e) => r matches Err(x) && x.view() == e && after == before,
    }
}

/// One step of a connection: the request `value` becomes a command, which
/// runs against `storage` at `now`.
pub fn respond_at(value: RespValue, storage: &mut Storage, now: u64) -> (r: Result<
    RespValue,
    CommandError,
>)
    requires
        old(storage).wf(),
    ensures
        final(storage).wf(),
        answers(value@, r, old(storage).view(), final(storage).view(), now),
{
    let ghost v = value@;
    let parsed_command = Command::try_from(value);
    match parsed_command {
        Ok(command) => Ok(handle_command_at(command, storage, now)),
        Err(e) => Err(e),
    }
}

/// `respond_at` at the current time.
pub fn respond(value: RespValue, storage: &mut Storage) -> (r: Result<RespValue, CommandError>)
    requires
        old(storage).wf(),
    ensures
        final(storage).wf(),
        exists|now: u64| #[trigger]
            answers(value@, r, old(storage).view(), final(storage).view(), now),
{
    let now = unix_now();
    respond_at(value, storage, now)
}

/// Runs `command` against `storage` at the current time.
pub fn handle_command(command: Command, storage: &mut Storage) -> (r: RespValue)
    requires
        old(storage).wf(),
    ensures
        final(storage).wf(),
        exists|now: u64| (r@, final(storage).view()) == run(command.view(), old(storage).view(), now),
{
    let now = unix_now();
    handle_command_at(command, storage, now)
}

} // verus!
