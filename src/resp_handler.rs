//! The handler for typed command lines: a plain map from keys to values,
//! with glob patterns for KEYS, and every reply held as a `RespString`.
use vstd::prelude::*;
use crate::command_handler::{capped, int_chars, int_of, int_string};
use crate::decimal::{in_i64, int_text, lemma_parse_int_text, lemma_int_text_bytes, is_digit};
use crate::resp::{Resp, encode, header, is_ascii_bytes, lemma_ascii_round_trip, TAG_ARRAY};
use crate::resp_string::{CommandType, RespString, joined_simples};
use crate::table::{Table, texts_of};

verus! {

/// Whether `glob::Pattern::new` accepts a pattern text.
pub uninterp spec fn glob_valid(pattern: Seq<char>) -> bool;

/// What `glob::Pattern::matches` answers for a pattern text and a text.
pub uninterp spec fn glob_matches(pattern: Seq<char>, text: Seq<char>) -> bool;

/// Relies on glob::Pattern::new, which accepts or refuses a pattern by its
/// text alone, and on glob::Pattern::matches, whose answer depends on the
/// pattern and the text alone.
#[verifier::external_body]
fn glob_match(pattern: &str, text: &str) -> (r: Option<bool>)
    ensures
        r is Some <==> glob_valid(pattern@),
        r matches Some(b) ==> b == glob_matches(pattern@, text@),
{
    glob::Pattern::new(pattern).ok().map(|p| p.matches(text))
}

pub open spec fn arity_error() -> Seq<char> {
    "(error) ERR wrong number of arguments for command"@
}

pub open spec fn not_an_integer_error() -> Seq<char> {
    "(error) value is not an integer or out of range"@
}

pub open spec fn bad_pattern_error() -> Seq<char> {
    "(error) ERR invalid pattern"@
}

/// The keys whose flag in `hits` is set, in order.
pub open spec fn selected(keys: Seq<Seq<char>>, hits: Seq<bool>) -> Seq<Seq<char>>
    decreases keys.len(),
{
    if keys.len() == 0 {
        seq![]
    } else {
        let r = selected(keys.drop_last(), hits.drop_last());
        if hits[keys.len() - 1] {
            r.push(keys.last())
        } else {
            r
        }
    }
}

/// The keys of `order` that match `pattern`, in order.
pub open spec fn matching(order: Seq<Seq<char>>, pattern: Seq<char>) -> Seq<Seq<char>> {
    selected(order, Seq::new(order.len(), |i: int| glob_matches(pattern, order[i])))
}

/// The keys whose flag in `hits` is set, in order.
pub fn select_keys(keys: &Vec<String>, hits: &Vec<bool>) -> (r: Vec<String>)
    requires
        keys@.len() == hits@.len(),
    ensures
        texts_of(r@) == selected(texts_of(keys@), hits@),
{
    let ghost ks = texts_of(keys@);
    let mut found: Vec<String> = Vec::new();
    let mut i: usize = 0;
    while i < keys.len()
        invariant
            0 <= i <= keys@.len(),
            keys@.len() == hits@.len(),
            ks == texts_of(keys@),
            texts_of(found@) == selected(ks.subrange(0, i as int), hits@.subrange(0, i as int)),
        decreases keys@.len() - i,
    {
        let ghost prev = found@;
        assert(ks.subrange(0, i as int + 1).drop_last() =~= ks.subrange(0, i as int));
        assert(hits@.subrange(0, i as int + 1).drop_last() =~= hits@.subrange(0, i as int));
        if hits[i] {
            found.push(keys[i].clone());
            assert(texts_of(found@) =~= texts_of(prev).push(keys@[i as int]@));
        }
        i = i + 1;
    }
    assert(ks.subrange(0, keys@.len() as int) =~= ks);
    assert(hits@.subrange(0, keys@.len() as int) =~= hits@);
    found
}

/// Deleting `keys` in turn: how many were there, and the map after.
pub open spec fn delete_counting(m: Map<Seq<char>, Seq<char>>, keys: Seq<Seq<char>>) -> (
    int,
    Map<Seq<char>, Seq<char>>,
)
    decreases keys.len(),
{
    if keys.len() == 0 {
        (0, m)
    } else {
        let (n, m1) = delete_counting(m, keys.drop_last());
        let k = keys.last();
        if m1.contains_key(k) {
            (n + 1, m1.remove(k))
        } else {
            (n, m1)
        }
    }
}

/// How many of `keys` the map holds, a repeated key counting each time.
pub open spec fn present_count(m: Map<Seq<char>, Seq<char>>, keys: Seq<Seq<char>>) -> int
    decreases keys.len(),
{
    if keys.len() == 0 {
        0
    } else {
        present_count(m, keys.drop_last()) + if m.contains_key(keys.last()) {
            1int
        } else {
            0int
        }
    }
}

/// The wire bytes of the reply to a command line of family `kind` with
/// words `w`, on map `m` whose keys are kept in `order`, and the map after.
pub open spec fn line_reply(
    kind: CommandType,
    w: Seq<Seq<char>>,
    m: Map<Seq<char>, Seq<char>>,
    order: Seq<Seq<char>>,
) -> (Seq<u8>, Map<Seq<char>, Seq<char>>) {
    let n = w.len();
    match kind {
        CommandType::Get => if n != 2 {
            (encode(Resp::Simple(arity_error())), m)
        } else if m.contains_key(w[1]) {
            (encode(Resp::Simple(m[w[1]])), m)
        } else {
            (encode(Resp::Simple("(nil)"@)), m)
        },
        CommandType::SetValue => if n != 3 {
            (encode(Resp::Simple(arity_error())), m)
        } else {
            (encode(Resp::Simple("OK"@)), m.insert(w[1], w[2]))
        },
        CommandType::Ping => if n == 1 {
            (encode(Resp::Simple("PONG"@)), m)
        } else {
            (encode(Resp::Bulk(Some(w[1]))), m)
        },
        CommandType::Del => {
            let (count, m1) = delete_counting(m, w.skip(1));
            (encode(Resp::Integer(capped(count))), m1)
        },
        CommandType::Exists => (encode(Resp::Integer(capped(present_count(m, w.skip(1))))), m),
        CommandType::Keys => if n != 2 {
            (encode(Resp::Simple(arity_error())), m)
        } else if !glob_valid(w[1]) {
            (encode(Resp::Simple(bad_pattern_error())), m)
        } else {
            let found = matching(order, w[1]);
            (header(TAG_ARRAY, found.len() as int) + joined_simples(found), m)
        },
        CommandType::Incr => if n > 2 {
            (encode(Resp::Simple(arity_error())), m)
        } else if !m.contains_key(w[1]) {
            (encode(Resp::Integer(1)), m.insert(w[1], "1"@))
        } else {
            match int_of(m[w[1]]) {
                Some(v) => if in_i64(v + 1) {
                    (encode(Resp::Integer(v + 1)), m.insert(w[1], int_chars(v + 1)))
                } else {
                    (encode(Resp::Simple(not_an_integer_error())), m)
                },
                None => (encode(Resp::Simple(not_an_integer_error())), m),
            }
        },
    }
}

/// The command lines `line_reply` answers without failing: PING with at
/// most one argument, INCR with its key.
pub open spec fn line_accepted(kind: CommandType, n: int) -> bool {
    &&& (kind == CommandType::Ping ==> n <= 2)
    &&& (kind == CommandType::Incr ==> n >= 2)
    &&& n >= 1
}

pub struct RespHandler {
    data: Table<String>,
}

/// An integer reply.
fn integer_reply(n: i64) -> (r: RespString)
    ensures
        r.wire() == encode(Resp::Integer(n as int)),
{
    let s = int_string(n);
    proof {
        let t = int_text(n as int);
        lemma_int_text_bytes(n as int);
        assert(is_ascii_bytes(t)) by {
            assert forall|i: int| 0 <= i < t.len() implies #[trigger] t[i] < 0x80 by {
                assert(is_digit(t[i]) || t[i] == 45u8);
            }
        }
        lemma_ascii_round_trip(t);
        lemma_parse_int_text(n as int);
    }
    RespString::integer_from_string(s)
}

fn count_reply(n: u64) -> (r: i64)
    ensures
        r == capped(n as int),
{
    if n > i64::MAX as u64 {
        i64::MAX
    } else {
        n as i64
    }
}

impl RespHandler {
    pub closed spec fn wf(&self) -> bool {
        self.data.wf()
    }

    pub closed spec fn view(&self) -> Map<Seq<char>, Seq<char>> {
        self.data.view().map_values(|s: String| s@)
    }

    /// The keys in the order KEYS lists them.
    pub closed spec fn key_order(&self) -> Seq<Seq<char>> {
        self.data.key_order()
    }

    proof fn lemma_view(&self, k: Seq<char>)
        ensures
            self.view().contains_key(k) == self.data.view().contains_key(k),
            self.data.view().contains_key(k) ==> self.view()[k] == self.data.view()[k]@,
    {
    }

    pub fn new() -> (r: Self)
        ensures
            r.wf(),
            r.view() == Map::<Seq<char>, Seq<char>>::empty(),
    {
        let r = RespHandler { data: Table::new() };
        assert(r.view() =~= Map::<Seq<char>, Seq<char>>::empty());
        r
    }

    /// Answers a command line, as `line_reply` describes.
    pub fn handle(&mut self, str_command: RespString) -> (r: RespString)
        requires
            old(self).wf(),
            str_command.words().len() > 0,
            crate::resp_string::command_type_of(str_command.words()[0]) matches Some(kind)
                && line_accepted(kind, str_command.words().len() as int),
        ensures
            final(self).wf(),
            ({
                let kind = crate::resp_string::command_type_of(str_command.words()[0])->0;
                let (wire, after) = line_reply(
                    kind,
                    str_command.words(),
                    old(self).view(),
                    old(self).key_order(),
                );
                &&& r.wire() == wire
                &&& final(self).view() == after
            }),
    {
        let ghost words = str_command.words();
        let command = str_command.to_command();
        let tokens = command.tokens;
        let n = tokens.len();
        assert(texts_of(tokens@) == words);
        assert(forall|i: int| 0 <= i < n ==> #[trigger] tokens@[i]@ == words[i]);
        match command.kind {
            CommandType::Get => {
                if n != 2 {
                    return RespString::simple_from_string(
                        "(error) ERR wrong number of arguments for command".to_string(),
                    );
                }
                proof {
                    self.lemma_view(words[1]);
                }
                match self.data.get(&tokens[1]) {
                    Some(value) => RespString::simple_from_string(value.clone()),
                    None => RespString::simple_from_string("(nil)".to_string()),
                }
            },
            CommandType::SetValue => {
                if n != 3 {
                    return RespString::simple_from_string(
                        "(error) ERR wrong number of arguments for command".to_string(),
                    );
                }
                self.data.insert(tokens[1].clone(), tokens[2].clone());
                assert(self.view() =~= old(self).view().insert(words[1], words[2]));
                RespString::simple_from_string("OK".to_string())
            },
            CommandType::Ping => {
                if n == 1 {
                    RespString::simple_from_string("PONG".to_string())
                } else {
                    RespString::bulk_from_string(tokens[1].clone())
                }
            },
            CommandType::Del => {
                let ghost keys = words.skip(1);
                let mut deleted: u64 = 0;
                let mut i: usize = 1;
                while i < n
                    invariant
                        1 <= i <= n,
                        n == tokens@.len(),
                        keys == words.skip(1),
                        words == texts_of(tokens@),
                        deleted < i,
                        self.wf(),
                        ({
                            let (c, m1) = delete_counting(old(self).view(), keys.subrange(0, i - 1));
                            &&& self.view() == m1
                            &&& deleted == c
                        }),
                    decreases n - i,
                {
                    let ghost before = keys.subrange(0, i - 1);
                    let ghost now = keys.subrange(0, i as int);
                    assert(now.drop_last() =~= before);
                    assert(now.last() == tokens@[i as int]@);
                    proof {
                        self.lemma_view(tokens@[i as int]@);
                    }
                    if self.data.contains(&tokens[i]) {
                        let ghost prev = self.view();
                        self.data.remove(&tokens[i]);
                        assert(self.view() =~= prev.remove(tokens@[i as int]@));
                        deleted = deleted + 1;
                    }
                    i = i + 1;
                }
                assert(keys.subrange(0, n - 1) =~= keys);
                integer_reply(count_reply(deleted))
            },
            CommandType::Exists => {
                let ghost keys = words.skip(1);
                let mut count: u64 = 0;
                let mut i: usize = 1;
                while i < n
                    invariant
                        1 <= i <= n,
                        n == tokens@.len(),
                        keys == words.skip(1),
                        words == texts_of(tokens@),
                        count < i,
                        self.wf(),
                        self.view() == old(self).view(),
                        count == present_count(old(self).view(), keys.subrange(0, i - 1)),
                    decreases n - i,
                {
                    let ghost now = keys.subrange(0, i as int);
                    assert(now.drop_last() =~= keys.subrange(0, i - 1));
                    assert(now.last() == tokens@[i as int]@);
                    proof {
                        self.lemma_view(tokens@[i as int]@);
                    }
                    if self.data.contains(&tokens[i]) {
                        count = count + 1;
                    }
                    i = i + 1;
                }
                assert(keys.subrange(0, n - 1) =~= keys);
                integer_reply(count_reply(count))
            },
            CommandType::Keys => {
                if n != 2 {
                    return RespString::simple_from_string(
                        "(error) ERR wrong number of arguments for command".to_string(),
                    );
                }
                let pattern = tokens[1].as_str();
                if glob_match(pattern, "").is_none() {
                    return RespString::simple_from_string("(error) ERR invalid pattern".to_string());
                }
                let keys = self.data.keys();
                let ghost order = self.data.key_order();
                let mut hits: Vec<bool> = Vec::new();
                let mut i: usize = 0;
                while i < keys.len()
                    invariant
                        0 <= i <= keys@.len(),
                        hits@.len() == i,
                        texts_of(keys@) == order,
                        pattern@ == words[1],
                        glob_valid(pattern@),
                        forall|j: int| 0 <= j < i ==> #[trigger] hits@[j] == glob_matches(
                            pattern@,
                            order[j],
                        ),
                    decreases keys@.len() - i,
                {
                    assert(keys@[i as int]@ == order[i as int]);
                    let hit = match glob_match(pattern, keys[i].as_str()) {
                        Some(b) => b,
                        None => false,
                    };
                    hits.push(hit);
                    i = i + 1;
                }
                assert(hits@ =~= Seq::new(order.len(), |j: int| glob_matches(pattern@, order[j])));
                let found = select_keys(&keys, &hits);
                RespString::strings_to_array(found)
            },
            CommandType::Incr => {
                if n > 2 {
                    return RespString::simple_from_string(
                        "(error) ERR wrong number of arguments for command".to_string(),
                    );
                }
                proof {
                    self.lemma_view(words[1]);
                }
                let current = match self.data.get(&tokens[1]) {
                    None => {
                        self.data.insert(tokens[1].clone(), "1".to_string());
                        assert(self.view() =~= old(self).view().insert(words[1], "1"@));
                        return integer_reply(1);
                    },
                    Some(v) => crate::decimal::parse_i64(v.as_str().as_bytes()),
                };
                match current {
                    Some(v) => {
                        if v == i64::MAX {
                            return RespString::simple_from_string(
                                "(error) value is not an integer or out of range".to_string(),
                            );
                        }
                        let next = v + 1;
                        self.data.insert(tokens[1].clone(), int_string(next));
                        assert(self.view() =~= old(self).view().insert(
                            words[1],
                            int_chars(next as int),
                        ));
                        integer_reply(next)
                    },
                    None => RespString::simple_from_string(
                        "(error) value is not an integer or out of range".to_string(),
                    ),
                }
            },
        }
    }
}

} // verus!
