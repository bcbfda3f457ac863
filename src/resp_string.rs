//! A request or reply held as wire text together with its words: the form
//! a command line typed by hand takes on its way to the server.
use vstd::prelude::*;
use vstd::utf8::*;
use vstd::slice::slice_subrange;
use crate::table::texts_of;
use crate::command_handler::int_of;
use crate::resp::{
    Resp, RespValue, encode, header, crlf, text_from, write_resp, views_of, lemma_encode_valid,
    TAG_ARRAY, CR, LF,
};

verus! {

/// The words of `b`, split at every space byte, empty words included.
pub open spec fn split_spaces(b: Seq<u8>) -> Seq<Seq<u8>>
    decreases b.len(),
{
    if b.len() == 0 {
        seq![seq![]]
    } else {
        let r = split_spaces(b.drop_last());
        if b.last() == 32u8 {
            r.push(seq![])
        } else {
            r.update(r.len() - 1, r.last().push(b.last()))
        }
    }
}

/// Bulk strings holding `words`, in order.
pub open spec fn bulk_items(words: Seq<Seq<char>>) -> Seq<Resp> {
    Seq::new(words.len(), |i: int| Resp::Bulk(Some(words[i])))
}

/// The encodings of simple strings holding `words`, with CRLF between
/// consecutive ones.
pub open spec fn joined_simples(words: Seq<Seq<char>>) -> Seq<u8>
    decreases words.len(),
{
    if words.len() == 0 {
        seq![]
    } else if words.len() == 1 {
        encode(Resp::Simple(words[0]))
    } else {
        joined_simples(words.drop_last()) + crlf() + encode(Resp::Simple(words.last()))
    }
}

/// The command families of a typed command line.
#[derive(Debug, Clone, Copy, PartialEq, Eq, Structural)]
pub enum CommandType {
    SetValue,
    Get,
    Ping,
    Del,
    Exists,
    Keys,
    Incr,
}

/// The family that a first word names.
pub open spec fn command_type_of(word: Seq<char>) -> Option<CommandType> {
    if word == "SET"@ {
        Some(CommandType::SetValue)
    } else if word == "GET"@ {
        Some(CommandType::Get)
    } else if word == "PING"@ {
        Some(CommandType::Ping)
    } else if word == "DEL"@ {
        Some(CommandType::Del)
    } else if word == "EXISTS"@ {
        Some(CommandType::Exists)
    } else if word == "KEYS"@ {
        Some(CommandType::Keys)
    } else if word == "INCR"@ {
        Some(CommandType::Incr)
    } else {
        None
    }
}

/// A command line: its family and all its words, the name first.
pub struct TokenCommand {
    pub kind: CommandType,
    pub tokens: Vec<String>,
}

pub struct RespString {
    raw_str: String,
    tokens: Vec<String>,
}

/// A string whose UTF-8 bytes are `bytes`.
fn string_of_bytes(bytes: &[u8]) -> (r: String)
    requires
        valid_utf8(bytes@),
    ensures
        encode_utf8(r@) == bytes@,
{
    proof {
        decode_utf8_encode_utf8(bytes@);
    }
    match text_from(bytes) {
        Ok(s) => s,
        Err(_) => String::new(),
    }
}

/// The words of `s`, split at every space.
fn split_on_spaces(s: &String) -> (r: Vec<String>)
    ensures
        r@.len() == split_spaces(encode_utf8(s@)).len(),
        forall|i: int| 0 <= i < r@.len() ==> encode_utf8(#[trigger] r@[i]@) == split_spaces(
            encode_utf8(s@),
        )[i],
{
    let b = s.as_str().as_bytes();
    let n = b.len();
    let ghost whole = b@;
    proof {
        encode_utf8_valid_utf8(s@);
        assert(whole.subrange(0, n as int) =~= whole);
    }
    let mut out: Vec<String> = Vec::new();
    let mut start: usize = 0;
    let mut i: usize = 0;
    assert(out@.map_values(|t: String| encode_utf8(t@)) =~= Seq::<Seq<u8>>::empty());
    assert(b@.subrange(0, 0) =~= Seq::<u8>::empty());
    assert(split_spaces(b@.subrange(0, 0)) =~= seq![Seq::<u8>::empty()]);
    while i < n
        invariant
            start <= i <= n,
            n == b@.len(),
            whole == b@,
            valid_utf8(b@.subrange(start as int, n as int)),
            split_spaces(b@.subrange(0, i as int)) == out@.map_values(
                |t: String| encode_utf8(t@),
            ).push(b@.subrange(start as int, i as int)),
        decreases n - i,
    {
        let ghost pieces = out@.map_values(|t: String| encode_utf8(t@));
        let ghost prefix = b@.subrange(0, i as int + 1);
        assert(prefix.drop_last() =~= b@.subrange(0, i as int));
        assert(prefix.last() == b@[i as int]);
        if b[i] == 32u8 {
            let piece = slice_subrange(b, start, i);
            proof {
                let t = b@.subrange(start as int, n as int);
                let k = i - start;
                assert(t[k as int] == 32u8);
                is_char_boundary_iff_not_is_continuation_byte(t, k as int);
                valid_utf8_split(t, k as int);
                assert(t.subrange(0, k as int) =~= piece@);
                let after = t.subrange(k as int, t.len() as int);
                assert(after =~= b@.subrange(i as int, n as int));
                assert(after[0] == 32u8);
                assert(pop_first_scalar(after) =~= b@.subrange(i + 1, n as int));
            }
            let token = string_of_bytes(piece);
            out.push(token);
            start = i + 1;
            proof {
                let now_pieces = out@.map_values(|t: String| encode_utf8(t@));
                assert(now_pieces =~= pieces.push(piece@));
                assert(b@.subrange(start as int, i as int + 1) =~= Seq::<u8>::empty());
            }
        } else {
            proof {
                assert(b@.subrange(start as int, i as int + 1) =~= b@.subrange(
                    start as int,
                    i as int,
                ).push(b@[i as int]));
                assert(pieces.push(b@.subrange(start as int, i as int)).update(
                    pieces.len() as int,
                    b@.subrange(start as int, i as int).push(b@[i as int]),
                ) =~= pieces.push(b@.subrange(start as int, i as int + 1)));
            }
        }
        i = i + 1;
    }
    let ghost pieces = out@.map_values(|t: String| encode_utf8(t@));
    let last = slice_subrange(b, start, n);
    let token = string_of_bytes(last);
    out.push(token);
    proof {
        let now_pieces = out@.map_values(|t: String| encode_utf8(t@));
        assert(now_pieces =~= pieces.push(last@));
        assert forall|j: int| 0 <= j < out@.len() implies encode_utf8(#[trigger] out@[j]@)
            == split_spaces(encode_utf8(s@))[j] by {
            assert(now_pieces[j] == encode_utf8(out@[j]@));
        }
    }
    out
}

impl RespString {
    /// The UTF-8 bytes of the wire text.
    pub closed spec fn wire(&self) -> Seq<u8> {
        encode_utf8(self.raw_str@)
    }

    pub closed spec fn words(&self) -> Seq<Seq<char>> {
        texts_of(self.tokens@)
    }

    /// A command line: its words are `s` split at each space, and its wire
    /// text is an array of bulk strings holding them.
    pub fn from_string(s: String) -> (r: Self)
        ensures
            r.words().len() == split_spaces(encode_utf8(s@)).len(),
            forall|i: int|
                0 <= i < r.words().len() ==> encode_utf8(#[trigger] r.words()[i])
                    == split_spaces(encode_utf8(s@))[i],
            r.wire() == encode(Resp::Array(Some(bulk_items(r.words())))),
    {
        let tokens = split_on_spaces(&s);
        let mut items: Vec<RespValue> = Vec::new();
        let mut i: usize = 0;
        while i < tokens.len()
            invariant
                0 <= i <= tokens@.len(),
                items@.len() == i,
                views_of(items@) == bulk_items(texts_of(tokens@).subrange(0, i as int)),
            decreases tokens@.len() - i,
        {
            let ghost before = items@;
            items.push(RespValue::BulkString(Some(tokens[i].clone())));
            assert(views_of(items@) =~= bulk_items(texts_of(tokens@).subrange(0, i as int + 1))) by {
                assert(views_of(before) == bulk_items(texts_of(tokens@).subrange(0, i as int)));
                assert forall|j: int| 0 <= j < i implies #[trigger] views_of(items@)[j] == views_of(
                    before,
                )[j] by {
                    assert(items@[j] == before[j]);
                }
            }
            i = i + 1;
        }
        assert(texts_of(tokens@).subrange(0, tokens@.len() as int) =~= texts_of(tokens@));
        let value = RespValue::Array(Some(items));
        let mut out: Vec<u8> = Vec::new();
        write_resp(&value, &mut out);
        proof {
            lemma_encode_valid(value@);
            assert(out@ =~= encode(value@));
        }
        let raw_str = string_of_bytes(out.as_slice());
        RespString { raw_str, tokens }
    }

    /// A simple string holding `s`.
    pub fn simple_from_string(s: String) -> (r: Self)
        ensures
            r.wire() == encode(Resp::Simple(s@)),
            r.words() == seq![s@],
    {
        let value = RespValue::SimpleString(s.clone());
        let mut out: Vec<u8> = Vec::new();
        write_resp(&value, &mut out);
        proof {
            lemma_encode_valid(value@);
            assert(out@ =~= encode(value@));
        }
        let raw_str = string_of_bytes(out.as_slice());
        let tokens = vec![s];
        let r = RespString { raw_str, tokens };
        assert(r.words() =~= seq![s@]);
        r
    }

    /// The simple strings holding `s`, after an array header, with CRLF
    /// between consecutive ones; the words are `s` and a final CRLF.
    pub fn strings_to_array(s: Vec<String>) -> (r: Self)
        ensures
            r.wire() == header(TAG_ARRAY, s@.len() as int) + joined_simples(texts_of(s@)),
            r.words() == texts_of(s@).push("\r\n"@),
    {
        let mut s = s;
        let ghost words = texts_of(s@);
        let len = s.len();
        let mut out: Vec<u8> = Vec::new();
        crate::resp::push_len_header(TAG_ARRAY, len, &mut out);
        let ghost head = out@;
        let mut i: usize = 0;
        while i < len
            invariant
                0 <= i <= len,
                len == s@.len(),
                words == texts_of(s@),
                out@ == head + joined_simples(words.subrange(0, i as int)),
                head == header(TAG_ARRAY, len as int),
            decreases len - i,
        {
            let ghost before = out@;
            if i > 0 {
                out.push(CR);
                out.push(LF);
            }
            write_resp(&RespValue::SimpleString(s[i].clone()), &mut out);
            proof {
                let w = words.subrange(0, i as int + 1);
                assert(w.drop_last() =~= words.subrange(0, i as int));
                assert(w.last() == s@[i as int]@);
                if i == 0 {
                    assert(words.subrange(0, 0) =~= Seq::<Seq<char>>::empty());
                    assert(out@ =~= head + joined_simples(w));
                } else {
                    assert(out@ =~= head + joined_simples(w));
                }
            }
            i = i + 1;
        }
        assert(words.subrange(0, len as int) =~= words);
        proof {
            lemma_wire_valid(len as int, words);
        }
        let raw_str = string_of_bytes(out.as_slice());
        s.push("\r\n".to_string());
        let r = RespString { raw_str, tokens: s };
        assert(r.words() =~= words.push("\r\n"@));
        r
    }

    /// A bulk string holding `s`.
    pub fn bulk_from_string(s: String) -> (r: Self)
        ensures
            r.wire() == encode(Resp::Bulk(Some(s@))),
            r.words() == seq![s@],
    {
        let value = RespValue::BulkString(Some(s.clone()));
        let mut out: Vec<u8> = Vec::new();
        write_resp(&value, &mut out);
        proof {
            lemma_encode_valid(value@);
            assert(out@ =~= encode(value@));
        }
        let raw_str = string_of_bytes(out.as_slice());
        let tokens = vec![s];
        let r = RespString { raw_str, tokens };
        assert(r.words() =~= seq![s@]);
        r
    }

    /// An integer reply of the number `s` writes.
    pub fn integer_from_string(s: String) -> (r: Self)
        requires
            int_of(s@) is Some,
        ensures
            r.wire() == encode(Resp::Integer(int_of(s@)->0)),
            r.words() == seq![s@],
    {
        let n = match crate::decimal::parse_i64(s.as_str().as_bytes()) {
            Some(n) => n,
            None => 0,
        };
        let value = RespValue::Integer(n);
        let mut out: Vec<u8> = Vec::new();
        write_resp(&value, &mut out);
        proof {
            lemma_encode_valid(value@);
            assert(out@ =~= encode(value@));
        }
        let raw_str = string_of_bytes(out.as_slice());
        let tokens = vec![s];
        let r = RespString { raw_str, tokens };
        assert(r.words() =~= seq![s@]);
        r
    }

    /// The command line these words form.
    pub fn to_command(self) -> (r: TokenCommand)
        requires
            self.words().len() > 0,
            command_type_of(self.words()[0]) is Some,
        ensures
            Some(r.kind) == command_type_of(self.words()[0]),
            texts_of(r.tokens@) == self.words(),
    {
        let kind = if is_word(&self.tokens[0], "SET") {
            CommandType::SetValue
        } else if is_word(&self.tokens[0], "GET") {
            CommandType::Get
        } else if is_word(&self.tokens[0], "PING") {
            CommandType::Ping
        } else if is_word(&self.tokens[0], "DEL") {
            CommandType::Del
        } else if is_word(&self.tokens[0], "EXISTS") {
            CommandType::Exists
        } else if is_word(&self.tokens[0], "KEYS") {
            CommandType::Keys
        } else {
            CommandType::Incr
        };
        TokenCommand { kind, tokens: self.tokens }
    }

    /// The wire text.
    pub fn to_string(&self) -> (r: String)
        ensures
            encode_utf8(r@) == self.wire(),
    {
        self.raw_str.clone()
    }
}

proof fn lemma_joined_valid(words: Seq<Seq<char>>)
    ensures
        valid_utf8(joined_simples(words)),
    decreases words.len(),
{
    if words.len() == 0 {
        crate::resp::lemma_ascii_round_trip(Seq::<u8>::empty());
    } else if words.len() == 1 {
        lemma_encode_valid(Resp::Simple(words[0]));
    } else {
        lemma_joined_valid(words.drop_last());
        crate::resp::lemma_ascii_round_trip(crlf());
        lemma_encode_valid(Resp::Simple(words.last()));
        valid_utf8_concat(joined_simples(words.drop_last()), crlf());
        valid_utf8_concat(joined_simples(words.drop_last()) + crlf(), encode(Resp::Simple(words.last())));
    }
}

proof fn lemma_wire_valid(n: int, words: Seq<Seq<char>>)
    ensures
        valid_utf8(header(TAG_ARRAY, n) + joined_simples(words)),
{
    lemma_encode_valid(Resp::Array(None));
    lemma_joined_valid(words);
    crate::resp::lemma_header_ascii(TAG_ARRAY, n);
    crate::resp::lemma_ascii_round_trip(header(TAG_ARRAY, n));
    valid_utf8_concat(header(TAG_ARRAY, n), joined_simples(words));
}

fn is_word(word: &String, lit: &str) -> (r: bool)
    ensures
        r == (word@ == lit@),
{
    *word == lit.to_string()
}

} // verus!
