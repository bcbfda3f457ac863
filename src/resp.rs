//! The wire format: values, their canonical encoding, and a decoder that
//! reads one complete value from the front of a byte buffer.
use vstd::prelude::*;
use vstd::utf8::*;
use vstd::slice::slice_subrange;
use crate::decimal::{int_text, parse_int, in_i64, parse_i64, write_int, write_len, lemma_parse_int_text, lemma_int_text_bytes, is_digit};

verus! {

pub const CR: u8 = 13;
pub const LF: u8 = 10;
pub const TAG_SIMPLE: u8 = 43;
pub const TAG_ERROR: u8 = 45;
pub const TAG_INTEGER: u8 = 58;
pub const TAG_BULK: u8 = 36;
pub const TAG_ARRAY: u8 = 42;

/// How deeply arrays may nest inside one decoded value.
pub const MAX_NESTING: usize = 32;
/// The largest bulk string length the decoder accepts.
pub const MAX_BULK_LEN: i64 = 536870912;
/// The largest array length the decoder accepts.
pub const MAX_ARRAY_LEN: i64 = 1048576;

#[derive(Debug, PartialEq)]
pub enum RespValue {
    SimpleString(String),
    Error(String),
    Integer(i64),
    /// `None` is the null bulk string.
    BulkString(Option<String>),
    /// `None` is the null array.
    Array(Option<Vec<RespValue>>),
}

/// Why a buffer does not start with a complete, well-formed value.
#[derive(Debug, Clone, Copy, PartialEq, Eq, Structural)]
pub enum RespError {
    /// The buffer ends before the value does.
    Truncated,
    /// A length or integer line is not a valid number, a length is out of
    /// range, or a line lacks its CRLF.
    Malformed,
    /// The first byte is none of the five type markers.
    BadTag,
    /// Text that must be UTF-8 is not.
    Encoding,
}

/// The mathematical model of a `RespValue`: text as characters.
pub ghost enum Resp {
    Simple(Seq<char>),
    Error(Seq<char>),
    Integer(int),
    Bulk(Option<Seq<char>>),
    Array(Option<Seq<Resp>>),
}

pub open spec fn resp_of(v: RespValue) -> Resp
    decreases v,
{
    match v {
        RespValue::SimpleString(s) => Resp::Simple(s@),
        RespValue::Error(s) => Resp::Error(s@),
        RespValue::Integer(n) => Resp::Integer(n as int),
        RespValue::BulkString(None) => Resp::Bulk(None),
        RespValue::BulkString(Some(s)) => Resp::Bulk(Some(s@)),
        RespValue::Array(None) => Resp::Array(None),
        RespValue::Array(Some(vs)) => Resp::Array(Some(views_of(vs@))),
    }
}

/// The models of a sequence of values, element by element.
pub open spec fn views_of(vs: Seq<RespValue>) -> Seq<Resp>
    decreases vs,
{
    Seq::new(
        vs.len(),
        |i: int|
            if 0 <= i < vs.len() {
                resp_of(vs[i])
            } else {
                Resp::Integer(0)
            },
    )
}

impl View for RespValue {
    type V = Resp;

    open spec fn view(&self) -> Resp {
        resp_of(*self)
    }
}

pub open spec fn crlf() -> Seq<u8> {
    seq![CR, LF]
}

/// A line of the header: tag, decimal number, CRLF.
pub open spec fn header(tag: u8, n: int) -> Seq<u8> {
    seq![tag] + int_text(n) + crlf()
}

/// The canonical wire form of a value.
pub open spec fn encode(v: Resp) -> Seq<u8>
    decreases v,
{
    match v {
        Resp::Simple(s) => seq![TAG_SIMPLE] + encode_utf8(s) + crlf(),
        Resp::Error(s) => seq![TAG_ERROR] + encode_utf8(s) + crlf(),
        Resp::Integer(n) => header(TAG_INTEGER, n),
        Resp::Bulk(None) => header(TAG_BULK, -1),
        Resp::Bulk(Some(s)) => header(TAG_BULK, encode_utf8(s).len() as int) + encode_utf8(s)
            + crlf(),
        Resp::Array(None) => header(TAG_ARRAY, -1),
        Resp::Array(Some(items)) => header(TAG_ARRAY, items.len() as int) + encode_items(items),
    }
}

/// The elements of an array, encoded one after another.
pub open spec fn encode_items(items: Seq<Resp>) -> Seq<u8>
    decreases items,
{
    if items.len() == 0 {
        seq![]
    } else {
        encode_items(items.drop_last()) + encode(items.last())
    }
}

/// The index of the first CR or LF at or after `i`, or the length of `b`
/// when there is none.
pub open spec fn stop_index(b: Seq<u8>, i: int) -> int
    decreases b.len() - i,
{
    if i < 0 || i >= b.len() {
        b.len() as int
    } else if b[i] == CR || b[i] == LF {
        i
    } else {
        stop_index(b, i + 1)
    }
}

/// The end of the line that starts at `start`: the index of the CR of its
/// CRLF. A bare LF, or a CR followed by anything but LF, is malformed.
pub open spec fn line_end(b: Seq<u8>, start: int) -> Result<int, RespError> {
    let e = stop_index(b, start);
    if e >= b.len() {
        Err(RespError::Truncated)
    } else if b[e] == LF {
        Err(RespError::Malformed)
    } else if e + 1 >= b.len() {
        Err(RespError::Truncated)
    } else if b[e + 1] != LF {
        Err(RespError::Malformed)
    } else {
        Ok(e)
    }
}

/// The characters that `bytes` encode, when they are UTF-8.
pub open spec fn text_of(bytes: Seq<u8>) -> Result<Seq<char>, RespError> {
    if valid_utf8(bytes) {
        Ok(decode_utf8(bytes))
    } else {
        Err(RespError::Encoding)
    }
}

pub open spec fn is_tag(b: u8) -> bool {
    b == TAG_SIMPLE || b == TAG_ERROR || b == TAG_INTEGER || b == TAG_BULK || b == TAG_ARRAY
}

/// The value that starts at `pos` in `b`, with the index just past it;
/// arrays may nest `depth` deep.
pub open spec fn parse_at(b: Seq<u8>, pos: int, depth: nat) -> Result<(Resp, int), RespError>
    decreases depth, 0nat, 0nat,
{
    if pos < 0 || pos >= b.len() {
        Err(RespError::Truncated)
    } else if !is_tag(b[pos]) {
        Err(RespError::BadTag)
    } else {
        let tag = b[pos];
        match line_end(b, pos + 1) {
            Err(x) => Err(x),
            Ok(e) => {
                let line = b.subrange(pos + 1, e);
                let next = e + 2;
                if tag == TAG_SIMPLE {
                    match text_of(line) {
                        Ok(t) => Ok((Resp::Simple(t), next)),
                        Err(x) => Err(x),
                    }
                } else if tag == TAG_ERROR {
                    match text_of(line) {
                        Ok(t) => Ok((Resp::Error(t), next)),
                        Err(x) => Err(x),
                    }
                } else if tag == TAG_INTEGER {
                    match parse_int(line) {
                        Some(n) => Ok((Resp::Integer(n), next)),
                        None => Err(RespError::Malformed),
                    }
                } else if tag == TAG_BULK {
                    match parse_int(line) {
                        None => Err(RespError::Malformed),
                        Some(n) => if n == -1 {
                            Ok((Resp::Bulk(None), next))
                        } else if n < 0 || n > MAX_BULK_LEN {
                            Err(RespError::Malformed)
                        } else if next + n + 2 > b.len() {
                            Err(RespError::Truncated)
                        } else if b[next + n] != CR || b[next + n + 1] != LF {
                            Err(RespError::Malformed)
                        } else {
                            match text_of(b.subrange(next, next + n)) {
                                Ok(t) => Ok((Resp::Bulk(Some(t)), next + n + 2)),
                                Err(x) => Err(x),
                            }
                        },
                    }
                } else {
                    match parse_int(line) {
                        None => Err(RespError::Malformed),
                        Some(n) => if n == -1 {
                            Ok((Resp::Array(None), next))
                        } else if n < 0 || n > MAX_ARRAY_LEN || depth == 0 {
                            Err(RespError::Malformed)
                        } else {
                            match parse_items(b, next, n as nat, (depth - 1) as nat) {
                                Ok((items, p)) => Ok((Resp::Array(Some(items)), p)),
                                Err(x) => Err(x),
                            }
                        },
                    }
                }
            },
        }
    }
}

/// `count` values one after another from `pos`, each nesting at most
/// `depth` deep.
pub open spec fn parse_items(b: Seq<u8>, pos: int, count: nat, depth: nat) -> Result<
    (Seq<Resp>, int),
    RespError,
>
    decreases depth, 1nat, count,
{
    if count == 0 {
        Ok((seq![], pos))
    } else {
        match parse_items(b, pos, (count - 1) as nat, depth) {
            Err(x) => Err(x),
            Ok((items, p)) => match parse_at(b, p, depth) {
                Err(x) => Err(x),
                Ok((v, q)) => Ok((items.push(v), q)),
            },
        }
    }
}

/// The exec result `r` is the outcome that `s` describes.
pub open spec fn decoded(r: Result<(RespValue, usize), RespError>, s: Result<(Resp, int), RespError>) -> bool {
    match r {
        Ok((v, n)) => s == Ok::<(Resp, int), RespError>((v@, n as int)),
        Err(x) => s == Err::<(Resp, int), RespError>(x),
    }
}

proof fn lemma_items_error_persists(b: Seq<u8>, pos: int, k: nat, m: nat, depth: nat)
    requires
        k <= m,
        parse_items(b, pos, k, depth) is Err,
    ensures
        parse_items(b, pos, m, depth) == parse_items(b, pos, k, depth),
    decreases m,
{
    if m > k {
        lemma_items_error_persists(b, pos, k, (m - 1) as nat, depth);
    }
}

/// Relies on std::str::from_utf8: it accepts exactly the well-formed UTF-8
/// byte sequences, and the string it gives holds the characters they encode.
#[verifier::external_body]
fn utf8_str(bytes: &[u8]) -> (r: Option<&str>)
    ensures
        r is Some <==> valid_utf8(bytes@),
        r matches Some(s) ==> s@ == decode_utf8(bytes@),
{
    std::str::from_utf8(bytes).ok()
}

pub(crate) fn text_from(bytes: &[u8]) -> (r: Result<String, RespError>)
    ensures
        match r {
            Ok(s) => text_of(bytes@) == Ok::<Seq<char>, RespError>(s@),
            Err(x) => text_of(bytes@) == Err::<Seq<char>, RespError>(x),
        },
{
    match utf8_str(bytes) {
        Some(s) => Ok(s.to_owned()),
        None => Err(RespError::Encoding),
    }
}

fn find_line_end(buf: &[u8], start: usize) -> (r: Result<usize, RespError>)
    requires
        start <= buf@.len(),
    ensures
        match r {
            Ok(e) => line_end(buf@, start as int) == Ok::<int, RespError>(e as int),
            Err(x) => line_end(buf@, start as int) == Err::<int, RespError>(x),
        },
        r matches Ok(e) ==> start <= e && e + 2 <= buf@.len(),
{
    let len = buf.len();
    let mut i: usize = start;
    while i < len && buf[i] != CR && buf[i] != LF
        invariant
            start <= i <= len,
            len == buf@.len(),
            stop_index(buf@, start as int) == stop_index(buf@, i as int),
        decreases len - i,
    {
        i = i + 1;
    }
    if i >= len {
        Err(RespError::Truncated)
    } else if buf[i] == LF {
        Err(RespError::Malformed)
    } else if i + 1 >= len {
        Err(RespError::Truncated)
    } else if buf[i + 1] != LF {
        Err(RespError::Malformed)
    } else {
        Ok(i)
    }
}

/// Decodes the value that starts at `pos`, with arrays nesting at most
/// `depth` deep; on success also gives the index just past the value.
pub fn decode_at(buf: &[u8], pos: usize, depth: usize) -> (r: Result<(RespValue, usize), RespError>)
    requires
        pos <= buf@.len(),
    ensures
        decoded(r, parse_at(buf@, pos as int, depth as nat)),
        r matches Ok((_, n)) ==> pos < n <= buf@.len(),
    decreases depth,
{
    let len = buf.len();
    if pos >= len {
        return Err(RespError::Truncated);
    }
    let tag = buf[pos];
    if tag != TAG_SIMPLE && tag != TAG_ERROR && tag != TAG_INTEGER && tag != TAG_BULK && tag
        != TAG_ARRAY {
        return Err(RespError::BadTag);
    }
    let e = match find_line_end(buf, pos + 1) {
        Ok(e) => e,
        Err(x) => {
            return Err(x);
        },
    };
    let line = slice_subrange(buf, pos + 1, e);
    let next = e + 2;
    if tag == TAG_SIMPLE {
        match text_from(line) {
            Ok(t) => Ok((RespValue::SimpleString(t), next)),
            Err(x) => Err(x),
        }
    } else if tag == TAG_ERROR {
        match text_from(line) {
            Ok(t) => Ok((RespValue::Error(t), next)),
            Err(x) => Err(x),
        }
    } else if tag == TAG_INTEGER {
        match parse_i64(line) {
            Some(n) => Ok((RespValue::Integer(n), next)),
            None => Err(RespError::Malformed),
        }
    } else if tag == TAG_BULK {
        let n = match parse_i64(line) {
            Some(n) => n,
            None => {
                return Err(RespError::Malformed);
            },
        };
        if n == -1 {
            return Ok((RespValue::BulkString(None), next));
        }
        if n < 0 || n > MAX_BULK_LEN {
            return Err(RespError::Malformed);
        }
        let n = n as usize;
        if n + 2 > len - next {
            return Err(RespError::Truncated);
        }
        if buf[next + n] != CR || buf[next + n + 1] != LF {
            return Err(RespError::Malformed);
        }
        match text_from(slice_subrange(buf, next, next + n)) {
            Ok(t) => Ok((RespValue::BulkString(Some(t)), next + n + 2)),
            Err(x) => Err(x),
        }
    } else {
        let n = match parse_i64(line) {
            Some(n) => n,
            None => {
                return Err(RespError::Malformed);
            },
        };
        if n == -1 {
            return Ok((RespValue::Array(None), next));
        }
        if n < 0 || n > MAX_ARRAY_LEN || depth == 0 {
            return Err(RespError::Malformed);
        }
        let count = n as usize;
        let mut items: Vec<RespValue> = Vec::new();
        let mut p: usize = next;
        let mut k: usize = 0;
        assert(views_of(items@) =~= Seq::<Resp>::empty());
        while k < count
            invariant
                k <= count,
                next <= p <= len,
                len == buf@.len(),
                depth > 0,
                count == n,
                parse_at(buf@, pos as int, depth as nat) == match parse_items(
                    buf@,
                    next as int,
                    count as nat,
                    (depth - 1) as nat,
                ) {
                    Ok((items, q)) => Ok((Resp::Array(Some(items)), q)),
                    Err(x) => Err(x),
                },
                parse_items(buf@, next as int, k as nat, (depth - 1) as nat) == Ok::<
                    (Seq<Resp>, int),
                    RespError,
                >((views_of(items@), p as int)),
            decreases count - k,
        {
            match decode_at(buf, p, depth - 1) {
                Err(x) => {
                    proof {
                        assert(parse_items(buf@, next as int, (k + 1) as nat, (depth - 1) as nat)
                            == Err::<(Seq<Resp>, int), RespError>(x));
                        lemma_items_error_persists(
                            buf@,
                            next as int,
                            (k + 1) as nat,
                            count as nat,
                            (depth - 1) as nat,
                        );
                        assert(parse_items(buf@, next as int, count as nat, (depth - 1) as nat)
                            == Err::<(Seq<Resp>, int), RespError>(x));
                    }
                    return Err(x);
                },
                Ok((v, q)) => {
                    let ghost before = items@;
                    items.push(v);
                    assert(views_of(items@) =~= views_of(before).push(items@.last()@));
                    p = q;
                    k = k + 1;
                },
            }
        }
        Ok((RespValue::Array(Some(items)), p))
    }
}

/// The value at the front of `b`, with its length, as a complete request
/// or reply is read: arrays may nest `MAX_NESTING` deep.
pub open spec fn parse_front(b: Seq<u8>) -> Result<(Resp, int), RespError> {
    parse_at(b, 0, MAX_NESTING as nat)
}

/// Decodes the value at the front of `input`; whatever follows it is left
/// unread.
pub fn read_resp(input: &[u8]) -> (r: Result<RespValue, RespError>)
    ensures
        match r {
            Ok(v) => parse_front(input@) matches Ok((m, _)) && m == v@,
            Err(x) => parse_front(input@) == Err::<(Resp, int), RespError>(x),
        },
{
    match decode_at(input, 0, MAX_NESTING) {
        Ok((v, _)) => Ok(v),
        Err(x) => Err(x),
    }
}

/// Takes one complete value off the front of `buffer`, which holds the
/// bytes received so far. On an error the buffer is left as it was:
/// `Truncated` asks for more bytes, the others mean the stream cannot be
/// followed any further.
pub fn read_resp_from_stream(buffer: &mut Vec<u8>) -> (r: Result<RespValue, RespError>)
    ensures
        match r {
            Ok(v) => parse_front(old(buffer)@) matches Ok((m, n)) && m == v@ && final(buffer)@
                == old(buffer)@.subrange(n, old(buffer)@.len() as int),
            Err(x) => parse_front(old(buffer)@) == Err::<(Resp, int), RespError>(x)
                && final(buffer)@ == old(buffer)@,
        },
{
    match decode_at(buffer.as_slice(), 0, MAX_NESTING) {
        Ok((v, n)) => {
            let rest = buffer.split_off(n);
            *buffer = rest;
            Ok(v)
        },
        Err(x) => Err(x),
    }
}

/// Appends `bytes` to `out`.
fn push_bytes(out: &mut Vec<u8>, bytes: &[u8])
    ensures
        final(out)@ == old(out)@ + bytes@,
{
    let mut i: usize = 0;
    while i < bytes.len()
        invariant
            0 <= i <= bytes@.len(),
            out@ == old(out)@ + bytes@.subrange(0, i as int),
        decreases bytes@.len() - i,
    {
        out.push(bytes[i]);
        i = i + 1;
        assert(out@ =~= old(out)@ + bytes@.subrange(0, i as int));
    }
    assert(bytes@.subrange(0, i as int) =~= bytes@);
}

fn push_header(tag: u8, n: i64, out: &mut Vec<u8>)
    ensures
        final(out)@ == old(out)@ + header(tag, n as int),
{
    out.push(tag);
    write_int(n, out);
    out.push(CR);
    out.push(LF);
    assert(out@ =~= old(out)@ + header(tag, n as int));
}

pub(crate) fn push_len_header(tag: u8, n: usize, out: &mut Vec<u8>)
    ensures
        final(out)@ == old(out)@ + header(tag, n as int),
{
    out.push(tag);
    write_len(n, out);
    out.push(CR);
    out.push(LF);
    assert(out@ =~= old(out)@ + header(tag, n as int));
}

/// Appends the canonical encoding of `value` to `out`.
pub fn write_resp(value: &RespValue, out: &mut Vec<u8>)
    ensures
        final(out)@ == old(out)@ + encode(value@),
    decreases value,
{
    match value {
        RespValue::SimpleString(s) => {
            out.push(TAG_SIMPLE);
            push_bytes(out, s.as_str().as_bytes());
            out.push(CR);
            out.push(LF);
            assert(out@ =~= old(out)@ + encode(value@));
        },
        RespValue::Error(s) => {
            out.push(TAG_ERROR);
            push_bytes(out, s.as_str().as_bytes());
            out.push(CR);
            out.push(LF);
            assert(out@ =~= old(out)@ + encode(value@));
        },
        RespValue::Integer(n) => {
            push_header(TAG_INTEGER, *n, out);
        },
        RespValue::BulkString(None) => {
            push_header(TAG_BULK, -1, out);
        },
        RespValue::BulkString(Some(s)) => {
            let b = s.as_str().as_bytes();
            push_len_header(TAG_BULK, b.len(), out);
            push_bytes(out, b);
            out.push(CR);
            out.push(LF);
            assert(out@ =~= old(out)@ + encode(value@));
        },
        RespValue::Array(None) => {
            push_header(TAG_ARRAY, -1, out);
        },
        RespValue::Array(Some(items)) => {
            let n = items.len();
            push_len_header(TAG_ARRAY, n, out);
            let ghost start = out@;
            let ghost models = views_of(items@);
            let mut i: usize = 0;
            while i < n
                invariant
                    0 <= i <= n,
                    n == items@.len(),
                    models == views_of(items@),
                    value@ == Resp::Array(Some(models)),
                    *value == RespValue::Array(Some(*items)),
                    out@ == start + encode_items(models.subrange(0, i as int)),
                decreases n - i,
            {
                proof {
                    vstd::std_specs::vec::axiom_vec_index_decreases(*items, i as int);
                    let o = (*value)->Array_0;
                    assert(decreases_to!(*value => o));
                    assert(decreases_to!(o => o->0));
                    assert(o->0 == *items);
                    assert(decreases_to!(*items => items[i as int]));
                    assert(decreases_to!(*value => items[i as int]));
                }
                write_resp(&items[i], out);
                proof {
                    let t = models.subrange(0, i as int + 1);
                    assert(t.drop_last() =~= models.subrange(0, i as int));
                    assert(t.last() == items@[i as int]@);
                }
                i = i + 1;
            }
            assert(models.subrange(0, n as int) =~= models);
            assert(out@ =~= old(out)@ + encode(value@));
        },
    }
}

/// Bytes below 0x80 read as the characters with those codes.
pub open spec fn ascii_text(b: Seq<u8>) -> Seq<char> {
    b.map_values(|x: u8| x as char)
}

pub open spec fn is_ascii_bytes(b: Seq<u8>) -> bool {
    forall|i: int| 0 <= i < b.len() ==> #[trigger] b[i] < 0x80
}

pub(crate) proof fn lemma_ascii_round_trip(b: Seq<u8>)
    requires
        is_ascii_bytes(b),
    ensures
        encode_utf8(ascii_text(b)) == b,
        valid_utf8(b),
    decreases b.len(),
{
    if b.len() > 0 {
        let cs = ascii_text(b);
        let rest = b.drop_first();
        assert(ascii_text(rest) =~= cs.drop_first());
        assert(is_ascii_bytes(rest)) by {
            assert forall|i: int| 0 <= i < rest.len() implies #[trigger] rest[i] < 0x80 by {
                assert(rest[i] == b[i + 1]);
            }
        }
        lemma_ascii_round_trip(rest);
        let c = cs[0] as u32;
        assert(c == b[0] as u32);
        assert((c & 0x7F) == c) by (bit_vector)
            requires
                c < 0x80,
        ;
        assert(encode_scalar(c) =~= seq![b[0]]);
        assert(b =~= seq![b[0]] + rest);
    }
    encode_utf8_valid_utf8(ascii_text(b));
}

pub(crate) proof fn lemma_header_ascii(tag: u8, n: int)
    requires
        tag < 0x80,
    ensures
        is_ascii_bytes(header(tag, n)),
{
    let h = header(tag, n);
    let t = int_text(n);
    lemma_int_text_bytes(n);
    assert forall|i: int| 0 <= i < h.len() implies #[trigger] h[i] < 0x80 by {
        if 1 <= i < 1 + t.len() {
            assert(h[i] == t[i - 1]);
            assert(is_digit(t[i - 1]) || t[i - 1] == 45u8);
        }
    }
}

/// Every canonical encoding is well-formed UTF-8.
pub proof fn lemma_encode_valid(v: Resp)
    ensures
        valid_utf8(encode(v)),
    decreases v,
{
    let cr = crlf();
    assert(is_ascii_bytes(cr));
    lemma_ascii_round_trip(cr);
    match v {
        Resp::Simple(s) => {
            let tag = seq![TAG_SIMPLE];
            assert(is_ascii_bytes(tag));
            lemma_ascii_round_trip(tag);
            encode_utf8_valid_utf8(s);
            valid_utf8_concat(tag, encode_utf8(s));
            valid_utf8_concat(tag + encode_utf8(s), cr);
        },
        Resp::Error(s) => {
            let tag = seq![TAG_ERROR];
            assert(is_ascii_bytes(tag));
            lemma_ascii_round_trip(tag);
            encode_utf8_valid_utf8(s);
            valid_utf8_concat(tag, encode_utf8(s));
            valid_utf8_concat(tag + encode_utf8(s), cr);
        },
        Resp::Integer(n) => {
            lemma_header_ascii(TAG_INTEGER, n);
            lemma_ascii_round_trip(header(TAG_INTEGER, n));
        },
        Resp::Bulk(None) => {
            lemma_header_ascii(TAG_BULK, -1);
            lemma_ascii_round_trip(header(TAG_BULK, -1));
        },
        Resp::Array(None) => {
            lemma_header_ascii(TAG_ARRAY, -1);
            lemma_ascii_round_trip(header(TAG_ARRAY, -1));
        },
        Resp::Bulk(Some(s)) => {
            let h = header(TAG_BULK, encode_utf8(s).len() as int);
            lemma_header_ascii(TAG_BULK, encode_utf8(s).len() as int);
            lemma_ascii_round_trip(h);
            encode_utf8_valid_utf8(s);
            valid_utf8_concat(h, encode_utf8(s));
            valid_utf8_concat(h + encode_utf8(s), cr);
        },
        Resp::Array(Some(items)) => {
            let h = header(TAG_ARRAY, items.len() as int);
            lemma_header_ascii(TAG_ARRAY, items.len() as int);
            lemma_ascii_round_trip(h);
            lemma_encode_items_valid(items);
            valid_utf8_concat(h, encode_items(items));
        },
    }
}

proof fn lemma_encode_items_valid(items: Seq<Resp>)
    ensures
        valid_utf8(encode_items(items)),
    decreases items,
{
    if items.len() == 0 {
        assert(is_ascii_bytes(encode_items(items)));
        lemma_ascii_round_trip(encode_items(items));
    } else {
        lemma_encode_items_valid(items.drop_last());
        lemma_encode_valid(items.last());
        valid_utf8_concat(encode_items(items.drop_last()), encode(items.last()));
    }
}

/// Text that a simple string or an error can carry: no CR and no LF.
pub open spec fn single_line(s: Seq<char>) -> bool {
    forall|i: int| 0 <= i < s.len() ==> #[trigger] (s[i] as u32) != 13 && (s[i] as u32) != 10
}

/// The values that decoding gives back: single-line texts, 64-bit
/// integers, lengths within the caps, and arrays nesting at most `depth`
/// deep.
pub open spec fn within_limits(v: Resp, depth: nat) -> bool
    decreases v,
{
    match v {
        Resp::Simple(s) => single_line(s),
        Resp::Error(s) => single_line(s),
        Resp::Integer(n) => in_i64(n),
        Resp::Bulk(None) => true,
        Resp::Bulk(Some(s)) => encode_utf8(s).len() <= MAX_BULK_LEN,
        Resp::Array(None) => true,
        Resp::Array(Some(items)) => depth > 0 && items.len() <= MAX_ARRAY_LEN && forall|i: int|
            0 <= i < items.len() ==> within_limits(#[trigger] items[i], (depth - 1) as nat),
    }
}

pub open spec fn no_break_bytes(t: Seq<u8>) -> bool {
    forall|k: int| 0 <= k < t.len() ==> #[trigger] t[k] != CR && t[k] != LF
}

proof fn lemma_high_bytes(y: u8)
    by (bit_vector)
    ensures
        (0x80u8 | y) >= 0x80u8,
        (0xC0u8 | y) >= 0x80u8,
        (0xE0u8 | y) >= 0x80u8,
        (0xF0u8 | y) >= 0x80u8,
{
}

proof fn lemma_low_byte(c: u32)
    by (bit_vector)
    requires
        c <= 0x7F,
    ensures
        (c & 0x7F) == c,
{
}

proof fn lemma_utf8_single_line(s: Seq<char>)
    requires
        single_line(s),
    ensures
        no_break_bytes(encode_utf8(s)),
    decreases s.len(),
{
    if s.len() > 0 {
        let c = s[0] as u32;
        let head = encode_scalar(c);
        let tail = s.drop_first();
        assert(single_line(tail)) by {
            assert forall|i: int| 0 <= i < tail.len() implies #[trigger] (tail[i] as u32) != 13
                && (tail[i] as u32) != 10 by {
                assert(tail[i] == s[i + 1]);
            }
        }
        lemma_utf8_single_line(tail);
        assert((s[0] as u32) != 13 && (s[0] as u32) != 10);
        char_is_scalar(s[0]);
        assert(c != 13 && c != 10);
        assert(no_break_bytes(head)) by {
            if has_width_1_encoding(c) {
                lemma_low_byte(c);
                assert(head[0] == c as u8);
            } else if has_width_2_encoding(c) {
                lemma_high_bytes(((c >> 6) & 0x1F) as u8);
                lemma_high_bytes((c & 0x3F) as u8);
            } else if has_width_3_encoding(c) {
                lemma_high_bytes(((c >> 12) & 0x0F) as u8);
                lemma_high_bytes(((c >> 6) & 0x3F) as u8);
                lemma_high_bytes((c & 0x3F) as u8);
            } else {
                lemma_high_bytes(((c >> 18) & 0x7) as u8);
                lemma_high_bytes(((c >> 12) & 0x3F) as u8);
                lemma_high_bytes(((c >> 6) & 0x3F) as u8);
                lemma_high_bytes((c & 0x3F) as u8);
            }
        }
        let all = encode_utf8(s);
        let rest = encode_utf8(tail);
        assert(all == head + rest);
        assert forall|k: int| 0 <= k < all.len() implies #[trigger] all[k] != CR && all[k] != LF by {
            if k < head.len() {
                assert(all[k] == head[k]);
            } else {
                assert(all[k] == rest[k - head.len()]);
            }
        }
    }
}

proof fn lemma_stop_index_skips(b: Seq<u8>, i: int, j: int)
    requires
        0 <= i <= j <= b.len(),
        forall|k: int| i <= k < j ==> #[trigger] b[k] != CR && b[k] != LF,
    ensures
        stop_index(b, i) == stop_index(b, j),
    decreases j - i,
{
    if i < j {
        lemma_stop_index_skips(b, i + 1, j);
    }
}

/// A line made of `t` and CRLF, at `p` in `b`, ends where `t` does.
proof fn lemma_line(b: Seq<u8>, p: int, t: Seq<u8>)
    requires
        0 <= p,
        p + t.len() + 2 <= b.len(),
        b.subrange(p, p + t.len() + 2) == t + crlf(),
        no_break_bytes(t),
    ensures
        line_end(b, p) == Ok::<int, RespError>(p + t.len()),
        b.subrange(p, p + t.len()) == t,
{
    let w = b.subrange(p, p + t.len() + 2);
    assert forall|k: int| p <= k < p + t.len() implies #[trigger] b[k] != CR && b[k] != LF by {
        assert(b[k] == w[k - p]);
        assert(w[k - p] == t[k - p]);
    }
    lemma_stop_index_skips(b, p, p + t.len());
    let e = p + t.len();
    assert(b[e] == w[t.len() as int]);
    assert(b[e + 1] == w[t.len() as int + 1]);
    assert(b.subrange(p, e) =~= t);
}

/// The header `tag`, `n`, CRLF at `p` reads back as `n`.
proof fn lemma_header(b: Seq<u8>, p: int, tag: u8, n: int)
    requires
        0 <= p,
        p + header(tag, n).len() <= b.len(),
        b.subrange(p, p + header(tag, n).len()) == header(tag, n),
        in_i64(n),
    ensures
        b[p] == tag,
        header(tag, n).len() == int_text(n).len() + 3,
        line_end(b, p + 1) == Ok::<int, RespError>(p + 1 + int_text(n).len()),
        parse_int(b.subrange(p + 1, p + 1 + int_text(n).len())) == Some(n),
{
    let h = header(tag, n);
    let t = int_text(n);
    assert(b[p] == h[0]);
    lemma_int_text_bytes(n);
    assert forall|k: int| 0 <= k < t.len() implies #[trigger] t[k] != CR && t[k] != LF by {
        assert(is_digit(t[k]) || t[k] == 45u8);
    }
    let w = b.subrange(p, p + h.len());
    assert(h.subrange(1, h.len() as int) =~= t + crlf());
    assert(b.subrange(p + 1, p + 1 + t.len() + 2) =~= w.subrange(1, h.len() as int));
    lemma_line(b, p + 1, t);
    lemma_parse_int_text(n);
}

/// A text line `tag`, text, CRLF at `p` reads back as the text.
proof fn lemma_text_line(b: Seq<u8>, p: int, tag: u8, s: Seq<char>)
    requires
        0 <= p,
        p + encode_utf8(s).len() + 3 <= b.len(),
        b.subrange(p, p + encode_utf8(s).len() + 3) == seq![tag] + encode_utf8(s) + crlf(),
        single_line(s),
    ensures
        b[p] == tag,
        line_end(b, p + 1) == Ok::<int, RespError>(p + 1 + encode_utf8(s).len()),
        text_of(b.subrange(p + 1, p + 1 + encode_utf8(s).len())) == Ok::<Seq<char>, RespError>(s),
{
    let t = encode_utf8(s);
    let w = b.subrange(p, p + t.len() + 3);
    assert(b[p] == w[0]);
    lemma_utf8_single_line(s);
    let h = seq![tag] + t + crlf();
    assert(h.subrange(1, h.len() as int) =~= t + crlf());
    assert(b.subrange(p + 1, p + 1 + t.len() + 2) =~= w.subrange(1, h.len() as int));
    lemma_line(b, p + 1, t);
    encode_utf8_valid_utf8(s);
    encode_utf8_decode_utf8(s);
}

proof fn lemma_parse_encoded(b: Seq<u8>, p: int, v: Resp, depth: nat)
    requires
        0 <= p,
        p + encode(v).len() <= b.len(),
        b.subrange(p, p + encode(v).len()) == encode(v),
        within_limits(v, depth),
    ensures
        parse_at(b, p, depth) == Ok::<(Resp, int), RespError>((v, p + encode(v).len())),
    decreases v,
{
    match v {
        Resp::Simple(s) => {
            lemma_text_line(b, p, TAG_SIMPLE, s);
        },
        Resp::Error(s) => {
            lemma_text_line(b, p, TAG_ERROR, s);
        },
        Resp::Integer(n) => {
            lemma_header(b, p, TAG_INTEGER, n);
        },
        Resp::Bulk(None) => {
            lemma_header(b, p, TAG_BULK, -1);
        },
        Resp::Array(None) => {
            lemma_header(b, p, TAG_ARRAY, -1);
        },
        Resp::Bulk(Some(s)) => {
            let t = encode_utf8(s);
            let h = header(TAG_BULK, t.len() as int);
            let e = encode(v);
            assert(b.subrange(p, p + h.len()) =~= h) by {
                assert(e.subrange(0, h.len() as int) =~= h);
            }
            lemma_header(b, p, TAG_BULK, t.len() as int);
            let next = p + h.len();
            assert(b.subrange(next, next + t.len()) =~= t) by {
                assert(e.subrange(h.len() as int, h.len() as int + t.len()) =~= t);
            }
            assert(b[next + t.len()] == e[h.len() as int + t.len()]);
            assert(b[next + t.len() + 1] == e[h.len() as int + t.len() + 1]);
            encode_utf8_valid_utf8(s);
            encode_utf8_decode_utf8(s);
        },
        Resp::Array(Some(items)) => {
            let h = header(TAG_ARRAY, items.len() as int);
            let body = encode_items(items);
            let e = encode(v);
            assert(b.subrange(p, p + h.len()) =~= h) by {
                assert(e.subrange(0, h.len() as int) =~= h);
            }
            lemma_header(b, p, TAG_ARRAY, items.len() as int);
            let next = p + h.len();
            assert(b.subrange(next, next + body.len()) =~= body) by {
                assert(e.subrange(h.len() as int, e.len() as int) =~= body);
            }
            lemma_parse_items_encoded(b, next, items, (depth - 1) as nat);
        },
    }
}

proof fn lemma_parse_items_encoded(b: Seq<u8>, p: int, items: Seq<Resp>, depth: nat)
    requires
        0 <= p,
        p + encode_items(items).len() <= b.len(),
        b.subrange(p, p + encode_items(items).len()) == encode_items(items),
        forall|i: int| 0 <= i < items.len() ==> within_limits(#[trigger] items[i], depth),
    ensures
        parse_items(b, p, items.len(), depth) == Ok::<(Seq<Resp>, int), RespError>(
            (items, p + encode_items(items).len()),
        ),
    decreases items,
{
    if items.len() > 0 {
        let init = items.drop_last();
        let last = items.last();
        let all = encode_items(items);
        let ei = encode_items(init);
        let el = encode(last);
        assert(all == ei + el);
        assert(b.subrange(p, p + ei.len()) =~= ei) by {
            assert(all.subrange(0, ei.len() as int) =~= ei);
        }
        assert(forall|i: int| 0 <= i < init.len() ==> within_limits(#[trigger] init[i], depth)) by {
            assert forall|i: int| 0 <= i < init.len() implies within_limits(#[trigger] init[i], depth) by {
                assert(init[i] == items[i]);
            }
        }
        lemma_parse_items_encoded(b, p, init, depth);
        let q = p + ei.len();
        assert(b.subrange(q, q + el.len()) =~= el) by {
            assert(all.subrange(ei.len() as int, all.len() as int) =~= el);
        }
        assert(within_limits(items[items.len() - 1], depth));
        lemma_parse_encoded(b, q, last, depth);
        assert(init.len() == (items.len() - 1) as nat);
        assert(init.push(last) =~= items);
    } else {
        assert(items =~= Seq::<Resp>::empty());
    }
}

/// Decoding the canonical encoding of a value gives the value back and
/// consumes exactly that encoding, whatever bytes follow it. Simple
/// strings and errors keep their own tags.
pub proof fn lemma_round_trip(v: Resp, rest: Seq<u8>)
    requires
        within_limits(v, MAX_NESTING as nat),
    ensures
        parse_front(encode(v) + rest) == Ok::<(Resp, int), RespError>(
            (v, encode(v).len() as int),
        ),
{
    let b = encode(v) + rest;
    assert(b.subrange(0, encode(v).len() as int) =~= encode(v));
    lemma_parse_encoded(b, 0, v, MAX_NESTING as nat);
}

} // verus!
