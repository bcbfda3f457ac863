//! Commands: turning a decoded request into a typed command, with the
//! arity and argument checks of each command family.
use vstd::prelude::*;
use crate::resp::{Resp, RespValue, views_of};
use crate::table::texts_of;

verus! {

#[derive(Debug, PartialEq)]
pub enum Command {
    Get { key: String },
    MGet { keys: Vec<String> },
    SetValue { key: String, value: String },
    Del { keys: Vec<String> },
    IncrBy { key: String, value: String },
    Incr { key: String },
    DecrBy { key: String, value: String },
    Decr { key: String },
    Exists { keys: Vec<String> },
    Expire { key: String, expire: String },
    TTL { key: String },
    Ping,
    CommandDocs,
    FlushAll,
}

#[derive(Debug, PartialEq)]
pub enum CommandError {
    /// The family `cmd` takes `expected` elements (at least `expected`, for
    /// the variadic ones), name included, and got `got`.
    WrongNumberOfArguments { cmd: String, expected: usize, got: usize },
    /// An element that must be a string is not.
    NotAString,
    /// The request is an empty or null array.
    EmptyCommand,
    /// The request is not an array.
    NotAnArray,
    /// No family has this (upper-cased) name.
    UnknownCommand(String),
}

/// The model of a command: texts as characters.
pub ghost enum Cmd {
    Get(Seq<char>),
    MGet(Seq<Seq<char>>),
    SetValue(Seq<char>, Seq<char>),
    Del(Seq<Seq<char>>),
    IncrBy(Seq<char>, Seq<char>),
    Incr(Seq<char>),
    DecrBy(Seq<char>, Seq<char>),
    Decr(Seq<char>),
    Exists(Seq<Seq<char>>),
    Expire(Seq<char>, Seq<char>),
    Ttl(Seq<char>),
    Ping,
    CommandDocs,
    FlushAll,
}

pub ghost enum CmdError {
    WrongArity(Seq<char>, int, int),
    NotAString,
    EmptyCommand,
    NotAnArray,
    Unknown(Seq<char>),
}

impl Command {
    pub open spec fn view(&self) -> Cmd {
        match self {
            Command::Get { key } => Cmd::Get(key@),
            Command::MGet { keys } => Cmd::MGet(texts_of(keys@)),
            Command::SetValue { key, value } => Cmd::SetValue(key@, value@),
            Command::Del { keys } => Cmd::Del(texts_of(keys@)),
            Command::IncrBy { key, value } => Cmd::IncrBy(key@, value@),
            Command::Incr { key } => Cmd::Incr(key@),
            Command::DecrBy { key, value } => Cmd::DecrBy(key@, value@),
            Command::Decr { key } => Cmd::Decr(key@),
            Command::Exists { keys } => Cmd::Exists(texts_of(keys@)),
            Command::Expire { key, expire } => Cmd::Expire(key@, expire@),
            Command::TTL { key } => Cmd::Ttl(key@),
            Command::Ping => Cmd::Ping,
            Command::CommandDocs => Cmd::CommandDocs,
            Command::FlushAll => Cmd::FlushAll,
        }
    }
}

impl CommandError {
    pub open spec fn view(&self) -> CmdError {
        match self {
            CommandError::WrongNumberOfArguments { cmd, expected, got } => CmdError::WrongArity(
                cmd@,
                *expected as int,
                *got as int,
            ),
            CommandError::NotAString => CmdError::NotAString,
            CommandError::EmptyCommand => CmdError::EmptyCommand,
            CommandError::NotAnArray => CmdError::NotAnArray,
            CommandError::UnknownCommand(name) => CmdError::Unknown(name@),
        }
    }
}

/// The command families.
#[derive(Debug, Clone, Copy, PartialEq, Eq, Structural)]
pub enum Family {
    Get,
    MGet,
    SetValue,
    IncrBy,
    Incr,
    DecrBy,
    Decr,
    Del,
    Ping,
    CommandDocs,
    Exists,
    Expire,
    Ttl,
    FlushAll,
}

/// The family that an upper-cased command name selects.
pub open spec fn family_of(name: Seq<char>) -> Option<Family> {
    if name == "GET"@ {
        Some(Family::Get)
    } else if name == "MGET"@ {
        Some(Family::MGet)
    } else if name == "SET"@ {
        Some(Family::SetValue)
    } else if name == "INCRBY"@ {
        Some(Family::IncrBy)
    } else if name == "INCR"@ {
        Some(Family::Incr)
    } else if name == "DECRBY"@ {
        Some(Family::DecrBy)
    } else if name == "DECR"@ {
        Some(Family::Decr)
    } else if name == "DEL"@ {
        Some(Family::Del)
    } else if name == "PING"@ {
        Some(Family::Ping)
    } else if name == "COMMAND"@ {
        Some(Family::CommandDocs)
    } else if name == "EXISTS"@ {
        Some(Family::Exists)
    } else if name == "EXPIRE"@ {
        Some(Family::Expire)
    } else if name == "TTL"@ {
        Some(Family::Ttl)
    } else if name == "FLUSHALL"@ {
        Some(Family::FlushAll)
    } else {
        None
    }
}

impl Family {
    /// The number of elements, name included, that the family takes: exactly
    /// that many, or at least that many for the variadic families.
    pub open spec fn arity(self) -> int {
        match self {
            Family::Get | Family::Incr | Family::Decr | Family::Ttl | Family::CommandDocs => 2,
            Family::SetValue | Family::IncrBy | Family::DecrBy | Family::Expire => 3,
            Family::MGet | Family::Del | Family::Exists => 2,
            Family::Ping | Family::FlushAll => 1,
        }
    }

    pub open spec fn variadic(self) -> bool {
        match self {
            Family::MGet | Family::Del | Family::Exists => true,
            _ => false,
        }
    }

    pub open spec fn accepts(self, n: int) -> bool {
        if self.variadic() {
            n >= self.arity()
        } else {
            n == self.arity()
        }
    }

    /// The command of this family with arguments `args`.
    pub open spec fn build(self, args: Seq<Seq<char>>) -> Cmd {
        match self {
            Family::Get => Cmd::Get(args[0]),
            Family::MGet => Cmd::MGet(args),
            Family::SetValue => Cmd::SetValue(args[0], args[1]),
            Family::IncrBy => Cmd::IncrBy(args[0], args[1]),
            Family::Incr => Cmd::Incr(args[0]),
            Family::DecrBy => Cmd::DecrBy(args[0], args[1]),
            Family::Decr => Cmd::Decr(args[0]),
            Family::Del => Cmd::Del(args),
            Family::Ping => Cmd::Ping,
            Family::CommandDocs => Cmd::CommandDocs,
            Family::Exists => Cmd::Exists(args),
            Family::Expire => Cmd::Expire(args[0], args[1]),
            Family::Ttl => Cmd::Ttl(args[0]),
            Family::FlushAll => Cmd::FlushAll,
        }
    }

    /// The name under which errors report the family.
    pub open spec fn name(self) -> Seq<char> {
        match self {
            Family::Get => "GET"@,
            Family::MGet => "MGET"@,
            Family::SetValue => "SET"@,
            Family::IncrBy => "INCRBY"@,
            Family::Incr => "INCR"@,
            Family::DecrBy => "DECRBY"@,
            Family::Decr => "DECR"@,
            Family::Del => "DEL"@,
            Family::Ping => "PING"@,
            Family::CommandDocs => "COMMAND"@,
            Family::Exists => "EXISTS"@,
            Family::Expire => "EXPIRE"@,
            Family::Ttl => "TTL"@,
            Family::FlushAll => "FLUSHALL"@,
        }
    }
}

/// The text that a string-bearing element carries.
pub open spec fn text_arg(v: Resp) -> Option<Seq<char>> {
    match v {
        Resp::Simple(s) => Some(s),
        Resp::Bulk(Some(s)) => Some(s),
        _ => None,
    }
}

/// Every element from index 1 on carries text.
pub open spec fn args_are_text(items: Seq<Resp>) -> bool {
    forall|i: int| 1 <= i < items.len() ==> (#[trigger] text_arg(items[i])) is Some
}

/// The texts of the elements after the name.
pub open spec fn args_of(items: Seq<Resp>) -> Seq<Seq<char>> {
    Seq::new((items.len() - 1) as nat, |i: int| text_arg(items[i + 1])->0)
}

/// The command that `items` form once their first element has been read
/// and upper-cased to `name`.
pub open spec fn command_for(name: Seq<char>, items: Seq<Resp>) -> Result<Cmd, CmdError> {
    match family_of(name) {
        None => Err(CmdError::Unknown(name)),
        Some(f) => if !f.accepts(items.len() as int) {
            Err(CmdError::WrongArity(f.name(), f.arity(), items.len() as int))
        } else if !args_are_text(items) {
            Err(CmdError::NotAString)
        } else {
            Ok(f.build(args_of(items)))
        },
    }
}

/// What `str::to_uppercase` makes of a text.
pub uninterp spec fn upper_of(s: Seq<char>) -> Seq<char>;

/// The command that a decoded request forms.
pub open spec fn command_of(v: Resp) -> Result<Cmd, CmdError> {
    match v {
        Resp::Array(Some(items)) => if items.len() == 0 {
            Err(CmdError::EmptyCommand)
        } else {
            match text_arg(items[0]) {
                None => Err(CmdError::NotAString),
                Some(first) => command_for(upper_of(first), items),
            }
        },
        Resp::Array(None) => Err(CmdError::EmptyCommand),
        _ => Err(CmdError::NotAnArray),
    }
}

/// GET takes exactly one key: with none, or with two or more, it is refused
/// for its arity; with one it is the command that reads that key.
pub proof fn lemma_get_arity(items: Seq<Resp>)
    requires
        items.len() >= 1,
        args_are_text(items),
    ensures
        items.len() != 2 ==> command_for("GET"@, items) == Err::<Cmd, CmdError>(
            CmdError::WrongArity("GET"@, 2, items.len() as int),
        ),
        items.len() == 2 ==> command_for("GET"@, items) == Ok::<Cmd, CmdError>(
            Cmd::Get(text_arg(items[1])->0),
        ),
{
}

/// The exec outcome `r` is the outcome `s` describes.
pub open spec fn parsed(r: Result<Command, CommandError>, s: Result<Cmd, CmdError>) -> bool {
    match r {
        Ok(c) => s == Ok::<Cmd, CmdError>(c.view()),
        Err(e) => s == Err::<Cmd, CmdError>(e.view()),
    }
}

/// Relies on str::to_uppercase: the result depends on the characters alone.
#[verifier::external_body]
fn uppercase(s: &str) -> (r: String)
    ensures
        r@ == upper_of(s@),
{
    s.to_uppercase()
}

fn is_named(name: &String, lit: &str) -> (r: bool)
    ensures
        r == (name@ == lit@),
{
    *name == lit.to_string()
}

fn family_named(name: &String) -> (r: Option<Family>)
    ensures
        r == family_of(name@),
{
    if is_named(name, "GET") {
        Some(Family::Get)
    } else if is_named(name, "MGET") {
        Some(Family::MGet)
    } else if is_named(name, "SET") {
        Some(Family::SetValue)
    } else if is_named(name, "INCRBY") {
        Some(Family::IncrBy)
    } else if is_named(name, "INCR") {
        Some(Family::Incr)
    } else if is_named(name, "DECRBY") {
        Some(Family::DecrBy)
    } else if is_named(name, "DECR") {
        Some(Family::Decr)
    } else if is_named(name, "DEL") {
        Some(Family::Del)
    } else if is_named(name, "PING") {
        Some(Family::Ping)
    } else if is_named(name, "COMMAND") {
        Some(Family::CommandDocs)
    } else if is_named(name, "EXISTS") {
        Some(Family::Exists)
    } else if is_named(name, "EXPIRE") {
        Some(Family::Expire)
    } else if is_named(name, "TTL") {
        Some(Family::Ttl)
    } else if is_named(name, "FLUSHALL") {
        Some(Family::FlushAll)
    } else {
        None
    }
}

impl Family {
    fn arity_exec(self) -> (r: usize)
        ensures
            r == self.arity(),
    {
        match self {
            Family::Get | Family::Incr | Family::Decr | Family::Ttl | Family::CommandDocs => 2,
            Family::SetValue | Family::IncrBy | Family::DecrBy | Family::Expire => 3,
            Family::MGet | Family::Del | Family::Exists => 2,
            Family::Ping | Family::FlushAll => 1,
        }
    }

    fn variadic_exec(self) -> (r: bool)
        ensures
            r == self.variadic(),
    {
        match self {
            Family::MGet | Family::Del | Family::Exists => true,
            _ => false,
        }
    }

    fn name_exec(self) -> (r: String)
        ensures
            r@ == self.name(),
    {
        let s = match self {
            Family::Get => "GET",
            Family::MGet => "MGET",
            Family::SetValue => "SET",
            Family::IncrBy => "INCRBY",
            Family::Incr => "INCR",
            Family::DecrBy => "DECRBY",
            Family::Decr => "DECR",
            Family::Del => "DEL",
            Family::Ping => "PING",
            Family::CommandDocs => "COMMAND",
            Family::Exists => "EXISTS",
            Family::Expire => "EXPIRE",
            Family::Ttl => "TTL",
            Family::FlushAll => "FLUSHALL",
        };
        s.to_string()
    }
}

/// The text of a string-bearing element: a simple string or a non-null
/// bulk string.
fn extract_string(value: &RespValue) -> (r: Result<String, CommandError>)
    ensures
        match r {
            Ok(s) => text_arg(value@) == Some(s@),
            Err(e) => text_arg(value@) is None && e == CommandError::NotAString,
        },
{
    match value {
        RespValue::BulkString(Some(s)) => Ok(s.clone()),
        RespValue::SimpleString(s) => Ok(s.clone()),
        _ => Err(CommandError::NotAString),
    }
}

impl Command {
    /// The command that `items` form, where `name` is their first element
    /// already upper-cased.
    pub fn from_parts(name: String, items: &Vec<RespValue>) -> (r: Result<Command, CommandError>)
        ensures
            parsed(r, command_for(name@, views_of(items@))),
    {
        let ghost models = views_of(items@);
        let family = match family_named(&name) {
            Some(f) => f,
            None => {
                return Err(CommandError::UnknownCommand(name));
            },
        };
        let n = items.len();
        let want = family.arity_exec();
        let ok = if family.variadic_exec() {
            n >= want
        } else {
            n == want
        };
        if !ok {
            return Err(
                CommandError::WrongNumberOfArguments { cmd: family.name_exec(), expected: want, got: n },
            );
        }
        let mut args: Vec<String> = Vec::new();
        let mut i: usize = 1;
        while i < n
            invariant
                1 <= i <= n,
                n == items@.len(),
                models == views_of(items@),
                family_of(name@) == Some(family),
                family.accepts(n as int),
                args@.len() == i - 1,
                forall|j: int| 1 <= j < i ==> (#[trigger] text_arg(models[j])) is Some,
                forall|j: int| 0 <= j < args@.len() ==> #[trigger] args@[j]@ == text_arg(models[j + 1])->0,
            decreases n - i,
        {
            match extract_string(&items[i]) {
                Ok(s) => {
                    assert(models[i as int] == items@[i as int]@);
                    args.push(s);
                },
                Err(e) => {
                    assert(models[i as int] == items@[i as int]@);
                    assert(!args_are_text(models));
                    return Err(e);
                },
            }
            i = i + 1;
        }
        let ghost texts = texts_of(args@);
        assert(texts =~= args_of(models));
        let r = match family {
            Family::Get => Command::Get { key: args.remove(0) },
            Family::MGet => Command::MGet { keys: args },
            Family::SetValue => {
                let value = args.remove(1);
                Command::SetValue { key: args.remove(0), value }
            },
            Family::IncrBy => {
                let value = args.remove(1);
                Command::IncrBy { key: args.remove(0), value }
            },
            Family::Incr => Command::Incr { key: args.remove(0) },
            Family::DecrBy => {
                let value = args.remove(1);
                Command::DecrBy { key: args.remove(0), value }
            },
            Family::Decr => Command::Decr { key: args.remove(0) },
            Family::Del => Command::Del { keys: args },
            Family::Ping => Command::Ping,
            Family::CommandDocs => Command::CommandDocs,
            Family::Exists => Command::Exists { keys: args },
            Family::Expire => {
                let expire = args.remove(1);
                Command::Expire { key: args.remove(0), expire }
            },
            Family::Ttl => Command::TTL { key: args.remove(0) },
            Family::FlushAll => Command::FlushAll,
        };
        assert(r.view() == family.build(texts));
        Ok(r)
    }

    /// The command that a decoded request forms: an array whose first
    /// element, upper-cased, names the family.
    pub fn try_from(value: RespValue) -> (r: Result<Command, CommandError>)
        ensures
            parsed(r, command_of(value@)),
    {
        match value {
            RespValue::Array(Some(items)) => {
                if items.len() == 0 {
                    return Err(CommandError::EmptyCommand);
                }
                let first = extract_string(&items[0])?;
                let name = uppercase(first.as_str());
                Command::from_parts(name, &items)
            },
            RespValue::Array(None) => Err(CommandError::EmptyCommand),
            _ => Err(CommandError::NotAnArray),
        }
    }
}

} // verus!
