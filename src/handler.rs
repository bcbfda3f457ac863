//! The smallest request handler: it answers PING.
use vstd::prelude::*;
use crate::resp::{Resp, RespValue};

verus! {

fn ping() -> (r: RespValue)
    ensures
        r@ == Resp::Simple("PONG"@),
{
    RespValue::SimpleString("PONG".to_string())
}

/// Answers the command named `command`; PING is the one it knows.
pub fn from_resp(command: String) -> (r: RespValue)
    requires
        command@ == "PING"@,
    ensures
        r@ == Resp::Simple("PONG"@),
{
    ping()
}

} // verus!
