//! The PING command.

use vstd::prelude::*;

verus! {

use crate::cmd::{CommandError, CmdErrVal};
use crate::resp::types::{RespType, RespVal, resp_vals_of, lemma_resp_vals_of};

/// The PING command: replies with its message, or `PONG` without one.
pub struct Ping {
    msg: Option<String>,
}

impl View for Ping {
    type V = Option<Seq<char>>;

    closed spec fn view(&self) -> Option<Seq<char>> {
        match self.msg {
            Some(s) => Some(s@),
            None => None,
        }
    }
}

/// The message PING carries, or the error its arguments earn: no
/// argument, or one bulk string.
pub open spec fn ping_args_spec(args: Seq<RespVal>) -> Result<Option<Seq<char>>, CmdErrVal> {
    if args.len() == 0 {
        Ok(None)
    } else if args.len() == 1 {
        match args[0] {
            RespVal::BulkString(s) => Ok(Some(s)),
            _ => Err(CmdErrVal::Other("Invalid message"@)),
        }
    } else {
        Err(CmdErrVal::InvalidFormat)
    }
}

impl Ping {
    /// Creates a new PING instance from the given args.
    pub fn with_args(args: Vec<RespType>) -> (r: Result<Ping, CommandError>)
        ensures
            match r {
                Ok(p) => ping_args_spec(resp_vals_of(args@)) == Ok::<Option<Seq<char>>, CmdErrVal>(
                    p@,
                ),
                Err(e) => ping_args_spec(resp_vals_of(args@)) == Err::<
                    Option<Seq<char>>,
                    CmdErrVal,
                >(e@),
            },
    {
        proof {
            lemma_resp_vals_of(args@);
        }
        if args.len() == 0 {
            Ok(Ping { msg: None })
        } else if args.len() == 1 {
            match &args[0] {
                RespType::BulkString(s) => Ok(Ping { msg: Some(s.clone()) }),
                _ => Err(CommandError::Other("Invalid message".to_owned())),
            }
        } else {
            Err(CommandError::InvalidFormat)
        }
    }

    /// Executes the PING command.
    pub fn apply(&self) -> (r: RespType)
        ensures
            r@ == match self@ {
                Some(m) => RespVal::BulkString(m),
                None => RespVal::SimpleString("PONG"@),
            },
    {
        match &self.msg {
            Some(msg) => RespType::BulkString(msg.clone()),
            None => RespType::SimpleString("PONG".to_owned()),
        }
    }
}

} // verus!
