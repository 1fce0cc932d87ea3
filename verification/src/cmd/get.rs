//! The GET command.

use vstd::prelude::*;

verus! {

use crate::cmd::{CommandError, CmdErrVal, exec_step, CmdVal};
use crate::resp::types::{RespType, RespVal, resp_vals_of, bulk_text, lemma_resp_vals_of};
use crate::storage::db::DB;

/// The GET command: reads the string value at a key.
pub struct Get {
    /// The key to get the value for.
    key: String,
}

impl View for Get {
    type V = Seq<char>;

    closed spec fn view(&self) -> Seq<char> {
        self.key@
    }
}

/// The key GET reads, or the error its arguments earn: exactly one bulk
/// string.
pub open spec fn get_args_spec(args: Seq<RespVal>) -> Result<Seq<char>, CmdErrVal> {
    if args.len() != 1 {
        Err(CmdErrVal::Other("Wrong number of arguments specified for 'GET' command"@))
    } else if !(args[0] is BulkString) {
        Err(CmdErrVal::Other("Invalid argument.Key must be a bulk string"@))
    } else {
        Ok(bulk_text(args[0]))
    }
}

impl Get {
    /// Create a new instance of the get command from the given args.
    pub fn with_args(args: Vec<RespType>) -> (r: Result<Self, CommandError>)
        ensures
            match r {
                Ok(g) => get_args_spec(resp_vals_of(args@)) == Ok::<Seq<char>, CmdErrVal>(g@),
                Err(e) => get_args_spec(resp_vals_of(args@)) == Err::<Seq<char>, CmdErrVal>(e@),
            },
    {
        proof {
            lemma_resp_vals_of(args@);
        }
        if args.len() != 1 {
            return Err(
                CommandError::Other(
                    "Wrong number of arguments specified for 'GET' command".to_owned(),
                ),
            );
        }
        match &args[0] {
            RespType::BulkString(key) => Ok(Self { key: key.clone() }),
            _ => Err(CommandError::Other("Invalid argument.Key must be a bulk string".to_owned())),
        }
    }

    /// Executes the GET command.
    pub fn apply(&self, db: &DB) -> (r: RespType)
        requires
            db.wf(),
        ensures
            r@ == exec_step(db@, CmdVal::Get(self@)).1,
    {
        match db.get(self.key.as_str()) {
            Ok(Some(value)) => RespType::BulkString(value),
            Ok(None) => RespType::NullBulkString,
            Err(e) => RespType::SimpleError(e.message()),
        }
    }
}

} // verus!
