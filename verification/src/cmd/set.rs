//! The SET command.

use vstd::prelude::*;

verus! {

use crate::cmd::{CommandError, CmdErrVal, exec_step, CmdVal};
use crate::resp::types::{RespType, RespVal, resp_vals_of, bulk_text, lemma_resp_vals_of};
use crate::storage::db::{DB, Value};

/// The SET command: installs a string value at a key.
pub struct SetCmd {
    key: String,
    value: String,
}

impl View for SetCmd {
    type V = (Seq<char>, Seq<char>);

    closed spec fn view(&self) -> (Seq<char>, Seq<char>) {
        (self.key@, self.value@)
    }
}

/// The key and value SET installs, or the error its arguments earn:
/// exactly two bulk strings.
pub open spec fn set_args_spec(args: Seq<RespVal>) -> Result<(Seq<char>, Seq<char>), CmdErrVal> {
    if args.len() != 2 {
        Err(CmdErrVal::Other("Wrong number of arguments specified for 'SET' command"@))
    } else if !(args[0] is BulkString) {
        Err(CmdErrVal::Other("Invalid argument.Key must be a bulk string"@))
    } else if !(args[1] is BulkString) {
        Err(CmdErrVal::Other("Invalid argument.Value must be a bulk string"@))
    } else {
        Ok((bulk_text(args[0]), bulk_text(args[1])))
    }
}

impl SetCmd {
    /// Creates a new instance of the set command from the given args.
    pub fn with_args(args: Vec<RespType>) -> (r: Result<Self, CommandError>)
        ensures
            match r {
                Ok(s) => set_args_spec(resp_vals_of(args@)) == Ok::<
                    (Seq<char>, Seq<char>),
                    CmdErrVal,
                >(s@),
                Err(e) => set_args_spec(resp_vals_of(args@)) == Err::<
                    (Seq<char>, Seq<char>),
                    CmdErrVal,
                >(e@),
            },
    {
        proof {
            lemma_resp_vals_of(args@);
        }
        if args.len() != 2 {
            return Err(
                CommandError::Other(
                    "Wrong number of arguments specified for 'SET' command".to_owned(),
                ),
            );
        }
        let key = match &args[0] {
            RespType::BulkString(key) => key,
            _ => {
                return Err(
                    CommandError::Other("Invalid argument.Key must be a bulk string".to_owned()),
                );
            },
        };
        let value = match &args[1] {
            RespType::BulkString(value) => value,
            _ => {
                return Err(
                    CommandError::Other("Invalid argument.Value must be a bulk string".to_owned()),
                );
            },
        };
        Ok(Self { key: key.clone(), value: value.clone() })
    }

    /// Execute the set command.
    pub fn apply(&self, db: &mut DB) -> (r: RespType)
        requires
            old(db).wf(),
        ensures
            final(db).wf(),
            final(db)@ == exec_step(old(db)@, CmdVal::SetCmd(self@.0, self@.1)).0,
            r@ == exec_step(old(db)@, CmdVal::SetCmd(self@.0, self@.1)).1,
    {
        match db.set(self.key.clone(), Value::String(self.value.clone())) {
            Ok(_) => RespType::BulkString("OK".to_owned()),
            Err(e) => RespType::SimpleError(e.message()),
        }
    }
}

} // verus!
