//! The LPUSH command.

use vstd::prelude::*;

verus! {

use crate::cmd::{CommandError, CmdErrVal, exec_step, CmdVal, int_reply};
use crate::cmd::utils::parse_values;
use crate::resp::types::{
    RespType,
    RespVal,
    resp_vals_of,
    bulk_text,
    all_bulk,
    texts_of,
    lemma_resp_vals_of,
};
use crate::storage::db::DB;

/// The LPUSH command: pushes values onto the head of the list at a key.
pub struct LPush {
    key: String,
    values: Vec<String>,
}

impl View for LPush {
    type V = (Seq<char>, Seq<Seq<char>>);

    closed spec fn view(&self) -> (Seq<char>, Seq<Seq<char>>) {
        (self.key@, self.values.deep_view())
    }
}

/// The key and values LPUSH carries, or the error its arguments earn: a
/// bulk-string key and at least one bulk-string value.
pub open spec fn lpush_args_spec(args: Seq<RespVal>) -> Result<
    (Seq<char>, Seq<Seq<char>>),
    CmdErrVal,
> {
    if args.len() < 2 {
        Err(CmdErrVal::Other("Wrong number of arguments specified for 'LPUSH' command"@))
    } else if !(args[0] is BulkString) {
        Err(CmdErrVal::Other("Invalid key"@))
    } else if !all_bulk(args.skip(1)) {
        Err(CmdErrVal::Other("Invalid argument. Value must be a bulk string"@))
    } else {
        Ok((bulk_text(args[0]), texts_of(args.skip(1))))
    }
}

impl LPush {
    /// Creates a new LPush instance from the given args.
    pub fn with_args(args: Vec<RespType>) -> (r: Result<LPush, CommandError>)
        ensures
            match r {
                Ok(p) => lpush_args_spec(resp_vals_of(args@)) == Ok::<
                    (Seq<char>, Seq<Seq<char>>),
                    CmdErrVal,
                >(p@),
                Err(e) => lpush_args_spec(resp_vals_of(args@)) == Err::<
                    (Seq<char>, Seq<Seq<char>>),
                    CmdErrVal,
                >(e@),
            },
    {
        proof {
            lemma_resp_vals_of(args@);
        }
        if args.len() < 2 {
            return Err(
                CommandError::Other(
                    "Wrong number of arguments specified for 'LPUSH' command".to_owned(),
                ),
            );
        }
        let key = match &args[0] {
            RespType::BulkString(s) => s.clone(),
            _ => {
                return Err(CommandError::Other("Invalid key".to_owned()));
            },
        };
        proof {
            assert(crate::cmd::utils::rest_args(resp_vals_of(args@)) =~= resp_vals_of(
                args@,
            ).skip(1));
        }
        let values = match parse_values(args) {
            Ok(vs) => vs,
            Err(e) => {
                return Err(e);
            },
        };
        Ok(LPush { key, values })
    }

    /// Executes the LPUSH command.
    pub fn apply(&self, db: &mut DB) -> (r: RespType)
        requires
            old(db).wf(),
        ensures
            final(db).wf(),
            final(db)@ == exec_step(old(db)@, CmdVal::LPush(self@.0, self@.1)).0,
            r@ == exec_step(old(db)@, CmdVal::LPush(self@.0, self@.1)).1,
    {
        match db.lpush(self.key.clone(), self.values.clone()) {
            Ok(len) => int_reply(len),
            Err(e) => RespType::SimpleError(e.message()),
        }
    }
}

} // verus!
