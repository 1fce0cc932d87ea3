//! The LRANGE command.

use vstd::prelude::*;

verus! {

use crate::cmd::{CommandError, CmdErrVal, exec_step, CmdVal};
use crate::resp::types::{RespType, RespVal, resp_vals_of, bulk_text, lemma_resp_vals_of};
use crate::storage::db::DB;
use crate::text::{parse_i64, parse_i64_spec};

/// The LRANGE command: reads an inclusive subrange of the list at a key.
pub struct LRange {
    key: String,
    start: i64,
    stop: i64,
}

impl View for LRange {
    type V = (Seq<char>, int, int);

    closed spec fn view(&self) -> (Seq<char>, int, int) {
        (self.key@, self.start as int, self.stop as int)
    }
}

/// The index a bulk-string argument denotes, or the error it earns.
pub open spec fn parse_idx_spec(v: RespVal) -> Result<int, CmdErrVal> {
    match v {
        RespVal::BulkString(s) => match parse_i64_spec(s) {
            Some(i) => Ok(i),
            None => Err(CmdErrVal::Other("index should be an integer"@)),
        },
        _ => Err(CmdErrVal::Other("Invalid argument. Value must be an integer in bulk string format"@)),
    }
}

/// The key and range LRANGE carries, or the error its arguments earn: a
/// bulk-string key and two signed decimal indices.
pub open spec fn lrange_args_spec(args: Seq<RespVal>) -> Result<(Seq<char>, int, int), CmdErrVal> {
    if args.len() != 3 {
        Err(CmdErrVal::InvalidFormat)
    } else if !(args[0] is BulkString) {
        Err(CmdErrVal::InvalidFormat)
    } else {
        match parse_idx_spec(args[1]) {
            Err(e) => Err(e),
            Ok(a) => match parse_idx_spec(args[2]) {
                Err(e) => Err(e),
                Ok(b) => Ok((bulk_text(args[0]), a, b)),
            },
        }
    }
}

impl LRange {
    /// Creates a new LRange instance from the given args.
    pub fn with_args(args: Vec<RespType>) -> (r: Result<LRange, CommandError>)
        ensures
            match r {
                Ok(l) => lrange_args_spec(resp_vals_of(args@)) == Ok::<
                    (Seq<char>, int, int),
                    CmdErrVal,
                >(l@),
                Err(e) => lrange_args_spec(resp_vals_of(args@)) == Err::<
                    (Seq<char>, int, int),
                    CmdErrVal,
                >(e@),
            },
    {
        proof {
            lemma_resp_vals_of(args@);
        }
        if args.len() != 3 {
            return Err(CommandError::InvalidFormat);
        }
        let key = match &args[0] {
            RespType::BulkString(s) => s.clone(),
            _ => {
                return Err(CommandError::InvalidFormat);
            },
        };
        let start = match Self::parse_idx(&args[1]) {
            Ok(i) => i,
            Err(e) => {
                return Err(e);
            },
        };
        let stop = match Self::parse_idx(&args[2]) {
            Ok(i) => i,
            Err(e) => {
                return Err(e);
            },
        };
        Ok(LRange { key, start, stop })
    }

    /// Reads one signed decimal index from a bulk-string argument.
    fn parse_idx(v: &RespType) -> (r: Result<i64, CommandError>)
        ensures
            match r {
                Ok(i) => parse_idx_spec(v@) == Ok::<int, CmdErrVal>(i as int),
                Err(e) => parse_idx_spec(v@) == Err::<int, CmdErrVal>(e@),
            },
    {
        match v {
            RespType::BulkString(s) => {
                match parse_i64(s.as_str()) {
                    Some(i) => Ok(i),
                    None => Err(CommandError::Other("index should be an integer".to_owned())),
                }
            },
            _ => Err(
                CommandError::Other(
                    "Invalid argument. Value must be an integer in bulk string format".to_owned(),
                ),
            ),
        }
    }

    /// Execute the LRange command.
    pub fn apply(&self, db: &DB) -> (r: RespType)
        requires
            db.wf(),
        ensures
            r@ == exec_step(db@, CmdVal::LRange(self@.0, self@.1, self@.2)).1,
    {
        match db.lrange(self.key.clone(), self.start, self.stop) {
            Ok(elems) => {
                let ghost expected = crate::storage::db::lrange_spec(
                    crate::storage::db::db_list(db@, self.key@),
                    self.start as int,
                    self.stop as int,
                );
                let mut sub_list: Vec<RespType> = Vec::new();
                let n = elems.len();
                let mut i: usize = 0;
                while i < n
                    invariant
                        n == elems@.len(),
                        0 <= i <= n,
                        elems.deep_view() == expected,
                        resp_vals_of(sub_list@) == crate::resp::types::bulks_of(
                            expected.take(i as int),
                        ),
                    decreases n - i,
                {
                    let ghost prev = sub_list@;
                    let e = elems[i].clone();
                    proof {
                        assert(e@ == elems.deep_view()[i as int]);
                    }
                    sub_list.push(RespType::BulkString(e));
                    proof {
                        lemma_resp_vals_of(prev);
                        lemma_resp_vals_of(sub_list@);
                        assert(resp_vals_of(sub_list@)[i as int] == RespVal::BulkString(
                            expected[i as int],
                        ));
                        assert forall|k: int| 0 <= k < i implies resp_vals_of(sub_list@)[k]
                            == resp_vals_of(prev)[k] by {
                            assert(sub_list@[k] == prev[k]);
                        }
                        assert(expected.len() == n);
                        assert forall|k: int|
                            0 <= k < i + 1 implies resp_vals_of(sub_list@)[k]
                            == crate::resp::types::bulks_of(expected.take(i + 1))[k] by {
                            assert(expected.take(i + 1)[k] == expected[k]);
                            if k < i {
                                assert(resp_vals_of(prev)[k] == crate::resp::types::bulks_of(
                                    expected.take(i as int),
                                )[k]);
                                assert(expected.take(i as int)[k] == expected[k]);
                            }
                        }
                        assert(resp_vals_of(sub_list@) =~= crate::resp::types::bulks_of(
                            expected.take(i + 1),
                        ));
                    }
                    i += 1;
                }
                proof {
                    lemma_resp_vals_of(sub_list@);
                    assert(expected.take(n as int) =~= expected);
                    assert(resp_vals_of(sub_list@) =~= crate::resp::types::bulks_of(expected));
                }
                RespType::Array(sub_list)
            },
            Err(e) => RespType::SimpleError(e.message()),
        }
    }
}

} // verus!
