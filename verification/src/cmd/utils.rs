//! Shared argument parsing.

use vstd::prelude::*;

verus! {

use crate::cmd::{CommandError, CmdErrVal};
use crate::resp::types::{RespType, RespVal, resp_vals_of, all_bulk, texts_of, lemma_resp_vals_of};

/// The arguments after the first, or nothing at all.
pub open spec fn rest_args(xs: Seq<RespVal>) -> Seq<RespVal> {
    if xs.len() == 0 {
        Seq::empty()
    } else {
        xs.drop_first()
    }
}

/// Collects the texts of every argument after the first; every one of
/// them must be a bulk string.
pub fn parse_values(args: Vec<RespType>) -> (r: Result<Vec<String>, CommandError>)
    ensures
        match r {
            Ok(vs) => {
                &&& all_bulk(rest_args(resp_vals_of(args@)))
                &&& vs.deep_view() == texts_of(rest_args(resp_vals_of(args@)))
            },
            Err(e) => {
                &&& !all_bulk(rest_args(resp_vals_of(args@)))
                &&& e@ == CmdErrVal::Other("Invalid argument. Value must be a bulk string"@)
            },
        },
{
    let ghost vals = resp_vals_of(args@);
    proof {
        lemma_resp_vals_of(args@);
    }
    let mut values: Vec<String> = Vec::new();
    let n = args.len();
    if n == 0 {
        proof {
            assert(values.deep_view() =~= texts_of(rest_args(vals)));
        }
        return Ok(values);
    }
    let mut i: usize = 1;
    while i < n
        invariant
            n == args@.len(),
            n >= 1,
            1 <= i <= n,
            vals == resp_vals_of(args@),
            vals.len() == n,
            forall|j: int| 0 <= j < vals.len() ==> vals[j] == crate::resp::types::resp_val_of(
                args@[j],
            ),
            forall|j: int| 1 <= j < i ==> vals[j] is BulkString,
            values.deep_view() == texts_of(vals.subrange(1, i as int)),
        decreases n - i,
    {
        match &args[i] {
            RespType::BulkString(s) => {
                values.push(s.clone());
                proof {
                    assert(texts_of(vals.subrange(1, i + 1)) =~= texts_of(
                        vals.subrange(1, i as int),
                    ).push(crate::resp::types::bulk_text(vals[i as int])));
                    assert(values.deep_view() =~~= texts_of(vals.subrange(1, i + 1)));
                }
            },
            _ => {
                proof {
                    assert(!(rest_args(vals)[i - 1] is BulkString));
                }
                return Err(
                    CommandError::Other("Invalid argument. Value must be a bulk string".to_owned()),
                );
            },
        }
        i += 1;
    }
    proof {
        assert(vals.subrange(1, n as int) =~= rest_args(vals));
    }
    Ok(values)
}

} // verus!
