//! The RESP2 wire protocol: value model, serializer, parser, and the
//! incremental command-frame decoder.

use vstd::prelude::*;

pub mod frame;
pub mod types;

verus! {

use crate::resp::types::{
    RespType,
    RespVal,
    resp_vals_of,
    lemma_resp_vals_of,
    encoding,
    lemma_encoding_valid_utf8,
    bytes_to_str,
};
use vstd::utf8::encode_utf8;

/// A reply value rendered as one string: the RESP2 types a server emits,
/// without the null bulk marker.
#[derive(Debug, PartialEq)]
pub enum Value {
    SimpleString(String),
    BulkString(String),
    Array(Vec<Value>),
    Error(String),
    Integer(i64),
}

/// The abstract value of a reply value.
pub open spec fn reply_val_of(v: Value) -> RespVal
    decreases v,
{
    match v {
        Value::SimpleString(s) => RespVal::SimpleString(s@),
        Value::BulkString(s) => RespVal::BulkString(s@),
        Value::Error(s) => RespVal::SimpleError(s@),
        Value::Integer(i) => RespVal::Integer(i as int),
        Value::Array(xs) => RespVal::Array(reply_vals_of(xs@)),
    }
}

/// The abstract values of a sequence of reply values, element by element.
pub open spec fn reply_vals_of(xs: Seq<Value>) -> Seq<RespVal>
    decreases xs,
{
    if xs.len() == 0 {
        Seq::empty()
    } else {
        seq![reply_val_of(xs.first())] + reply_vals_of(xs.drop_first())
    }
}

/// `reply_vals_of` maps the view pointwise.
proof fn lemma_reply_vals_of(xs: Seq<Value>)
    ensures
        reply_vals_of(xs).len() == xs.len(),
        forall|i: int| 0 <= i < xs.len() ==> reply_vals_of(xs)[i] == reply_val_of(xs[i]),
    decreases xs.len(),
{
    if xs.len() > 0 {
        lemma_reply_vals_of(xs.drop_first());
    }
}

impl View for Value {
    type V = RespVal;

    open spec fn view(&self) -> RespVal {
        reply_val_of(*self)
    }
}

impl Value {
    /// The same value as a wire value.
    fn as_resp(&self) -> (r: RespType)
        ensures
            r@ == self@,
        decreases *self,
    {
        match self {
            Value::SimpleString(s) => RespType::SimpleString(s.clone()),
            Value::BulkString(s) => RespType::BulkString(s.clone()),
            Value::Error(s) => RespType::SimpleError(s.clone()),
            Value::Integer(i) => RespType::Integer(*i),
            Value::Array(xs) => {
                let ghost vals = reply_vals_of(xs@);
                proof {
                    lemma_reply_vals_of(xs@);
                }
                let mut out: Vec<RespType> = Vec::new();
                let n = xs.len();
                let mut i: usize = 0;
                while i < n
                    invariant
                        *self == Value::Array(*xs),
                        n == xs@.len(),
                        0 <= i <= n,
                        vals == reply_vals_of(xs@),
                        vals.len() == n,
                        forall|j: int| 0 <= j < n ==> vals[j] == reply_val_of(xs@[j]),
                        resp_vals_of(out@) == vals.take(i as int),
                    decreases n - i,
                {
                    proof {
                        assert(decreases_to!(*self => self->Array_0));
                        assert(self->Array_0 == *xs);
                        assert(decreases_to!(*xs => xs@));
                        assert(decreases_to!(xs@ => xs@[i as int]));
                    }
                    let e = xs[i].as_resp();
                    let ghost prev = out@;
                    out.push(e);
                    proof {
                        lemma_resp_vals_of(prev);
                        lemma_resp_vals_of(out@);
                        assert(resp_vals_of(out@) =~= vals.take(i + 1));
                    }
                    i += 1;
                }
                proof {
                    assert(vals.take(n as int) =~= vals);
                }
                RespType::Array(out)
            },
        }
    }

    /// Serialize the reply into its canonical wire text: the string
    /// whose UTF-8 bytes are exactly the value's RESP2 encoding.
    pub fn serialize(&self) -> (r: String)
        ensures
            encode_utf8(r@) == encoding(self@),
    {
        let resp = self.as_resp();
        let bytes = resp.to_bytes();
        proof {
            lemma_encoding_valid_utf8(self@);
        }
        match bytes_to_str(bytes.as_slice()) {
            Some(s) => {
                proof {
                    vstd::utf8::decode_utf8_encode_utf8(bytes@);
                }
                s.to_owned()
            },
            None => {
                proof {
                    assert(false);
                }
                String::new()
            },
        }
    }
}

/// Errors that can occur while parsing RESP bytes.
#[derive(Debug)]
pub enum RespError {
    InvalidBulkString(String),
    InvalidSimpleString(String),
    InvalidArray(String),
    Other(String),
}

/// The reason a RESP parsing error reports.
pub open spec fn resp_err_msg(e: RespError) -> Seq<char> {
    match e {
        RespError::InvalidBulkString(s) => s@,
        RespError::InvalidSimpleString(s) => s@,
        RespError::InvalidArray(s) => s@,
        RespError::Other(s) => s@,
    }
}

impl RespError {
    /// A human-readable reason, as it would be reported to a peer or a log.
    pub fn message(&self) -> (r: &str)
        ensures
            r@ == resp_err_msg(*self),
    {
        match self {
            RespError::InvalidBulkString(s) => s.as_str(),
            RespError::InvalidSimpleString(s) => s.as_str(),
            RespError::InvalidArray(s) => s.as_str(),
            RespError::Other(s) => s.as_str(),
        }
    }
}

} // verus!
