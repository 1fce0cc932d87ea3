//! Typed commands: parsing a command frame and applying the result
//! against the store.

use vstd::prelude::*;

pub mod get;
pub mod lpush;
pub mod lrange;
pub mod ping;
pub mod rpush;
pub mod set;
pub mod tx;
pub mod utils;

verus! {

use crate::cmd::get::Get;
use crate::cmd::lpush::LPush;
use crate::cmd::lrange::LRange;
use crate::cmd::ping::Ping;
use crate::cmd::rpush::RPush;
use crate::cmd::set::SetCmd;
use crate::resp::types::{RespType, RespVal, resp_vals_of, bulk_text, lemma_resp_vals_of};
use crate::storage::db::{DB, StoredVal, db_list, lrange_spec};
use crate::storage::wrong_type_reason;
use crate::text::{chars_ci_eq, eq_ignore_case};

/// The mathematical value of a [`Command`].
pub enum CmdVal {
    Ping(Option<Seq<char>>),
    SetCmd(Seq<char>, Seq<char>),
    Get(Seq<char>),
    LPush(Seq<char>, Seq<Seq<char>>),
    RPush(Seq<char>, Seq<Seq<char>>),
    LRange(Seq<char>, int, int),
    Multi,
    Exec,
    Discard,
}

/// The mathematical value of a [`CommandError`].
pub enum CmdErrVal {
    InvalidFormat,
    Unknown(Seq<char>),
    Other(Seq<char>),
}

/// A parsed command.
pub enum Command {
    /// The PING command.
    Ping(Ping),
    /// The SET command.
    SetCmd(SetCmd),
    /// The GET command.
    Get(Get),
    /// The LPUSH command.
    LPush(LPush),
    /// The RPUSH command.
    RPush(RPush),
    /// The LRANGE command.
    LRange(LRange),
    /// The MULTI command.
    Multi,
    /// The EXEC command.
    Exec,
    /// The DISCARD command.
    Discard,
}

impl View for Command {
    type V = CmdVal;

    open spec fn view(&self) -> CmdVal {
        match self {
            Command::Ping(p) => CmdVal::Ping(p@),
            Command::SetCmd(s) => CmdVal::SetCmd(s@.0, s@.1),
            Command::Get(g) => CmdVal::Get(g@),
            Command::LPush(p) => CmdVal::LPush(p@.0, p@.1),
            Command::RPush(p) => CmdVal::RPush(p@.0, p@.1),
            Command::LRange(r) => CmdVal::LRange(r@.0, r@.1, r@.2),
            Command::Multi => CmdVal::Multi,
            Command::Exec => CmdVal::Exec,
            Command::Discard => CmdVal::Discard,
        }
    }
}

impl DeepView for Command {
    type V = CmdVal;

    open spec fn deep_view(&self) -> CmdVal {
        self.view()
    }
}

/// Errors raised while turning a frame into a command.
#[derive(Debug)]
pub enum CommandError {
    InvalidFormat,
    UnknownCommand(ErrUnknownCommand),
    Other(String),
}

/// The name that failed to match any known command.
#[derive(Debug)]
pub struct ErrUnknownCommand {
    pub cmd: String,
}

impl View for CommandError {
    type V = CmdErrVal;

    open spec fn view(&self) -> CmdErrVal {
        match self {
            CommandError::InvalidFormat => CmdErrVal::InvalidFormat,
            CommandError::UnknownCommand(u) => CmdErrVal::Unknown(u.cmd@),
            CommandError::Other(m) => CmdErrVal::Other(m@),
        }
    }
}

/// The reason a command error reports.
pub open spec fn cmd_err_msg(e: CmdErrVal) -> Seq<char> {
    match e {
        CmdErrVal::InvalidFormat => "Invalid command format"@,
        CmdErrVal::Unknown(n) => "Unknown command: "@ + n,
        CmdErrVal::Other(m) => m,
    }
}

impl CommandError {
    /// A human-readable reason, as it would be reported to a peer.
    pub fn message(&self) -> (r: String)
        ensures
            r@ == cmd_err_msg(self@),
    {
        match self {
            CommandError::InvalidFormat => "Invalid command format".to_owned(),
            CommandError::UnknownCommand(u) => {
                let mut m = "Unknown command: ".to_owned();
                m.append(u.cmd.as_str());
                m
            },
            CommandError::Other(m) => m.as_str().to_owned(),
        }
    }
}

/// The command a frame denotes, or the error its shape earns: the first
/// element names the command, case-insensitively; the rest are its
/// arguments.  MULTI, EXEC and DISCARD carry no arguments; extras are
/// an error.
pub open spec fn parse_command_spec(frame: Seq<RespVal>) -> Result<CmdVal, CmdErrVal> {
    if frame.len() == 0 {
        Err(CmdErrVal::InvalidFormat)
    } else if !(frame[0] is BulkString) {
        Err(CmdErrVal::InvalidFormat)
    } else {
        let name = bulk_text(frame[0]);
        let args = frame.drop_first();
        if chars_ci_eq(name, "ping"@) {
            match crate::cmd::ping::ping_args_spec(args) {
                Ok(m) => Ok(CmdVal::Ping(m)),
                Err(e) => Err(e),
            }
        } else if chars_ci_eq(name, "set"@) {
            match crate::cmd::set::set_args_spec(args) {
                Ok(kv) => Ok(CmdVal::SetCmd(kv.0, kv.1)),
                Err(e) => Err(e),
            }
        } else if chars_ci_eq(name, "get"@) {
            match crate::cmd::get::get_args_spec(args) {
                Ok(k) => Ok(CmdVal::Get(k)),
                Err(e) => Err(e),
            }
        } else if chars_ci_eq(name, "lpush"@) {
            match crate::cmd::lpush::lpush_args_spec(args) {
                Ok(kv) => Ok(CmdVal::LPush(kv.0, kv.1)),
                Err(e) => Err(e),
            }
        } else if chars_ci_eq(name, "rpush"@) {
            match crate::cmd::rpush::rpush_args_spec(args) {
                Ok(kv) => Ok(CmdVal::RPush(kv.0, kv.1)),
                Err(e) => Err(e),
            }
        } else if chars_ci_eq(name, "lrange"@) {
            match crate::cmd::lrange::lrange_args_spec(args) {
                Ok(kab) => Ok(CmdVal::LRange(kab.0, kab.1, kab.2)),
                Err(e) => Err(e),
            }
        } else if chars_ci_eq(name, "multi"@) {
            if args.len() == 0 {
                Ok(CmdVal::Multi)
            } else {
                Err(CmdErrVal::Other("Wrong number of arguments specified for 'MULTI' command"@))
            }
        } else if chars_ci_eq(name, "exec"@) {
            if args.len() == 0 {
                Ok(CmdVal::Exec)
            } else {
                Err(CmdErrVal::Other("Wrong number of arguments specified for 'EXEC' command"@))
            }
        } else if chars_ci_eq(name, "discard"@) {
            if args.len() == 0 {
                Ok(CmdVal::Discard)
            } else {
                Err(CmdErrVal::Other("Wrong number of arguments specified for 'DISCARD' command"@))
            }
        } else {
            Err(CmdErrVal::Unknown(name))
        }
    }
}

/// A 64-bit reply for a length: lengths beyond `i64::MAX` saturate.
pub open spec fn clip_i64(n: int) -> int {
    if n > i64::MAX {
        i64::MAX as int
    } else {
        n
    }
}

/// What one command does to the store, and what it replies.
pub open spec fn exec_step(m: Map<Seq<char>, StoredVal>, c: CmdVal) -> (Map<
    Seq<char>,
    StoredVal,
>, RespVal) {
    match c {
        CmdVal::Ping(msg) => (
            m,
            match msg {
                Some(t) => RespVal::BulkString(t),
                None => RespVal::SimpleString("PONG"@),
            },
        ),
        CmdVal::SetCmd(k, v) => (m.insert(k, StoredVal::Str(v)), RespVal::BulkString("OK"@)),
        CmdVal::Get(k) => (
            m,
            if !m.contains_key(k) {
                RespVal::NullBulkString
            } else {
                match m[k] {
                    StoredVal::Str(s) => RespVal::BulkString(s),
                    StoredVal::List(_) => RespVal::SimpleError(wrong_type_reason()),
                }
            },
        ),
        CmdVal::LPush(k, vs) => {
            if m.contains_key(k) && m[k] is Str {
                (m, RespVal::SimpleError(wrong_type_reason()))
            } else {
                let l = vs.reverse() + db_list(m, k);
                (m.insert(k, StoredVal::List(l)), RespVal::Integer(clip_i64(l.len() as int)))
            }
        },
        CmdVal::RPush(k, vs) => {
            if m.contains_key(k) && m[k] is Str {
                (m, RespVal::SimpleError(wrong_type_reason()))
            } else {
                let l = db_list(m, k) + vs;
                (m.insert(k, StoredVal::List(l)), RespVal::Integer(clip_i64(l.len() as int)))
            }
        },
        CmdVal::LRange(k, a, b) => {
            if m.contains_key(k) && m[k] is Str {
                (m, RespVal::SimpleError(wrong_type_reason()))
            } else {
                (m, RespVal::Array(crate::resp::types::bulks_of(lrange_spec(db_list(m, k), a, b))))
            }
        },
        CmdVal::Multi => (m, RespVal::SimpleString("OK"@)),
        CmdVal::Exec => (m, RespVal::NullBulkString),
        CmdVal::Discard => (m, RespVal::SimpleString("OK"@)),
    }
}

/// What a queue of commands does to the store when applied in order, and
/// the replies collected along the way.
pub open spec fn exec_all(m: Map<Seq<char>, StoredVal>, cs: Seq<CmdVal>) -> (Map<
    Seq<char>,
    StoredVal,
>, Seq<RespVal>)
    decreases cs.len(),
{
    if cs.len() == 0 {
        (m, Seq::empty())
    } else {
        let step = exec_step(m, cs.first());
        let rest = exec_all(step.0, cs.drop_first());
        (rest.0, seq![step.1] + rest.1)
    }
}

impl Command {
    /// Attempts to create a command from the given RESP command frame.
    pub fn from_resp_command_frame(frame: Vec<RespType>) -> (r: Result<Command, CommandError>)
        ensures
            match r {
                Ok(c) => parse_command_spec(resp_vals_of(frame@)) == Ok::<CmdVal, CmdErrVal>(c@),
                Err(e) => parse_command_spec(resp_vals_of(frame@)) == Err::<CmdVal, CmdErrVal>(e@),
            },
    {
        let ghost vals = resp_vals_of(frame@);
        proof {
            lemma_resp_vals_of(frame@);
        }
        let mut frame = frame;
        if frame.len() == 0 {
            return Err(CommandError::InvalidFormat);
        }
        let first = frame.remove(0);
        let name = match first {
            RespType::BulkString(s) => s,
            _ => {
                return Err(CommandError::InvalidFormat);
            },
        };
        let args = frame;
        proof {
            lemma_resp_vals_of(args@);
            assert(resp_vals_of(args@) =~= vals.drop_first());
        }
        if eq_ignore_case(name.as_str(), "ping") {
            match Ping::with_args(args) {
                Ok(p) => Ok(Command::Ping(p)),
                Err(e) => Err(e),
            }
        } else if eq_ignore_case(name.as_str(), "set") {
            match SetCmd::with_args(args) {
                Ok(s) => Ok(Command::SetCmd(s)),
                Err(e) => Err(e),
            }
        } else if eq_ignore_case(name.as_str(), "get") {
            match Get::with_args(args) {
                Ok(g) => Ok(Command::Get(g)),
                Err(e) => Err(e),
            }
        } else if eq_ignore_case(name.as_str(), "lpush") {
            match LPush::with_args(args) {
                Ok(p) => Ok(Command::LPush(p)),
                Err(e) => Err(e),
            }
        } else if eq_ignore_case(name.as_str(), "rpush") {
            match RPush::with_args(args) {
                Ok(p) => Ok(Command::RPush(p)),
                Err(e) => Err(e),
            }
        } else if eq_ignore_case(name.as_str(), "lrange") {
            match LRange::with_args(args) {
                Ok(l) => Ok(Command::LRange(l)),
                Err(e) => Err(e),
            }
        } else if eq_ignore_case(name.as_str(), "multi") {
            if args.len() == 0 {
                Ok(Command::Multi)
            } else {
                Err(
                    CommandError::Other(
                        "Wrong number of arguments specified for 'MULTI' command".to_owned(),
                    ),
                )
            }
        } else if eq_ignore_case(name.as_str(), "exec") {
            if args.len() == 0 {
                Ok(Command::Exec)
            } else {
                Err(
                    CommandError::Other(
                        "Wrong number of arguments specified for 'EXEC' command".to_owned(),
                    ),
                )
            }
        } else if eq_ignore_case(name.as_str(), "discard") {
            if args.len() == 0 {
                Ok(Command::Discard)
            } else {
                Err(
                    CommandError::Other(
                        "Wrong number of arguments specified for 'DISCARD' command".to_owned(),
                    ),
                )
            }
        } else {
            Err(CommandError::UnknownCommand(ErrUnknownCommand { cmd: name }))
        }
    }

    /// Executes the command against the store and returns the reply.
    pub fn execute(&self, db: &mut DB) -> (r: RespType)
        requires
            old(db).wf(),
        ensures
            final(db).wf(),
            final(db)@ == exec_step(old(db)@, self@).0,
            r@ == exec_step(old(db)@, self@).1,
    {
        match self {
            Command::Ping(ping) => ping.apply(),
            Command::SetCmd(set) => set.apply(db),
            Command::Get(get) => get.apply(db),
            Command::LPush(lpush) => lpush.apply(db),
            Command::RPush(rpush) => rpush.apply(db),
            Command::LRange(lrange) => lrange.apply(db),
            Command::Multi => RespType::SimpleString("OK".to_owned()),
            Command::Exec => RespType::NullBulkString,
            Command::Discard => RespType::SimpleString("OK".to_owned()),
        }
    }
}

/// LPUSH onto an absent key leaves the values in reverse order: a
/// following `LRANGE 0 -1` returns the last pushed value first.
pub proof fn lemma_lpush_reverses(
    m: Map<Seq<char>, StoredVal>,
    k: Seq<char>,
    vs: Seq<Seq<char>>,
)
    requires
        !m.contains_key(k),
    ensures
        ({
            let step = exec_step(m, CmdVal::LPush(k, vs));
            &&& step.1 == RespVal::Integer(clip_i64(vs.len() as int))
            &&& exec_step(step.0, CmdVal::LRange(k, 0, -1)).1 == RespVal::Array(
                crate::resp::types::bulks_of(vs.reverse()),
            )
        }),
{
    let l = vs.reverse() + db_list(m, k);
    assert(l =~= vs.reverse());
    let m1 = exec_step(m, CmdVal::LPush(k, vs)).0;
    assert(db_list(m1, k) == l);
    if l.len() > 0 {
        assert(lrange_spec(l, 0, -1) =~= l);
    } else {
        assert(lrange_spec(l, 0, -1) =~= l);
    }
}

/// RPUSH onto an absent key keeps the values in the order given: a
/// following `LRANGE 0 -1` returns them first to last.
pub proof fn lemma_rpush_keeps_order(
    m: Map<Seq<char>, StoredVal>,
    k: Seq<char>,
    vs: Seq<Seq<char>>,
)
    requires
        !m.contains_key(k),
    ensures
        ({
            let step = exec_step(m, CmdVal::RPush(k, vs));
            &&& step.1 == RespVal::Integer(clip_i64(vs.len() as int))
            &&& exec_step(step.0, CmdVal::LRange(k, 0, -1)).1 == RespVal::Array(
                crate::resp::types::bulks_of(vs),
            )
        }),
{
    let l = db_list(m, k) + vs;
    assert(l =~= vs);
    let m1 = exec_step(m, CmdVal::RPush(k, vs)).0;
    assert(db_list(m1, k) == l);
    if l.len() > 0 {
        assert(lrange_spec(l, 0, -1) =~= l);
    } else {
        assert(lrange_spec(l, 0, -1) =~= l);
    }
}

/// After SET installs a string, every list command on that key earns a
/// `WrongType` error and leaves the store untouched, and GET still
/// returns the string.
pub proof fn lemma_type_safety(
    m: Map<Seq<char>, StoredVal>,
    k: Seq<char>,
    x: Seq<char>,
    vs: Seq<Seq<char>>,
    a: int,
    b: int,
)
    ensures
        ({
            let m1 = exec_step(m, CmdVal::SetCmd(k, x)).0;
            &&& exec_step(m1, CmdVal::LPush(k, vs)) == (
                m1,
                RespVal::SimpleError(wrong_type_reason()),
            )
            &&& exec_step(m1, CmdVal::RPush(k, vs)) == (
                m1,
                RespVal::SimpleError(wrong_type_reason()),
            )
            &&& exec_step(m1, CmdVal::LRange(k, a, b)) == (
                m1,
                RespVal::SimpleError(wrong_type_reason()),
            )
            &&& exec_step(m1, CmdVal::Get(k)).1 == RespVal::BulkString(x)
        }),
{
}

/// SET replaces an entry of any variant: after a push created a list,
/// SET succeeds and GET returns the new string.
pub proof fn lemma_set_overwrites(
    m: Map<Seq<char>, StoredVal>,
    k: Seq<char>,
    vs: Seq<Seq<char>>,
    s: Seq<char>,
)
    requires
        !(m.contains_key(k) && m[k] is Str),
    ensures
        ({
            let m1 = exec_step(m, CmdVal::RPush(k, vs)).0;
            let step2 = exec_step(m1, CmdVal::SetCmd(k, s));
            &&& step2.1 == RespVal::BulkString("OK"@)
            &&& exec_step(step2.0, CmdVal::Get(k)).1 == RespVal::BulkString(s)
        }),
{
}

/// A length reply, saturating at `i64::MAX`.
pub(crate) fn int_reply(n: usize) -> (r: RespType)
    ensures
        r@ == RespVal::Integer(clip_i64(n as int)),
{
    let n64 = n as u64;
    if n64 > i64::MAX as u64 {
        RespType::Integer(i64::MAX)
    } else {
        RespType::Integer(n64 as i64)
    }
}

} // verus!
