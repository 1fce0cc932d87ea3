//! Per-connection frame handling: parse a decoded frame, route it
//! through the transaction state machine, and produce exactly one reply.

use vstd::prelude::*;

verus! {

use crate::cmd::{
    Command,
    CmdVal,
    CmdErrVal,
    parse_command_spec,
    cmd_err_msg,
    exec_step,
    exec_all,
};
use crate::cmd::tx::Transaction;
use crate::resp::types::{RespType, RespVal, resp_vals_of};
use crate::storage::db::{DB, StoredVal};

/// Whether a command is interpreted by the transaction layer itself.
pub open spec fn is_tx_control(c: CmdVal) -> bool {
    c is Multi || c is Exec || c is Discard
}

/// What one decoded frame does to a connection: the queueing flag and
/// queue afterwards, the store afterwards, and the single reply.
///
/// Idle connections apply data commands immediately; queueing
/// connections buffer them and reply `QUEUED`.  EXEC applies the queue
/// in order and replies with the array of results; DISCARD drops the
/// queue; a parse error clears any active queue and reports the reason.
pub open spec fn handle_step(
    active: bool,
    queue: Seq<CmdVal>,
    m: Map<Seq<char>, StoredVal>,
    frame: Seq<RespVal>,
) -> (bool, Seq<CmdVal>, Map<Seq<char>, StoredVal>, RespVal) {
    match parse_command_spec(frame) {
        Err(e) => (
            false,
            if active {
                Seq::empty()
            } else {
                queue
            },
            m,
            RespVal::SimpleError(cmd_err_msg(e)),
        ),
        Ok(c) => match c {
            CmdVal::Multi => {
                if active {
                    (true, queue, m, RespVal::SimpleError("MULTI calls cannot be nested"@))
                } else {
                    (true, queue, m, RespVal::SimpleString("OK"@))
                }
            },
            CmdVal::Exec => {
                if active {
                    let res = exec_all(m, queue);
                    (false, Seq::empty(), res.0, RespVal::Array(res.1))
                } else {
                    (false, queue, m, RespVal::SimpleError("EXEC without MULTI"@))
                }
            },
            CmdVal::Discard => {
                if active {
                    (false, Seq::empty(), m, RespVal::SimpleString("OK"@))
                } else {
                    (false, queue, m, RespVal::SimpleError("DISCARD without MULTI"@))
                }
            },
            _ => {
                if active {
                    (true, queue.push(c), m, RespVal::SimpleString("QUEUED"@))
                } else {
                    let res = exec_step(m, c);
                    (false, queue, res.0, res.1)
                }
            },
        },
    }
}

/// Handles one decoded frame against the connection's transaction state
/// and the store, returning the one reply it earns.
pub fn handle_frame(tx: &mut Transaction, db: &mut DB, frame: Vec<RespType>) -> (r: RespType)
    requires
        old(db).wf(),
    ensures
        final(db).wf(),
        ({
            let step = handle_step(
                old(tx).active(),
                old(tx).queue(),
                old(db)@,
                resp_vals_of(frame@),
            );
            &&& final(tx).active() == step.0
            &&& final(tx).queue() == step.1
            &&& final(db)@ == step.2
            &&& r@ == step.3
        }),
{
    match Command::from_resp_command_frame(frame) {
        Ok(cmd) => match cmd {
            Command::Multi => {
                match tx.init() {
                    Ok(_) => RespType::SimpleString("OK".to_owned()),
                    Err(e) => RespType::SimpleError(e.message()),
                }
            },
            Command::Exec => {
                if tx.is_active() {
                    tx.execute(db)
                } else {
                    RespType::SimpleError("EXEC without MULTI".to_owned())
                }
            },
            Command::Discard => {
                if tx.is_active() {
                    tx.discard();
                    RespType::SimpleString("OK".to_owned())
                } else {
                    RespType::SimpleError("DISCARD without MULTI".to_owned())
                }
            },
            c => {
                if tx.is_active() {
                    tx.add_command(c);
                    RespType::SimpleString("QUEUED".to_owned())
                } else {
                    c.execute(db)
                }
            },
        },
        Err(e) => {
            if tx.is_active() {
                tx.discard();
            }
            RespType::SimpleError(e.message())
        },
    }
}

/// Applying a queue yields exactly one reply per queued command.
pub proof fn lemma_exec_all_len(m: Map<Seq<char>, StoredVal>, cs: Seq<CmdVal>)
    ensures
        exec_all(m, cs).1.len() == cs.len(),
    decreases cs.len(),
{
    if cs.len() > 0 {
        let step = exec_step(m, cs.first());
        lemma_exec_all_len(step.0, cs.drop_first());
    }
}

/// While queueing, every data command receives `QUEUED`, is appended to
/// the queue in order, and leaves the store untouched.
pub proof fn lemma_queueing_buffers(
    queue: Seq<CmdVal>,
    m: Map<Seq<char>, StoredVal>,
    frame: Seq<RespVal>,
    c: CmdVal,
)
    requires
        parse_command_spec(frame) == Ok::<CmdVal, CmdErrVal>(c),
        !is_tx_control(c),
    ensures
        handle_step(true, queue, m, frame) == (
            true,
            queue.push(c),
            m,
            RespVal::SimpleString("QUEUED"@),
        ),
{
}

/// EXEC while queueing replies with one sub-reply per queued command, in
/// enqueue order, applies the queue to the store, and leaves the
/// connection idle, so that a further EXEC earns `EXEC without MULTI`.
pub proof fn lemma_exec_drains_queue(
    queue: Seq<CmdVal>,
    m: Map<Seq<char>, StoredVal>,
    frame: Seq<RespVal>,
)
    requires
        parse_command_spec(frame) == Ok::<CmdVal, CmdErrVal>(CmdVal::Exec),
    ensures
        handle_step(true, queue, m, frame) == (
            false,
            Seq::<CmdVal>::empty(),
            exec_all(m, queue).0,
            RespVal::Array(exec_all(m, queue).1),
        ),
        exec_all(m, queue).1.len() == queue.len(),
        ({
            let after = handle_step(true, queue, m, frame);
            handle_step(after.0, after.1, after.2, frame) == (
                false,
                Seq::<CmdVal>::empty(),
                after.2,
                RespVal::SimpleError("EXEC without MULTI"@),
            )
        }),
{
    lemma_exec_all_len(m, queue);
}

/// A nested MULTI earns an error and leaves the connection queueing,
/// with its queue and the store untouched.
pub proof fn lemma_nested_multi(
    queue: Seq<CmdVal>,
    m: Map<Seq<char>, StoredVal>,
    frame: Seq<RespVal>,
)
    requires
        parse_command_spec(frame) == Ok::<CmdVal, CmdErrVal>(CmdVal::Multi),
    ensures
        handle_step(true, queue, m, frame) == (
            true,
            queue,
            m,
            RespVal::SimpleError("MULTI calls cannot be nested"@),
        ),
{
}

/// DISCARD while queueing drops the queue without touching the store:
/// after MULTI, SET and DISCARD, a GET of the key still misses.
pub proof fn lemma_discard_clears(
    m: Map<Seq<char>, StoredVal>,
    f_multi: Seq<RespVal>,
    f_set: Seq<RespVal>,
    f_discard: Seq<RespVal>,
    f_get: Seq<RespVal>,
    k: Seq<char>,
    v: Seq<char>,
)
    requires
        parse_command_spec(f_multi) == Ok::<CmdVal, CmdErrVal>(CmdVal::Multi),
        parse_command_spec(f_set) == Ok::<CmdVal, CmdErrVal>(CmdVal::SetCmd(k, v)),
        parse_command_spec(f_discard) == Ok::<CmdVal, CmdErrVal>(CmdVal::Discard),
        parse_command_spec(f_get) == Ok::<CmdVal, CmdErrVal>(CmdVal::Get(k)),
        !m.contains_key(k),
    ensures
        ({
            let s1 = handle_step(false, Seq::empty(), m, f_multi);
            let s2 = handle_step(s1.0, s1.1, s1.2, f_set);
            let s3 = handle_step(s2.0, s2.1, s2.2, f_discard);
            let s4 = handle_step(s3.0, s3.1, s3.2, f_get);
            &&& s2.3 == RespVal::SimpleString("QUEUED"@)
            &&& s3.3 == RespVal::SimpleString("OK"@)
            &&& s4.3 == RespVal::NullBulkString
            &&& s4.2 == m
        }),
{
}

} // verus!
