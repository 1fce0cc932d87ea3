//! The per-connection transaction: a queue of commands built between
//! MULTI and EXEC or DISCARD.

use vstd::prelude::*;

verus! {

use crate::cmd::{Command, CmdVal, exec_all};
use crate::resp::types::{RespType, RespVal};
use crate::storage::db::DB;

/// A transaction: a queue of commands and whether queueing is active.
pub struct Transaction {
    /// The queue of commands to be executed.
    commands: Vec<Command>,
    /// Indicates whether a transaction is currently active.
    is_active: bool,
}

/// Errors raised by transaction operations.
#[derive(Debug)]
pub enum TransactionError {
    /// A MULTI command cannot be nested within another active transaction.
    CannotNestMulti,
}

impl TransactionError {
    /// A human-readable reason, as it would be reported to a peer.
    pub fn message(&self) -> (r: String)
        ensures
            r@ == "MULTI calls cannot be nested"@,
    {
        "MULTI calls cannot be nested".to_owned()
    }
}

impl Transaction {
    /// Whether queueing is active.
    pub closed spec fn active(&self) -> bool {
        self.is_active
    }

    /// The queued commands, in enqueue order.
    pub closed spec fn queue(&self) -> Seq<CmdVal> {
        self.commands.deep_view()
    }

    /// Creates a new, idle transaction with an empty queue.
    pub fn new() -> (r: Transaction)
        ensures
            !r.active(),
            r.queue() == Seq::<CmdVal>::empty(),
    {
        let t = Transaction { commands: Vec::new(), is_active: false };
        proof {
            assert(t.queue() =~= Seq::<CmdVal>::empty());
        }
        t
    }

    /// Initializes the transaction (MULTI command): active queueing may
    /// not be initialized again.
    pub fn init(&mut self) -> (r: Result<(), TransactionError>)
        ensures
            final(self).queue() == old(self).queue(),
            match r {
                Ok(_) => !old(self).active() && final(self).active(),
                Err(e) => old(self).active() && final(self).active() && e is CannotNestMulti,
            },
    {
        if self.is_active() {
            return Err(TransactionError::CannotNestMulti);
        }
        self.is_active = true;
        Ok(())
    }

    /// Checks if a transaction is currently active.
    pub fn is_active(&self) -> (r: bool)
        ensures
            r == self.active(),
    {
        self.is_active
    }

    /// Adds a command to the transaction.
    pub fn add_command(&mut self, command: Command)
        ensures
            final(self).active() == old(self).active(),
            final(self).queue() == old(self).queue().push(command@),
    {
        let ghost c = command@;
        self.commands.push(command);
        proof {
            assert(self.queue() =~= old(self).queue().push(c));
        }
    }

    /// Executes the queued commands in enqueue order, collecting one
    /// reply each; the queue is discarded afterwards.
    pub fn execute(&mut self, db: &mut DB) -> (r: RespType)
        requires
            old(db).wf(),
        ensures
            final(db).wf(),
            !final(self).active(),
            final(self).queue() == Seq::<CmdVal>::empty(),
            final(db)@ == exec_all(old(db)@, old(self).queue()).0,
            r@ == RespVal::Array(exec_all(old(db)@, old(self).queue()).1),
    {
        let ghost queue = self.queue();
        let mut responses: Vec<RespType> = Vec::new();
        let n = self.commands.len();
        let mut i: usize = 0;
        while i < n
            invariant
                old(db).wf(),
                db.wf(),
                n == self.commands@.len(),
                0 <= i <= n,
                queue == self.queue(),
                self == old(self),
                db@ == exec_all(old(db)@, queue.take(i as int)).0,
                crate::resp::types::resp_vals_of(responses@) == exec_all(
                    old(db)@,
                    queue.take(i as int),
                ).1,
            decreases n - i,
        {
            let res = self.commands[i].execute(db);
            let ghost prev = responses@;
            responses.push(res);
            proof {
                lemma_exec_all_snoc(old(db)@, queue, i as int);
                crate::resp::types::lemma_resp_vals_of(prev);
                crate::resp::types::lemma_resp_vals_of(responses@);
                assert(crate::resp::types::resp_vals_of(responses@) =~= exec_all(
                    old(db)@,
                    queue.take(i + 1),
                ).1);
            }
            i += 1;
        }
        proof {
            assert(queue.take(n as int) =~= queue);
        }
        self.discard();
        RespType::Array(responses)
    }

    /// Discards the current transaction.
    pub fn discard(&mut self)
        ensures
            !final(self).active(),
            final(self).queue() == Seq::<CmdVal>::empty(),
    {
        self.commands.clear();
        self.is_active = false;
        proof {
            assert(self.queue() =~= Seq::<CmdVal>::empty());
        }
    }
}

/// Running one more command extends `exec_all` by one step at the end.
proof fn lemma_exec_all_snoc(m: Map<Seq<char>, crate::storage::db::StoredVal>, cs: Seq<CmdVal>, i: int)
    requires
        0 <= i < cs.len(),
    ensures
        ({
            let before = exec_all(m, cs.take(i));
            let step = crate::cmd::exec_step(before.0, cs[i]);
            exec_all(m, cs.take(i + 1)) == (step.0, before.1.push(step.1))
        }),
    decreases i,
{
    let t1 = cs.take(i + 1);
    let t0 = cs.take(i);
    if i == 0 {
        let step = crate::cmd::exec_step(m, cs[0]);
        assert(t1.len() == 1 && t1[0] == cs[0]);
        assert(t1.first() == cs[0]);
        assert(t1.drop_first() =~= Seq::<CmdVal>::empty());
        assert(t0 =~= Seq::<CmdVal>::empty());
        assert(exec_all(step.0, t1.drop_first()) == (step.0, Seq::<RespVal>::empty()));
        assert(exec_all(m, t1).0 == step.0);
        assert(exec_all(m, t1).1 =~= exec_all(m, t0).1.push(step.1));
    } else {
        let step0 = crate::cmd::exec_step(m, cs[0]);
        let rest = cs.drop_first();
        assert(t1.first() == cs[0]);
        assert(t0.first() == cs[0]);
        assert(t1.drop_first() =~= rest.take(i));
        assert(t0.drop_first() =~= rest.take(i - 1));
        lemma_exec_all_snoc(step0.0, rest, i - 1);
        let b = exec_all(step0.0, rest.take(i - 1));
        assert(rest[i - 1] == cs[i]);
        let step = crate::cmd::exec_step(b.0, cs[i]);
        assert(exec_all(step0.0, rest.take(i)) == (step.0, b.1.push(step.1)));
        assert(exec_all(m, t0) == (b.0, seq![step0.1] + b.1));
        assert(exec_all(m, t1).0 == step.0);
        assert(exec_all(m, t1).1 == seq![step0.1] + b.1.push(step.1));
        assert(seq![step0.1] + b.1.push(step.1) =~= (seq![step0.1] + b.1).push(step.1));
    }
}

} // verus!
