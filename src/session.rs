use vstd::prelude::*;
use crate::model::{Text, StoreModel};
use crate::commands::{Command, CommandModel, CommandExecutor, run, lines, lemma_run_len};
use crate::keys::append_text;
use crate::storage::texts;

verus! {

pub open spec fn command_views(cs: Seq<Command>) -> Seq<CommandModel> {
    cs.map_values(|c: Command| c@)
}

/// The batch that an outermost `EXEC` runs: the queued commands inside one
/// engine transaction.
pub open spec fn exec_batch(queued: Seq<CommandModel>) -> Seq<CommandModel> {
    seq![CommandModel::Multi] + queued + seq![CommandModel::Exec]
}

/// One client's view of transactions: a stack of queues of commands held
/// back since each open `MULTI`. Nothing reaches the engine until the
/// outermost `EXEC`, so dropping a session discards its open transactions.
pub struct Session {
    pub queues: Vec<Vec<Command>>,
}

impl Session {
    pub fn new() -> (r: Self)
        ensures
            r.queues@.len() == 0,
    {
        Session { queues: Vec::new() }
    }

    /// Handles one command and gives the reply. `MULTI` opens a queue.
    /// Inside one, other commands are queued and answered `QUEUED`. `EXEC`
    /// of an inner queue moves it, as a nested transaction, into the queue
    /// around it; `EXEC` of the outermost runs it against the engine as one
    /// transaction and answers each command's reply on its own line, then
    /// `OK`, or nothing where no command was queued. `DISCARD` drops the
    /// innermost queue. Outside any queue a command runs at once; `EXEC` and
    /// `DISCARD` there are errors.
    pub fn handle(&mut self, executor: &mut CommandExecutor, command: Command) -> (r: String)
        requires
            old(executor).wf(),
        ensures
            final(executor).wf(),
            command is Multi ==> final(self).queues@.len() == old(self).queues@.len() + 1
                && r@ == "OK"@ && final(executor)@ == old(executor)@,
            command is Exec && old(self).queues@.len() == 0 ==> r@ == "ERR EXEC without MULTI"@
                && final(executor)@ == old(executor)@ && final(self).queues@.len() == 0,
            command is Discard && old(self).queues@.len() == 0 ==> r@ == "ERR DISCARD without MULTI"@
                && final(executor)@ == old(executor)@ && final(self).queues@.len() == 0,
            command is Discard && old(self).queues@.len() > 0 ==> r@ == "OK"@
                && final(executor)@ == old(executor)@ && final(self).queues@ == old(self).queues@.drop_last(),
            command is Exec && old(self).queues@.len() > 1 ==> r@ == "OK"@ && final(executor)@ == old(executor)@
                && final(self).queues@.len() == old(self).queues@.len() - 1
                && command_views(final(self).queues@.last()@) == command_views(old(self).queues@[old(self).queues@.len() - 2]@)
                    + exec_batch(command_views(old(self).queues@.last()@)),
            command is Exec && old(self).queues@.len() == 1 && old(self).queues@[0]@.len() == 0 ==>
                r@ == Seq::<char>::empty() && final(executor)@ == old(executor)@ && final(self).queues@.len() == 0,
            command is Exec && old(self).queues@.len() == 1 && old(self).queues@[0]@.len() > 0 ==> ({
                let q = command_views(old(self).queues@[0]@);
                let (m, rs) = run(old(executor)@, exec_batch(q));
                &&& final(executor)@ == m
                &&& r@ == lines(rs.subrange(1, q.len() + 1 as int)) + "OK"@
                &&& final(self).queues@.len() == 0
            }),
            !(command is Multi || command is Exec || command is Discard) && old(self).queues@.len() > 0 ==>
                r@ == "QUEUED"@ && final(executor)@ == old(executor)@
                && final(self).queues@.len() == old(self).queues@.len()
                && command_views(final(self).queues@.last()@) == command_views(old(self).queues@.last()@).push(command@),
            !(command is Multi || command is Exec || command is Discard) && old(self).queues@.len() == 0 ==>
                (final(executor)@, r@) == crate::commands::step(old(executor)@, command@)
                && final(self).queues@.len() == 0,
    {
        match command {
            Command::Multi => {
                self.queues.push(Vec::new());
                String::from_str("OK")
            },
            Command::Exec => {
                let n = self.queues.len();
                if n == 0 {
                    return String::from_str("ERR EXEC without MULTI");
                }
                let mut q = self.queues.pop().unwrap();
                let ghost qv = command_views(q@);
                let mut batch: Vec<Command> = Vec::new();
                batch.push(Command::Multi);
                batch.append(&mut q);
                batch.push(Command::Exec);
                proof {
                    assert(command_views(batch@) =~= exec_batch(qv));
                }
                if n > 1 {
                    let mut parent = self.queues.pop().unwrap();
                    let ghost pv = command_views(parent@);
                    parent.append(&mut batch);
                    proof {
                        assert(command_views(parent@) =~= pv + exec_batch(qv));
                    }
                    self.queues.push(parent);
                    String::from_str("OK")
                } else if batch.len() == 2 {
                    String::new()
                } else {
                    let ghost m0 = executor@;
                    let slice = batch.as_slice();
                    proof {
                        assert(slice@.map_values(|c: Command| c@) =~= exec_batch(qv));
                        lemma_run_len(m0, exec_batch(qv));
                    }
                    let replies = executor.execute_transaction(slice);
                    let ghost rs = texts(replies);
                    let mut out = String::new();
                    let mut i: usize = 1;
                    let qn = replies.len() - 1;
                    proof {
                        assert(rs.len() == qv.len() + 2);
                        assert(rs.subrange(1, 1) =~= Seq::<Text>::empty());
                    }
                    while i < qn
                        invariant
                            1 <= i <= qn,
                            qn == replies@.len() - 1,
                            rs == texts(replies),
                            out@ == lines(rs.subrange(1, i as int)),
                        decreases qn - i,
                    {
                        append_text(&mut out, replies[i].as_str());
                        append_text(&mut out, "\n");
                        i = i + 1;
                        proof {
                            let sub = rs.subrange(1, i as int);
                            assert(sub.drop_last() =~= rs.subrange(1, i - 1));
                            assert(sub.last() == replies@[i - 1]@);
                        }
                    }
                    append_text(&mut out, "OK");
                    out
                }
            },
            Command::Discard => {
                if self.queues.len() == 0 {
                    return String::from_str("ERR DISCARD without MULTI");
                }
                let _ = self.queues.pop();
                String::from_str("OK")
            },
            other => {
                if self.queues.len() > 0 {
                    let mut top = self.queues.pop().unwrap();
                    let ghost tv = command_views(top@);
                    top.push(other);
                    proof {
                        assert(command_views(top@) =~= tv.push(command@));
                    }
                    self.queues.push(top);
                    String::from_str("QUEUED")
                } else {
                    executor.execute_command(other)
                }
            },
        }
    }
}

} // verus!
