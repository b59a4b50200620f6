//! The transfer worker's command protocol.
//!
//! One dedicated worker serializes every remote-read/local-write pair of a
//! bulk transfer.  Producers queue commands concurrently; the worker takes
//! them strictly first-in first-out, performs the transfer, and replies
//! once per command.  A failed command is answered with its error and the
//! worker carries on: one missing file never aborts the batch.  What the
//! worker decides is verified here; the reads and writes themselves are
//! the caller's outside work, handed in as each command's outcome.

use vstd::prelude::*;

use crate::paths::{join_path, spec_join, spec_target_rel};

verus! {

/// One file-copy obligation: copy the remote file to the local path.
#[derive(Debug, Clone)]
pub struct TransferCommand {
    pub remote_path: String,
    pub local_path: String,
}

/// Why one transfer failed.  Each failure is delivered on its command's
/// reply and never unwinds the worker.
#[derive(Debug, Clone, Copy, PartialEq, Eq, Structural)]
pub enum TransferError {
    /// The remote file could not be opened or read.
    RemoteRead,
    /// The local file could not be created, written or synced.
    LocalWrite,
    /// The channel to the remote host could not be acquired.
    Channel,
}

/// The reply a command's submitter awaits.
#[derive(Debug)]
pub struct TransferReply {
    pub command: TransferCommand,
    pub outcome: Result<(), TransferError>,
}

/// The worker's queue of pending commands, oldest first.
pub struct TransferWorker {
    queue: Vec<TransferCommand>,
    replied: usize,
}

/// What a command states: its two paths.
pub open spec fn cmd_view(c: TransferCommand) -> (Seq<char>, Seq<char>) {
    (c.remote_path@, c.local_path@)
}

impl TransferWorker {
    /// The pending commands, in submission order.
    pub closed spec fn pending(self) -> Seq<TransferCommand> {
        self.queue@
    }

    /// How many commands were answered so far.
    pub closed spec fn replied(self) -> nat {
        self.replied as nat
    }

    /// A worker with an empty queue.
    pub fn new() -> (r: Self)
        ensures
            r.pending() == Seq::<TransferCommand>::empty(),
            r.replied() == 0,
    {
        TransferWorker { queue: Vec::new(), replied: 0 }
    }

    /// Queue one command behind all earlier ones.
    pub fn submit(&mut self, cmd: TransferCommand)
        ensures
            final(self).pending() == old(self).pending().push(cmd),
            final(self).replied() == old(self).replied(),
    {
        self.queue.push(cmd);
    }

    /// Take the oldest pending command and answer it with the outcome its
    /// transfer had.  Strictly first-in first-out; the worker survives a
    /// failed outcome exactly as it survives a success.
    pub fn process_next(&mut self, outcome: Result<(), TransferError>) -> (r: TransferReply)
        requires
            old(self).pending().len() > 0,
            old(self).replied() < usize::MAX,
        ensures
            cmd_view(r.command) == cmd_view(old(self).pending()[0]),
            r.outcome == outcome,
            final(self).pending() == old(self).pending().drop_first(),
            final(self).replied() == old(self).replied() + 1,
    {
        let cmd = self.queue.remove(0);
        self.replied = self.replied + 1;
        proof {
            assert(final(self).pending() =~= old(self).pending().drop_first());
        }
        TransferReply { command: cmd, outcome }
    }

    /// Drain the whole queue against the outcomes the transfers had, one
    /// outcome per pending command.  Replies come back in submission
    /// order, and a failure among the outcomes stops nothing: every later
    /// command is still processed and answered.
    pub fn process_all(&mut self, outcomes: &Vec<Result<(), TransferError>>) -> (r: Vec<
        TransferReply,
    >)
        requires
            outcomes@.len() == old(self).pending().len(),
            old(self).replied() + old(self).pending().len() <= usize::MAX,
        ensures
            r@.len() == old(self).pending().len(),
            forall|i: int|
                0 <= i < r@.len() ==> cmd_view(#[trigger] r@[i].command) == cmd_view(
                    old(self).pending()[i],
                ) && r@[i].outcome == outcomes@[i],
            final(self).pending() == Seq::<TransferCommand>::empty(),
            final(self).replied() == old(self).replied() + old(self).pending().len(),
    {
        let total = self.queue.len();
        let mut replies: Vec<TransferReply> = Vec::new();
        let mut i: usize = 0;
        while i < total
            invariant
                i <= total,
                total == old(self).pending().len(),
                outcomes@.len() == total,
                self.pending() =~= old(self).pending().skip(i as int),
                self.replied() == old(self).replied() + i,
                old(self).replied() + total <= usize::MAX,
                replies@.len() == i,
                forall|j: int|
                    0 <= j < i ==> cmd_view(#[trigger] replies@[j].command) == cmd_view(
                        old(self).pending()[j],
                    ) && replies@[j].outcome == outcomes@[j],
            decreases total - i,
        {
            proof {
                assert(self.pending()[0] == old(self).pending()[i as int]);
            }
            let reply = self.process_next(outcomes[i]);
            replies.push(reply);
            proof {
                assert(self.pending() =~= old(self).pending().skip(i + 1));
            }
            i = i + 1;
        }
        replies
    }
}

/// The commands a folder download submits: one per collected entry, in
/// snapshot order.
pub fn download_commands(entries: &Vec<crate::files::FileEntry>, remote_root: &str, local_root: &str) -> (r: Vec<TransferCommand>)
    ensures
        r@.len() == entries@.len(),
        forall|i: int|
            0 <= i < entries@.len() ==> {
                let rel = spec_target_rel(entries@[i].name@, remote_root@);
                cmd_view(#[trigger] r@[i]) == (
                    spec_join(remote_root@, rel),
                    spec_join(local_root@, rel),
                )
            },
{
    let mut cmds: Vec<TransferCommand> = Vec::new();
    let mut i: usize = 0;
    while i < entries.len()
        invariant
            i <= entries@.len(),
            cmds@.len() == i,
            forall|j: int|
                0 <= j < i ==> {
                    let rel = spec_target_rel(entries@[j].name@, remote_root@);
                    cmd_view(#[trigger] cmds@[j]) == (
                        spec_join(remote_root@, rel),
                        spec_join(local_root@, rel),
                    )
                },
        decreases entries@.len() - i,
    {
        let rel = crate::paths::target_rel(entries[i].name.as_str(), remote_root);
        let cmd = TransferCommand {
            remote_path: join_path(remote_root, rel.as_str()),
            local_path: join_path(local_root, rel.as_str()),
        };
        cmds.push(cmd);
        i = i + 1;
    }
    cmds
}

/// How far a bulk transfer has come: replies received out of commands
/// submitted.  The fraction reported to the observer is
/// `completed / total`, computed at the boundary that draws it.
pub fn progress_counts(completed: usize, total: usize) -> (r: (usize, usize))
    ensures
        r.0 == completed,
        r.1 == total,
{
    (completed, total)
}

} // verus!
