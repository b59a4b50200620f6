//! The session guardian's channel-allocation discipline.
//!
//! One physical connection is shared by every logical operation.  Opening
//! a channel mutates connection state (channel-id allocation, handshake),
//! so openings are serialized behind a lock; using an open channel is not.
//! The guardian here is the serialized core: it allocates channel ids,
//! never hands the same id out twice, and refuses once closed.  The lock
//! and the wire-level opening live with the connection code outside the
//! library.

use vstd::prelude::*;

verus! {

/// Why a channel could not be acquired.
#[derive(Debug, PartialEq, Eq, Structural)]
pub enum SessionError {
    /// The session was closed; callers see the failure and decide whether
    /// to retry, the guardian itself never reconnects.
    Closed,
}

/// The serialized state of one authenticated connection.
pub struct SessionGuardian {
    next_channel: u64,
    closed: bool,
}

impl SessionGuardian {
    /// The id the next acquired channel will carry.
    pub closed spec fn next_id(self) -> u64 {
        self.next_channel
    }

    /// Whether the session was closed.
    pub closed spec fn is_closed(self) -> bool {
        self.closed
    }

    /// A fresh session: open, no channel handed out yet.
    pub fn new() -> (r: Self)
        ensures
            r.next_id() == 0,
            !r.is_closed(),
    {
        SessionGuardian { next_channel: 0, closed: false }
    }

    /// Acquire one channel: a fresh id, never handed out before, is
    /// returned and retired.  Fails exactly when the session is closed.
    pub fn acquire_channel(&mut self) -> (r: Result<u64, SessionError>)
        requires
            old(self).next_id() < u64::MAX,
        ensures
            final(self).is_closed() == old(self).is_closed(),
            old(self).is_closed() ==> (r matches Err(e) && e == SessionError::Closed && *final(self) == *old(self)),
            !old(self).is_closed() ==> (r matches Ok(id) && id == old(self).next_id()
                && final(self).next_id() == old(self).next_id() + 1),
    {
        if self.closed {
            Err(SessionError::Closed)
        } else {
            let id = self.next_channel;
            self.next_channel = self.next_channel + 1;
            Ok(id)
        }
    }

    /// Close the session.  Idempotent, and safe while other holders still
    /// reference it: they observe failures on their next acquisition.
    pub fn close(&mut self)
        ensures
            final(self).is_closed(),
            final(self).next_id() == old(self).next_id(),
    {
        self.closed = true;
    }

    /// Acquire `n` channels in a row, as concurrent operations do one
    /// after another under the lock.
    pub fn acquire_channels(&mut self, n: usize) -> (r: Result<Vec<u64>, SessionError>)
        requires
            old(self).next_id() + n <= u64::MAX,
            !old(self).is_closed(),
        ensures
            r matches Ok(ids) && ids@.len() == n && (forall|i: int|
                0 <= i < n ==> ids@[i] == old(self).next_id() + i)
                && final(self).next_id() == old(self).next_id() + n
                && !final(self).is_closed(),
    {
        let mut ids: Vec<u64> = Vec::new();
        let mut i: usize = 0;
        while i < n
            invariant
                i <= n,
                !self.is_closed(),
                self.next_id() == old(self).next_id() + i,
                old(self).next_id() + n <= u64::MAX,
                ids@.len() == i,
                forall|j: int| 0 <= j < i ==> ids@[j] == old(self).next_id() + j,
            decreases n - i,
        {
            let id = match self.acquire_channel() {
                Ok(id) => id,
                Err(_) => {
                    proof {
                        assert(false);
                    }
                    return Err(SessionError::Closed);
                },
            };
            ids.push(id);
            i = i + 1;
        }
        Ok(ids)
    }
}

/// Channel allocation is never corrupted: however many channels are
/// acquired from one guardian, no two of them observe the same id.
pub proof fn lemma_channel_ids_unique(ids: Seq<u64>, base: u64)
    requires
        forall|i: int| 0 <= i < ids.len() ==> ids[i] == base + i,
    ensures
        forall|i: int, j: int| 0 <= i < ids.len() && 0 <= j < ids.len() && i != j ==> ids[i]
            != ids[j],
{
}

} // verus!
