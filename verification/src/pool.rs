//! The bounded connection pool, as a state machine.
//!
//! The pool tracks the idle connections (by numbered handle, freshly
//! issued and never reused), the count of connections currently open,
//! and hands out one connection per caller at a time. The surrounding
//! runtime owns the sockets themselves, keyed by handle; it consults
//! [`ConnectionPool::acquire`] under a short-held lock and performs the
//! action the pool decided: use an idle connection, open a new one, or
//! wait and retry. Waiting is a deliberate sleep-and-retry with bounded
//! latency rather than a fair queue.
//!
//! The central invariants: at most `limit` connections are open at any
//! instant, and a connection discarded as broken (or one that never
//! existed) is never handed out.

use vstd::prelude::*;

verus! {

/// What a caller asking for a connection must do next.
#[derive(Clone, Copy, Debug, PartialEq, Eq, Structural)]
pub enum AcquireAction {
    /// Use this idle connection; it is checked out now.
    Reuse(u64),
    /// Open a new connection under this fresh handle; the open-count
    /// already accounts for it. If opening fails, give the slot back
    /// with [`ConnectionPool::discard`].
    Create(u64),
    /// The pool is at its limit and nothing is idle: wait briefly and
    /// ask again.
    Wait,
}

/// The pool's bookkeeping state: which connections are idle, how many
/// are open in all (idle plus checked out), and the next unissued
/// handle.
pub struct ConnectionPool {
    /// Handles of the idle connections, most recently released last.
    pub idle: Vec<u64>,
    /// Connections currently open, idle or checked out.
    pub num_open: u8,
    /// The next handle to issue; handles are never reused.
    pub next_id: u64,
}

impl ConnectionPool {
    /// Well-formedness: no more idle connections than open ones, and
    /// the idle handles are distinct and were all issued.
    pub open spec fn inv(self) -> bool {
        &&& self.idle@.len() <= self.num_open as int
        &&& forall|i: int| 0 <= i < self.idle@.len() ==> #[trigger] self.idle@[i]
            < self.next_id
        &&& forall|i: int, j: int| 0 <= i < j < self.idle@.len() ==> self.idle@[i]
            != self.idle@[j]
    }

    /// How `acquire` relates the pool before and after to the action it
    /// returns, under the limit it was given.
    pub open spec fn acquire_rel(pre: Self, post: Self, a: AcquireAction, limit: u8) -> bool {
        match a {
            AcquireAction::Reuse(id) => {
                &&& pre.idle@.len() > 0
                &&& id == pre.idle@.last()
                &&& post.idle@ == pre.idle@.drop_last()
                &&& post.num_open == pre.num_open
                &&& post.next_id == pre.next_id
            },
            AcquireAction::Create(id) => {
                &&& pre.idle@.len() == 0
                &&& (pre.num_open as int) < limit as int
                &&& id == pre.next_id
                &&& post.idle@ == pre.idle@
                &&& post.num_open == pre.num_open + 1
                &&& post.next_id == pre.next_id + 1
            },
            AcquireAction::Wait => {
                &&& pre.idle@.len() == 0
                &&& pre.num_open >= limit
                &&& post.idle@ == pre.idle@
                &&& post.num_open == pre.num_open
                &&& post.next_id == pre.next_id
            },
        }
    }

    /// How `release` relates the pool before and after, for the handle
    /// released.
    pub open spec fn release_rel(pre: Self, post: Self, id: u64) -> bool {
        &&& post.idle@ == pre.idle@.push(id)
        &&& post.num_open == pre.num_open
        &&& post.next_id == pre.next_id
    }

    /// How `discard` relates the pool before and after.
    pub open spec fn discard_rel(pre: Self, post: Self) -> bool {
        &&& post.idle@ == pre.idle@
        &&& post.num_open == pre.num_open - 1
        &&& post.next_id == pre.next_id
    }

    /// An empty pool: nothing open, nothing idle.
    pub fn new() -> (p: Self)
        ensures
            p.inv(),
            p.idle@ == Seq::<u64>::empty(),
            p.num_open == 0,
            p.next_id == 0,
    {
        let p = ConnectionPool { idle: Vec::new(), num_open: 0, next_id: 0 };
        proof {
            assert(p.idle@ =~= Seq::<u64>::empty());
        }
        p
    }

    /// Decides how a caller obtains a connection: pop an idle one if any
    /// exists (most recently released first); otherwise, below the
    /// limit, count a new connection as open and issue it a fresh
    /// handle; otherwise tell the caller to wait and retry.
    pub fn acquire(&mut self, limit: u8) -> (a: AcquireAction)
        requires
            old(self).inv(),
            old(self).next_id < u64::MAX,
        ensures
            final(self).inv(),
            Self::acquire_rel(*old(self), *final(self), a, limit),
    {
        match self.idle.pop() {
            Some(id) => AcquireAction::Reuse(id),
            None => {
                if self.num_open < limit {
                    self.num_open = self.num_open + 1;
                    let id = self.next_id;
                    self.next_id = self.next_id + 1;
                    AcquireAction::Create(id)
                } else {
                    AcquireAction::Wait
                }
            },
        }
    }

    /// Returns a healthy connection to the idle list. The caller must
    /// actually hold it: it was issued, it is not idle already, and the
    /// open-count accounts for it.
    pub fn release(&mut self, id: u64)
        requires
            old(self).inv(),
            old(self).idle@.len() < old(self).num_open as int,
            id < old(self).next_id,
            !old(self).idle@.contains(id),
        ensures
            final(self).inv(),
            Self::release_rel(*old(self), *final(self), id),
    {
        self.idle.push(id);
        proof {
            assert forall|i: int, j: int|
                0 <= i < j < self.idle@.len() implies self.idle@[i] != self.idle@[j] by {
                if j == self.idle@.len() - 1 {
                    assert(old(self).idle@[i] == self.idle@[i]);
                    assert(!old(self).idle@.contains(id));
                }
            }
        }
    }

    /// Forgets a checked-out connection: one whose caller saw an I/O
    /// failure (broken connections never go back to the idle list), or
    /// one whose opening failed after [`AcquireAction::Create`] (the
    /// slot must not be lost). Either way one fewer connection is open.
    pub fn discard(&mut self)
        requires
            old(self).inv(),
            old(self).idle@.len() < old(self).num_open as int,
        ensures
            final(self).inv(),
            Self::discard_rel(*old(self), *final(self)),
    {
        self.num_open = self.num_open - 1;
    }

    /// No pool transition opens more connections than the limit allows:
    /// a pool within the limit stays within it, whatever a caller does.
    pub proof fn lemma_open_bounded_by_limit(
        pre: Self,
        post: Self,
        a: AcquireAction,
        id: u64,
        limit: u8,
    )
        requires
            pre.inv(),
            pre.num_open <= limit,
            Self::acquire_rel(pre, post, a, limit) || Self::release_rel(pre, post, id)
                || Self::discard_rel(pre, post),
        ensures
            post.num_open <= limit,
    {
    }

    /// With a connection limit of one, a caller holding the connection
    /// excludes every other: while nothing is idle, `acquire` can only
    /// tell a caller to wait. Two operations therefore never write on
    /// the wire at the same time, whatever order callers arrive in.
    pub proof fn lemma_limit_one_excludes(pre: Self, post: Self, a: AcquireAction)
        requires
            pre.inv(),
            pre.num_open == 1,
            pre.idle@.len() == 0,
            Self::acquire_rel(pre, post, a, 1),
        ensures
            a == AcquireAction::Wait,
    {
    }

    /// A connection that is gone from the pool — discarded as broken, or
    /// never issued at all — is not handed out by `acquire`: what comes
    /// back is either an idle handle or a fresh one.
    pub proof fn lemma_gone_never_reissued(
        pre: Self,
        post: Self,
        a: AcquireAction,
        limit: u8,
        id: u64,
    )
        requires
            pre.inv(),
            id < pre.next_id,
            !pre.idle@.contains(id),
            Self::acquire_rel(pre, post, a, limit),
        ensures
            a != AcquireAction::Reuse(id),
            a != AcquireAction::Create(id),
            !post.idle@.contains(id),
            id < post.next_id,
    {
        match a {
            AcquireAction::Reuse(r) => {
                assert(pre.idle@.contains(pre.idle@.last()));
                assert forall|i: int| 0 <= i < post.idle@.len() implies post.idle@[i]
                    != id by {
                    assert(post.idle@[i] == pre.idle@[i]);
                    assert(!pre.idle@.contains(id));
                }
            },
            AcquireAction::Create(c) => {
            },
            AcquireAction::Wait => {
            },
        }
    }

    /// Nor does releasing some other connection bring a gone one back:
    /// it stays out of the idle list.
    pub proof fn lemma_gone_stays_out_on_release(pre: Self, post: Self, other: u64, id: u64)
        requires
            pre.inv(),
            id < pre.next_id,
            !pre.idle@.contains(id),
            other != id,
            Self::release_rel(pre, post, other),
        ensures
            !post.idle@.contains(id),
            id < post.next_id,
    {
        assert forall|i: int| 0 <= i < post.idle@.len() implies post.idle@[i] != id by {
            if i < pre.idle@.len() {
                assert(post.idle@[i] == pre.idle@[i]);
                assert(!pre.idle@.contains(id));
            }
        }
    }
}

} // verus!
