//! Per-device execution queues for asynchronous copies.
//!
//! A stream is an ordered queue: enqueued operations execute in submission
//! order, and nothing enqueued is observable before that stream's own
//! `synchronize`. Across streams no ordering is implied; independent output
//! buffers filled concurrently use independent streams, each synchronized
//! before its result is read.

use vstd::prelude::*;
use crate::buffer::{clone_words, Buffer};
use crate::context::Context;
use crate::error::Error;

verus! {

/// An ordered, per-device queue of asynchronous copies.
pub struct Stream {
    /// The accelerator this queue belongs to.
    pub device_id: usize,
    /// A destroyed stream accepts no further work; destruction is terminal.
    pub destroyed: bool,
    /// Snapshots enqueued and not yet completed, oldest first.
    pub pending: Vec<Vec<u64>>,
    /// Snapshots whose completion has been reported, oldest first.
    pub delivered: Vec<Vec<u64>>,
}

/// `post` is `pre` after accepting one enqueued copy of `data`: the snapshot
/// is appended to the queue and nothing is reported complete.
pub open spec fn enqueue_step(pre: Stream, post: Stream, data: Seq<u64>) -> bool {
    &&& post.device_id == pre.device_id
    &&& post.destroyed == pre.destroyed
    &&& post.pending@.len() == pre.pending@.len() + 1
    &&& forall|i: int| 0 <= i < pre.pending@.len() ==> post.pending@[i] == pre.pending@[i]
    &&& post.pending@[pre.pending@.len() as int]@ == data
    &&& post.delivered == pre.delivered
}

/// `post` is `pre` after its own `synchronize`: every pending operation has
/// completed, in submission order, and the queue is empty.
pub open spec fn synchronize_step(pre: Stream, post: Stream) -> bool {
    &&& post.device_id == pre.device_id
    &&& post.destroyed == pre.destroyed
    &&& post.pending@.len() == 0
    &&& post.delivered@ == pre.delivered@ + pre.pending@
}

impl Stream {
    /// Creates an empty queue on a device; fails only for a device id that
    /// names no accelerator.
    pub fn create(ctx: &Context, device_id: usize) -> (r: Result<Stream, Error>)
        ensures
            r is Ok <==> ctx.device_ok(device_id as int),
            r matches Err(e) ==> e == Error::InvalidDevice,
            r matches Ok(s) ==> {
                &&& s.device_id == device_id
                &&& !s.destroyed
                &&& s.pending@.len() == 0
                &&& s.delivered@.len() == 0
            },
    {
        if device_id >= self_device_count(ctx) {
            return Err(Error::InvalidDevice);
        }
        Ok(Stream { device_id, destroyed: false, pending: Vec::new(), delivered: Vec::new() })
    }

    /// Enqueues an asynchronous device-to-host copy of `src`. The call
    /// returns immediately: the snapshot joins this stream's queue and is
    /// not reported complete until this stream's `synchronize`. No other
    /// stream is consulted or altered.
    pub fn enqueue_copy_to_host(&mut self, src: &Buffer) -> (r: Result<(), Error>)
        ensures
            r is Ok <==> !old(self).destroyed && src.on_device && src.device_id == old(
                self,
            ).device_id,
            r matches Err(e) ==> e == Error::ConfigurationError,
            r is Err ==> *final(self) == *old(self),
            r is Ok ==> enqueue_step(*old(self), *final(self), src.data@),
    {
        if self.destroyed || !src.on_device || src.device_id != self.device_id {
            return Err(Error::ConfigurationError);
        }
        let snapshot = clone_words(&src.data);
        self.pending.push(snapshot);
        Ok(())
    }

    /// Blocks until every operation enqueued on this stream has completed;
    /// completions are reported in submission order. The stream stays
    /// usable afterwards.
    pub fn synchronize(&mut self) -> (r: Result<(), Error>)
        ensures
            r is Ok <==> !old(self).destroyed,
            r matches Err(e) ==> e == Error::ConfigurationError,
            r is Err ==> *final(self) == *old(self),
            r is Ok ==> synchronize_step(*old(self), *final(self)),
    {
        if self.destroyed {
            return Err(Error::ConfigurationError);
        }
        self.delivered.append(&mut self.pending);
        Ok(())
    }

    /// Takes the oldest completed snapshot, if any. Work still pending is
    /// never handed out: it has not completed.
    pub fn take_completed(&mut self) -> (r: Option<Vec<u64>>)
        ensures
            r is Some <==> old(self).delivered@.len() > 0,
            r matches Some(v) ==> {
                &&& v == old(self).delivered@[0]
                &&& final(self).delivered@ == old(self).delivered@.drop_first()
            },
            r is None ==> *final(self) == *old(self),
            final(self).device_id == old(self).device_id,
            final(self).destroyed == old(self).destroyed,
            final(self).pending == old(self).pending,
    {
        if self.delivered.len() == 0 {
            return None;
        }
        let v = self.delivered.remove(0);
        proof {
            assert(final(self).delivered@ =~= old(self).delivered@.drop_first());
        }
        Some(v)
    }

    /// Destroys the stream. Destruction is terminal: every later operation
    /// on it is refused.
    pub fn destroy(&mut self) -> (r: Result<(), Error>)
        ensures
            r is Ok <==> !old(self).destroyed,
            r matches Err(e) ==> e == Error::ConfigurationError,
            r is Err ==> *final(self) == *old(self),
            r is Ok ==> {
                &&& final(self).destroyed
                &&& final(self).device_id == old(self).device_id
                &&& final(self).pending@.len() == 0
                &&& final(self).delivered@.len() == 0
            },
    {
        if self.destroyed {
            return Err(Error::ConfigurationError);
        }
        self.destroyed = true;
        self.pending.clear();
        self.delivered.clear();
        Ok(())
    }
}

/// Number of devices a stream creation consults; kept separate so `create`
/// borrows the context immutably.
fn self_device_count(ctx: &Context) -> (n: usize)
    ensures
        n == ctx.devices@.len(),
{
    ctx.devices.len()
}

/// Unrelated streams' asynchronous copies do not block each other, and each
/// reports completion only after its own synchronize: interleaving one
/// enqueue on each of two streams and then synchronizing each leaves every
/// stream holding exactly its own snapshots, in submission order, and
/// nothing was observable before the owning stream's synchronize.
pub proof fn lemma_streams_independent(
    a0: Stream,
    a1: Stream,
    a2: Stream,
    b0: Stream,
    b1: Stream,
    b2: Stream,
    da: Seq<u64>,
    db: Seq<u64>,
)
    requires
        a0.pending@.len() == 0,
        b0.pending@.len() == 0,
        enqueue_step(a0, a1, da),
        enqueue_step(b0, b1, db),
        synchronize_step(a1, a2),
        synchronize_step(b1, b2),
    ensures
        a1.delivered == a0.delivered,
        b1.delivered == b0.delivered,
        a2.delivered@ == a0.delivered@ + seq![a1.pending@[0]],
        b2.delivered@ == b0.delivered@ + seq![b1.pending@[0]],
        a1.pending@[0]@ == da,
        b1.pending@[0]@ == db,
{
    assert(a1.pending@ =~= seq![a1.pending@[0]]);
    assert(b1.pending@ =~= seq![b1.pending@[0]]);
}

} // verus!
