//! Frame buffers recycled between the capture callback and the encode workers.

use vstd::prelude::*;

verus! {

/// The longest frame, 20 ms: what every pooled buffer has room for.
pub const FRAME_MAX: usize = 960;

/// Frames a channel can have in flight at once; the pool is this many per channel.
pub const FRAMES_IN_FLIGHT: usize = 2;

/// The receiving half of a `crossbeam_channel` channel.
#[verifier::external_type_specification]
#[verifier::external_body]
#[verifier::reject_recursive_types(T)]
pub struct ExReceiver<T>(crossbeam_channel::Receiver<T>);

/// The sending half of a `crossbeam_channel` channel.
#[verifier::external_type_specification]
#[verifier::external_body]
#[verifier::reject_recursive_types(T)]
pub struct ExSender<T>(crossbeam_channel::Sender<T>);

/// How many buffers the channel of a sending half can hold at once.
pub uninterp spec fn channel_limit(s: crossbeam_channel::Sender<Vec<u32>>) -> int;

/// What goes into the sending half comes out of the receiving half.
pub uninterp spec fn channel_joins(
    s: crossbeam_channel::Sender<Vec<u32>>,
    r: crossbeam_channel::Receiver<Vec<u32>>,
) -> bool;

/// `crossbeam_channel::bounded`: the two halves of one channel, which holds at most `cap`
/// buffers. What it holds at a time is left unsaid: other threads send and take under shared
/// references.
#[verifier::external_body]
fn bounded(cap: usize) -> (halves: (
    crossbeam_channel::Sender<Vec<u32>>,
    crossbeam_channel::Receiver<Vec<u32>>,
))
    ensures
        channel_limit(halves.0) == cap,
        channel_joins(halves.0, halves.1),
{
    crossbeam_channel::bounded(cap)
}

/// `crossbeam_channel::Sender::try_send`: puts a buffer into the channel without blocking.
/// Whether it went in is left unsaid: that depends on what other threads have sent and
/// taken. A buffer that did not is dropped.
#[verifier::external_body]
fn try_send(ret: &crossbeam_channel::Sender<Vec<u32>>, b: Vec<u32>) {
    let _ = ret.try_send(b);
}

/// `crossbeam_channel::Receiver::try_recv`: takes a buffer out of the channel without
/// blocking, or nothing. Which of the two, and what the buffer holds, is left unsaid: that
/// depends on what other threads have sent and taken.
#[verifier::external_body]
fn try_recv(free: &crossbeam_channel::Receiver<Vec<u32>>) -> (b: Option<Vec<u32>>) {
    free.try_recv().ok()
}

/// A bounded pool of frame buffers. The callback takes with a non-blocking receive and a
/// worker returns with a non-blocking send: an empty pool allocates, and a full one drops
/// what is returned.
pub struct FramePool {
    free: crossbeam_channel::Receiver<Vec<u32>>,
    ret: crossbeam_channel::Sender<Vec<u32>>,
}

impl FramePool {
    /// How many buffers the pool keeps at most.
    pub closed spec fn limit(&self) -> int {
        channel_limit(self.ret)
    }

    /// What is handed back can be taken again.
    pub closed spec fn recycles(&self) -> bool {
        channel_joins(self.ret, self.free)
    }

    /// A pool of `buffers`, each with room for the longest frame.
    pub fn new(buffers: usize) -> (pool: Self)
        ensures
            pool.limit() == buffers,
            pool.recycles(),
    {
        let (ret, free) = bounded(buffers);
        let mut i: usize = 0;
        while i < buffers
            invariant
                i <= buffers,
            decreases buffers - i,
        {
            try_send(&ret, Vec::with_capacity(FRAME_MAX));
            i = i + 1;
        }
        FramePool { free, ret }
    }

    /// An empty buffer for one frame, recycled where the pool holds one.
    pub fn take(&self) -> (b: Vec<u32>)
        ensures
            b@.len() == 0,
    {
        match try_recv(&self.free) {
            Some(mut b) => {
                b.clear();
                b
            },
            None => Vec::with_capacity(FRAME_MAX),
        }
    }

    /// Hand a buffer back, emptied.
    pub fn give(&self, b: Vec<u32>) {
        let mut b = b;
        b.clear();
        try_send(&self.ret, b);
    }
}

} // verus!
