//! What a worker of a parallel walk holds.

use crate::client_state::ClientState;
use crate::error::Error;
use crate::ordered::Ordered;
use crate::ordered_queue::{accepted, completed, OrderedQueue};
use crate::read_dir::ReadDir;
use crate::read_dir_spec::ReadDirSpec;
use crate::shared::share;
use std::sync::atomic::AtomicBool;
use std::sync::Arc;
use vstd::prelude::*;

verus! {

/// The two queues of a parallel walk and its stop flag: requests to read
/// go into the first queue, results of reads into the second.
#[verifier::reject_recursive_types(C)]
pub struct RunContext<C: ClientState> {
    pub stop: Arc<AtomicBool>,
    pub read_dir_spec_queue: OrderedQueue<ReadDirSpec<C>>,
    pub read_dir_result_queue: OrderedQueue<Result<ReadDir<C>, Error>>,
}

impl<C: ClientState> RunContext<C> {
    /// The stop flag of the walk was set.
    pub open spec fn asked_to_stop(&self) -> bool {
        call_ensures(
            AtomicBool::store,
            (&*self.stop, true, core::sync::atomic::Ordering::SeqCst),
            (),
        )
    }

    /// Asks the walk to end.
    pub(crate) fn stop(&self)
        ensures
            self.asked_to_stop(),
    {
        self.stop.store(true, core::sync::atomic::Ordering::SeqCst);
    }

    /// Schedules a request to read: pushes it into the queue of requests.
    /// `false` when that queue refused it, because the walk has ended.
    pub(crate) fn schedule_read_dir_spec(&self, ordered_read_dir: Ordered<ReadDirSpec<C>>) -> (scheduled:
        bool)
        ensures
            accepted(self.read_dir_spec_queue, ordered_read_dir, scheduled),
    {
        self.read_dir_spec_queue.push(ordered_read_dir).is_ok()
    }

    /// Sends the result of a read to the consumer: pushes it into the queue
    /// of results. `false` when that queue refused it, because the walk has
    /// ended.
    pub(crate) fn send_read_dir_result(&self, read_dir_result: Ordered<Result<ReadDir<C>, Error>>) -> (sent:
        bool)
        ensures
            accepted(self.read_dir_result_queue, read_dir_result, sent),
    {
        self.read_dir_result_queue.push(read_dir_result).is_ok()
    }

    /// Reports one scheduled read complete.
    pub(crate) fn complete_item(&self)
        ensures
            completed(self.read_dir_spec_queue),
    {
        self.read_dir_spec_queue.complete_item()
    }
}

impl<C: ClientState> Clone for RunContext<C> {
    /// Another handle to the same walk: it shares the stop flag, and its
    /// queues feed the channels and share the counts of this one's.
    fn clone(&self) -> (copy: RunContext<C>)
        ensures
            copy.stop == self.stop,
            self.read_dir_spec_queue.same_channel(copy.read_dir_spec_queue),
            self.read_dir_result_queue.same_channel(copy.read_dir_result_queue),
            copy.read_dir_spec_queue.outstanding() == self.read_dir_spec_queue.outstanding(),
            copy.read_dir_result_queue.outstanding() == self.read_dir_result_queue.outstanding(),
            copy.read_dir_spec_queue.stop_flag() == self.read_dir_spec_queue.stop_flag(),
            copy.read_dir_result_queue.stop_flag() == self.read_dir_result_queue.stop_flag(),
    {
        RunContext {
            stop: share(&self.stop),
            read_dir_spec_queue: self.read_dir_spec_queue.clone(),
            read_dir_result_queue: self.read_dir_result_queue.clone(),
        }
    }
}

} // verus!
