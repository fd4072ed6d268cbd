//! The source of batches: reads in the order of a depth-first walk.

use crate::client_state::ClientState;
use crate::error::Error;
use crate::index_path::IndexPath;
use crate::ordered::{Ordered, OrderedView};
use crate::ordered_queue::{
    accepted, completed, connected, new_ordered_queue, Observed, OrderedQueue, OrderedQueueIter,
    QueueOrdering, TryNextError,
};
use crate::read_dir::{descended, requests, ReadDir};
use crate::read_dir_spec::ReadDirSpec;
use crate::reverse::reversed;
use crate::run_context::RunContext;
use crate::shared::share;
use std::sync::atomic::AtomicBool;
use std::sync::Arc;
use vstd::prelude::*;

verus! {

/// The source of the batches of a walk, in the order in which a
/// depth-first walk needs them.
///
/// A serial walk keeps the requests that are still to be read on a stack,
/// the next one on top. A parallel walk drains, strictly in order, the
/// queue into which its workers put their results.
#[verifier::reject_recursive_types(C)]
pub enum ReadDirIter<C: ClientState> {
    Walk { read_dir_spec_stack: Vec<ReadDirSpec<C>> },
    ParWalk { read_dir_result_iter: OrderedQueueIter<Result<ReadDir<C>, Error>> },
}

/// Puts `specs` on top of `stack`, the first of them topmost.
fn push_reversed<C: ClientState>(stack: &mut Vec<ReadDirSpec<C>>, specs: Vec<ReadDirSpec<C>>)
    ensures
        final(stack)@.reverse() == specs@ + old(stack)@.reverse(),
{
    let mut specs = specs;
    let ghost all = specs@;
    let ghost before = stack@;
    while specs.len() > 0
        invariant
            specs@.len() <= all.len(),
            specs@ == all.subrange(0, specs@.len() as int),
            stack@.len() == before.len() + all.len() - specs@.len(),
            forall|k: int| 0 <= k < before.len() ==> stack@[k] == before[k],
            forall|k: int|
                before.len() <= k < stack@.len() ==> stack@[k] == all[all.len() - 1 - (k
                    - before.len())],
        decreases specs.len(),
    {
        let spec = specs.pop().unwrap();
        stack.push(spec);
        assert(specs@ =~= all.subrange(0, specs@.len() as int));
    }
    assert(stack@.reverse() =~= all + before.reverse());
}

impl<C: ClientState> ReadDirIter<C> {
    /// The requests of a serial walk that are still to be read, the next
    /// one first; empty for a parallel walk.
    pub open spec fn unread(&self) -> Seq<ReadDirSpec<C>> {
        match self {
            ReadDirIter::Walk { read_dir_spec_stack } => read_dir_spec_stack@.reverse(),
            ReadDirIter::ParWalk { .. } => Seq::empty(),
        }
    }

    /// The source is well formed: a parallel walk drains strictly, with a
    /// well-formed expectation.
    pub open spec fn wf(&self) -> bool {
        match self {
            ReadDirIter::Walk { .. } => true,
            ReadDirIter::ParWalk { read_dir_result_iter } => read_dir_result_iter@.wf()
                && read_dir_result_iter@.strict,
        }
    }

    /// The source of a serial walk that starts with the given requests, to
    /// be read in their order.
    pub fn new_serial(read_dir_specs: Vec<ReadDirSpec<C>>) -> (iter: ReadDirIter<C>)
        ensures
            iter is Walk,
            iter.unread() == read_dir_specs@,
            iter.wf(),
    {
        let stack = reversed(read_dir_specs);
        assert(stack@.reverse() =~= read_dir_specs@);
        ReadDirIter::Walk { read_dir_spec_stack: stack }
    }

    /// The next request of a serial walk, taken off the stack; `None` when
    /// none is left, and for a parallel walk.
    pub fn next_spec(&mut self) -> (spec: Option<ReadDirSpec<C>>)
        ensures
            (*final(self) is Walk) == (*old(self) is Walk),
            final(self).wf() == old(self).wf(),
            old(self).unread().len() == 0 ==> spec.is_none() && final(self).unread() == old(self).unread(),
            old(self).unread().len() > 0 ==> spec == Some(old(self).unread()[0]) && final(self).unread() == old(self).unread().drop_first(),
    {
        match self {
            ReadDirIter::Walk { read_dir_spec_stack } => {
                let ghost before = read_dir_spec_stack@;
                let spec = read_dir_spec_stack.pop();
                assert(before.len() > 0 ==> read_dir_spec_stack@.reverse()
                    =~= before.reverse().drop_first());
                assert(before.len() == 0 ==> read_dir_spec_stack@.reverse() =~= before.reverse());
                spec
            },
            ReadDirIter::ParWalk { .. } => None,
        }
    }

    /// Puts the requests below a batch that a serial walk has read in front
    /// of all others, in the order of the batch, so that the walk goes
    /// depth first. A failed read and a parallel walk schedule nothing.
    pub fn schedule_children(&mut self, read_dir_result: &Result<ReadDir<C>, Error>)
        ensures
            (*final(self) is Walk) == (*old(self) is Walk),
            final(self).wf() == old(self).wf(),
            *old(self) is ParWalk || read_dir_result is Err ==> final(self).unread() == old(self).unread(),
            *old(self) is Walk && read_dir_result is Ok ==> {
                let read_dir = read_dir_result->Ok_0;
                let count = descended(read_dir.results_list@).len() as int;
                &&& final(self).unread().len() == count + old(self).unread().len()
                &&& final(self).unread().subrange(count, final(self).unread().len() as int) == old(self).unread()
                &&& forall|i: int|
                    0 <= i < count ==> requests(
                        #[trigger] final(self).unread()[i],
                        descended(read_dir.results_list@)[i],
                        read_dir.read_dir_state,
                    )
            },
    {
        match self {
            ReadDirIter::Walk { read_dir_spec_stack } => {
                match read_dir_result {
                    Ok(read_dir) => {
                        let ghost before = read_dir_spec_stack@;
                        let specs = read_dir.read_children_specs();
                        let ghost all = specs@;
                        push_reversed(read_dir_spec_stack, specs);
                        assert((all + before.reverse()).subrange(
                            all.len() as int,
                            (all + before.reverse()).len() as int,
                        ) =~= before.reverse());
                    },
                    Err(_) => {},
                }
            },
            ReadDirIter::ParWalk { .. } => {},
        }
    }

    /// One attempt of a parallel walk to take the next result off its
    /// queue, in strict order. A serial walk has no queue: for it the
    /// stream has always ended.
    pub fn try_next_result(&mut self) -> (next: Result<Result<ReadDir<C>, Error>, TryNextError>)
        requires
            old(self).wf(),
        ensures
            final(self).wf(),
            (*final(self) is Walk) == (*old(self) is Walk),
            *old(self) is Walk ==> next == Err::<Result<ReadDir<C>, Error>, TryNextError>(
                TryNextError::Disconnected,
            ) && final(self).unread() == old(self).unread(),
            *old(self) is ParWalk ==> exists|
                seen: Observed<Result<ReadDir<C>, Error>>,
                delivered: Result<Ordered<Result<ReadDir<C>, Error>>, TryNextError>,
            | #[trigger]
                delivers(
                    (*old(self))->read_dir_result_iter,
                    seen,
                    delivered,
                    (*final(self))->read_dir_result_iter,
                    next,
                ),
    {
        match self {
            ReadDirIter::Walk { .. } => {
                assert(*old(self) is Walk);
                Err(TryNextError::Disconnected)
            },
            ReadDirIter::ParWalk { read_dir_result_iter } => {
                let ghost before = *read_dir_result_iter;
                assert(before == (*old(self))->read_dir_result_iter);
                let delivered = read_dir_result_iter.try_next_strict();
                let ghost seen = choose|seen: Observed<Result<ReadDir<C>, Error>>|
                    before.observed_strict(seen) && #[trigger] before@.strict_outcome(
                        seen,
                        delivered,
                        read_dir_result_iter@,
                    );
                let ghost after = *read_dir_result_iter;
                let next = match delivered {
                    Ok(ordered) => Ok(ordered.value),
                    Err(e) => Err(e),
                };
                assert(delivers(before, seen, delivered, after, next));
                next
            },
        }
    }
}

/// One strict attempt of the drain of results observed `seen` of its stop
/// flag and its channel and came to `delivered`, and `next` is what it
/// hands on: the result inside the envelope, or the reason why there is
/// none. The drain stays the drain of the same queue.
pub open spec fn delivers<C: ClientState>(
    before: OrderedQueueIter<Result<ReadDir<C>, Error>>,
    seen: Observed<Result<ReadDir<C>, Error>>,
    delivered: Result<Ordered<Result<ReadDir<C>, Error>>, TryNextError>,
    after: OrderedQueueIter<Result<ReadDir<C>, Error>>,
    next: Result<Result<ReadDir<C>, Error>, TryNextError>,
) -> bool {
    &&& before.observed_strict(seen)
    &&& before@.strict_outcome(seen, delivered, after@)
    &&& after.same_handles(&before)
    &&& next == match delivered {
        Ok(ordered) => Ok::<Result<ReadDir<C>, Error>, TryNextError>(ordered.value),
        Err(e) => Err::<Result<ReadDir<C>, Error>, TryNextError>(e),
    }
}

/// The request `spec` was pushed into `queue` as a root: in an envelope at
/// `[0]` that carries `position`, its place among the roots, as its count.
pub open spec fn seeded<C: ClientState>(
    queue: OrderedQueue<ReadDirSpec<C>>,
    spec: ReadDirSpec<C>,
    position: int,
) -> bool {
    exists|ordered: Ordered<ReadDirSpec<C>>, taken: bool| #[trigger]
        accepted(queue, ordered, taken) && ordered@ == (OrderedView {
            value: spec,
            index_path: seq![0usize],
            child_count: position as usize,
        })
}

/// The parts of a parallel walk belong together: the drain of requests
/// drains the queue of requests, the source of batches drains the queue of
/// results, and both queues and both drains share the stop flag of the
/// walk.
pub open spec fn wired<C: ClientState>(
    source: ReadDirIter<C>,
    requests: OrderedQueueIter<ReadDirSpec<C>>,
    run_context: RunContext<C>,
) -> bool {
    &&& source is ParWalk
    &&& connected(run_context.read_dir_spec_queue.sender(), requests.receiver())
    &&& connected(
        run_context.read_dir_result_queue.sender(),
        source->read_dir_result_iter.receiver(),
    )
    &&& run_context.read_dir_spec_queue.outstanding() == requests.outstanding()
    &&& run_context.read_dir_result_queue.outstanding()
        == source->read_dir_result_iter.outstanding()
    &&& run_context.read_dir_spec_queue.stop_flag() == run_context.stop
    &&& run_context.read_dir_result_queue.stop_flag() == run_context.stop
    &&& requests.stop_flag() == run_context.stop
    &&& source->read_dir_result_iter.stop_flag() == run_context.stop
}

/// The start of a parallel walk: the source of batches for the consumer,
/// the drain of requests for the workers, and the context that each worker
/// needs. Every given request is pushed into the queue of requests as a
/// root, at `[0]`, in the order given.
pub fn start_parallel<C: ClientState>(read_dir_specs: Vec<ReadDirSpec<C>>) -> (started: (
    ReadDirIter<C>,
    OrderedQueueIter<ReadDirSpec<C>>,
    RunContext<C>,
))
    ensures
        started.0 is ParWalk,
        started.0.wf(),
        !started.1@.strict,
        started.1@.wf(),
        started.1@.buffer.len() == 0,
        wired(started.0, started.1, started.2),
        forall|i: int|
            0 <= i < read_dir_specs@.len() ==> seeded(
                started.2.read_dir_spec_queue,
                #[trigger] read_dir_specs@[i],
                i,
            ),
{
    let stop = Arc::new(AtomicBool::new(false));
    let (read_dir_result_queue, read_dir_result_iter) = new_ordered_queue(
        share(&stop),
        QueueOrdering::Strict,
    );
    let (read_dir_spec_queue, read_dir_spec_iter) = new_ordered_queue(
        share(&stop),
        QueueOrdering::Relaxed,
    );
    // The requests are turned round, so that each can be moved out of the
    // end of the list in the order given.
    let mut specs = reversed(read_dir_specs);
    let mut position: usize = 0;
    let total: usize = specs.len();
    assert(read_dir_specs@.len() == total);
    while specs.len() > 0
        invariant
            read_dir_specs@.len() <= usize::MAX,
            specs@.len() + position == read_dir_specs@.len(),
            specs@ == read_dir_specs@.reverse().subrange(0, specs@.len() as int),
            forall|i: int|
                0 <= i < position ==> seeded(read_dir_spec_queue, #[trigger] read_dir_specs@[i], i),
        decreases specs.len(),
    {
        let ghost before = specs@;
        let spec = specs.pop().unwrap();
        assert(spec == read_dir_specs@[position as int]) by {
            assert(before[before.len() - 1] == read_dir_specs@.reverse()[before.len() - 1]);
        }
        assert(specs@ =~= read_dir_specs@.reverse().subrange(0, specs@.len() as int));
        let mut root: Vec<usize> = Vec::new();
        root.push(0);
        let seed = Ordered::new(spec, IndexPath::new(root), position);
        assert(seed.index_path@ =~= seq![0usize]);
        let pushed = read_dir_spec_queue.push(seed);
        assert(accepted(read_dir_spec_queue, seed, pushed is Ok));
        assert(seeded(read_dir_spec_queue, read_dir_specs@[position as int], position as int));
        position = position + 1;
    }
    let run_context = RunContext { stop, read_dir_spec_queue, read_dir_result_queue };
    (ReadDirIter::ParWalk { read_dir_result_iter }, read_dir_spec_iter, run_context)
}

/// The envelope for the result of the read at `index_path` and the
/// envelopes for the requests below it: the result announces as many
/// children as there are requests, and the request at position `i` is
/// placed at `index_path` extended by `i`. A failed read has no requests
/// below it.
pub fn order_read_dir_result<C: ClientState>(
    index_path: IndexPath,
    read_dir_result: Result<ReadDir<C>, Error>,
) -> (ordered: (Ordered<Result<ReadDir<C>, Error>>, Vec<Ordered<ReadDirSpec<C>>>))
    ensures
        ordered.0@ == (OrderedView {
            value: read_dir_result,
            index_path: index_path@,
            child_count: ordered.1@.len() as usize,
        }),
        read_dir_result is Err ==> ordered.1@.len() == 0,
        read_dir_result is Ok ==> {
            let read_dir = read_dir_result->Ok_0;
            &&& ordered.1@.len() == descended(read_dir.results_list@).len()
            &&& forall|i: int|
                0 <= i < ordered.1@.len() ==> {
                    &&& requests(
                        (#[trigger] ordered.1@[i]).value,
                        descended(read_dir.results_list@)[i],
                        read_dir.read_dir_state,
                    )
                    &&& ordered.1@[i].index_path@ == index_path@.push(i as usize)
                    &&& ordered.1@[i].child_count == 0
                }
        },
{
    let ordered_read_children_specs = match &read_dir_result {
        Ok(read_dir) => read_dir.ordered_read_children_specs(&index_path),
        Err(_) => Vec::new(),
    };
    let ordered_read_dir_result = Ordered::new(
        read_dir_result,
        index_path,
        ordered_read_children_specs.len(),
    );
    (ordered_read_dir_result, ordered_read_children_specs)
}

/// The steps that a worker took with the result of the read at
/// `index_path`.
///
/// It planned `envelope` and `children` as `order_read_dir_result` does. It
/// pushed `envelope` into the queue of results, which accepted it or not
/// (`sent`). If the queue accepted it, the worker pushed the requests of
/// `children` into the queue of requests, one after the other in their
/// order, until one was refused or none was left: `scheduled` holds what
/// became of each request that it pushed. The walk goes on if nothing was
/// refused, and then the worker reported the read complete; as soon as
/// something was refused, it asked the walk to stop and pushed nothing
/// more.
pub open spec fn walk_dir_steps<C: ClientState>(
    index_path: IndexPath,
    read_dir_result: Result<ReadDir<C>, Error>,
    run_context: RunContext<C>,
    envelope: Ordered<Result<ReadDir<C>, Error>>,
    children: Vec<Ordered<ReadDirSpec<C>>>,
    sent: bool,
    scheduled: Seq<bool>,
    goes_on: bool,
) -> bool {
    &&& call_ensures(
        order_read_dir_result::<C>,
        (index_path, read_dir_result),
        (envelope, children),
    )
    &&& accepted(run_context.read_dir_result_queue, envelope, sent)
    &&& scheduled.len() <= children@.len()
    &&& !sent ==> scheduled.len() == 0
    &&& forall|i: int|
        0 <= i < scheduled.len() ==> accepted(
            run_context.read_dir_spec_queue,
            children@[i],
            #[trigger] scheduled[i],
        )
    &&& forall|i: int| 0 <= i < scheduled.len() - 1 ==> #[trigger] scheduled[i]
    &&& goes_on == (sent && scheduled.len() == children@.len() && (scheduled.len() > 0
        ==> scheduled.last()))
    &&& sent && !goes_on ==> scheduled.len() > 0 && !scheduled.last()
    &&& if goes_on {
        completed(run_context.read_dir_spec_queue)
    } else {
        run_context.asked_to_stop()
    }
}

/// A worker dealt with the result of the read at `index_path` and found
/// that the walk goes on, or not.
pub open spec fn walk_dir_outcome<C: ClientState>(
    index_path: IndexPath,
    read_dir_result: Result<ReadDir<C>, Error>,
    run_context: RunContext<C>,
    goes_on: bool,
) -> bool {
    exists|
        envelope: Ordered<Result<ReadDir<C>, Error>>,
        children: Vec<Ordered<ReadDirSpec<C>>>,
        sent: bool,
        scheduled: Seq<bool>,
    | #[trigger]
        walk_dir_steps(
            index_path,
            read_dir_result,
            run_context,
            envelope,
            children,
            sent,
            scheduled,
            goes_on,
        )
}

/// What a worker does with the result of the read at `index_path`: sends
/// it to the consumer, schedules the requests below it and reports the
/// read complete. As soon as a queue refuses, the walk is asked to end and
/// nothing more is sent. Returns whether the walk goes on.
pub fn multi_threaded_walk_dir<C: ClientState>(
    index_path: IndexPath,
    read_dir_result: Result<ReadDir<C>, Error>,
    run_context: &RunContext<C>,
) -> (goes_on: bool)
    ensures
        walk_dir_outcome(index_path, read_dir_result, *run_context, goes_on),
{
    let (ordered_read_dir_result, ordered_read_children_specs) = order_read_dir_result(
        index_path,
        read_dir_result,
    );
    let ghost envelope = ordered_read_dir_result;
    let ghost children = ordered_read_children_specs;
    let ghost mut scheduled: Seq<bool> = Seq::empty();
    let sent = run_context.send_read_dir_result(ordered_read_dir_result);
    if !sent {
        run_context.stop();
        assert(walk_dir_steps(
            index_path,
            read_dir_result,
            *run_context,
            envelope,
            children,
            sent,
            scheduled,
            false,
        ));
        return false;
    }
    // The requests are turned round, so that each can be moved out of the
    // end of the list in the order of the batch.
    let mut specs = reversed(ordered_read_children_specs);
    while specs.len() > 0
        invariant
            sent,
            call_ensures(
                order_read_dir_result::<C>,
                (index_path, read_dir_result),
                (envelope, children),
            ),
            accepted(run_context.read_dir_result_queue, envelope, sent),
            specs@.len() + scheduled.len() == children@.len(),
            specs@ == children@.reverse().subrange(0, specs@.len() as int),
            forall|i: int|
                0 <= i < scheduled.len() ==> accepted(
                    run_context.read_dir_spec_queue,
                    children@[i],
                    #[trigger] scheduled[i],
                ) && scheduled[i],
        decreases specs.len(),
    {
        let ghost before = specs@;
        let each = specs.pop().unwrap();
        assert(each == children@[scheduled.len() as int]) by {
            assert(before[before.len() - 1] == children@.reverse()[before.len() - 1]);
        }
        assert(specs@ =~= children@.reverse().subrange(0, specs@.len() as int));
        let scheduled_each = run_context.schedule_read_dir_spec(each);
        proof {
            scheduled = scheduled.push(scheduled_each);
        }
        if !scheduled_each {
            run_context.stop();
            assert(walk_dir_steps(
                index_path,
                read_dir_result,
                *run_context,
                envelope,
                children,
                sent,
                scheduled,
                false,
            ));
            return false;
        }
    }
    run_context.complete_item();
    assert(walk_dir_steps(
        index_path,
        read_dir_result,
        *run_context,
        envelope,
        children,
        sent,
        scheduled,
        true,
    ));
    true
}

} // verus!
