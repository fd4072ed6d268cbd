//! A queue of envelopes, fed through a channel and drained in order.

use crate::index_path::lex_less;
use crate::ordered::{Ordered, OrderedView};
use crate::ordered_matcher::{MatcherView, OrderedMatcher};
use crate::shared::share;
use std::sync::atomic::{AtomicBool, AtomicUsize};
use std::sync::Arc;
use vstd::prelude::*;

verus! {

/// `crossbeam::channel::Sender`, the sending half of a channel.
#[verifier::external_type_specification]
#[verifier::external_body]
#[verifier::reject_recursive_types(T)]
pub struct ExSender<T>(crossbeam::channel::Sender<T>);

/// `crossbeam::channel::Receiver`, the receiving half of a channel.
#[verifier::external_type_specification]
#[verifier::external_body]
#[verifier::reject_recursive_types(T)]
pub struct ExReceiver<T>(crossbeam::channel::Receiver<T>);

/// `crossbeam::channel::SendError`, which hands back the message that could
/// not be sent.
#[verifier::external_type_specification]
#[verifier::reject_recursive_types(T)]
pub struct ExSendError<T>(crossbeam::channel::SendError<T>);

/// `crossbeam::channel::TryRecvError`: the channel is empty, or empty and
/// without senders.
#[verifier::external_type_specification]
pub struct ExTryRecvError(crossbeam::channel::TryRecvError);

/// `crossbeam::channel::unbounded`: a new channel; nothing is known of its
/// two halves beyond their types.
pub assume_specification<T>[ crossbeam::channel::unbounded::<T> ]() -> (halves: (
    crossbeam::channel::Sender<T>,
    crossbeam::channel::Receiver<T>,
));

/// `Sender::send`: on failure the error holds the message that was given.
/// On a channel without bound, the only kind that this library makes, a
/// send never waits.
pub assume_specification<T>[ crossbeam::channel::Sender::<T>::send ](
    sender: &crossbeam::channel::Sender<T>,
    msg: T,
) -> (sent: Result<(), crossbeam::channel::SendError<T>>)
    ensures
        sent is Err ==> sent->Err_0.0 == msg,
;

/// `Receiver::try_recv`: a message, or the reason why none was at hand.
/// Which of them depends on what other threads did.
pub assume_specification<T>[ crossbeam::channel::Receiver::<T>::try_recv ](
    receiver: &crossbeam::channel::Receiver<T>,
) -> (received: Result<T, crossbeam::channel::TryRecvError>);

/// `Receiver::len`: the number of messages in the channel at some moment of
/// the call.
pub assume_specification<T>[ crossbeam::channel::Receiver::<T>::len ](
    receiver: &crossbeam::channel::Receiver<T>,
) -> (len: usize);

/// `Sender::clone`: another handle to the same channel.
#[verifier::external_body]
fn clone_sender<T>(sender: &crossbeam::channel::Sender<T>) -> (copy: crossbeam::channel::Sender<T>) {
    sender.clone()
}

/// The discipline of a drain.
#[derive(Clone, Copy, Debug, PartialEq, Eq, Structural)]
pub enum QueueOrdering {
    /// Whatever is at hand, smallest index path first.
    Relaxed,
    /// Exactly the pre-order of the tree that the envelopes describe.
    Strict,
}

/// Why a drain handed out nothing.
#[derive(Clone, Copy, Debug, PartialEq, Eq, Structural)]
pub enum TryNextError {
    /// Nothing can be delivered now; more may come.
    Empty,
    /// Nothing will be delivered any more.
    Disconnected,
}

/// The envelope that could not be pushed because the drain is gone.
pub struct PushError<T>(pub Ordered<T>);

/// The producing side of an ordered queue. Any number of producers may hold
/// one; each push counts as one unit of outstanding work until a producer
/// reports a unit complete.
#[verifier::reject_recursive_types(T)]
pub struct OrderedQueue<T: Send> {
    sender: crossbeam::channel::Sender<Ordered<T>>,
    pending_count: Arc<AtomicUsize>,
    stop: Arc<AtomicBool>,
}

/// The draining side of an ordered queue: what has arrived and was not yet
/// delivered, and for a strict drain the expectation. The envelopes are
/// kept in the order of their arrival; the one that is handed out first is
/// the first that no other comes before, as `min_index` says. The buffer is
/// a `Vec` that is searched for that envelope: std's `BinaryHeap` has an
/// allocator parameter, and Verus does not take the declaration of such a
/// type.
#[verifier::reject_recursive_types(T)]
pub struct OrderedQueueIter<T: Send> {
    ordering: QueueOrdering,
    stop: Arc<AtomicBool>,
    receiver: crossbeam::channel::Receiver<Ordered<T>>,
    receive_buffer: Vec<Ordered<T>>,
    pending_count: Arc<AtomicUsize>,
    ordered_matcher: OrderedMatcher,
}

/// An `OrderedQueueIter` as a mathematical value: its discipline, the
/// envelopes it holds in the order of their arrival, and its expectation.
pub struct QueueIterView<T> {
    pub strict: bool,
    pub buffer: Seq<OrderedView<T>>,
    pub matcher: MatcherView,
}

/// The envelopes of a buffer as mathematical values.
pub open spec fn buffer_view<T>(buffer: Seq<Ordered<T>>) -> Seq<OrderedView<T>> {
    buffer.map_values(|ordered: Ordered<T>| ordered@)
}

/// The position of the envelope that a buffer hands out first: the first one
/// that no other envelope comes before.
pub open spec fn min_index<T>(buffer: Seq<OrderedView<T>>) -> int
    decreases buffer.len(),
{
    if buffer.len() <= 1 {
        0
    } else {
        let best = min_index(buffer.drop_last());
        if lex_less(buffer.last().index_path, buffer[best].index_path) {
            buffer.len() - 1
        } else {
            best
        }
    }
}

impl<T> QueueIterView<T> {
    /// The expectation is well formed.
    pub open spec fn wf(self) -> bool {
        self.matcher.wf()
    }

    /// The same drain after `arrivals` have come in, in that order.
    pub open spec fn receive(self, arrivals: Seq<OrderedView<T>>) -> QueueIterView<T> {
        QueueIterView { buffer: self.buffer + arrivals, ..self }
    }

    /// The envelope that is handed out first.
    pub open spec fn front(self) -> OrderedView<T>
        recommends
            self.buffer.len() > 0,
    {
        self.buffer[min_index(self.buffer)]
    }

    /// A strict drain can deliver: something is expected, and the envelope
    /// that is handed out first is the expected one.
    pub open spec fn strict_ready(self) -> bool {
        &&& !self.matcher.is_none()
        &&& self.buffer.len() > 0
        &&& self.front().index_path == self.matcher.looking_for
    }

    /// The drain after a relaxed delivery of its front.
    pub open spec fn after_relaxed(self) -> QueueIterView<T>
        recommends
            self.buffer.len() > 0,
    {
        QueueIterView { buffer: self.buffer.remove(min_index(self.buffer)), ..self }
    }

    /// The drain after a strict delivery of its front.
    pub open spec fn after_strict(self) -> QueueIterView<T>
        recommends
            self.strict_ready(),
    {
        QueueIterView {
            buffer: self.buffer.remove(min_index(self.buffer)),
            matcher: self.matcher.advance(self.front().child_count),
            ..self
        }
    }

    /// What one relaxed attempt comes to, given what the drain observed
    /// during it. With the stop flag set the stream has ended and nothing
    /// is taken in. Otherwise the arrivals are taken in and the front of
    /// all that is held is delivered; with nothing held, the stream has
    /// ended if no work is outstanding, and is empty for now if some is.
    pub open spec fn relaxed_result(self, seen: Observed<T>) -> (
        Result<OrderedView<T>, TryNextError>,
        QueueIterView<T>,
    ) {
        let held = self.receive(seen.arrivals);
        if seen.stopped {
            (Err(TryNextError::Disconnected), self)
        } else if held.buffer.len() > 0 {
            (Ok(held.front()), held.after_relaxed())
        } else if seen.pending == 0 {
            (Err(TryNextError::Disconnected), held)
        } else {
            (Err(TryNextError::Empty), held)
        }
    }

    /// What one strict attempt comes to, given what the drain observed
    /// during it. With the stop flag set the stream has ended and nothing
    /// is taken in. Otherwise the arrivals are taken in; if the expected
    /// envelope is then the front of what is held, it is delivered and the
    /// expectation moves on. If not, the stream has ended when nothing is
    /// expected any more or the producers are gone, and is empty for now
    /// otherwise.
    pub open spec fn strict_result(self, seen: Observed<T>) -> (
        Result<OrderedView<T>, TryNextError>,
        QueueIterView<T>,
    ) {
        let held = self.receive(seen.arrivals);
        if seen.stopped {
            (Err(TryNextError::Disconnected), self)
        } else if held.strict_ready() {
            (Ok(held.front()), held.after_strict())
        } else if held.matcher.is_none() || seen.disconnected {
            (Err(TryNextError::Disconnected), held)
        } else {
            (Err(TryNextError::Empty), held)
        }
    }

    /// One relaxed attempt that observed `seen` came to `next` and left the
    /// drain as `after`. Unless the stop flag was set, the attempt looked
    /// through the channel: it took in as many envelopes as the channel
    /// held at the start, or found the channel empty or its producers
    /// gone.
    pub open spec fn relaxed_outcome(
        self,
        seen: Observed<T>,
        next: Result<Ordered<T>, TryNextError>,
        after: QueueIterView<T>,
    ) -> bool {
        &&& (delivery_view(next), after) == self.relaxed_result(seen)
        &&& !seen.stopped ==> seen.looked_through()
    }

    /// One strict attempt that observed `seen` came to `next` and left the
    /// drain as `after`. The attempt says that the stream is empty for now
    /// only where it found the channel empty, or where it took in more
    /// envelopes than the channel held at the start.
    pub open spec fn strict_outcome(
        self,
        seen: Observed<T>,
        next: Result<Ordered<T>, TryNextError>,
        after: QueueIterView<T>,
    ) -> bool {
        &&& (delivery_view(next), after) == self.strict_result(seen)
        &&& next == Err::<Ordered<T>, TryNextError>(TryNextError::Empty) ==> seen.found_empty
            || seen.arrivals.len() > seen.queued
    }
}

/// What a drain observes of the world outside during one attempt: whether
/// the stop flag was set; how many envelopes the channel said it held at
/// the start; the envelopes that arrived, in their order; whether an
/// attempt to receive found the channel empty, or its producers gone; and
/// the count of outstanding work, as far as it was looked at.
pub struct Observed<T> {
    pub stopped: bool,
    pub queued: usize,
    pub arrivals: Seq<OrderedView<T>>,
    pub found_empty: bool,
    pub disconnected: bool,
    pub pending: usize,
}

impl<T> Observed<T> {
    /// The attempt looked through the channel: it took in as many envelopes
    /// as the channel held at the start, or it found the channel empty or
    /// its producers gone.
    pub open spec fn looked_through(self) -> bool {
        self.arrivals.len() == self.queued || self.found_empty || self.disconnected
    }
}

/// What an attempt came to, with the envelope as a mathematical value.
pub open spec fn delivery_view<T>(next: Result<Ordered<T>, TryNextError>) -> Result<
    OrderedView<T>,
    TryNextError,
> {
    match next {
        Ok(ordered) => Ok(ordered@),
        Err(reason) => Err(reason),
    }
}

/// The front of a buffer is an envelope of the buffer, and no envelope of the
/// buffer comes before it.
pub proof fn lemma_min_index_is_least<T>(buffer: Seq<OrderedView<T>>)
    requires
        buffer.len() > 0,
    ensures
        0 <= min_index(buffer) < buffer.len(),
        forall|j: int|
            0 <= j < buffer.len() ==> !lex_less(
                #[trigger] buffer[j].index_path,
                buffer[min_index(buffer)].index_path,
            ),
    decreases buffer.len(),
{
    if buffer.len() <= 1 {
        crate::index_path::lemma_lex_less_irreflexive(buffer[0].index_path);
    } else {
        let rest = buffer.drop_last();
        lemma_min_index_is_least(rest);
        let best = min_index(rest);
        assert(rest[best] == buffer[best]);
        let last = buffer.last().index_path;
        assert forall|j: int| 0 <= j < buffer.len() implies !lex_less(
            #[trigger] buffer[j].index_path,
            buffer[min_index(buffer)].index_path,
        ) by {
            if j < buffer.len() - 1 {
                assert(rest[j] == buffer[j]);
                if lex_less(last, buffer[best].index_path) {
                    if lex_less(buffer[j].index_path, last) {
                        crate::index_path::lemma_lex_less_transitive(
                            buffer[j].index_path,
                            last,
                            buffer[best].index_path,
                        );
                    }
                }
            } else {
                if lex_less(last, buffer[best].index_path) {
                    crate::index_path::lemma_lex_less_irreflexive(last);
                }
            }
        }
    }
}

impl<T: Send> View for OrderedQueueIter<T> {
    type V = QueueIterView<T>;

    closed spec fn view(&self) -> QueueIterView<T> {
        QueueIterView {
            strict: self.ordering is Strict,
            buffer: buffer_view(self.receive_buffer@),
            matcher: self.ordered_matcher@,
        }
    }
}

/// A new queue with the given stop flag and discipline: its producing and
/// its draining side. The drain holds nothing and, if strict, expects the
/// root.
pub fn new_ordered_queue<T: Send>(stop: Arc<AtomicBool>, ordering: QueueOrdering) -> (sides: (
    OrderedQueue<T>,
    OrderedQueueIter<T>,
))
    ensures
        sides.1@.strict == (ordering is Strict),
        sides.1@.buffer == Seq::<OrderedView<T>>::empty(),
        sides.1@.matcher == MatcherView::initial(),
        sides.1@.wf(),
        sides.0.stop_flag() == stop,
        sides.1.stop_flag() == stop,
        sides.0.outstanding() == sides.1.outstanding(),
        connected(sides.0.sender(), sides.1.receiver()),
{
    let pending_count = Arc::new(AtomicUsize::new(0));
    let (sender, receiver) = crossbeam::channel::unbounded();
    let queue = OrderedQueue {
        sender,
        pending_count: share(&pending_count),
        stop: share(&stop),
    };
    let iter = OrderedQueueIter {
        ordering,
        receiver,
        ordered_matcher: OrderedMatcher::new(),
        receive_buffer: Vec::new(),
        pending_count,
        stop,
    };
    assert(iter@.buffer =~= Seq::<OrderedView<T>>::empty());
    (queue, iter)
}

/// What a push comes to, given what sending the envelope came to: success
/// where the channel took it, else the error with the envelope that the
/// channel handed back.
pub open spec fn push_result<T>(sent: Result<(), crossbeam::channel::SendError<Ordered<T>>>) -> Result<
    (),
    PushError<T>,
> {
    match sent {
        Ok(_) => Ok(()),
        Err(refused) => Err(PushError(refused.0)),
    }
}

/// `accepted` is whether a push of `ordered` into `queue` succeeded.
pub open spec fn accepted<T: Send>(queue: OrderedQueue<T>, ordered: Ordered<T>, accepted: bool) -> bool {
    exists|pushed: Result<(), PushError<T>>| #[trigger]
        call_ensures(OrderedQueue::<T>::push, (&queue, ordered), pushed) && accepted == (pushed
            is Ok)
}

/// One unit of the outstanding work of `queue` was reported complete.
pub open spec fn completed<T: Send>(queue: OrderedQueue<T>) -> bool {
    call_ensures(OrderedQueue::<T>::complete_item, (&queue,), ())
}

/// `sender` and `receiver` are the two halves of one channel without
/// bound: what one call of `crossbeam::channel::unbounded` gave.
pub open spec fn connected<T>(
    sender: crossbeam::channel::Sender<T>,
    receiver: crossbeam::channel::Receiver<T>,
) -> bool {
    call_ensures(crossbeam::channel::unbounded::<T>, (), (sender, receiver))
}

impl<T: Send> OrderedQueue<T> {
    /// The sending half of the channel that feeds the drain.
    pub closed spec fn sender(&self) -> crossbeam::channel::Sender<Ordered<T>> {
        self.sender
    }

    /// The count of outstanding work that the queue shares with its drain.
    pub closed spec fn outstanding(&self) -> Arc<AtomicUsize> {
        self.pending_count
    }

    /// The stop flag that the queue shares with its drain.
    pub closed spec fn stop_flag(&self) -> Arc<AtomicBool> {
        self.stop
    }

    /// `other` feeds the channel that this queue feeds: its sending half
    /// is a clone of this one.
    pub closed spec fn same_channel(&self, other: OrderedQueue<T>) -> bool {
        call_ensures(clone_sender::<Ordered<T>>, (&self.sender,), other.sender)
    }

    /// `stopped` is what a look at the stop flag gave, as the flag stood at
    /// some moment.
    pub open spec fn flagged(&self, stopped: bool) -> bool {
        call_ensures(
            AtomicBool::load,
            (&*self.stop_flag(), core::sync::atomic::Ordering::SeqCst),
            stopped,
        )
    }

    /// A push of `ordered` looked at the stop flag, which gave `stopped`.
    /// With the flag set it sent nothing and counted nothing, and came to
    /// the error that hands `ordered` back. Otherwise it raised the count
    /// of outstanding work by one, where the count stood at `counted`;
    /// sent `ordered`, and nothing else, into the channel, which came to
    /// `sent`; and came to `push_result(sent)`.
    pub open spec fn pushes(
        &self,
        ordered: Ordered<T>,
        stopped: bool,
        counted: usize,
        sent: Result<(), crossbeam::channel::SendError<Ordered<T>>>,
        pushed: Result<(), PushError<T>>,
    ) -> bool {
        &&& self.flagged(stopped)
        &&& if stopped {
            pushed == Err::<(), PushError<T>>(PushError(ordered))
        } else {
            &&& call_ensures(
                AtomicUsize::fetch_add,
                (&*self.outstanding(), 1usize, core::sync::atomic::Ordering::SeqCst),
                counted,
            )
            &&& call_ensures(
                crossbeam::channel::Sender::<Ordered<T>>::send,
                (&self.sender(), ordered),
                sent,
            )
            &&& pushed == push_result(sent)
        }
    }

    /// The count of outstanding work was lowered by one, where it stood at
    /// `counted`.
    pub open spec fn completes(&self, counted: usize) -> bool {
        call_ensures(
            AtomicUsize::fetch_sub,
            (&*self.outstanding(), 1usize, core::sync::atomic::Ordering::SeqCst),
            counted,
        )
    }

    /// The stop flag was set.
    pub open spec fn stops(&self) -> bool {
        call_ensures(
            AtomicBool::store,
            (&*self.stop_flag(), true, core::sync::atomic::Ordering::SeqCst),
            (),
        )
    }

    /// Sends `ordered` to the drain and counts one more unit of outstanding
    /// work, unless the walk was asked to stop: a push after stop sends
    /// nothing and hands the envelope back in the error. So does a push
    /// whose drain is gone.
    pub fn push(&self, ordered: Ordered<T>) -> (pushed: Result<(), PushError<T>>)
        ensures
            pushed is Err ==> pushed->Err_0.0 == ordered,
            exists|
                stopped: bool,
                counted: usize,
                sent: Result<(), crossbeam::channel::SendError<Ordered<T>>>,
            | #[trigger]
                self.pushes(ordered, stopped, counted, sent, pushed),
    {
        let stopped = self.stop.load(core::sync::atomic::Ordering::SeqCst);
        if stopped {
            let pushed = Err(PushError(ordered));
            assert(self.pushes(
                ordered,
                stopped,
                0,
                Ok::<(), crossbeam::channel::SendError<Ordered<T>>>(()),
                pushed,
            ));
            return pushed;
        }
        let counted = self.pending_count.fetch_add(1, core::sync::atomic::Ordering::SeqCst);
        let sent = self.sender.send(ordered);
        let pushed = match sent {
            Ok(()) => Ok(()),
            Err(err) => Err(PushError(err.0)),
        };
        assert(self.pushes(ordered, stopped, counted, sent, pushed));
        pushed
    }

    /// Reports one unit of outstanding work complete.
    pub fn complete_item(&self)
        ensures
            exists|counted: usize| #[trigger] self.completes(counted),
    {
        let counted = self.pending_count.fetch_sub(1, core::sync::atomic::Ordering::SeqCst);
        assert(self.completes(counted));
    }

    /// Asks every drain and producer that shares the stop flag to end.
    pub fn stop(&self)
        ensures
            self.stops(),
    {
        self.stop.store(true, core::sync::atomic::Ordering::SeqCst);
    }
}

impl<T: Send> Clone for OrderedQueue<T> {
    /// Another producer for the same queue: it feeds the same channel and
    /// shares the count of outstanding work and the stop flag.
    fn clone(&self) -> (copy: OrderedQueue<T>)
        ensures
            self.same_channel(copy),
            copy.outstanding() == self.outstanding(),
            copy.stop_flag() == self.stop_flag(),
    {
        OrderedQueue {
            sender: clone_sender(&self.sender),
            pending_count: share(&self.pending_count),
            stop: share(&self.stop),
        }
    }
}

impl<T: Send> OrderedQueueIter<T> {
    /// The stop flag that the drain shares with its producers.
    pub closed spec fn stop_flag(&self) -> Arc<AtomicBool> {
        self.stop
    }

    /// The count of outstanding work that the drain shares with its
    /// producers.
    pub closed spec fn outstanding(&self) -> Arc<AtomicUsize> {
        self.pending_count
    }

    /// The receiving half of the channel that feeds the drain.
    pub closed spec fn receiver(&self) -> crossbeam::channel::Receiver<Ordered<T>> {
        self.receiver
    }

    /// `other` is a drain of the same queue: it shares the stop flag, the
    /// count of outstanding work and the channel.
    pub open spec fn same_handles(&self, other: &OrderedQueueIter<T>) -> bool {
        &&& self.stop_flag() == other.stop_flag()
        &&& self.outstanding() == other.outstanding()
        &&& self.receiver() == other.receiver()
    }

    /// `pending` is what a look at the count of outstanding work gave, as
    /// the count stood at some moment.
    pub open spec fn counted(&self, pending: usize) -> bool {
        call_ensures(
            AtomicUsize::load,
            (&*self.outstanding(), core::sync::atomic::Ordering::SeqCst),
            pending,
        )
    }

    /// `stopped` is what a look at the stop flag gave, as the flag stood at
    /// some moment.
    pub open spec fn flagged(&self, stopped: bool) -> bool {
        call_ensures(
            AtomicBool::load,
            (&*self.stop_flag(), core::sync::atomic::Ordering::SeqCst),
            stopped,
        )
    }

    /// `arrival` came out of the channel of the drain: an attempt to
    /// receive gave an envelope with these contents.
    pub open spec fn received(&self, arrival: OrderedView<T>) -> bool {
        exists|ordered: Ordered<T>| #[trigger]
            call_ensures(
                crossbeam::channel::Receiver::<Ordered<T>>::try_recv,
                (&self.receiver(),),
                Ok::<Ordered<T>, crossbeam::channel::TryRecvError>(ordered),
            ) && ordered@ == arrival
    }

    /// An attempt to receive found the channel empty and its producers
    /// gone.
    pub open spec fn found_disconnected(&self) -> bool {
        call_ensures(
            crossbeam::channel::Receiver::<Ordered<T>>::try_recv,
            (&self.receiver(),),
            Err::<Ordered<T>, crossbeam::channel::TryRecvError>(
                crossbeam::channel::TryRecvError::Disconnected,
            ),
        )
    }

    /// An attempt to receive found the channel empty, with producers still
    /// there.
    pub open spec fn found_empty(&self) -> bool {
        call_ensures(
            crossbeam::channel::Receiver::<Ordered<T>>::try_recv,
            (&self.receiver(),),
            Err::<Ordered<T>, crossbeam::channel::TryRecvError>(
                crossbeam::channel::TryRecvError::Empty,
            ),
        )
    }

    /// `queued` is what the channel said of the number of envelopes it
    /// held, at some moment.
    pub open spec fn measured(&self, queued: usize) -> bool {
        call_ensures(
            crossbeam::channel::Receiver::<Ordered<T>>::len,
            (&self.receiver(),),
            queued,
        )
    }

    /// `seen` is what one attempt of this drain observed of its channel:
    /// the channel said that it held `seen.queued` envelopes; every arrival
    /// came out of the channel; and the channel is said to have been found
    /// empty, or its producers gone, only where an attempt to receive found
    /// it so.
    pub open spec fn observed_channel(&self, seen: Observed<T>) -> bool {
        &&& self.measured(seen.queued)
        &&& forall|i: int|
            0 <= i < seen.arrivals.len() ==> self.received(#[trigger] seen.arrivals[i])
        &&& seen.found_empty ==> self.found_empty()
        &&& seen.disconnected ==> self.found_disconnected()
    }

    /// `seen` is what one relaxed attempt of this drain observed: the
    /// stop flag gave `seen.stopped`; with the flag set nothing arrived;
    /// otherwise `seen` is what the attempt observed of the channel; and
    /// where nothing was held after the arrivals, the count of outstanding
    /// work gave `seen.pending`.
    pub open spec fn observed_relaxed(&self, seen: Observed<T>) -> bool {
        &&& self.flagged(seen.stopped)
        &&& seen.stopped ==> seen.arrivals.len() == 0
        &&& !seen.stopped ==> self.observed_channel(seen)
        &&& !seen.stopped && self@.receive(seen.arrivals).buffer.len() == 0 ==> self.counted(
            seen.pending,
        )
    }

    /// `seen` is what one strict attempt of this drain observed: the stop
    /// flag gave `seen.stopped`; with the flag set nothing arrived;
    /// otherwise `seen` is what the attempt observed of the channel.
    pub open spec fn observed_strict(&self, seen: Observed<T>) -> bool {
        &&& self.flagged(seen.stopped)
        &&& seen.stopped ==> seen.arrivals.len() == 0
        &&& !seen.stopped ==> self.observed_channel(seen)
    }

    /// The number of units of work that producers have announced and not yet
    /// reported complete, at some moment of the call.
    fn pending_count(&self) -> (pending: usize)
        ensures
            self.counted(pending),
    {
        self.pending_count.load(core::sync::atomic::Ordering::SeqCst)
    }

    /// Whether the stop flag was set at some moment of the call.
    fn is_stop(&self) -> (stopped: bool)
        ensures
            self.flagged(stopped),
    {
        self.stop.load(core::sync::atomic::Ordering::SeqCst)
    }

    /// Whether the drain is strict.
    pub fn is_strict(&self) -> (strict: bool)
        ensures
            strict == self@.strict,
    {
        match self.ordering {
            QueueOrdering::Strict => true,
            QueueOrdering::Relaxed => false,
        }
    }

    /// The number of envelopes held.
    pub fn buffered(&self) -> (held: usize)
        ensures
            held == self@.buffer.len(),
    {
        self.receive_buffer.len()
    }

    /// Puts an envelope that has arrived among those held.
    pub fn offer(&mut self, ordered: Ordered<T>)
        ensures
            final(self)@ == old(self)@.receive(seq![ordered@]),
            final(self).same_handles(old(self)),
    {
        self.receive_buffer.push(ordered);
        assert(self@.buffer =~= old(self)@.buffer + seq![ordered@]);
    }

    /// The position of the front among the envelopes held.
    fn front_index(&self) -> (index: usize)
        requires
            self@.buffer.len() > 0,
        ensures
            index == min_index(self@.buffer),
            index < self@.buffer.len(),
    {
        let mut best: usize = 0;
        let mut i: usize = 1;
        assert(self@.buffer.subrange(0, 1).len() == 1);
        while i < self.receive_buffer.len()
            invariant
                1 <= i <= self.receive_buffer.len(),
                best < i,
                best == min_index(self@.buffer.subrange(0, i as int)),
            decreases self.receive_buffer.len() - i,
        {
            assert(self@.buffer.subrange(0, i + 1).drop_last() =~= self@.buffer.subrange(
                0,
                i as int,
            ));
            if self.receive_buffer[i].index_path.precedes(&self.receive_buffer[best].index_path) {
                best = i;
            }
            i = i + 1;
        }
        assert(self@.buffer.subrange(0, i as int) =~= self@.buffer);
        best
    }

    /// Hands out the front of what is held, without regard to any
    /// expectation; `None` when nothing is held.
    pub fn take_relaxed(&mut self) -> (next: Option<Ordered<T>>)
        ensures
            old(self)@.buffer.len() == 0 ==> next.is_none() && final(self)@ == old(self)@,
            old(self)@.buffer.len() > 0 ==> next.is_some() && next.unwrap()@ == old(self)@.front()
                && final(self)@ == old(self)@.after_relaxed(),
            final(self).same_handles(old(self)),
    {
        if self.receive_buffer.len() == 0 {
            return None;
        }
        let index = self.front_index();
        let item = self.receive_buffer.remove(index);
        assert(self@.buffer =~= old(self)@.buffer.remove(index as int));
        Some(item)
    }

    /// Hands out the front of what is held if it is the expected envelope,
    /// and moves the expectation on; otherwise changes nothing.
    pub fn take_strict(&mut self) -> (next: Option<Ordered<T>>)
        requires
            old(self)@.wf(),
        ensures
            final(self)@.wf(),
            !old(self)@.strict_ready() ==> next.is_none() && final(self)@ == old(self)@,
            old(self)@.strict_ready() ==> next.is_some() && next.unwrap()@ == old(self)@.front()
                && final(self)@ == old(self)@.after_strict(),
            final(self).same_handles(old(self)),
    {
        if self.ordered_matcher.is_none() || self.receive_buffer.len() == 0 {
            return None;
        }
        let index = self.front_index();
        if !(self.receive_buffer[index].index_path == *self.ordered_matcher.looking_for()) {
            return None;
        }
        let item = self.receive_buffer.remove(index);
        assert(self@.buffer =~= old(self)@.buffer.remove(index as int));
        self.ordered_matcher.advance_past(&item);
        Some(item)
    }

    /// Moves the messages that the channel holds at the start of the call
    /// among the envelopes held: as many as the channel says it holds, or
    /// fewer where an attempt to receive fails before.
    fn receive_pending(&mut self) -> (seen: Ghost<Observed<T>>)
        ensures
            final(self)@ == old(self)@.receive(seen@.arrivals),
            final(self).same_handles(old(self)),
            old(self).observed_channel(seen@),
            seen@.looked_through(),
            !seen@.stopped,
    {
        let ghost mut arrivals: Seq<OrderedView<T>> = Seq::empty();
        let ghost mut found_empty = false;
        let ghost mut disconnected = false;
        let queued: usize = self.receiver.len();
        let mut taken: usize = 0;
        let mut failed = false;
        assert(old(self)@.buffer + arrivals =~= old(self)@.buffer);
        while taken < queued && !failed
            invariant
                self@ == old(self)@.receive(arrivals),
                self.same_handles(old(self)),
                old(self).measured(queued),
                arrivals.len() == taken,
                taken <= queued,
                forall|i: int| 0 <= i < arrivals.len() ==> old(self).received(#[trigger] arrivals[i]),
                found_empty ==> old(self).found_empty(),
                disconnected ==> old(self).found_disconnected(),
                failed == (found_empty || disconnected),
            decreases queued - taken + (if failed { 0int } else { 1int }),
        {
            let received = self.receiver.try_recv();
            match received {
                Ok(ordered) => {
                    let ghost held = self@;
                    assert(old(self).received(ordered@));
                    self.offer(ordered);
                    proof {
                        assert(held.buffer + seq![ordered@] =~= old(self)@.buffer + arrivals.push(
                            ordered@,
                        ));
                        arrivals = arrivals.push(ordered@);
                    }
                    taken = taken + 1;
                },
                Err(crossbeam::channel::TryRecvError::Empty) => {
                    proof {
                        found_empty = true;
                    }
                    failed = true;
                },
                Err(crossbeam::channel::TryRecvError::Disconnected) => {
                    proof {
                        disconnected = true;
                    }
                    failed = true;
                },
            }
        }
        Ghost(
            Observed {
                stopped: false,
                queued,
                arrivals,
                found_empty,
                disconnected,
                pending: 0,
            },
        )
    }

    /// One relaxed attempt: ends the stream when the stop flag is set;
    /// otherwise takes in what the channel holds and hands out the front of
    /// all that is held. With nothing held, the stream has ended if no work
    /// is outstanding, and is empty for now if some is.
    pub fn try_next_relaxed(&mut self) -> (next: Result<Ordered<T>, TryNextError>)
        ensures
            final(self).same_handles(old(self)),
            exists|seen: Observed<T>|
                old(self).observed_relaxed(seen) && #[trigger] old(self)@.relaxed_outcome(
                    seen,
                    next,
                    final(self)@,
                ),
    {
        let stopped = self.is_stop();
        if stopped {
            let ghost seen = Observed::<T> {
                stopped: true,
                queued: 0,
                arrivals: Seq::empty(),
                found_empty: false,
                disconnected: false,
                pending: 0,
            };
            assert(old(self)@.relaxed_outcome(seen, Err(TryNextError::Disconnected), self@));
            assert(old(self).observed_relaxed(seen));
            return Err(TryNextError::Disconnected);
        }
        let looked = self.receive_pending();
        let ghost held = self@;
        match self.take_relaxed() {
            Some(ordered) => {
                assert(old(self)@.relaxed_outcome(looked@, Ok(ordered), self@));
                assert(old(self).observed_relaxed(looked@));
                Ok(ordered)
            },
            None => {
                let pending = self.pending_count();
                let ghost seen = Observed::<T> { pending, ..looked@ };
                let next = if pending == 0 {
                    Err(TryNextError::Disconnected)
                } else {
                    Err(TryNextError::Empty)
                };
                assert(old(self)@.relaxed_outcome(seen, next, self@));
                assert(old(self).observed_relaxed(seen));
                next
            },
        }
    }

    /// One strict attempt: ends the stream when the stop flag is set;
    /// otherwise delivers the expected envelope as soon as it is the front
    /// of what is held, taking in messages from the channel until then. It
    /// takes in no more messages than the channel held at the start of the
    /// call and one, so that it returns. The stream has ended when nothing
    /// is expected any more or the producers are gone; it is empty for now
    /// when the channel was found empty, or when one message more than the
    /// channel held at the start did not bring the expected envelope.
    pub fn try_next_strict(&mut self) -> (next: Result<Ordered<T>, TryNextError>)
        requires
            old(self)@.wf(),
        ensures
            final(self)@.wf(),
            final(self).same_handles(old(self)),
            exists|seen: Observed<T>|
                old(self).observed_strict(seen) && #[trigger] old(self)@.strict_outcome(
                    seen,
                    next,
                    final(self)@,
                ),
    {
        let ghost mut arrivals: Seq<OrderedView<T>> = Seq::empty();
        assert(old(self)@.buffer + arrivals =~= old(self)@.buffer);
        let stopped = self.is_stop();
        if stopped {
            let ghost seen = Observed::<T> {
                stopped: true,
                queued: 0,
                arrivals,
                found_empty: false,
                disconnected: false,
                pending: 0,
            };
            assert(old(self)@.strict_outcome(seen, Err(TryNextError::Disconnected), self@));
            assert(old(self).observed_strict(seen));
            return Err(TryNextError::Disconnected);
        }
        let queued: usize = self.receiver.len();
        let mut taken: usize = 0;
        loop
            invariant
                self@ == old(self)@.receive(arrivals),
                self@.wf(),
                self.same_handles(old(self)),
                old(self).flagged(false),
                old(self).measured(queued),
                arrivals.len() == taken,
                taken <= queued,
                forall|i: int| 0 <= i < arrivals.len() ==> old(self).received(#[trigger] arrivals[i]),
            decreases queued - taken,
        {
            let ghost held = self@;
            let ghost open = Observed::<T> {
                stopped: false,
                queued,
                arrivals,
                found_empty: false,
                disconnected: false,
                pending: 0,
            };
            match self.take_strict() {
                Some(ordered) => {
                    assert(old(self)@.strict_outcome(open, Ok(ordered), self@));
                    assert(old(self).observed_strict(open));
                    return Ok(ordered);
                },
                None => {},
            }
            if self.ordered_matcher.is_none() {
                assert(old(self)@.strict_outcome(open, Err(TryNextError::Disconnected), self@));
                assert(old(self).observed_strict(open));
                return Err(TryNextError::Disconnected);
            }
            let received = self.receiver.try_recv();
            match received {
                Ok(ordered) => {
                    assert(old(self).received(ordered@));
                    self.offer(ordered);
                    proof {
                        assert(held.buffer + seq![ordered@] =~= old(self)@.buffer + arrivals.push(
                            ordered@,
                        ));
                        arrivals = arrivals.push(ordered@);
                    }
                    if taken == queued {
                        // One message more than the channel held at the
                        // start: deliver if it brought the expected
                        // envelope, else give way.
                        let ghost beyond = Observed::<T> { arrivals, ..open };
                        match self.take_strict() {
                            Some(ordered) => {
                                assert(old(self)@.strict_outcome(beyond, Ok(ordered), self@));
                                assert(old(self).observed_strict(beyond));
                                return Ok(ordered);
                            },
                            None => {
                                assert(old(self)@.strict_outcome(
                                    beyond,
                                    Err(TryNextError::Empty),
                                    self@,
                                ));
                                assert(old(self).observed_strict(beyond));
                                return Err(TryNextError::Empty);
                            },
                        }
                    }
                    taken = taken + 1;
                },
                Err(crossbeam::channel::TryRecvError::Empty) => {
                    let ghost empty = Observed::<T> { found_empty: true, ..open };
                    assert(old(self).found_empty());
                    assert(old(self)@.strict_outcome(empty, Err(TryNextError::Empty), self@));
                    assert(old(self).observed_strict(empty));
                    return Err(TryNextError::Empty);
                },
                Err(crossbeam::channel::TryRecvError::Disconnected) => {
                    let ghost gone = Observed::<T> { disconnected: true, ..open };
                    assert(old(self).found_disconnected());
                    assert(old(self)@.strict_outcome(gone, Err(TryNextError::Disconnected), self@));
                    assert(old(self).observed_strict(gone));
                    return Err(TryNextError::Disconnected);
                },
            }
        }
    }

    /// One attempt in the discipline of the drain.
    pub fn try_next(&mut self) -> (next: Result<Ordered<T>, TryNextError>)
        requires
            old(self)@.wf(),
        ensures
            final(self)@.wf(),
            final(self).same_handles(old(self)),
            old(self)@.strict ==> exists|seen: Observed<T>|
                old(self).observed_strict(seen) && #[trigger] old(self)@.strict_outcome(
                    seen,
                    next,
                    final(self)@,
                ),
            !old(self)@.strict ==> exists|seen: Observed<T>|
                old(self).observed_relaxed(seen) && #[trigger] old(self)@.relaxed_outcome(
                    seen,
                    next,
                    final(self)@,
                ),
    {
        match self.ordering {
            QueueOrdering::Relaxed => {
                let next = self.try_next_relaxed();
                proof {
                    let seen = choose|seen: Observed<T>|
                        old(self).observed_relaxed(seen) && #[trigger] old(self)@.relaxed_outcome(
                            seen,
                            next,
                            self@,
                        );
                    assert(self@.matcher == old(self)@.matcher);
                }
                next
            },
            QueueOrdering::Strict => self.try_next_strict(),
        }
    }
}

} // verus!
